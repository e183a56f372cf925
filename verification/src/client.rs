//! Requests, and what a reply means.
//!
//! A command travels as the object `{ id, method, params, sessionId }`. Its
//! reply is the first message with the same id; everything else that arrives
//! in the meantime is an event or belongs to another request.

use crate::cbor::consts::{INDEF_MAP_START, STOP_BYTE};
use crate::cbor::de;
use crate::cbor::laws;
use crate::cbor::read;
use crate::cbor::ser::Serializer;
use crate::cbor::value;
use crate::cbor::value::{Tree, Value};
use crate::cbor::wire;
use crate::json;
use crate::text;
use vstd::prelude::*;

verus! {

/// The error of `std::io`, which is only carried.
#[verifier::external_type_specification]
#[verifier::external_body]
pub struct ExIoError(std::io::Error);

/// Why a command failed.
#[derive(Debug)]
pub enum Error {
    Io(std::io::Error),
    Encode(String),
    Decode(String),
    /// An error `{ code, message }` that the browser returned.
    Protocol { code: i64, message: String },
}

impl vstd::std_specs::convert::FromSpecImpl<std::io::Error> for Error {
    open spec fn obeys_from_spec() -> bool {
        true
    }

    open spec fn from_spec(e: std::io::Error) -> Error {
        Error::Io(e)
    }
}

impl From<std::io::Error> for Error {
    fn from(e: std::io::Error) -> (r: Error) {
        Error::Io(e)
    }
}

/// `std::io::Error` as text. What the text is depends on the machine, so
/// nothing is said of it.
#[verifier::external_body]
fn io_text(e: &std::io::Error) -> (s: String) {
    e.to_string()
}

/// The line for an I/O error whose own text is `text`.
pub fn io_line(text: &str) -> (s: String)
    ensures
        s@ == "io: "@ + text@,
{
    "io: ".to_string().concat(text)
}

impl Error {
    /// The error as a line of text. That of an I/O error goes on with what the
    /// machine says about it.
    pub fn describe(&self) -> (s: String)
        ensures
            match *self {
                Error::Io(_) => "io: "@.is_prefix_of(s@),
                Error::Encode(e) => s@ == "encode: "@ + e@,
                Error::Decode(e) => s@ == "decode: "@ + e@,
                Error::Protocol { code, message } => s@ == "cdp error "@ + text::decimal(
                    code as int,
                ) + ": "@ + message@,
            },
    {
        match self {
            Error::Io(e) => {
                let own: String = io_text(e);
                let line: String = io_line(own.as_str());
                assert(line@.subrange(0, "io: "@.len() as int) == "io: "@);
                line
            },
            Error::Encode(e) => "encode: ".to_string().concat(e.as_str()),
            Error::Decode(e) => "decode: ".to_string().concat(e.as_str()),
            Error::Protocol { code, message } => {
                let mut line = "cdp error ".to_string();
                text::push_decimal(&mut line, *code);
                line.append(": ");
                line.append(message.as_str());
                line
            },
        }
    }
}

/// A request as it goes over the wire. The parameters are already encoded.
pub struct Request<'a> {
    pub id: u64,
    pub method: &'a str,
    pub params: &'a [u8],
    pub session_id: Option<&'a str>,
}

/// The last field of a request, which only a request on a session has.
pub open spec fn session_field(session_id: Option<Seq<char>>) -> Seq<u8> {
    match session_id {
        Some(s) => wire::encoded_text("sessionId"@) + wire::encoded_text(s),
        None => seq![],
    }
}

/// The bytes of a request: an object with its fields in this order.
pub open spec fn request_bytes(
    id: u64,
    method: Seq<char>,
    params: Seq<u8>,
    session_id: Option<Seq<char>>,
) -> Seq<u8> {
    wire::envelope(
        seq![INDEF_MAP_START] + wire::encoded_text("id"@) + wire::encoded_unsigned(id)
            + wire::encoded_text("method"@) + wire::encoded_text(method) + wire::encoded_text(
            "params"@,
        ) + params + session_field(session_id) + seq![STOP_BYTE],
    )
}

/// What an optional text stands for.
pub open spec fn optional(s: Option<&str>) -> Option<Seq<char>> {
    match s {
        Some(s) => Some(s@),
        None => None,
    }
}

impl<'a> Request<'a> {
    /// Encodes the request as one message.
    pub fn encode(&self) -> (bytes: Vec<u8>)
        ensures
            bytes@ == request_bytes(
                self.id,
                self.method@,
                self.params@,
                optional(self.session_id),
            ),
    {
        let mut s = Serializer { out: Vec::new() };
        let mut fields = s.begin_object();
        fields.write_text("id");
        fields.write_unsigned(self.id);
        fields.write_text("method");
        fields.write_text(self.method);
        fields.write_text("params");
        fields.write_encoded(self.params);
        let ghost required = fields.payload();
        if let Some(session_id) = self.session_id {
            fields.write_text("sessionId");
            fields.write_text(session_id);
        }
        assert(fields.payload() == required + session_field(optional(self.session_id)));
        let _ = fields.finish();
        s.out
    }
}

/// What a message means to whoever waits for the reply to a request.
pub enum Outcome {
    /// An event, or the reply to another request.
    Other,
    /// The browser refused the request.
    Refused { code: i64, message: Seq<char> },
    /// The result of the request.
    Answer(Tree),
}

/// The error that a reply carries under "error". A code or message that is
/// missing or of another type is taken for 0 or for the empty text.
pub open spec fn refusal(err: Tree) -> Outcome {
    Outcome::Refused {
        code: match err.get("code"@) {
            Some(v) => match v.as_i64() {
                Some(code) => code,
                None => 0,
            },
            None => 0,
        },
        message: match err.get("message"@) {
            Some(v) => match v.as_str() {
                Some(message) => message,
                None => ""@,
            },
            None => ""@,
        },
    }
}

/// Whether `msg` is the reply to the request `id`.
pub open spec fn replies_to(msg: Tree, id: u64) -> bool {
    msg.get("id"@) matches Some(v) && v.as_u64() == Some(id)
}

/// What `msg` means to whoever waits for the reply to the request `id`. A
/// result that is missing is taken for the empty object.
pub open spec fn outcome(id: u64, msg: Tree) -> Outcome {
    if !replies_to(msg, id) {
        Outcome::Other
    } else {
        match msg.get("error"@) {
            Some(err) => refusal(err),
            None => match msg.get("result"@) {
                Some(result) => Outcome::Answer(result),
                None => Outcome::Answer(Tree::Object(seq![])),
            },
        }
    }
}

/// The error that `err`, found under "error", tells of.
fn refused(err: &Value) -> (e: Error)
    ensures
        e matches Error::Protocol { code, message } && refusal(err@) == (Outcome::Refused {
            code,
            message: message@,
        }),
{
    let code: i64 = match err.get("code") {
        Some(v) => match v.as_i64() {
            Some(code) => code,
            None => 0,
        },
        None => 0,
    };
    let message: String = match err.get("message") {
        Some(v) => match v.as_str() {
            Some(message) => message.to_string(),
            None => "".to_string(),
        },
        None => "".to_string(),
    };
    Error::Protocol { code, message }
}

/// Takes a message, given as the decoder's result, while waiting for the reply
/// to the request `id`. `None` says that the reply is still to come.
pub fn accept(id: u64, decoded: Result<Value, String>) -> (r: Result<Option<Value>, Error>)
    ensures
        match r {
            Ok(None) => decoded matches Ok(msg) && outcome(id, msg@) is Other,
            Ok(Some(v)) => decoded matches Ok(msg) && outcome(id, msg@) == Outcome::Answer(v@),
            Err(Error::Protocol { code, message }) => decoded matches Ok(msg) && outcome(id, msg@)
                == (Outcome::Refused { code, message: message@ }),
            Err(Error::Decode(text)) => decoded matches Err(e) && e@ == text@,
            Err(_) => false,
        },
{
    let msg: Value = match decoded {
        Ok(msg) => msg,
        Err(e) => return Err(Error::Decode(e)),
    };
    let ours: bool = match msg.get("id") {
        Some(v) => match v.as_u64() {
            Some(msg_id) => msg_id == id,
            None => false,
        },
        None => false,
    };
    if !ours {
        return Ok(None);
    }
    if let Some(err) = msg.get("error") {
        return Err(refused(err));
    }
    match msg {
        Value::Object(mut entries) => match value::position(&entries, "result") {
            Some(i) => Ok(Some(entries.swap_remove(i).1)),
            None => {
                let empty: Value = Value::Object(Vec::new());
                assert(empty@->Object_0 == Seq::<(Tree, Tree)>::empty());
                Ok(Some(empty))
            },
        },
        _ => Ok(None),
    }
}

/// Takes the message in `frame` while waiting for the reply to the request
/// `id`. A message that JSON cannot hold counts as one that cannot be decoded.
pub fn receive(id: u64, frame: &[u8]) -> (r: Result<Option<Value>, Error>)
    ensures
        match r {
            Ok(None) => json::item(frame@, 0) matches Ok((msg, _)) && outcome(id, msg) is Other,
            Ok(Some(v)) => json::item(frame@, 0) matches Ok((msg, _)) && outcome(id, msg)
                == Outcome::Answer(v@),
            Err(Error::Protocol { code, message }) => json::item(frame@, 0) matches Ok((msg, _))
                && outcome(id, msg) == (Outcome::Refused { code, message: message@ }),
            Err(Error::Decode(text)) => json::item(frame@, 0) matches Err(fault) && fault.told_by(
                text@,
            ),
            Err(_) => false,
        },
{
    accept(id, json::from_slice(frame))
}

/// Numbers the requests of one connection.
pub struct Client {
    pub next_id: u64,
}

impl Client {
    /// The first request gets the id 1.
    pub fn new() -> (c: Client)
        ensures
            c.next_id == 1,
    {
        Client { next_id: 1 }
    }

    /// Begins a command: takes the next id for it, and gives the id and the
    /// bytes to send. The parameters are given as the encoder's result; the id
    /// is spent even where they could not be encoded.
    pub fn begin(
        &mut self,
        method: &str,
        params: Result<Vec<u8>, String>,
        session_id: Option<&str>,
    ) -> (r: Result<(u64, Vec<u8>), Error>)
        requires
            old(self).next_id < u64::MAX,
        ensures
            final(self).next_id == old(self).next_id + 1,
            match r {
                Ok((id, bytes)) => {
                    &&& id == old(self).next_id
                    &&& params matches Ok(encoded)
                    &&& bytes@ == request_bytes(id, method@, encoded@, optional(session_id))
                },
                Err(e) => {
                    &&& params matches Err(message)
                    &&& e matches Error::Encode(text)
                    &&& text@ == message@
                },
            },
    {
        let id: u64 = self.next_id;
        self.next_id += 1;
        match params {
            Ok(encoded) => {
                let request = Request { id, method, params: encoded.as_slice(), session_id };
                let bytes: Vec<u8> = request.encode();
                Ok((id, bytes))
            },
            Err(message) => Err(Error::Encode(message)),
        }
    }
}

/// The fields that every request has.
pub open spec fn required_fields(id: u64, method: Seq<char>, params: Tree) -> Seq<(Tree, Tree)> {
    seq![
        (Tree::Text("id"@), unsigned(id)),
        (Tree::Text("method"@), Tree::Text(method)),
        (Tree::Text("params"@), params),
    ]
}

/// The request as a value, for parameters that stand for `params`.
pub open spec fn request_tree(
    id: u64,
    method: Seq<char>,
    params: Tree,
    session_id: Option<Seq<char>>,
) -> Tree {
    let required = required_fields(id, method, params);
    match session_id {
        Some(s) => Tree::Object(required.push((Tree::Text("sessionId"@), Tree::Text(s)))),
        None => Tree::Object(required),
    }
}

/// The value that stands for an unsigned integer.
pub open spec fn unsigned(v: u64) -> Tree {
    if v <= i64::MAX {
        Tree::Int(v as i64)
    } else {
        Tree::Double(wire::nearest_double(v) as u64)
    }
}

/// The bytes of a request are the encoding of the object with its fields.
pub proof fn law_request_is_an_object(
    id: u64,
    method: Seq<char>,
    params: Tree,
    session_id: Option<Seq<char>>,
)
    ensures
        request_bytes(id, method, wire::encoded(params), session_id) == wire::encoded(
            request_tree(id, method, params, session_id),
        ),
{
    let none = Seq::<(Tree, Tree)>::empty();
    let one = none.push((Tree::Text("id"@), unsigned(id)));
    let two = one.push((Tree::Text("method"@), Tree::Text(method)));
    let three = required_fields(id, method, params);
    assert(three == two.push((Tree::Text("params"@), params)));
    laws::law_entries_one_by_one(none, Tree::Text("id"@), unsigned(id));
    laws::law_entries_one_by_one(one, Tree::Text("method"@), Tree::Text(method));
    laws::law_entries_one_by_one(two, Tree::Text("params"@), params);
    let start = seq![INDEF_MAP_START];
    let written = start + wire::encoded_text("id"@) + wire::encoded_unsigned(id)
        + wire::encoded_text("method"@) + wire::encoded_text(method) + wire::encoded_text(
        "params"@,
    ) + wire::encoded(params);
    assert(written == start + wire::encoded_entries(three));
    if let Some(s) = session_id {
        laws::law_entries_one_by_one(three, Tree::Text("sessionId"@), Tree::Text(s));
        let four = three.push((Tree::Text("sessionId"@), Tree::Text(s)));
        assert(written + session_field(session_id) == start + wire::encoded_entries(four));
    } else {
        assert(written + session_field(session_id) == written);
    }
}

proof fn lemma_request_fits(
    id: u64,
    method: Seq<char>,
    params: Tree,
    session_id: Option<Seq<char>>,
)
    requires
        wire::fits(params),
    ensures
        wire::parts_fit(request_tree(id, method, params, session_id)),
{
    let none = Seq::<(Tree, Tree)>::empty();
    let one = none.push((Tree::Text("id"@), unsigned(id)));
    let two = one.push((Tree::Text("method"@), Tree::Text(method)));
    let three = required_fields(id, method, params);
    assert(three == two.push((Tree::Text("params"@), params)));
    assert(wire::fits(unsigned(id)));
    laws::lemma_entries_fit_one_more(none, Tree::Text("id"@), unsigned(id));
    laws::lemma_entries_fit_one_more(one, Tree::Text("method"@), Tree::Text(method));
    laws::lemma_entries_fit_one_more(two, Tree::Text("params"@), params);
    if let Some(s) = session_id {
        laws::lemma_entries_fit_one_more(three, Tree::Text("sessionId"@), Tree::Text(s));
    }
}

/// A request is decoded into the object that was sent, whatever follows it, as
/// long as what its parameters hold fits in the length fields.
pub proof fn law_request_round_trip(
    id: u64,
    method: Seq<char>,
    params: Tree,
    session_id: Option<Seq<char>>,
    rest: Seq<u8>,
)
    requires
        wire::fits(params),
        (request_bytes(id, method, wire::encoded(params), session_id) + rest).len() <= usize::MAX,
    ensures
        read::item(
            request_bytes(id, method, wire::encoded(params), session_id) + rest,
            0,
        ) matches Ok((t, _)) && t == request_tree(id, method, params, session_id),
{
    law_request_is_an_object(id, method, params, session_id);
    lemma_request_fits(id, method, params, session_id);
    laws::law_decode_gives_back_what_was_encoded(
        request_tree(id, method, params, session_id),
        rest,
    );
}

/// A message that is encoded as the library does and that JSON can hold is
/// received as the value that it stands for, whatever follows it in the frame;
/// one that JSON cannot hold is refused.
pub proof fn law_encoded_message_is_understood(msg: Tree, rest: Seq<u8>)
    requires
        wire::parts_fit(msg),
        (wire::encoded(msg) + rest).len() <= usize::MAX,
    ensures
        match json::form(msg) {
            Some(j) => json::item(wire::encoded(msg) + rest, 0) matches Ok((t, _)) && t == j,
            None => json::item(wire::encoded(msg) + rest, 0) is Err,
        },
{
    laws::law_decode_gives_back_what_was_encoded(msg, rest);
    json::law_json_is_what_is_decoded(wire::encoded(msg) + rest, 0);
}

/// An event, which has no id, answers no request.
pub proof fn law_events_are_skipped(id: u64, msg: Tree)
    requires
        msg.get("id"@) is None,
    ensures
        outcome(id, msg) is Other,
{
}

/// A reply with an error is a refusal, whatever else it holds.
pub proof fn law_error_refuses(id: u64, msg: Tree)
    requires
        replies_to(msg, id),
        msg.get("error"@) is Some,
    ensures
        outcome(id, msg) == refusal(msg.get("error"@)->0),
        outcome(id, msg) is Refused,
{
}

/// A message as it arrives: decoded, or with the reason why it cannot be.
pub type Arrival = Result<Tree, Seq<char>>;

/// How the waiting for the reply to the request `id` ends with the messages
/// `arrivals`: with the outcome, or with the reason why a message could not be
/// decoded, and with the messages that are left; or not at all.
pub open spec fn awaited(id: u64, arrivals: Seq<Arrival>) -> Option<
    (Result<Outcome, Seq<char>>, Seq<Arrival>),
>
    decreases arrivals.len(),
{
    if arrivals.len() == 0 {
        None
    } else {
        let left = arrivals.skip(1);
        match arrivals[0] {
            Err(message) => Some((Err(message), left)),
            Ok(msg) => if outcome(id, msg) is Other {
                awaited(id, left)
            } else {
                Some((Ok(outcome(id, msg)), left))
            },
        }
    }
}

/// A message that was decoded and is not the reply to the request `id`.
pub open spec fn passes(id: u64, arrival: Arrival) -> bool {
    arrival matches Ok(msg) && !replies_to(msg, id)
}

/// Messages that pass count for nothing: the waiting goes on with those behind
/// them.
pub proof fn law_passing_messages_count_for_nothing(id: u64, arrivals: Seq<Arrival>, n: int)
    requires
        0 <= n <= arrivals.len(),
        forall|i: int| 0 <= i < n ==> passes(id, #[trigger] arrivals[i]),
    ensures
        awaited(id, arrivals) == awaited(id, arrivals.skip(n)),
    decreases n,
{
    if n > 0 {
        let left = arrivals.skip(1);
        assert(passes(id, arrivals[0]));
        assert forall|i: int| 0 <= i < n - 1 implies passes(id, #[trigger] left[i]) by {
            assert(left[i] == arrivals[i + 1]);
        }
        law_passing_messages_count_for_nothing(id, left, n - 1);
        assert(left.skip(n - 1) == arrivals.skip(n));
    } else {
        assert(arrivals.skip(0) == arrivals);
    }
}

/// The first message with the id of the request decides, and those behind it are
/// left.
pub proof fn law_first_reply_decides(id: u64, arrivals: Seq<Arrival>, j: int)
    requires
        0 <= j < arrivals.len(),
        forall|i: int| 0 <= i < j ==> passes(id, #[trigger] arrivals[i]),
        arrivals[j] matches Ok(msg) && replies_to(msg, id),
    ensures
        awaited(id, arrivals) == Some(
            (Ok::<Outcome, Seq<char>>(outcome(id, arrivals[j]->Ok_0)), arrivals.skip(j + 1)),
        ),
{
    law_passing_messages_count_for_nothing(id, arrivals, j);
    assert(arrivals.skip(j)[0] == arrivals[j]);
    assert(arrivals.skip(j).skip(1) == arrivals.skip(j + 1));
}

/// A message that cannot be decoded ends the waiting, if it comes before the
/// reply.
pub proof fn law_undecodable_message_ends_the_waiting(id: u64, arrivals: Seq<Arrival>, j: int)
    requires
        0 <= j < arrivals.len(),
        forall|i: int| 0 <= i < j ==> passes(id, #[trigger] arrivals[i]),
        arrivals[j] is Err,
    ensures
        awaited(id, arrivals) == Some(
            (Err::<Outcome, Seq<char>>(arrivals[j]->Err_0), arrivals.skip(j + 1)),
        ),
{
    law_passing_messages_count_for_nothing(id, arrivals, j);
    assert(arrivals.skip(j)[0] == arrivals[j]);
    assert(arrivals.skip(j).skip(1) == arrivals.skip(j + 1));
}

/// As long as all messages pass, the waiting goes on.
pub proof fn law_waiting_goes_on(id: u64, arrivals: Seq<Arrival>)
    requires
        forall|i: int| 0 <= i < arrivals.len() ==> passes(id, #[trigger] arrivals[i]),
    ensures
        awaited(id, arrivals) is None,
{
    law_passing_messages_count_for_nothing(id, arrivals, arrivals.len() as int);
}

/// A message answers at most one request.
pub proof fn law_reply_belongs_to_one_request(msg: Tree, a: u64, b: u64)
    requires
        !(outcome(a, msg) is Other),
        !(outcome(b, msg) is Other),
    ensures
        a == b,
{
}

/// What the browser finds in a request: the method, the parameters and the id
/// that were given, the session id if one was given and none otherwise, and
/// nothing else.
pub proof fn law_request_says_what_was_asked(
    id: u64,
    method: Seq<char>,
    params: Tree,
    session_id: Option<Seq<char>>,
    rest: Seq<u8>,
)
    requires
        wire::fits(params),
        (request_bytes(id, method, wire::encoded(params), session_id) + rest).len() <= usize::MAX,
    ensures
        ({
            &&& read::item(
                request_bytes(id, method, wire::encoded(params), session_id) + rest,
                0,
            ) matches Ok((t, _))
            &&& t.get("method"@) == Some(Tree::Text(method))
            &&& t.get("params"@) == Some(params)
            &&& id <= 0x7FFF_FFFF_FFFF_FFFF ==> t.get("id"@) == Some(Tree::Int(id as i64))
            &&& session_id is Some ==> t.get("sessionId"@) == Some(Tree::Text(session_id->0))
            &&& session_id is None ==> t.get("sessionId"@) is None
            &&& t matches Tree::Object(entries)
            &&& entries.len() == (if session_id is Some {
                4int
            } else {
                3int
            })
        }),
{
    let t = request_tree(id, method, params, session_id);
    let entries = t->Object_0;
    law_request_round_trip(id, method, params, session_id, rest);
    lemma_field_names();
    value::law_last_entry_counts(entries, "id"@, 0);
    value::law_last_entry_counts(entries, "method"@, 1);
    value::law_last_entry_counts(entries, "params"@, 2);
    value::law_last_entry_counts(entries, "sessionId"@, 3);
}

proof fn lemma_field_names()
    ensures
        "id"@ != "method"@,
        "id"@ != "params"@,
        "id"@ != "sessionId"@,
        "method"@ != "params"@,
        "method"@ != "sessionId"@,
        "params"@ != "sessionId"@,
{
    reveal_strlit("id");
    reveal_strlit("method");
    reveal_strlit("params");
    reveal_strlit("sessionId");
    assert("id"@.len() == 2);
    assert("method"@.len() == 6);
    assert("params"@.len() == 6);
    assert("sessionId"@.len() == 9);
    assert("method"@[0] == 'm' && "params"@[0] == 'p');
}

/// The bytes of a request, with whatever bytes stand for its parameters: the
/// fields id, method, params and, on a session, sessionId, in this order.
pub proof fn law_request_bytes(
    id: u64,
    method: Seq<char>,
    params: Seq<u8>,
    session_id: Option<Seq<char>>,
)
    ensures
        ({
            let required = seq![0xBFu8] + wire::encoded(Tree::Text("id"@)) + wire::encoded_unsigned(
                id,
            ) + wire::encoded(Tree::Text("method"@)) + wire::encoded(Tree::Text(method))
                + wire::encoded(Tree::Text("params"@)) + params;
            let bytes = request_bytes(id, method, params, session_id);
            &&& session_id matches Some(s) ==> bytes == wire::envelope(
                required + wire::encoded(Tree::Text("sessionId"@)) + wire::encoded(Tree::Text(s))
                    + seq![0xFFu8],
            )
            &&& session_id is None ==> bytes == wire::envelope(required + seq![0xFFu8])
        }),
{
    let required = seq![INDEF_MAP_START] + wire::encoded_text("id"@) + wire::encoded_unsigned(id)
        + wire::encoded_text("method"@) + wire::encoded_text(method) + wire::encoded_text(
        "params"@,
    ) + params;
    if let Some(s) = session_id {
        assert(required + session_field(session_id) + seq![STOP_BYTE] == required
            + wire::encoded_text("sessionId"@) + wire::encoded_text(s) + seq![STOP_BYTE]);
    } else {
        assert(required + session_field(session_id) == required);
    }
}

/// A text that may be missing stands for itself.
pub proof fn law_optional_text(s: &str)
    ensures
        optional(Some(s)) == Some(s@),
        optional(None) is None,
{
}

/// What a message means to whoever waits for the reply to the request `id`,
/// field by field: nothing unless its id is that number; the error in it, if
/// there is one, with its code and message as far as they are a number and a
/// text; and otherwise its result as it stands, or the empty object.
pub proof fn law_meaning_of_a_message(id: u64, msg: Tree)
    ensures
        ({
            let ours = msg.get("id"@) matches Some(Tree::Int(n)) && n == id as int;
            let error = msg.get("error"@);
            let result = msg.get("result"@);
            &&& replies_to(msg, id) <==> ours
            &&& !ours ==> outcome(id, msg) is Other
            &&& ours && error is None && result is Some ==> outcome(id, msg) == Outcome::Answer(
                result->0,
            )
            &&& ours && error is None && result is None ==> outcome(id, msg) == Outcome::Answer(
                Tree::Object(Seq::empty()),
            )
            &&& ours && error is Some ==> {
                let err = error->0;
                &&& outcome(id, msg) matches Outcome::Refused { code, message }
                &&& refusal(err) == outcome(id, msg)
                &&& err.get("code"@) matches Some(Tree::Int(c)) ==> code == c
                &&& !(err.get("code"@) matches Some(Tree::Int(_))) ==> code == 0
                &&& err.get("message"@) matches Some(Tree::Text(s)) ==> message == s
                &&& !(err.get("message"@) matches Some(Tree::Text(_))) ==> message.len() == 0
            }
        }),
{
    reveal_strlit("");
}

} // verus!
