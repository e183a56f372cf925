//! Reading a message as JSON.
//!
//! JSON has no byte strings, no numbers that are not finite, and no keys but
//! text. A number that is not finite is read as a null. A byte string is
//! refused, but where it is valid UTF-8 it still passes for a key, except for
//! the first key of an object. What is refused is refused as soon as it is met,
//! whatever follows it.

use crate::cbor::consts::STOP_BYTE;
use crate::cbor::de::{Deserializer, Visit};
use crate::cbor::laws;
use crate::cbor::read;
use crate::cbor::read::Event;
use crate::cbor::value;
use crate::cbor::value::{Tree, Value};
use crate::cbor::wire;
use crate::text;
use vstd::prelude::*;

verus! {

/// Why a message cannot be read as JSON.
pub enum Fault {
    /// In these words.
    Words(Seq<char>),
    /// In words that give a double, as text, between these.
    Double(Seq<char>, Seq<char>),
}

impl Fault {
    /// The fault is told in the words `s`. How a double is spelled is left open.
    pub open spec fn told_by(self, s: Seq<char>) -> bool {
        match self {
            Fault::Words(words) => s == words,
            Fault::Double(before, behind) => encloses(s, before, behind),
        }
    }
}

/// `s` starts with `before` and ends with `behind`.
pub open spec fn encloses(s: Seq<char>, before: Seq<char>, behind: Seq<char>) -> bool {
    &&& before.len() + behind.len() <= s.len()
    &&& s.take(before.len() as int) == before
    &&& s.skip(s.len() - behind.len()) == behind
}

/// How a read ends: with what was read and the cursor behind it, or with a
/// fault.
pub type Read<T> = Result<(T, int), Fault>;

/// The list that a read gives, with `before` in front of it.
pub open spec fn after<T>(before: Seq<T>, rest: Read<Seq<T>>) -> Read<Seq<T>> {
    match rest {
        Ok((ts, q)) => Ok((before + ts, q)),
        Err(e) => Err(e),
    }
}

/// Something stands where something else is expected.
pub open spec fn invalid_type(found: Seq<char>, expected: Seq<char>) -> Fault {
    Fault::Words("invalid type: "@ + found + ", expected "@ + expected)
}

/// What a key has to be. The first key of an object is asked for in other words
/// than the others.
pub open spec fn key_expected(first: bool) -> Seq<char> {
    if first {
        "a string key"@
    } else {
        "a string"@
    }
}

/// A truth value in words.
pub open spec fn bool_words(b: bool) -> Seq<char> {
    if b {
        "boolean `true`"@
    } else {
        "boolean `false`"@
    }
}

/// Whether the double with this bit pattern is a finite number.
pub open spec fn finite(bits: u64) -> bool {
    bits / 0x10_0000_0000_0000 % 2048 != 2047
}

/// Why something that is neither text nor a byte string is no key.
pub open spec fn no_key(event: Event, first: bool) -> Fault {
    let expected = key_expected(first);
    match event {
        Event::Int(v) => invalid_type("integer `"@ + text::decimal(v as int) + "`"@, expected),
        Event::Bool(b) => invalid_type(bool_words(b), expected),
        Event::Double(_) => Fault::Double(
            "invalid type: "@ + "floating point `"@,
            "`"@ + ", expected "@ + expected,
        ),
        Event::ArrayStart => invalid_type("sequence"@, expected),
        Event::ObjectStart => invalid_type("map"@, expected),
        _ => invalid_type("unit value"@, expected),
    }
}

/// The next key of an object.
pub open spec fn key(input: Seq<u8>, p: int, first: bool) -> Read<Seq<char>>
    decreases read::left(input, p),
{
    proof {
        read::lemma_event_advances(input, p);
    }
    match read::event(input, p) {
        Err((message, _)) => Err(Fault::Words(message)),
        Ok((Event::Envelope(end), q)) => match key(input, q, first) {
            Ok((s, _)) => Ok((s, end)),
            Err(e) => Err(e),
        },
        Ok((Event::Text(s), q)) => Ok((s, q)),
        Ok((Event::Bytes(b), q)) => if first {
            Err(invalid_type("byte array"@, key_expected(first)))
        } else if vstd::utf8::valid_utf8(b) {
            Ok((vstd::utf8::decode_utf8(b), q))
        } else {
            Err(Fault::Words("invalid value: byte array, expected a string"@))
        },
        Ok((other, _)) => Err(no_key(other, first)),
    }
}

/// The next value. Behind an envelope the cursor stands where the envelope says
/// that it ends.
pub open spec fn item(input: Seq<u8>, p: int) -> Read<Tree>
    decreases read::left(input, p), 1int,
{
    proof {
        read::lemma_event_advances(input, p);
    }
    match read::event(input, p) {
        Err((message, _)) => Err(Fault::Words(message)),
        Ok((Event::Envelope(end), q)) => match item(input, q) {
            Ok((t, _)) => Ok((t, end)),
            Err(e) => Err(e),
        },
        Ok((Event::Int(v), q)) => Ok((Tree::Int(v), q)),
        Ok((Event::Bytes(_), _)) => Err(invalid_type("byte array"@, "any valid JSON value"@)),
        Ok((Event::Text(s), q)) => Ok((Tree::Text(s), q)),
        Ok((Event::Bool(b), q)) => Ok((Tree::Bool(b), q)),
        Ok((Event::Null, q)) => Ok((Tree::Null, q)),
        Ok((Event::Double(bits), q)) => if finite(bits) {
            Ok((Tree::Double(bits), q))
        } else {
            Ok((Tree::Null, q))
        },
        Ok((Event::ArrayStart, q)) => match items(input, q) {
            Ok((ts, r)) => Ok((Tree::Array(ts), r)),
            Err(e) => Err(e),
        },
        Ok((Event::ObjectStart, q)) => match entries(input, q, true) {
            Ok((ts, r)) => Ok((Tree::Object(ts), r)),
            Err(e) => Err(e),
        },
    }
}

/// There is no byte left.
pub open spec fn eof() -> Fault {
    Fault::Words("unexpected EOF"@)
}

/// The values up to a stop byte.
pub open spec fn items(input: Seq<u8>, p: int) -> Read<Seq<Tree>>
    decreases read::left(input, p), 2int,
{
    if p >= input.len() {
        Err(eof())
    } else if input[p] == STOP_BYTE {
        Ok((seq![], p + 1))
    } else {
        match item(input, p) {
            Err(e) => Err(e),
            // A value takes up at least one byte, so this always holds.
            Ok((t, q)) => if q > p {
                after(seq![t], items(input, q))
            } else {
                Err(eof())
            },
        }
    }
}

/// The keys and values up to a stop byte in place of a key.
pub open spec fn entries(input: Seq<u8>, p: int, first: bool) -> Read<Seq<(Tree, Tree)>>
    decreases read::left(input, p), 2int,
{
    if p >= input.len() {
        Err(eof())
    } else if input[p] == STOP_BYTE {
        Ok((seq![], p + 1))
    } else {
        match key(input, p, first) {
            Err(e) => Err(e),
            Ok((k, q)) => if q > p {
                match item(input, q) {
                    Err(e) => Err(e),
                    Ok((v, r)) => if r > q {
                        after(seq![(Tree::Text(k), v)], entries(input, r, false))
                    } else {
                        Err(eof())
                    },
                }
            } else {
                Err(eof())
            },
        }
    }
}

proof fn lemma_after_nothing<T>(rest: Read<Seq<T>>)
    ensures
        after(seq![], rest) == rest,
{
    if let Ok((ts, _)) = rest {
        assert(seq![] + ts == ts);
    }
}

proof fn lemma_after_one_more<T>(before: Seq<T>, t: T, rest: Read<Seq<T>>)
    ensures
        after(before, after(seq![t], rest)) == after(before.push(t), rest),
{
    if let Ok((ts, _)) = rest {
        assert(before + (seq![t] + ts) == before.push(t) + ts);
    }
}

proof fn lemma_key_advances(input: Seq<u8>, p: int, first: bool)
    requires
        input.len() <= usize::MAX,
    ensures
        key(input, p, first) matches Ok((_, q)) ==> p < q,
{
    read::lemma_event_advances(input, p);
}

proof fn lemma_item_advances(input: Seq<u8>, p: int)
    requires
        input.len() <= usize::MAX,
    ensures
        item(input, p) matches Ok((_, q)) ==> p < q,
    decreases read::left(input, p), 1int,
{
    read::lemma_event_advances(input, p);
    match read::event(input, p) {
        Ok((Event::ArrayStart, q)) => lemma_items_advance(input, q),
        Ok((Event::ObjectStart, q)) => lemma_entries_advance(input, q, true),
        _ => {},
    }
}

proof fn lemma_items_advance(input: Seq<u8>, p: int)
    requires
        input.len() <= usize::MAX,
    ensures
        items(input, p) matches Ok((_, q)) ==> p < q,
    decreases read::left(input, p), 2int,
{
    if p < input.len() && input[p] != STOP_BYTE {
        if let Ok((_, q)) = item(input, p) {
            if q > p {
                lemma_items_advance(input, q);
            }
        }
    }
}

proof fn lemma_entries_advance(input: Seq<u8>, p: int, first: bool)
    requires
        input.len() <= usize::MAX,
    ensures
        entries(input, p, first) matches Ok((_, q)) ==> p < q,
    decreases read::left(input, p), 2int,
{
    if p < input.len() && input[p] != STOP_BYTE {
        if let Ok((_, q)) = key(input, p, first) {
            if q > p {
                if let Ok((_, r)) = item(input, q) {
                    if r > q {
                        lemma_entries_advance(input, r, false);
                    }
                }
            }
        }
    }
}

/// Reads the message at the start of `bytes` as JSON.
pub fn from_slice(bytes: &[u8]) -> (r: Result<Value, String>)
    ensures
        match r {
            Ok(v) => item(bytes@, 0) matches Ok((t, _)) && t == v@,
            Err(s) => item(bytes@, 0) matches Err(fault) && fault.told_by(s@),
        },
{
    let mut d = Deserializer { input: bytes, pos: 0 };
    read_item(&mut d)
}

fn wrong_type(found: &str, expected: &str) -> (s: String)
    ensures
        invalid_type(found@, expected@) == Fault::Words(s@),
{
    "invalid type: ".to_string().concat(found).concat(", expected ").concat(expected)
}

/// Why a double, spelled `number`, is no key.
pub fn double_key_line(number: &str, first: bool) -> (s: String)
    ensures
        invalid_type("floating point `"@ + number@ + "`"@, key_expected(first)) == Fault::Words(s@),
{
    let found: String = "floating point `".to_string().concat(number).concat("`");
    wrong_type(found.as_str(), if first { "a string key" } else { "a string" })
}

/// Why a double is no key. It is spelled by its bit pattern.
fn double_key(bits: u64, first: bool) -> (s: String)
    ensures
        no_key(Event::Double(bits), first).told_by(s@),
{
    let mut number: String = "0x".to_string();
    text::push_hex(&mut number, bits, 8);
    let s: String = double_key_line(number.as_str(), first);
    proof {
        lemma_double_key(number@, first, s@);
    }
    s
}

proof fn lemma_double_key(number: Seq<char>, first: bool, s: Seq<char>)
    requires
        invalid_type("floating point `"@ + number + "`"@, key_expected(first)) == Fault::Words(s),
    ensures
        no_key(Event::Double(0), first).told_by(s),
{
    let before = "invalid type: "@ + "floating point `"@;
    let behind = "`"@ + ", expected "@ + key_expected(first);
    assert(s == before + number + behind);
    assert(s.take(before.len() as int) == before);
    assert(s.skip(s.len() - behind.len()) == behind);
}

fn integer_words(v: i64) -> (s: String)
    ensures
        s@ == "integer `"@ + text::decimal(v as int) + "`"@,
{
    let mut s: String = "integer `".to_string();
    text::push_decimal(&mut s, v);
    s.append("`");
    s
}

/// Why something that is neither text nor a byte string is no key.
fn refused_key(visit: &Visit, first: bool) -> (s: String)
    ensures
        no_key(visit@, first).told_by(s@),
{
    let expected: &str = if first { "a string key" } else { "a string" };
    match visit {
        Visit::Int(v) => {
            let found: String = integer_words(*v);
            wrong_type(found.as_str(), expected)
        },
        Visit::Bool(b) => {
            let found: &str = if *b { "boolean `true`" } else { "boolean `false`" };
            wrong_type(found, expected)
        },
        Visit::Double(bits) => double_key(*bits, first),
        Visit::ArrayStart => wrong_type("sequence", expected),
        Visit::ObjectStart => wrong_type("map", expected),
        _ => wrong_type("unit value", expected),
    }
}

/// Reads the next key of an object.
fn read_key(d: &mut Deserializer, first: bool) -> (r: Result<String, String>)
    ensures
        final(d).input == old(d).input,
        ({
            let want = key(old(d).input@, old(d).pos as int, first);
            match r {
                Ok(k) => want == Ok::<_, Fault>((k@, final(d).pos as int)),
                Err(s) => want matches Err(fault) && fault.told_by(s@),
            }
        }),
    decreases read::left(old(d).input@, old(d).pos as int),
{
    proof {
        read::lemma_event_advances(d.input@, d.pos as int);
    }
    let visit = match d.next_visit() {
        Ok(visit) => visit,
        Err(e) => return Err(e.0),
    };
    match visit {
        Visit::Envelope(end) => {
            let k: String = read_key(d, first)?;
            d.leave_envelope(end);
            Ok(k)
        },
        Visit::Text(s) => Ok(s.to_string()),
        Visit::Bytes(b) => if first {
            Err(wrong_type("byte array", "a string key"))
        } else {
            match text::checked_utf8(b) {
                Ok(s) => Ok(s.to_string()),
                Err(_) => Err("invalid value: byte array, expected a string".to_string()),
            }
        },
        other => Err(refused_key(&other, first)),
    }
}

/// Reads the next value.
fn read_item(d: &mut Deserializer) -> (r: Result<Value, String>)
    ensures
        final(d).input == old(d).input,
        ({
            let want = item(old(d).input@, old(d).pos as int);
            match r {
                Ok(v) => want == Ok::<_, Fault>((v@, final(d).pos as int)),
                Err(s) => want matches Err(fault) && fault.told_by(s@),
            }
        }),
    decreases read::left(old(d).input@, old(d).pos as int), 1int,
{
    proof {
        read::lemma_event_advances(d.input@, d.pos as int);
    }
    let visit = match d.next_visit() {
        Ok(visit) => visit,
        Err(e) => return Err(e.0),
    };
    match visit {
        Visit::Envelope(end) => {
            let v: Value = read_item(d)?;
            d.leave_envelope(end);
            Ok(v)
        },
        Visit::Int(v) => Ok(Value::Int(v)),
        Visit::Bytes(_) => Err(wrong_type("byte array", "any valid JSON value")),
        Visit::Text(s) => Ok(Value::Text(s.to_string())),
        Visit::Bool(b) => Ok(Value::Bool(b)),
        Visit::Null => Ok(Value::Null),
        Visit::Double(bits) => if bits / 0x10_0000_0000_0000 % 2048 != 2047 {
            Ok(Value::Double(bits))
        } else {
            Ok(Value::Null)
        },
        Visit::ArrayStart => {
            let items: Vec<Value> = read_items(d)?;
            Ok(Value::Array(items))
        },
        Visit::ObjectStart => {
            let entries: Vec<(Value, Value)> = read_entries(d)?;
            Ok(Value::Object(entries))
        },
    }
}

/// Reads the items of an array, stop byte included.
fn read_items(d: &mut Deserializer) -> (r: Result<Vec<Value>, String>)
    ensures
        final(d).input == old(d).input,
        ({
            let want = items(old(d).input@, old(d).pos as int);
            match r {
                Ok(vs) => want == Ok::<_, Fault>((value::views(vs@), final(d).pos as int)),
                Err(s) => want matches Err(fault) && fault.told_by(s@),
            }
        }),
    decreases read::left(old(d).input@, old(d).pos as int), 2int,
{
    let ghost want = items(d.input@, d.pos as int);
    let mut vs: Vec<Value> = Vec::new();
    proof {
        assert(value::views(vs@) == Seq::<Tree>::empty());
        lemma_after_nothing(want);
    }
    loop
        invariant
            d.input == old(d).input,
            d.pos >= old(d).pos,
            want == items(old(d).input@, old(d).pos as int),
            after(value::views(vs@), items(d.input@, d.pos as int)) == want,
        decreases read::left(d.input@, d.pos as int),
    {
        let ghost before = value::views(vs@);
        proof {
            let _ = d.input.len();
            lemma_item_advances(d.input@, d.pos as int);
        }
        let stop: bool = match d.take_stop() {
            Ok(stop) => stop,
            Err(e) => return Err(e.0),
        };
        if stop {
            assert(before + seq![] == before);
            return Ok(vs);
        }
        let v: Value = read_item(d)?;
        vs.push(v);
        proof {
            assert(value::views(vs@) == before.push(v@));
            lemma_after_one_more(before, v@, items(d.input@, d.pos as int));
        }
    }
}

/// Reads the entries of an object, stop byte included.
fn read_entries(d: &mut Deserializer) -> (r: Result<Vec<(Value, Value)>, String>)
    ensures
        final(d).input == old(d).input,
        ({
            let want = entries(old(d).input@, old(d).pos as int, true);
            match r {
                Ok(vs) => want == Ok::<_, Fault>((value::entry_views(vs@), final(d).pos as int)),
                Err(s) => want matches Err(fault) && fault.told_by(s@),
            }
        }),
    decreases read::left(old(d).input@, old(d).pos as int), 2int,
{
    let ghost want = entries(d.input@, d.pos as int, true);
    let mut vs: Vec<(Value, Value)> = Vec::new();
    let mut first: bool = true;
    proof {
        assert(value::entry_views(vs@) == Seq::<(Tree, Tree)>::empty());
        lemma_after_nothing(want);
    }
    loop
        invariant
            d.input == old(d).input,
            d.pos >= old(d).pos,
            want == entries(old(d).input@, old(d).pos as int, true),
            after(value::entry_views(vs@), entries(d.input@, d.pos as int, first)) == want,
        decreases read::left(d.input@, d.pos as int),
    {
        let ghost before = value::entry_views(vs@);
        proof {
            let _ = d.input.len();
            lemma_key_advances(d.input@, d.pos as int, first);
        }
        let stop: bool = match d.take_stop() {
            Ok(stop) => stop,
            Err(e) => return Err(e.0),
        };
        if stop {
            assert(before + seq![] == before);
            return Ok(vs);
        }
        let k: String = read_key(d, first)?;
        proof {
            lemma_item_advances(d.input@, d.pos as int);
        }
        let v: Value = read_item(d)?;
        let ghost entry = (Tree::Text(k@), v@);
        vs.push((Value::Text(k), v));
        first = false;
        proof {
            assert(value::entry_views(vs@) == before.push(entry));
            lemma_after_one_more(before, entry, entries(d.input@, d.pos as int, false));
        }
    }
}

/// A decoded value as JSON holds it, or nothing where JSON cannot.
pub open spec fn form(t: Tree) -> Option<Tree>
    decreases t, 0int,
{
    match t {
        Tree::Double(bits) => if finite(bits) {
            Some(t)
        } else {
            Some(Tree::Null)
        },
        Tree::Array(items) => match item_forms(items) {
            Some(ts) => Some(Tree::Array(ts)),
            None => None,
        },
        Tree::Object(entries) => match entry_forms(entries, true) {
            Some(ts) => Some(Tree::Object(ts)),
            None => None,
        },
        Tree::Bytes(_) => None,
        Tree::TupleVariant(_, _) => None,
        Tree::StructVariant(_, _) => None,
        _ => Some(t),
    }
}

/// All of a list of values.
pub open spec fn item_forms(items: Seq<Tree>) -> Option<Seq<Tree>>
    decreases items, 0int,
{
    if items.len() == 0 {
        Some(seq![])
    } else {
        match (form(items[0]), item_forms(items.subrange(1, items.len() as int))) {
            (Some(t), Some(ts)) => Some(seq![t] + ts),
            _ => None,
        }
    }
}

/// A key as JSON holds it.
pub open spec fn key_form(key: Tree, first: bool) -> Option<Tree> {
    match key {
        Tree::Text(_) => Some(key),
        Tree::Bytes(b) => if !first && vstd::utf8::valid_utf8(b) {
            Some(Tree::Text(vstd::utf8::decode_utf8(b)))
        } else {
            None
        },
        _ => None,
    }
}

/// All of a list of entries, whose first key is the first of its object or not.
pub open spec fn entry_forms(entries: Seq<(Tree, Tree)>, first: bool) -> Option<Seq<(Tree, Tree)>>
    decreases entries, 0int,
{
    if entries.len() == 0 {
        Some(seq![])
    } else {
        let head = entries[0];
        match (
            key_form(head.0, first),
            form(head.1),
            entry_forms(entries.subrange(1, entries.len() as int), false),
        ) {
            (Some(k), Some(v), Some(ts)) => Some(seq![(k, v)] + ts),
            _ => None,
        }
    }
}

/// Reading a message as JSON succeeds exactly where it can be decoded and JSON
/// can hold what was decoded, and then gives that, with the cursor in the same
/// place.
pub proof fn law_json_is_what_is_decoded(input: Seq<u8>, p: int)
    ensures
        match read::item(input, p) {
            Ok((t, q)) => match form(t) {
                Some(j) => item(input, p) == Ok::<_, Fault>((j, q)),
                None => item(input, p) is Err,
            },
            Err(_) => item(input, p) is Err,
        },
    decreases read::left(input, p), 1int,
{
    read::lemma_event_advances(input, p);
    match read::event(input, p) {
        Ok((Event::Envelope(_), q)) => law_json_is_what_is_decoded(input, q),
        Ok((Event::ArrayStart, q)) => lemma_items_agree(input, q),
        Ok((Event::ObjectStart, q)) => lemma_entries_agree(input, q, true),
        _ => {},
    }
}

proof fn lemma_key_agrees(input: Seq<u8>, p: int, first: bool)
    ensures
        match read::item(input, p) {
            Ok((t, q)) => match key_form(t, first) {
                Some(k) => k is Text && key(input, p, first) == Ok::<_, Fault>((k->Text_0, q)),
                None => key(input, p, first) is Err,
            },
            Err(_) => key(input, p, first) is Err,
        },
    decreases read::left(input, p),
{
    read::lemma_event_advances(input, p);
    if let Ok((Event::Envelope(_), q)) = read::event(input, p) {
        lemma_key_agrees(input, q, first);
    }
}

proof fn lemma_items_agree(input: Seq<u8>, p: int)
    ensures
        match read::items(input, p) {
            Ok((ts, q)) => match item_forms(ts) {
                Some(js) => items(input, p) == Ok::<_, Fault>((js, q)),
                None => items(input, p) is Err,
            },
            Err(_) => items(input, p) is Err,
        },
    decreases read::left(input, p), 2int,
{
    if p < input.len() && input[p] != STOP_BYTE {
        law_json_is_what_is_decoded(input, p);
        if let Ok((t, q)) = read::item(input, p) {
            if q > p {
                lemma_items_agree(input, q);
                if let Ok((ts, _)) = read::items(input, q) {
                    let all = seq![t] + ts;
                    assert(all[0] == t);
                    assert(all.subrange(1, all.len() as int) == ts);
                }
            }
        }
    }
}

proof fn lemma_entries_agree(input: Seq<u8>, p: int, first: bool)
    ensures
        match read::entries(input, p) {
            Ok((ts, q)) => match entry_forms(ts, first) {
                Some(js) => entries(input, p, first) == Ok::<_, Fault>((js, q)),
                None => entries(input, p, first) is Err,
            },
            Err(_) => entries(input, p, first) is Err,
        },
    decreases read::left(input, p), 2int,
{
    if p < input.len() && input[p] != STOP_BYTE {
        lemma_key_agrees(input, p, first);
        if let Ok((k, q)) = read::item(input, p) {
            if q > p {
                law_json_is_what_is_decoded(input, q);
                if let Ok((v, r)) = read::item(input, q) {
                    if r > q {
                        lemma_entries_agree(input, r, false);
                        if let Ok((ts, _)) = read::entries(input, r) {
                            let all = seq![(k, v)] + ts;
                            assert(all[0] == (k, v));
                            assert(all.subrange(1, all.len() as int) == ts);
                        }
                    }
                }
            }
        }
    }
}

/// A value that JSON can hold is held as it is: null, truth values, integers,
/// text, and doubles whose eleven exponent bits are not all ones, whatever
/// their sign. Other doubles become null, and byte strings and variants with
/// several fields are not held.
pub proof fn law_json_scalars(t: Tree)
    ensures
        t is Null || t is Bool || t is Int || t is Text ==> form(t) == Some(t),
        t matches Tree::Double(bits) ==> (bits as int / 0x10_0000_0000_0000 % 2048 != 2047 ==> form(
            t,
        ) == Some(t)) && (bits as int / 0x10_0000_0000_0000 % 2048 == 2047 ==> form(t) == Some(
            Tree::Null,
        )),
        t is Bytes || t is TupleVariant || t is StructVariant ==> form(t) is None,
        t matches Tree::Double(bits) ==> (finite(bits) <==> bits as int / 0x10_0000_0000_0000 % 2048
            != 2047),
{
}

/// An array is held if all its items are, as the array of what is held of them.
pub proof fn law_json_array(items: Seq<Tree>)
    ensures
        match form(Tree::Array(items)) {
            Some(j) => {
                &&& j matches Tree::Array(js)
                &&& js.len() == items.len()
                &&& forall|i: int|
                    0 <= i < items.len() ==> form(#[trigger] items[i]) == Some(js[i])
            },
            None => exists|i: int| 0 <= i < items.len() && form(#[trigger] items[i]) is None,
        },
    decreases items.len(),
{
    reveal_with_fuel(form, 2);
    if items.len() > 0 {
        let others = items.subrange(1, items.len() as int);
        law_json_array(others);
        assert(forall|i: int| 0 <= i < others.len() ==> others[i] == items[i + 1]);
        match (form(items[0]), item_forms(others)) {
            (Some(j), Some(js)) => {
                let all = seq![j] + js;
                assert forall|i: int| 0 <= i < items.len() implies form(#[trigger] items[i])
                    == Some(all[i]) by {
                    if i > 0 {
                        assert(items[i] == others[i - 1]);
                        assert(all[i] == js[i - 1]);
                    }
                }
            },
            (None, _) => {
                assert(form(items[0]) is None);
            },
            (_, None) => {
                let i = choose|i: int| 0 <= i < others.len() && form(#[trigger] others[i]) is None;
                assert(form(items[i + 1]) is None);
            },
        }
    }
}

/// An object is held if its values are and its keys are text, or, except for
/// the first, byte strings that spell text; and then entry by entry.
pub proof fn law_json_object(entries: Seq<(Tree, Tree)>)
    ensures
        match form(Tree::Object(entries)) {
            Some(j) => {
                &&& j matches Tree::Object(js)
                &&& js.len() == entries.len()
                &&& forall|i: int|
                    0 <= i < entries.len() ==> form((#[trigger] entries[i]).1) == Some(js[i].1)
                        && held_key(entries[i].0, i == 0, js[i].0)
            },
            None => exists|i: int|
                0 <= i < entries.len() && (form((#[trigger] entries[i]).1) is None || !(
                entries[i].0 is Text || (i > 0 && entries[i].0 is Bytes && vstd::utf8::valid_utf8(
                    entries[i].0->Bytes_0,
                )))),
        },
{
    reveal_with_fuel(form, 2);
    lemma_json_entries(entries, true);
}

/// The key `k` is held as `j`.
pub open spec fn held_key(k: Tree, first: bool, j: Tree) -> bool {
    match k {
        Tree::Text(_) => j == k,
        Tree::Bytes(b) => !first && vstd::utf8::valid_utf8(b) && j == Tree::Text(
            vstd::utf8::decode_utf8(b),
        ),
        _ => false,
    }
}

proof fn lemma_json_entries(entries: Seq<(Tree, Tree)>, first: bool)
    ensures
        match entry_forms(entries, first) {
            Some(js) => {
                &&& js.len() == entries.len()
                &&& forall|i: int|
                    0 <= i < entries.len() ==> form((#[trigger] entries[i]).1) == Some(js[i].1)
                        && held_key(entries[i].0, first && i == 0, js[i].0)
            },
            None => exists|i: int|
                0 <= i < entries.len() && (form((#[trigger] entries[i]).1) is None || !(
                entries[i].0 is Text || ((i > 0 || !first) && entries[i].0 is Bytes
                    && vstd::utf8::valid_utf8(entries[i].0->Bytes_0)))),
        },
    decreases entries.len(),
{
    if entries.len() > 0 {
        let others = entries.subrange(1, entries.len() as int);
        let head = entries[0];
        lemma_json_entries(others, false);
        assert(forall|i: int| 0 <= i < others.len() ==> others[i] == entries[i + 1]);
        match (key_form(head.0, first), form(head.1), entry_forms(others, false)) {
            (Some(k), Some(v), Some(js)) => {
                let all = seq![(k, v)] + js;
                assert forall|i: int| 0 <= i < entries.len() implies form((#[trigger] entries[i]).1)
                    == Some(all[i].1) && held_key(entries[i].0, first && i == 0, all[i].0) by {
                    if i > 0 {
                        assert(entries[i] == others[i - 1]);
                        assert(all[i] == js[i - 1]);
                    }
                }
            },
            (None, _, _) => {
                assert(entries[0] == head);
            },
            (_, None, _) => {
                assert(form(entries[0].1) is None);
            },
            (_, _, None) => {
                let i = choose|i: int|
                    0 <= i < others.len() && (form((#[trigger] others[i]).1) is None || !(
                    others[i].0 is Text || (others[i].0 is Bytes && vstd::utf8::valid_utf8(
                        others[i].0->Bytes_0,
                    ))));
                assert(entries[i + 1] == others[i]);
            },
        }
    }
}

/// What the browser sends as a double, or as anything else that JSON can hold,
/// is read as JSON as it is: null, truth values, integers, text and finite
/// doubles of either sign, wherever they stand.
pub proof fn law_json_reads_scalars(input: Seq<u8>, p: int)
    ensures
        match read::event(input, p) {
            Ok((Event::Null, q)) => item(input, p) == Ok::<_, Fault>((Tree::Null, q)),
            Ok((Event::Bool(b), q)) => item(input, p) == Ok::<_, Fault>((Tree::Bool(b), q)),
            Ok((Event::Int(v), q)) => item(input, p) == Ok::<_, Fault>((Tree::Int(v), q)),
            Ok((Event::Text(s), q)) => item(input, p) == Ok::<_, Fault>((Tree::Text(s), q)),
            Ok((Event::Double(bits), q)) => {
                &&& bits as int / 0x10_0000_0000_0000 % 2048 != 2047 ==> item(input, p) == Ok::<
                    _,
                    Fault,
                >((Tree::Double(bits), q))
                &&& bits as int / 0x10_0000_0000_0000 % 2048 == 2047 ==> item(input, p) == Ok::<
                    _,
                    Fault,
                >((Tree::Null, q))
            },
            Ok((Event::Bytes(_), _)) => item(input, p) == Err::<(Tree, int), _>(
                Fault::Words(
                    "invalid type: "@ + "byte array"@ + ", expected "@ + "any valid JSON value"@,
                ),
            ),
            Ok((Event::Envelope(end), q)) => match item(input, q) {
                Ok((t, _)) => item(input, p) == Ok::<_, Fault>((t, end)),
                Err(e) => item(input, p) == Err::<(Tree, int), _>(e),
            },
            Ok((Event::ArrayStart, q)) => match items(input, q) {
                Ok((ts, r)) => item(input, p) == Ok::<_, Fault>((Tree::Array(ts), r)),
                Err(e) => item(input, p) == Err::<(Tree, int), _>(e),
            },
            Ok((Event::ObjectStart, q)) => match entries(input, q, true) {
                Ok((ts, r)) => item(input, p) == Ok::<_, Fault>((Tree::Object(ts), r)),
                Err(e) => item(input, p) == Err::<(Tree, int), _>(e),
            },
            Err((message, _)) => item(input, p) == Err::<(Tree, int), _>(Fault::Words(message)),
        },
{
}

/// The items of an array, one after the other, up to the byte 0xFF; the first
/// that is refused tells.
pub proof fn law_json_reads_arrays(input: Seq<u8>, p: int)
    requires
        0 <= p,
        input.len() <= usize::MAX,
    ensures
        p >= input.len() ==> items(input, p) == Err::<(Seq<Tree>, int), _>(
            Fault::Words("unexpected EOF"@),
        ),
        p < input.len() && input[p] == 0xFF ==> items(input, p) == Ok::<_, Fault>(
            (Seq::<Tree>::empty(), p + 1),
        ),
        p < input.len() && input[p] != 0xFF ==> match item(input, p) {
            Err(e) => items(input, p) == Err::<(Seq<Tree>, int), _>(e),
            Ok((t, q)) => match items(input, q) {
                Err(e) => items(input, p) == Err::<(Seq<Tree>, int), _>(e),
                Ok((ts, r)) => items(input, p) == Ok::<_, Fault>((seq![t] + ts, r)),
            },
        },
{
    lemma_item_advances(input, p);
}

/// The entries of an object, one after the other, up to the byte 0xFF; the first
/// key or value that is refused tells.
pub proof fn law_json_reads_objects(input: Seq<u8>, p: int, first: bool)
    requires
        0 <= p,
        input.len() <= usize::MAX,
    ensures
        p >= input.len() ==> entries(input, p, first) == Err::<(Seq<(Tree, Tree)>, int), _>(
            Fault::Words("unexpected EOF"@),
        ),
        p < input.len() && input[p] == 0xFF ==> entries(input, p, first) == Ok::<_, Fault>(
            (Seq::<(Tree, Tree)>::empty(), p + 1),
        ),
        p < input.len() && input[p] != 0xFF ==> match key(input, p, first) {
            Err(e) => entries(input, p, first) == Err::<(Seq<(Tree, Tree)>, int), _>(e),
            Ok((k, q)) => match item(input, q) {
                Err(e) => entries(input, p, first) == Err::<(Seq<(Tree, Tree)>, int), _>(e),
                Ok((v, r)) => match entries(input, r, false) {
                    Err(e) => entries(input, p, first) == Err::<(Seq<(Tree, Tree)>, int), _>(e),
                    Ok((ts, s)) => entries(input, p, first) == Ok::<_, Fault>(
                        (seq![(Tree::Text(k), v)] + ts, s),
                    ),
                },
            },
        },
{
    lemma_key_advances(input, p, first);
    if let Ok((_, q)) = key(input, p, first) {
        lemma_item_advances(input, q);
    }
}

/// A key is text, or, except for the first, a byte string that spells text.
/// Anything else is refused by its kind; the first key of an object is asked for
/// as "a string key", and the others as "a string".
pub proof fn law_json_reads_keys(input: Seq<u8>, p: int, first: bool)
    ensures
        ({
            let r = key(input, p, first);
            let wanted = if first {
                "a string key"@
            } else {
                "a string"@
            };
            match read::event(input, p) {
                Err((message, _)) => r == Err::<(Seq<char>, int), _>(Fault::Words(message)),
                Ok((Event::Text(s), q)) => r == Ok::<_, Fault>((s, q)),
                Ok((Event::Envelope(end), q)) => match key(input, q, first) {
                    Ok((s, _)) => r == Ok::<_, Fault>((s, end)),
                    Err(e) => r == Err::<(Seq<char>, int), _>(e),
                },
                Ok((Event::Bytes(b), q)) => {
                    &&& first ==> r == Err::<(Seq<char>, int), _>(
                        Fault::Words("invalid type: "@ + "byte array"@ + ", expected "@ + wanted),
                    )
                    &&& !first && vstd::utf8::valid_utf8(b) ==> r == Ok::<_, Fault>(
                        (vstd::utf8::decode_utf8(b), q),
                    )
                    &&& !first && !vstd::utf8::valid_utf8(b) ==> r == Err::<(Seq<char>, int), _>(
                        Fault::Words("invalid value: byte array, expected a string"@),
                    )
                },
                Ok((Event::Int(v), _)) => r == Err::<(Seq<char>, int), _>(
                    Fault::Words(
                        "invalid type: "@ + ("integer `"@ + text::decimal(v as int) + "`"@)
                            + ", expected "@ + wanted,
                    ),
                ),
                Ok((Event::Bool(true), _)) => r == Err::<(Seq<char>, int), _>(
                    Fault::Words("invalid type: "@ + "boolean `true`"@ + ", expected "@ + wanted),
                ),
                Ok((Event::Bool(false), _)) => r == Err::<(Seq<char>, int), _>(
                    Fault::Words("invalid type: "@ + "boolean `false`"@ + ", expected "@ + wanted),
                ),
                Ok((Event::Null, _)) => r == Err::<(Seq<char>, int), _>(
                    Fault::Words("invalid type: "@ + "unit value"@ + ", expected "@ + wanted),
                ),
                Ok((Event::Double(_), _)) => r == Err::<(Seq<char>, int), _>(
                    Fault::Double(
                        "invalid type: "@ + "floating point `"@,
                        "`"@ + ", expected "@ + wanted,
                    ),
                ),
                Ok((Event::ArrayStart, _)) => r == Err::<(Seq<char>, int), _>(
                    Fault::Words("invalid type: "@ + "sequence"@ + ", expected "@ + wanted),
                ),
                Ok((Event::ObjectStart, _)) => r == Err::<(Seq<char>, int), _>(
                    Fault::Words("invalid type: "@ + "map"@ + ", expected "@ + wanted),
                ),
            }
        }),
{
}

/// How a fault is told: in its words, or, around a double, in the words before
/// and behind it.
pub proof fn law_faults_are_told(fault: Fault, s: Seq<char>, found: Seq<char>, expected: Seq<char>)
    ensures
        fault matches Fault::Words(words) ==> (fault.told_by(s) <==> s == words),
        fault matches Fault::Double(before, behind) ==> (fault.told_by(s) <==> before.len()
            + behind.len() <= s.len() && s.subrange(0, before.len() as int) == before && s.subrange(
            s.len() - behind.len(),
            s.len() as int,
        ) == behind),
        invalid_type(found, expected) == Fault::Words(
            "invalid type: "@ + found + ", expected "@ + expected,
        ),
        key_expected(true) == "a string key"@,
        key_expected(false) == "a string"@,
{
}

/// A value made of null, truth values, integers, text, doubles whose exponent
/// bits are not all ones, arrays of such values, and objects with such values
/// under keys that are text.
pub open spec fn is_json(t: Tree) -> bool
    decreases t, 0int,
{
    match t {
        Tree::Null => true,
        Tree::Bool(_) => true,
        Tree::Int(_) => true,
        Tree::Text(_) => true,
        Tree::Double(bits) => bits as int / 0x10_0000_0000_0000 % 2048 != 2047,
        Tree::Array(items) => forall|i: int| #![trigger items[i]]
            0 <= i < items.len() ==> is_json(items[i]),
        Tree::Object(entries) => forall|i: int| #![trigger entries[i]]
            0 <= i < entries.len() ==> entries[i].0 is Text && is_json(entries[i].1),
        _ => false,
    }
}

/// What is JSON already is held unchanged.
pub proof fn law_json_stays_as_it_is(t: Tree)
    requires
        is_json(t),
    ensures
        form(t) == Some(t),
    decreases t,
{
    match t {
        Tree::Array(items) => {
            law_json_array(items);
            assert forall|i: int| 0 <= i < items.len() implies form(#[trigger] items[i]) == Some(
                items[i],
            ) by {
                law_json_stays_as_it_is(items[i]);
            }
            let js = form(t)->0->Array_0;
            assert(js == items);
        },
        Tree::Object(entries) => {
            law_json_object(entries);
            assert forall|i: int| 0 <= i < entries.len() implies form((#[trigger] entries[i]).1)
                == Some(entries[i].1) && entries[i].0 is Text by {
                law_json_stays_as_it_is(entries[i].1);
            }
            let js = form(t)->0->Object_0;
            assert forall|i: int| 0 <= i < entries.len() implies js[i] == #[trigger] entries[i] by {
                assert(held_key(entries[i].0, i == 0, js[i].0));
            }
            assert(js == entries);
        },
        _ => {},
    }
}

/// A message that is JSON already is read as JSON as it was encoded, whatever
/// follows it.
pub proof fn law_json_round_trip(t: Tree, rest: Seq<u8>)
    requires
        is_json(t),
        wire::parts_fit(t),
        (wire::encoded(t) + rest).len() <= usize::MAX,
    ensures
        item(wire::encoded(t) + rest, 0) matches Ok((u, _)) && u == t,
{
    laws::law_decode_gives_back_what_was_encoded(t, rest);
    law_json_is_what_is_decoded(wire::encoded(t) + rest, 0);
    law_json_stays_as_it_is(t);
}

} // verus!
