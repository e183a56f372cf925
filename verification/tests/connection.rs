use rust_cdp::cbor::value::Value;
use rust_cdp::cbor::{from_slice, to_vec};
use rust_cdp::client;
use rust_cdp::client::{Client, Error, Request};
use rust_cdp::json;
use rust_cdp::page::{LoadWait, Next, MAX_POLLS};
use rust_cdp::pipe;
use rust_cdp::pipe::{FdStep, FrameBuffer, Pipes, RecvError};
use rust_cdp::text;
use serde::de::value::{BytesDeserializer, Error as DeError, MapDeserializer};
use serde::Deserialize;

fn words(s: &str) -> Value {
    Value::Text(s.to_string())
}

fn object(fields: Vec<(&str, Value)>) -> Value {
    Value::Object(fields.into_iter().map(|(k, v)| (words(k), v)).collect())
}

// Requests.

#[test]
fn requests_are_objects() {
    let params = object(vec![("url", words("about:blank"))]);
    let encoded = to_vec(&params).unwrap();
    let request = Request {
        id: 7,
        method: "Target.createTarget",
        params: &encoded,
        session_id: None,
    };
    let want = object(vec![
        ("id", Value::Int(7)),
        ("method", words("Target.createTarget")),
        ("params", params),
    ]);
    assert_eq!(request.encode(), to_vec(&want).unwrap());
    assert_eq!(from_slice(&request.encode()).unwrap(), want);
}

#[test]
fn session_ids_come_last() {
    let request = Request {
        id: 1,
        method: "Page.navigate",
        params: &[0xF6],
        session_id: Some("S1"),
    };
    let want = object(vec![
        ("id", Value::Int(1)),
        ("method", words("Page.navigate")),
        ("params", Value::Null),
        ("sessionId", words("S1")),
    ]);
    assert_eq!(request.encode(), to_vec(&want).unwrap());
}

#[test]
fn ids_are_counted_up_from_one() {
    let mut c = Client::new();
    let params = || Ok(vec![0xF6]);
    let (first, bytes) = c.begin("A.b", params(), None).unwrap();
    assert_eq!(first, 1);
    let sent = from_slice(&bytes).unwrap();
    assert_eq!(sent.get("id").unwrap().as_u64(), Some(1));
    assert_eq!(sent.get("method").unwrap().as_str(), Some("A.b"));
    assert!(sent.get("sessionId").is_none());
    let (second, _) = c.begin("A.b", params(), Some("s")).unwrap();
    assert_eq!(second, 2);
    // Parameters that cannot be encoded spend an id too.
    let e = c.begin("A.b", Err("no such thing".to_string()), None).unwrap_err();
    assert_eq!(e.describe(), "encode: no such thing");
    let (fourth, _) = c.begin("A.b", params(), None).unwrap();
    assert_eq!(fourth, 4);
    assert_eq!(c.next_id, 5);
}

// Replies.

#[test]
fn other_messages_are_skipped() {
    let event = object(vec![("method", words("Page.loadEventFired")), ("result", Value::Int(1))]);
    assert!(client::accept(3, Ok(event)).unwrap().is_none());
    let other = object(vec![("id", Value::Int(4)), ("result", Value::Int(1))]);
    assert!(client::accept(3, Ok(other)).unwrap().is_none());
    let negative = object(vec![("id", Value::Int(-3))]);
    assert!(client::accept(3, Ok(negative)).unwrap().is_none());
    let by_name = object(vec![("id", words("3"))]);
    assert!(client::accept(3, Ok(by_name)).unwrap().is_none());
    assert!(client::accept(3, Ok(Value::Array(vec![]))).unwrap().is_none());
    let refused_other = object(vec![("id", Value::Int(4)), ("error", Value::Null)]);
    assert!(client::accept(3, Ok(refused_other)).unwrap().is_none());
}

#[test]
fn results_are_handed_out() {
    let reply = object(vec![
        ("id", Value::Int(3)),
        ("result", object(vec![("targetId", words("T"))])),
        ("sessionId", words("S")),
    ]);
    let result = client::accept(3, Ok(reply)).unwrap().unwrap();
    assert_eq!(result, object(vec![("targetId", words("T"))]));
    let bare = object(vec![("id", Value::Int(3))]);
    assert_eq!(client::accept(3, Ok(bare)).unwrap(), Some(Value::Object(Vec::new())));
    let null = object(vec![("id", Value::Int(3)), ("result", Value::Null)]);
    assert_eq!(client::accept(3, Ok(null)).unwrap(), Some(Value::Null));
}

#[test]
fn refusals_are_errors() {
    let reply = object(vec![
        ("id", Value::Int(3)),
        ("result", Value::Int(1)),
        (
            "error",
            object(vec![("code", Value::Int(-32601)), ("message", words("not found"))]),
        ),
    ]);
    let e = client::accept(3, Ok(reply)).unwrap_err();
    assert_eq!(e.describe(), "cdp error -32601: not found");
    // Whatever is missing or of another type is taken for nothing.
    let vague = object(vec![
        ("id", Value::Int(3)),
        ("error", object(vec![("code", words("x")), ("message", Value::Int(1))])),
    ]);
    let e = client::accept(3, Ok(vague)).unwrap_err();
    assert_eq!(e.describe(), "cdp error 0: ");
    let null = object(vec![("id", Value::Int(3)), ("error", Value::Null)]);
    assert!(matches!(
        client::accept(3, Ok(null)),
        Err(Error::Protocol { code: 0, .. })
    ));
}

#[test]
fn undecodable_messages_are_errors() {
    let e = client::accept(3, Err("unexpected EOF".to_string())).unwrap_err();
    assert_eq!(e.describe(), "decode: unexpected EOF");
}

#[test]
fn frames_are_received() {
    let reply = object(vec![("id", Value::Int(3)), ("result", Value::Int(9))]);
    let frame = to_vec(&reply).unwrap();
    assert_eq!(client::receive(3, &frame).unwrap(), Some(Value::Int(9)));
    assert_eq!(client::receive(4, &frame).unwrap(), None);
    let refusal = object(vec![("id", Value::Int(3)), ("error", Value::Object(vec![]))]);
    let e = client::receive(3, &to_vec(&refusal).unwrap()).unwrap_err();
    assert_eq!(e.describe(), "cdp error 0: ");
    let e = client::receive(3, &[0xD8]).unwrap_err();
    assert_eq!(e.describe(), "decode: unexpected EOF");
}

fn fault(frame: &[u8]) -> String {
    match client::receive(3, frame) {
        Err(Error::Decode(text)) => text,
        other => panic!("received: {other:?}"),
    }
}

fn fault_in(v: Value) -> String {
    fault(&to_vec(&v).unwrap())
}

fn keyed(keys: Vec<Value>) -> Value {
    Value::Object(keys.into_iter().map(|k| (k, Value::Null)).collect())
}

#[test]
fn byte_strings_are_not_received() {
    let bytes = "invalid type: byte array, expected any valid JSON value";
    assert_eq!(fault(&[0x41, 0x00]), bytes);
    // Also in an event, or deep inside a reply.
    assert_eq!(
        fault_in(object(vec![("method", words("x")), ("params", Value::Bytes(vec![]))])),
        bytes
    );
    assert_eq!(
        fault_in(object(vec![
            ("id", Value::Int(3)),
            ("result", Value::Array(vec![object(vec![("data", Value::Bytes(vec![1]))])])),
        ])),
        bytes
    );
}

#[test]
fn the_first_fault_tells() {
    let bytes = "invalid type: byte array, expected any valid JSON value";
    // The array is cut off behind the byte string.
    assert_eq!(fault(&[0x9F, 0x41, 0x00]), bytes);
    assert_eq!(fault(&[0x9F, 0x41]), "unexpected EOF");
    assert_eq!(fault(&[0x9F, 0xA0, 0x41, 0x00, 0xFF]), "unsupported initial byte 0xa0");
    assert_eq!(fault(&[0x9F, 0x01]), "unexpected EOF");
    // A key that is an array is refused before the array is read.
    assert_eq!(fault(&[0xBF, 0x9F]), "invalid type: sequence, expected a string key");
}

#[test]
fn keys_have_to_be_text() {
    let first = |k: Value| fault_in(keyed(vec![k]));
    let later = |k: Value| fault_in(keyed(vec![words("id"), k]));
    assert_eq!(first(Value::Int(-5)), "invalid type: integer `-5`, expected a string key");
    assert_eq!(later(Value::Int(12)), "invalid type: integer `12`, expected a string");
    assert_eq!(first(Value::Bool(true)), "invalid type: boolean `true`, expected a string key");
    assert_eq!(later(Value::Bool(false)), "invalid type: boolean `false`, expected a string");
    assert_eq!(first(Value::Null), "invalid type: unit value, expected a string key");
    assert_eq!(later(Value::Array(vec![])), "invalid type: sequence, expected a string");
    assert_eq!(first(Value::Object(vec![])), "invalid type: map, expected a string key");
    assert_eq!(
        first(Value::Bytes(b"id".to_vec())),
        "invalid type: byte array, expected a string key"
    );
    assert_eq!(
        later(Value::Bytes(vec![0xFF])),
        "invalid value: byte array, expected a string"
    );
    let double = first(Value::Double(1.5f64.to_bits()));
    assert!(double.starts_with("invalid type: floating point `"));
    assert!(double.ends_with("`, expected a string key"));
    assert_eq!(
        json::double_key_line("1.5", false),
        "invalid type: floating point `1.5`, expected a string"
    );
}

#[test]
fn faults_are_worded_as_serde_words_them() {
    let words_of = |found: serde::de::Unexpected, expected: &str| {
        format!("invalid type: {found}, expected {expected}")
    };
    assert_eq!(
        fault(&[0x41, 0x00]),
        words_of(serde::de::Unexpected::Bytes(&[0]), "any valid JSON value")
    );
    let first = |k: Value| fault_in(keyed(vec![k]));
    assert_eq!(
        first(Value::Int(i64::MIN)),
        words_of(serde::de::Unexpected::Signed(i64::MIN), "a string key")
    );
    assert_eq!(
        first(Value::Bool(true)),
        words_of(serde::de::Unexpected::Bool(true), "a string key")
    );
    assert_eq!(first(Value::Null), words_of(serde::de::Unexpected::Unit, "a string key"));
    assert_eq!(
        json::double_key_line("1.5", true),
        words_of(serde::de::Unexpected::Float(1.5), "a string key")
    );
}

#[test]
fn faults_are_those_of_a_json_value() {
    let bytes = BytesDeserializer::<DeError>::new(&[0]);
    assert_eq!(
        fault(&[0x41, 0x00]),
        serde_json::Value::deserialize(bytes).unwrap_err().to_string()
    );
    let integer = MapDeserializer::<_, DeError>::new(vec![(-5i64, ())].into_iter());
    assert_eq!(
        fault_in(keyed(vec![Value::Int(-5)])),
        serde_json::Value::deserialize(integer).unwrap_err().to_string()
    );
    let flag = MapDeserializer::<_, DeError>::new(vec![(true, ())].into_iter());
    assert_eq!(
        fault_in(keyed(vec![Value::Bool(true)])),
        serde_json::Value::deserialize(flag).unwrap_err().to_string()
    );
    let unit = MapDeserializer::<_, DeError>::new(vec![((), ())].into_iter());
    assert_eq!(
        fault_in(keyed(vec![Value::Null])),
        serde_json::Value::deserialize(unit).unwrap_err().to_string()
    );
    let double = MapDeserializer::<_, DeError>::new(vec![(1.5f64, ())].into_iter());
    assert_eq!(
        json::double_key_line("1.5", true),
        serde_json::Value::deserialize(double).unwrap_err().to_string()
    );
}

#[test]
fn json_forms() {
    let read = |v: Value| json::from_slice(&to_vec(&v).unwrap()).unwrap();
    // Behind the first key, a byte string passes for the text that it spells.
    let reply = || {
        Value::Object(vec![
            (words("id"), Value::Int(3)),
            (Value::Bytes(b"result".to_vec()), words("x")),
        ])
    };
    assert_eq!(read(reply()), object(vec![("id", Value::Int(3)), ("result", words("x"))]));
    assert_eq!(client::receive(3, &to_vec(&reply()).unwrap()).unwrap(), Some(words("x")));
    for v in [f64::NAN, f64::INFINITY, f64::NEG_INFINITY] {
        assert_eq!(read(Value::Double(v.to_bits())), Value::Null);
    }
    for v in [0.0, -0.0, 1.5, f64::MAX, f64::MIN_POSITIVE] {
        assert_eq!(read(Value::Double(v.to_bits())), Value::Double(v.to_bits()));
    }
    let plain = || {
        object(vec![
            ("a", Value::Array(vec![Value::Null, Value::Bool(true)])),
            ("b", Value::Object(vec![])),
        ])
    };
    assert_eq!(read(plain()), plain());
}

#[test]
fn the_first_reply_is_the_reply() {
    let arrivals = || {
        vec![
            object(vec![("method", words("Page.loadEventFired"))]),
            object(vec![("id", Value::Int(4)), ("result", Value::Int(0))]),
            object(vec![("id", Value::Int(3)), ("result", Value::Int(1))]),
            object(vec![("id", Value::Int(3)), ("result", Value::Int(2))]),
        ]
    };
    let mut seen = 0;
    let mut result = None;
    for msg in arrivals() {
        seen += 1;
        result = client::accept(3, Ok(msg)).unwrap();
        if result.is_some() {
            break;
        }
    }
    assert_eq!(seen, 3);
    assert_eq!(result, Some(Value::Int(1)));
}

#[test]
fn io_errors_are_carried() {
    let io = std::io::Error::new(std::io::ErrorKind::UnexpectedEof, "browser closed pipe");
    let e = Error::from(io);
    assert!(matches!(&e, Error::Io(inner) if inner.kind() == std::io::ErrorKind::UnexpectedEof));
    assert_eq!(e.describe(), "io: browser closed pipe");
    assert_eq!(client::io_line("x"), "io: x");
}

#[test]
fn numbers_in_words() {
    for n in [0, 7, 10, 99, 100, -1, -10, i64::MAX, i64::MIN] {
        let mut s = "n=".to_string();
        text::push_decimal(&mut s, n);
        assert_eq!(s, format!("n={n}"));
    }
    let mut s = "0x".to_string();
    text::push_hex(&mut s, 0x0123_ABCD, 4);
    assert_eq!(s, "0x0123abcd");
    for b in [0u8, 9, 10, 15, 16, 0x9F, 0xFF] {
        let mut s = String::new();
        text::push_hex2(&mut s, b);
        assert_eq!(s, format!("{b:02x}"));
    }
}

// Frames.

fn messages() -> Vec<Vec<u8>> {
    vec![
        to_vec(&Value::Object(vec![])).unwrap(),
        to_vec(&object(vec![("id", Value::Int(1)), ("result", words("abc"))])).unwrap(),
        to_vec(&Value::Array(vec![])).unwrap(),
    ]
}

#[test]
fn frames_come_out_as_sent() {
    let stream: Vec<u8> = messages().concat();
    // In pieces of every size.
    for size in 1..=stream.len() {
        let mut b = FrameBuffer::new();
        let mut out = Vec::new();
        for piece in stream.chunks(size) {
            b.feed(piece).unwrap();
            while let Some(frame) = b.next_frame().unwrap() {
                out.push(frame);
            }
        }
        assert_eq!(out, messages());
        assert_eq!(from_slice(&out[1]).unwrap().get("result"), Some(&words("abc")));
        assert!(b.buf.is_empty());
    }
}

#[test]
fn legacy_frames_come_out_as_sent() {
    let legacy = vec![0xD8, 0x5A, 0, 0, 0, 2, 0xBF, 0xFF];
    let empty = vec![0xD8, 0x18, 0x5A, 0, 0, 0, 0];
    let mut b = FrameBuffer::new();
    b.feed(&[legacy.clone(), empty.clone(), legacy.clone()].concat()).unwrap();
    assert_eq!(b.next_frame().unwrap(), Some(legacy.clone()));
    assert_eq!(b.next_frame().unwrap(), Some(empty));
    assert_eq!(b.next_frame().unwrap(), Some(legacy));
    assert_eq!(b.next_frame().unwrap(), None);
}

#[test]
fn an_unfinished_frame_stays_in_the_buffer() {
    let one = &messages()[1];
    let mut b = FrameBuffer::new();
    assert!(b.next_frame().unwrap().is_none());
    b.feed(&one[..one.len() - 1]).unwrap();
    assert!(b.next_frame().unwrap().is_none());
    assert_eq!(b.buf, &one[..one.len() - 1]);
    b.feed(&one[one.len() - 1..]).unwrap();
    assert_eq!(b.next_frame().unwrap().unwrap(), *one);
}

#[test]
fn what_is_no_message_is_refused() {
    let mut b = FrameBuffer::new();
    b.feed(b"{}").unwrap();
    let e = b.next_frame().unwrap_err();
    assert!(matches!(&e, RecvError::InvalidData(_)));
    assert_eq!(e.describe(), "not an envelope: 0x7b");
    assert_eq!(b.buf, b"{}");
}

#[test]
fn nothing_read_means_closed() {
    let mut b = FrameBuffer::new();
    b.feed(&[1, 2]).unwrap();
    let e = b.feed(&[]).unwrap_err();
    assert!(matches!(e, RecvError::UnexpectedEof));
    assert_eq!(e.describe(), "browser closed pipe");
    assert_eq!(b.buf, [1, 2]);
}

// Launching.

#[test]
fn browser_arguments() {
    assert_eq!(
        pipe::browser_args(&["--no-sandbox", "about:blank"]),
        [
            "--remote-debugging-pipe=cbor",
            "--headless=new",
            "--no-first-run",
            "--no-default-browser-check",
            "--user-data-dir=/tmp/rust-cdp-profile",
            "--no-sandbox",
            "about:blank",
        ]
    );
    assert_eq!(pipe::browser_args(&[]).len(), 5);
}

#[test]
fn descriptors_of_the_child() {
    let p = Pipes { a_read: 3, a_write: 4, b_read: 5, b_write: 6 };
    assert_eq!(
        p.child_steps(),
        [
            FdStep::Close(4),
            FdStep::Close(5),
            FdStep::Dup2(3, 3),
            FdStep::Dup2(6, 4),
            FdStep::Close(6),
        ]
    );
    assert_eq!(p.parent_steps(), [FdStep::Close(3), FdStep::Close(6)]);
    let p = Pipes { a_read: 8, a_write: 9, b_read: 10, b_write: 4 };
    assert_eq!(
        p.child_steps(),
        [
            FdStep::Close(9),
            FdStep::Close(10),
            FdStep::Dup2(8, 3),
            FdStep::Dup2(4, 4),
            FdStep::Close(8),
        ]
    );
    let p = Pipes { a_read: 0, a_write: 1, b_read: 2, b_write: 3 };
    assert_eq!(
        p.child_steps(),
        [
            FdStep::Close(1),
            FdStep::Close(2),
            FdStep::Dup2(3, 1),
            FdStep::Dup2(0, 3),
            FdStep::Dup2(1, 4),
            FdStep::Close(1),
            FdStep::Close(0),
        ]
    );
}

#[test]
fn child_ends_up_with_its_two_ends() {
    let ends = |p: Pipes| {
        let mut open = std::collections::BTreeMap::new();
        open.insert(0, "stdin");
        open.insert(p.a_read, "read of A");
        open.insert(p.a_write, "write of A");
        open.insert(p.b_read, "read of B");
        open.insert(p.b_write, "write of B");
        for step in p.child_steps() {
            match step {
                FdStep::Close(fd) => {
                    open.remove(&fd);
                }
                FdStep::Dup2(from, to) => {
                    let end = open[&from];
                    open.insert(to, end);
                }
            }
        }
        open.into_iter().collect::<Vec<(i32, &str)>>()
    };
    let want = vec![(0, "stdin"), (3, "read of A"), (4, "write of B")];
    assert_eq!(ends(Pipes { a_read: 3, a_write: 4, b_read: 5, b_write: 6 }), want);
    assert_eq!(ends(Pipes { a_read: 4, a_write: 3, b_read: 5, b_write: 6 }), want);
    assert_eq!(ends(Pipes { a_read: 7, a_write: 8, b_read: 3, b_write: 4 }), want);
    assert_eq!(ends(Pipes { a_read: 7, a_write: 8, b_read: 9, b_write: 10 }), want);
    // The write end of pipe B stands where the read end of pipe A has to go.
    assert_eq!(ends(Pipes { a_read: 7, a_write: 8, b_read: 9, b_write: 3 }), want);
    assert_eq!(ends(Pipes { a_read: 4, a_write: 8, b_read: 9, b_write: 3 }), want);
    assert_eq!(ends(Pipes { a_read: 7, a_write: 4, b_read: 9, b_write: 3 }), want);
    assert_eq!(ends(Pipes { a_read: 7, a_write: 8, b_read: 4, b_write: 3 }), want);
}

// Waiting for a page.

#[test]
fn waiting_stops_when_the_page_has_loaded() {
    let mut w = LoadWait::new();
    assert_eq!(w.next(), Next::Poll);
    assert_eq!(w.answered(Some("loading")), Next::Pause(50));
    assert_eq!(w.next(), Next::Poll);
    assert_eq!(w.answered(None), Next::Pause(50));
    assert_eq!(w.answered(Some("complete")), Next::Done);
    assert_eq!(w.next(), Next::Done);
    assert!(w.loaded);
}

#[test]
fn waiting_is_bounded() {
    let mut w = LoadWait::new();
    let mut polls = 0;
    while w.next() == Next::Poll {
        polls += 1;
        assert_eq!(w.answered(Some("interactive")), Next::Pause(50));
    }
    assert_eq!(polls, 100);
    assert_eq!(polls, MAX_POLLS);
    assert!(!w.loaded);
}
