use rust_cdp::cbor::be;
use rust_cdp::cbor::consts;
use rust_cdp::cbor::de;
use rust_cdp::cbor::de::{Deserializer, Visit};
use rust_cdp::cbor::ser;
use rust_cdp::cbor::ser::Serializer;
use rust_cdp::cbor::value::Value;
use rust_cdp::cbor::{from_slice, message_len, to_vec};

fn text(s: &str) -> Value {
    Value::Text(s.to_string())
}

fn object(fields: Vec<(&str, Value)>) -> Value {
    Value::Object(fields.into_iter().map(|(k, v)| (text(k), v)).collect())
}

fn encoded(v: Value) -> Vec<u8> {
    to_vec(&v).unwrap()
}

fn navigate() -> Value {
    // A referrer that is not there is not written.
    object(vec![
        ("url", text("https://example.com")),
        ("transition_count", Value::Int(-7)),
        ("active", Value::Bool(true)),
        ("ratio", Value::Double(1.5f64.to_bits())),
        ("frames", Value::Array(vec![text("a"), text("b")])),
    ])
}

#[test]
fn round_trip() {
    let n = navigate();
    let bytes = to_vec(&n).unwrap();
    // Top-level message must look like a crdtp envelope.
    assert!(consts::is_cbor_message(&bytes), "bytes: {bytes:02x?}");
    // The declared frame length must cover exactly the buffer.
    assert_eq!(message_len(&bytes).unwrap(), Some(bytes.len()));
    let back = from_slice(&bytes).unwrap();
    assert_eq!(n, back);
    assert_eq!(back.get("url").unwrap().as_str(), Some("https://example.com"));
    assert!(back.get("referrer").is_none());
    assert_eq!(back.get("transition_count").unwrap().as_i64(), Some(-7));
    assert_eq!(back.get("ratio"), Some(&Value::Double(1.5f64.to_bits())));
}

#[test]
fn envelope_bytes() {
    let bytes = to_vec(&Value::Object(Vec::new())).unwrap();
    assert_eq!(&bytes[..3], &[0xD8, 0x18, 0x5A]);
    let len = u32::from_be_bytes(bytes[3..7].try_into().unwrap());
    assert_eq!(len, 2); // BF FF
    assert_eq!(&bytes[7..], &[0xBF, 0xFF]);

    // A struct without fields is written the same way.
    let mut s = Serializer { out: Vec::new() };
    s.serialize_struct("Empty", 0).unwrap().end().unwrap();
    assert_eq!(s.out, bytes);
}

fn eval_request(id: i64) -> Value {
    object(vec![
        ("id", Value::Int(id)),
        ("method", text("Runtime.evaluate")),
        (
            "params",
            object(vec![
                ("expression", text("document.title")),
                ("returnByValue", Value::Bool(true)),
                ("awaitPromise", Value::Bool(false)),
            ]),
        ),
        ("sessionId", text("A5FF6DD5F68E134D97EEB6044B76873D")),
    ])
}

fn eval_request_json(id: u64) -> serde_json::Value {
    let mut params = serde_json::Map::new();
    params.insert("expression".to_string(), "document.title".into());
    params.insert("returnByValue".to_string(), true.into());
    params.insert("awaitPromise".to_string(), false.into());
    let mut req = serde_json::Map::new();
    req.insert("id".to_string(), id.into());
    req.insert("method".to_string(), "Runtime.evaluate".into());
    req.insert("params".to_string(), serde_json::Value::Object(params));
    req.insert("sessionId".to_string(), "A5FF6DD5F68E134D97EEB6044B76873D".into());
    serde_json::Value::Object(req)
}

/// Compares the codec with serde_json on a realistic request, for both size and
/// encode/decode throughput.
#[test]
fn bench_cbor_vs_json() {
    let cbor = to_vec(&eval_request(42)).unwrap();
    let json = serde_json::to_vec(&eval_request_json(42)).unwrap();
    println!("\n  size:  cbor = {} bytes, json = {} bytes", cbor.len(), json.len());

    const N: u32 = 200_000;
    let t = std::time::Instant::now();
    for i in 0..N {
        std::hint::black_box(to_vec(&eval_request(i as i64)).unwrap());
    }
    let cbor_enc = t.elapsed();
    let t = std::time::Instant::now();
    for i in 0..N {
        std::hint::black_box(serde_json::to_vec(&eval_request_json(i as u64)).unwrap());
    }
    let json_enc = t.elapsed();

    let t = std::time::Instant::now();
    for _ in 0..N {
        let _: Value = std::hint::black_box(from_slice(&cbor).unwrap());
    }
    let cbor_dec = t.elapsed();
    let t = std::time::Instant::now();
    for _ in 0..N {
        let _: serde_json::Value = std::hint::black_box(serde_json::from_slice(&json).unwrap());
    }
    let json_dec = t.elapsed();

    println!("  encode {N} iters: cbor = {cbor_enc:?}, json = {json_enc:?}");
    println!("  decode {N} iters: cbor = {cbor_dec:?}, json = {json_dec:?}\n");
    assert_eq!(from_slice(&cbor).unwrap(), eval_request(42));
}

#[test]
fn integers_take_the_shortest_form() {
    assert_eq!(encoded(Value::Int(0)), [0x00]);
    assert_eq!(encoded(Value::Int(23)), [0x17]);
    assert_eq!(encoded(Value::Int(24)), [0x18, 0x18]);
    assert_eq!(encoded(Value::Int(255)), [0x18, 0xFF]);
    assert_eq!(encoded(Value::Int(256)), [0x19, 0x01, 0x00]);
    assert_eq!(encoded(Value::Int(65535)), [0x19, 0xFF, 0xFF]);
    assert_eq!(encoded(Value::Int(65536)), [0x1A, 0x00, 0x01, 0x00, 0x00]);
    assert_eq!(encoded(Value::Int(0xFFFF_FFFF)), [0x1A, 0xFF, 0xFF, 0xFF, 0xFF]);
    assert_eq!(
        encoded(Value::Int(0x1_0000_0000)),
        [0x1B, 0, 0, 0, 1, 0, 0, 0, 0]
    );
    assert_eq!(encoded(Value::Int(-1)), [0x20]);
    assert_eq!(encoded(Value::Int(-7)), [0x26]);
    assert_eq!(encoded(Value::Int(-25)), [0x38, 0x18]);
    assert_eq!(
        encoded(Value::Int(i64::MIN)),
        [0x3B, 0x7F, 0xFF, 0xFF, 0xFF, 0xFF, 0xFF, 0xFF, 0xFF]
    );
    for v in [0, 23, 24, 255, 256, 65535, 65536, i64::MAX, -1, -24, -25, -256, -257, i64::MIN] {
        assert_eq!(from_slice(&encoded(Value::Int(v))).unwrap(), Value::Int(v));
    }
}

#[test]
fn narrow_integers_are_written_like_wide_ones() {
    let mut s = Serializer { out: Vec::new() };
    s.serialize_i8(-128).unwrap();
    s.serialize_i16(-129).unwrap();
    s.serialize_i32(70000).unwrap();
    s.serialize_i64(-1).unwrap();
    s.serialize_u8(200).unwrap();
    s.serialize_u16(5).unwrap();
    s.serialize_u32(u32::MAX).unwrap();
    s.serialize_u64(10).unwrap();
    let mut want = Vec::new();
    for v in [-128, -129, 70000, -1, 200, 5, 0xFFFF_FFFF, 10] {
        want.extend(encoded(Value::Int(v)));
    }
    assert_eq!(s.out, want);
}

#[test]
fn large_unsigned_integers_become_the_nearest_double() {
    let cases = [
        1u64 << 63,
        (1u64 << 63) + 1,
        (1u64 << 63) + 1023,
        (1u64 << 63) + 1024,
        (1u64 << 63) + 1025,
        (1u64 << 63) + 3072,
        u64::MAX - 1025,
        u64::MAX - 1024,
        u64::MAX - 1023,
        u64::MAX,
        0xDEAD_BEEF_CAFE_F00D,
    ];
    for v in cases {
        let mut s = Serializer { out: Vec::new() };
        s.serialize_u64(v).unwrap();
        assert_eq!(s.out[0], 0xFB);
        assert_eq!(s.out[1..], (v as f64).to_be_bytes());
    }
    let mut s = Serializer { out: Vec::new() };
    s.serialize_u64(i64::MAX as u64).unwrap();
    assert_eq!(s.out, encoded(Value::Int(i64::MAX)));
}

#[test]
fn scalars_have_their_bytes() {
    assert_eq!(encoded(Value::Null), [0xF6]);
    assert_eq!(encoded(Value::Bool(false)), [0xF4]);
    assert_eq!(encoded(Value::Bool(true)), [0xF5]);
    assert_eq!(
        encoded(Value::Double(1.5f64.to_bits())),
        [0xFB, 0x3F, 0xF8, 0, 0, 0, 0, 0, 0]
    );
    assert_eq!(encoded(text("ab")), [0x62, 0x61, 0x62]);
    assert_eq!(encoded(text("é")), [0x62, 0xC3, 0xA9]);
    assert_eq!(encoded(Value::Bytes(vec![1, 2, 3])), [0xD6, 0x43, 1, 2, 3]);
    assert_eq!(
        encoded(Value::Array(vec![Value::Int(1)])),
        [0xD8, 0x18, 0x5A, 0, 0, 0, 3, 0x9F, 0x01, 0xFF]
    );
    assert_eq!(
        encoded(object(vec![("a", Value::Null)])),
        [0xD8, 0x18, 0x5A, 0, 0, 0, 5, 0xBF, 0x61, 0x61, 0xF6, 0xFF]
    );
}

#[test]
fn characters_and_units() {
    let mut s = Serializer { out: Vec::new() };
    s.serialize_char('é').unwrap();
    s.serialize_none().unwrap();
    s.serialize_some(&Value::Int(1)).unwrap();
    s.serialize_unit().unwrap();
    s.serialize_unit_struct("Nothing").unwrap();
    s.serialize_newtype_struct("Id", &text("x")).unwrap();
    s.serialize_bool(true).unwrap();
    s.serialize_bytes(&[9]).unwrap();
    s.serialize_f64(0).unwrap();
    assert_eq!(
        s.out,
        [
            0x62, 0xC3, 0xA9, 0xF6, 0x01, 0xF6, 0xF6, 0x61, 0x78, 0xF5, 0xD6, 0x41, 9, 0xFB, 0, 0,
            0, 0, 0, 0, 0, 0
        ]
    );
}

#[test]
fn tuples_are_arrays() {
    let want = encoded(Value::Array(vec![Value::Int(1), Value::Int(2)]));
    let mut s = Serializer { out: Vec::new() };
    let mut c = s.serialize_tuple(2).unwrap();
    c.serialize_element(&Value::Int(1)).unwrap();
    c.serialize_element(&Value::Int(2)).unwrap();
    c.end().unwrap();
    assert_eq!(s.out, want);
    let mut s = Serializer { out: Vec::new() };
    let mut c = s.serialize_tuple_struct("Pair", 2).unwrap();
    c.serialize_elements(&vec![Value::Int(1), Value::Int(2)]).unwrap();
    c.end().unwrap();
    assert_eq!(s.out, want);
    let mut s = Serializer { out: Vec::new() };
    let mut c = s.serialize_seq(None).unwrap();
    c.write_unsigned(1);
    c.write_encoded(&[0x02]);
    c.finish().unwrap();
    assert_eq!(s.out, want);
}

#[test]
fn fields_are_entries() {
    let want = encoded(object(vec![("a", Value::Int(1)), ("b", text("c"))]));
    let mut s = Serializer { out: Vec::new() };
    let mut c = s.serialize_struct("S", 2).unwrap();
    c.serialize_field("a", &Value::Int(1)).unwrap();
    c.write_text("b");
    c.write_text("c");
    c.end().unwrap();
    assert_eq!(s.out, want);
    let mut s = Serializer { out: Vec::new() };
    let mut c = s.serialize_map(Some(2)).unwrap();
    c.serialize_key(&text("a")).unwrap();
    c.serialize_value(&Value::Int(1)).unwrap();
    c.serialize_entries(&vec![(text("b"), text("c"))]).unwrap();
    c.end().unwrap();
    assert_eq!(s.out, want);
}

#[test]
fn compounds_nest() {
    // The inner envelope stands inside the outer one, with its own length.
    let bytes = encoded(Value::Array(vec![Value::Array(Vec::new())]));
    assert_eq!(
        bytes,
        [
            0xD8, 0x18, 0x5A, 0, 0, 0, 11, 0x9F, 0xD8, 0x18, 0x5A, 0, 0, 0, 2, 0x9F, 0xFF, 0xFF
        ]
    );
    assert_eq!(
        from_slice(&bytes).unwrap(),
        Value::Array(vec![Value::Array(Vec::new())])
    );
}

#[test]
fn variants_with_many_fields_are_refused() {
    let mut s = Serializer { out: vec![1] };
    let e = match s.serialize_tuple_variant("E", 0, "V", 2) {
        Err(e) => e,
        Ok(_) => panic!("accepted"),
    };
    assert_eq!(e.0, "tuple variant unsupported in crdtp dialect");
    assert_eq!(e.describe(), "cbor ser: tuple variant unsupported in crdtp dialect");
    let e = match s.serialize_struct_variant("E", 0, "V", 2) {
        Err(e) => e,
        Ok(_) => panic!("accepted"),
    };
    assert_eq!(e.0, "struct variant unsupported in crdtp dialect");
    assert_eq!(s.out, [1]);
}

fn pair() -> Value {
    Value::TupleVariant("Pair".to_string(), vec![Value::Int(1), Value::Int(2)])
}

fn point() -> Value {
    Value::StructVariant("Point".to_string(), vec![(text("x"), Value::Int(1))])
}

#[test]
fn values_with_such_variants_are_refused() {
    let tuple = "tuple variant unsupported in crdtp dialect";
    let fields = "struct variant unsupported in crdtp dialect";
    assert_eq!(to_vec(&pair()).unwrap_err().0, tuple);
    assert_eq!(to_vec(&point()).unwrap_err().0, fields);
    // Anywhere; the first one tells.
    assert_eq!(to_vec(&Value::Array(vec![Value::Null, pair()])).unwrap_err().0, tuple);
    assert_eq!(to_vec(&Value::Array(vec![point(), pair()])).unwrap_err().0, fields);
    assert_eq!(to_vec(&object(vec![("a", object(vec![("b", point())]))])).unwrap_err().0, fields);
    assert_eq!(to_vec(&Value::Object(vec![(pair(), point())])).unwrap_err().0, tuple);
    let mut s = Serializer { out: Vec::new() };
    assert_eq!(s.serialize_some(&pair()).unwrap_err().0, tuple);
    assert_eq!(s.serialize_newtype_struct("N", &pair()).unwrap_err().0, tuple);
    assert!(s.out.is_empty());
}

#[test]
fn refused_values_leave_the_buffer_in_front() {
    let mut buf = vec![7, 8];
    let v = Value::Array(vec![Value::Int(1), Value::Array(vec![point()]), Value::Int(2)]);
    let e = ser::to_buf(&v, &mut buf).unwrap_err();
    assert_eq!(e.0, "struct variant unsupported in crdtp dialect");
    // What was written of the value stays behind, in envelopes without lengths.
    assert_eq!(
        buf,
        [
            7, 8, 0xD8, 0x18, 0x5A, 0, 0, 0, 0, 0x9F, 0x01, 0xD8, 0x18, 0x5A, 0, 0, 0, 0, 0x9F
        ]
    );
    let mut buf = vec![7];
    assert!(ser::to_buf(&pair(), &mut buf).is_err());
    assert_eq!(buf, [7]);
    let mut s = Serializer { out: Vec::new() };
    assert!(s.serialize_newtype_variant("E", 0, "a", &pair()).is_err());
    assert_eq!(s.out, [0xD8, 0x18, 0x5A, 0, 0, 0, 0, 0xBF, 0x61, 0x61]);
    let mut s = Serializer { out: Vec::new() };
    let mut c = s.serialize_struct("S", 1).unwrap();
    assert!(c.serialize_field("k", &pair()).is_err());
    assert!(c.serialize_element(&point()).is_err());
    c.end().unwrap();
    assert_eq!(s.out, [0xD8, 0x18, 0x5A, 0, 0, 0, 4, 0xBF, 0x61, 0x6B, 0xFF]);
}

#[test]
fn to_buf_appends() {
    let mut buf = vec![7, 8];
    ser::to_buf(&Value::Int(1), &mut buf).unwrap();
    ser::to_buf(&text("a"), &mut buf).unwrap();
    assert_eq!(buf, [7, 8, 0x01, 0x61, 0x61]);
}

#[test]
fn envelopes_are_patched_in_place() {
    let mut s = Serializer { out: vec![1] };
    let pos = s.open_envelope();
    assert_eq!(pos, 4);
    assert_eq!(s.out, [1, 0xD8, 0x18, 0x5A, 0, 0, 0, 0]);
    s.out.extend_from_slice(&[0u8; 300]);
    s.close_envelope(pos);
    assert_eq!(s.out[..8], [1, 0xD8, 0x18, 0x5A, 0, 0, 1, 44]);
    assert_eq!(s.out.len(), 308);
}

#[test]
fn token_start_counts_three_bits_of_the_major_type() {
    let mut s = Serializer { out: Vec::new() };
    s.write_token_start(3, 5);
    s.write_token_start(11, 5);
    assert_eq!(s.out, [0x65, 0x65]);
}

// Decoding.

fn fault(bytes: &[u8]) -> String {
    from_slice(bytes).unwrap_err().0
}

#[test]
fn decode_does_what_from_slice_does() {
    let bytes = encoded(navigate());
    assert_eq!(de::decode(&bytes).unwrap(), navigate());
    assert_eq!(de::decode(&[]).unwrap_err().0, "unexpected EOF");
}

#[test]
fn what_follows_a_value_is_not_looked_at() {
    let mut bytes = encoded(navigate());
    bytes.extend_from_slice(&[0xFF, 0x00, 0x13]);
    assert_eq!(from_slice(&bytes).unwrap(), navigate());
}

#[test]
fn truncated_messages_are_refused() {
    let bytes = encoded(navigate());
    for n in 0..bytes.len() {
        assert_eq!(fault(&bytes[..n]), "unexpected EOF");
    }
}

#[test]
fn decoder_errors() {
    assert_eq!(fault(&[]), "unexpected EOF");
    assert_eq!(from_slice(&[]).unwrap_err().describe(), "cbor de: unexpected EOF");
    assert_eq!(fault(&[0x1C]), "bad additional info 28");
    assert_eq!(fault(&[0x1E]), "bad additional info 30");
    assert_eq!(fault(&[0xD8, 0x18, 0x00]), "envelope missing byte-string header");
    assert_eq!(fault(&[0xD8, 0x61, 0x61]), "envelope missing byte-string header");
    assert_eq!(fault(&[0x81, 0x00]), "unsupported initial byte 0x81");
    assert_eq!(fault(&[0xA0]), "unsupported initial byte 0xa0");
    assert_eq!(fault(&[0xF7]), "unsupported initial byte 0xf7");
    assert_eq!(fault(&[0xFF]), "unsupported initial byte 0xff");
    assert_eq!(fault(&[0xFB, 0, 0]), "unexpected EOF");
    // An indefinite-length string has no length that could be there.
    assert_eq!(fault(&[0x7F, 0x61, 0x61, 0xFF]), "unexpected EOF");
    assert_eq!(fault(&[0x5B, 0xFF, 0xFF, 0xFF, 0xFF, 0xFF, 0xFF, 0xFF, 0xFF]), "unexpected EOF");
}

#[test]
fn text_has_to_be_utf8() {
    let want = std::str::from_utf8(&[0x61, 0xFF]).unwrap_err().to_string();
    assert_eq!(fault(&[0x62, 0x61, 0xFF]), want);
    assert_eq!(from_slice(&[0x62, 0xC3, 0xA9]).unwrap(), text("é"));
    let want = std::str::from_utf8(&[0xC3]).unwrap_err().to_string();
    assert_eq!(fault(&[0x61, 0xC3, 0xA9]), want);
}

#[test]
fn strings_are_asked_for_by_major_type() {
    let mut d = Deserializer { input: &[0x43, 1, 2, 3], pos: 0 };
    assert_eq!(d.read_str().unwrap_err().0, "expected string, major 2");
    assert_eq!(d.pos, 1);
    let mut d = Deserializer { input: &[0x61, 0x61], pos: 0 };
    assert_eq!(d.read_str().unwrap(), "a");
    assert_eq!(d.pos, 2);
}

#[test]
fn unsigned_payloads_wrap_into_64_bits() {
    let all = [0x1B, 0xFF, 0xFF, 0xFF, 0xFF, 0xFF, 0xFF, 0xFF, 0xFF];
    assert_eq!(from_slice(&all).unwrap(), Value::Int(-1));
    let negative = [0x3B, 0xFF, 0xFF, 0xFF, 0xFF, 0xFF, 0xFF, 0xFF, 0xFF];
    assert_eq!(from_slice(&negative).unwrap(), Value::Int(0));
    let half = [0x3B, 0x80, 0, 0, 0, 0, 0, 0, 0];
    assert_eq!(from_slice(&half).unwrap(), Value::Int(i64::MAX));
}

#[test]
fn tags_are_passed_over() {
    assert_eq!(from_slice(&[0xD6, 0x42, 1, 2]).unwrap(), Value::Bytes(vec![1, 2]));
    assert_eq!(from_slice(&[0xC1, 0xC2, 0x05]).unwrap(), Value::Int(5));
    assert_eq!(from_slice(&[0xD9, 1, 0, 0x05]).unwrap(), Value::Int(5));
}

#[test]
fn legacy_envelopes_are_read() {
    // Without the tag byte 0x18.
    let bytes = [0xD8, 0x5A, 0, 0, 0, 3, 0x9F, 0x01, 0xFF];
    assert!(consts::is_cbor_message(&bytes));
    assert_eq!(message_len(&bytes).unwrap(), Some(9));
    assert_eq!(from_slice(&bytes).unwrap(), Value::Array(vec![Value::Int(1)]));
}

#[test]
fn envelope_bounds_its_item() {
    // Between the stop byte and the end of the inner envelope stand two bytes
    // that nobody reads.
    let inner = [0xD8, 0x18, 0x5A, 0, 0, 0, 4, 0x9F, 0xFF, 0xAA, 0xAA];
    let mut bytes = vec![0x9F];
    bytes.extend_from_slice(&inner);
    bytes.extend_from_slice(&[0x05, 0xFF]);
    assert_eq!(
        from_slice(&bytes).unwrap(),
        Value::Array(vec![Value::Array(Vec::new()), Value::Int(5)])
    );
    // The length of the outermost envelope may say anything.
    let lying = [0xD8, 0x18, 0x5A, 0xFF, 0xFF, 0xFF, 0xFF, 0x9F, 0xFF];
    assert_eq!(from_slice(&lying).unwrap(), Value::Array(Vec::new()));
}

#[test]
fn a_part_of_an_array_can_be_read() {
    let mut bytes = encoded(Value::Array(vec![Value::Int(1), Value::Int(2), Value::Int(3)]));
    bytes.push(0x18);
    bytes.push(0x2A);
    let mut d = Deserializer { input: &bytes, pos: 0 };
    let end = match d.next_visit().unwrap() {
        Visit::Envelope(end) => end,
        _ => panic!("no envelope"),
    };
    assert!(matches!(d.next_visit().unwrap(), Visit::ArrayStart));
    assert_eq!(d.next_element().unwrap(), Some(Value::Int(1)));
    d.leave_envelope(end);
    assert_eq!(d.deserialize_any().unwrap(), Value::Int(42));
}

#[test]
fn visits_say_what_comes_next() {
    let bytes = [
        0x05, 0x24, 0x41, 9, 0x61, 0x61, 0x9F, 0xBF, 0xF4, 0xF5, 0xF6, 0xFB, 0, 0, 0, 0, 0, 0, 0, 1,
    ];
    let mut d = Deserializer { input: &bytes, pos: 0 };
    assert!(matches!(d.next_visit().unwrap(), Visit::Int(5)));
    assert!(matches!(d.next_visit().unwrap(), Visit::Int(-5)));
    assert!(matches!(d.next_visit().unwrap(), Visit::Bytes(&[9])));
    assert!(matches!(d.next_visit().unwrap(), Visit::Text("a")));
    assert!(matches!(d.next_visit().unwrap(), Visit::ArrayStart));
    assert!(matches!(d.next_visit().unwrap(), Visit::ObjectStart));
    assert!(matches!(d.next_visit().unwrap(), Visit::Bool(false)));
    assert!(matches!(d.next_visit().unwrap(), Visit::Bool(true)));
    assert!(matches!(d.next_visit().unwrap(), Visit::Null));
    assert!(matches!(d.next_visit().unwrap(), Visit::Double(1)));
    assert_eq!(d.pos, bytes.len());
    assert!(d.next_visit().is_err());
}

#[test]
fn cursor_steps() {
    let mut d = Deserializer { input: &[1, 2, 3, 4], pos: 0 };
    assert_eq!(d.peek().unwrap(), 1);
    assert_eq!(d.take().unwrap(), 1);
    assert_eq!(d.take_n(2).unwrap(), &[2, 3]);
    assert_eq!(d.take_n(2).unwrap_err().0, "unexpected EOF");
    assert_eq!(d.pos, 3);
    assert_eq!(d.take_n(usize::MAX).unwrap_err().0, "unexpected EOF");
    assert_eq!(d.take_n(1).unwrap(), &[4]);
    assert!(d.peek().is_err());
    assert!(d.take().is_err());
    assert_eq!(d.pos, 4);
}

#[test]
fn tokens_are_read_back() {
    for v in [0u64, 23, 24, 255, 256, 65535, 65536, 0xFFFF_FFFF, 0x1_0000_0000, u64::MAX] {
        let mut s = Serializer { out: Vec::new() };
        s.write_token_start(2, v);
        let mut d = Deserializer { input: &s.out, pos: 0 };
        assert_eq!(d.read_token().unwrap(), (2, v));
        assert_eq!(d.pos, s.out.len());
    }
    let mut d = Deserializer { input: &[0x9F], pos: 0 };
    assert_eq!(d.read_token().unwrap(), (4, u64::MAX));
}

#[test]
fn envelope_headers_are_entered_and_skipped() {
    let bytes = [0xD8, 0x18, 0x5A, 0, 0, 0, 2, 0x9F, 0xFF];
    let mut d = Deserializer { input: &bytes, pos: 0 };
    assert_eq!(d.enter_envelope().unwrap(), 9);
    assert_eq!(d.pos, 7);
    let mut d = Deserializer { input: &bytes, pos: 0 };
    d.skip_envelope().unwrap();
    assert_eq!(d.pos, 7);
    d.skip_envelope().unwrap();
    assert_eq!(d.pos, 7);
    // An envelope may claim to end past everything.
    let huge = [0xD8, 0x18, 0x5B, 0xFF, 0xFF, 0xFF, 0xFF, 0xFF, 0xFF, 0xFF, 0xFF, 0x05];
    let mut d = Deserializer { input: &huge, pos: 0 };
    assert_eq!(d.enter_envelope().unwrap(), usize::MAX);
}

#[test]
fn arrays_and_objects_are_read_up_to_the_stop_byte() {
    let mut d = Deserializer { input: &[0x01, 0x02, 0xFF, 0x03], pos: 0 };
    assert_eq!(d.visit_seq().unwrap(), vec![Value::Int(1), Value::Int(2)]);
    assert_eq!(d.pos, 3);
    let mut d = Deserializer { input: &[0x01, 0x02, 0xFF], pos: 0 };
    assert_eq!(d.next_key().unwrap(), Some(Value::Int(1)));
    assert_eq!(d.next_value().unwrap(), Value::Int(2));
    assert_eq!(d.next_key().unwrap(), None);
    let mut d = Deserializer { input: &[0x61, 0x61, 0xF5, 0xFF], pos: 0 };
    assert_eq!(d.visit_map().unwrap(), vec![(text("a"), Value::Bool(true))]);
    // A stop byte in place of a value is no value.
    let mut d = Deserializer { input: &[0x61, 0x61, 0xFF], pos: 0 };
    assert_eq!(d.visit_map().unwrap_err().0, "unsupported initial byte 0xff");
}

#[test]
fn null_is_a_missing_value() {
    let mut d = Deserializer { input: &[0xF6, 0x05], pos: 0 };
    assert!(d.deserialize_option().unwrap());
    assert!(!d.deserialize_option().unwrap());
    assert_eq!(d.pos, 1);
    d.deserialize_unit().unwrap();
    assert_eq!(d.pos, 1);
    let mut d = Deserializer { input: &[0xF6], pos: 0 };
    d.deserialize_unit().unwrap();
    assert_eq!(d.pos, 1);
    assert!(d.deserialize_unit().is_err());
}

#[test]
fn variants_are_read_back() {
    let mut s = Serializer { out: Vec::new() };
    s.serialize_unit_variant("Kind", 0, "page").unwrap();
    let mut d = Deserializer { input: &s.out, pos: 0 };
    assert_eq!(d.deserialize_enum().unwrap(), Some("page"));
    assert_eq!(d.pos, s.out.len());

    let mut s = Serializer { out: Vec::new() };
    s.serialize_newtype_variant("Kind", 1, "other", &Value::Int(3)).unwrap();
    assert_eq!(s.out, encoded(object(vec![("other", Value::Int(3))])));
    let mut d = Deserializer { input: &s.out, pos: 0 };
    assert_eq!(d.deserialize_enum().unwrap(), None);
    assert_eq!(d.deserialize_any().unwrap(), text("other"));
    assert_eq!(d.deserialize_any().unwrap(), Value::Int(3));
    assert!(d.take_stop().unwrap());
    assert_eq!(d.pos, s.out.len());

    let mut d = Deserializer { input: &[0x05], pos: 0 };
    assert_eq!(d.deserialize_enum().unwrap_err().0, "expected string, major 0");
}

#[test]
fn message_length() {
    assert_eq!(message_len(&[]).unwrap(), None);
    assert_eq!(message_len(&[0x7B]).unwrap_err().0, "not an envelope: 0x7b");
    assert_eq!(message_len(&[0xD8]).unwrap(), None);
    assert_eq!(message_len(&[0xD8, 0x18]).unwrap(), None);
    assert_eq!(message_len(&[0xD8, 0x18, 0x5A, 0, 0, 0]).unwrap(), None);
    assert_eq!(message_len(&[0xD8, 0x18, 0x5A, 0, 0, 1, 2]).unwrap(), Some(265));
    assert_eq!(message_len(&[0xD8, 0x18, 0x5A, 0, 0, 1, 2, 0xBF]).unwrap(), Some(265));
    assert_eq!(message_len(&[0xD8, 0x00, 0x5A, 0, 0, 1, 2]).unwrap(), None);
}

#[test]
fn message_starts() {
    assert!(consts::is_cbor_message(&[0xD8, 0x18, 0x5A, 0]));
    assert!(consts::is_cbor_message(&[0xD8, 0x5A, 0, 0]));
    assert!(consts::is_cbor_message(&[0xD8, 0x18, 0x5A]));
    assert!(consts::is_cbor_message(&[0xD8, 0x5A]));
    assert!(!consts::is_cbor_message(&[]));
    assert!(!consts::is_cbor_message(&[0xD8]));
    assert!(!consts::is_cbor_message(&[0xD8, 0x18]));
    assert!(!consts::is_cbor_message(&[0xD8, 0x18, 0x18]));
    assert!(!consts::is_cbor_message(&[0x18, 0x5A]));
    assert!(!consts::is_cbor_message(&[0xD8, 0x18, 0x5B, 0]));
    assert!(!consts::is_cbor_message(b"{\"id\":1}"));
    assert_eq!(consts::split_initial(0xD8), (6, 24));
}

#[test]
fn big_endian_numbers() {
    let mut out = Vec::new();
    be::push_be(&mut out, 0x0102_0304, 4);
    be::push_be(&mut out, 0x0102_0304, 2);
    assert_eq!(out, [1, 2, 3, 4, 3, 4]);
    assert_eq!(be::read_be(&[1, 2, 3, 4]), 0x0102_0304);
    assert_eq!(be::read_be(&[0xFF; 8]), u64::MAX);
    assert_eq!(be::read_be(&[]), 0);
}

#[test]
fn different_values_have_different_encodings() {
    let values = [
        Value::Null,
        Value::Bool(false),
        Value::Int(0),
        Value::Int(-1),
        Value::Double(0),
        text(""),
        Value::Bytes(Vec::new()),
        Value::Array(Vec::new()),
        Value::Object(Vec::new()),
        Value::Array(vec![Value::Array(Vec::new())]),
    ];
    for (i, a) in values.iter().enumerate() {
        for (j, b) in values.iter().enumerate() {
            assert_eq!(i == j, to_vec(a).unwrap() == to_vec(b).unwrap());
        }
    }
}

#[test]
fn last_entry_with_a_key_counts() {
    let v = object(vec![("a", Value::Int(1)), ("b", Value::Int(2)), ("a", Value::Int(3))]);
    assert_eq!(v.get("a"), Some(&Value::Int(3)));
    assert_eq!(v.get("c"), None);
    assert_eq!(Value::Array(vec![]).get("a"), None);
    assert_eq!(Value::Object(vec![(Value::Int(1), Value::Null)]).get("1"), None);
    assert_eq!(Value::Int(-1).as_u64(), None);
    assert_eq!(Value::Int(7).as_u64(), Some(7));
    assert_eq!(Value::Double(0).as_i64(), None);
    assert_eq!(text("x").as_str(), Some("x"));
    assert_eq!(Value::Null.as_str(), None);
}
