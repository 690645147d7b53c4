use nyrodb::frame::{decode_payload, make_frame, make_payload};
use nyrodb::json::{json_to_record, parse_canon_u64, record_to_json, u64_to_dec};
use nyrodb::models::{rec_get_id, JsonVal, Record};

fn rec(fields: Vec<(&str, JsonVal)>) -> Record {
    Record {
        fields: fields.into_iter().map(|(n, v)| (n.to_string(), v)).collect(),
    }
}

fn user_record() -> Record {
    rec(vec![
        ("id", JsonVal::UInt(1)),
        ("email", JsonVal::Str("a@b".to_string())),
        ("hash_password", JsonVal::Str("x".to_string())),
        ("created_at", JsonVal::UInt(0)),
    ])
}

#[test]
fn decimal_encoding() {
    assert_eq!(u64_to_dec(0), b"0".to_vec());
    assert_eq!(u64_to_dec(7), b"7".to_vec());
    assert_eq!(u64_to_dec(1234567890), b"1234567890".to_vec());
    assert_eq!(u64_to_dec(u64::MAX), b"18446744073709551615".to_vec());
}

#[test]
fn decimal_parsing() {
    assert_eq!(parse_canon_u64(&b"0".to_vec()), Some(0));
    assert_eq!(parse_canon_u64(&b"42".to_vec()), Some(42));
    assert_eq!(parse_canon_u64(&b"18446744073709551615".to_vec()), Some(u64::MAX));
    // leading zero, sign, overflow and non-digits are not canonical
    assert_eq!(parse_canon_u64(&b"042".to_vec()), None);
    assert_eq!(parse_canon_u64(&b"-1".to_vec()), None);
    assert_eq!(parse_canon_u64(&b"18446744073709551616".to_vec()), None);
    assert_eq!(parse_canon_u64(&b"1.5".to_vec()), None);
}

#[test]
fn record_serializes_canonically() {
    let r = user_record();
    let bytes = record_to_json(&r);
    assert_eq!(
        bytes,
        br#"{"id":1,"email":"a@b","hash_password":"x","created_at":0}"#.to_vec()
    );
}

#[test]
fn record_round_trips() {
    let r = rec(vec![
        ("id", JsonVal::UInt(9)),
        ("flag", JsonVal::Bool(true)),
        ("gone", JsonVal::Null),
        ("note", JsonVal::Str("he said \"hi\"\n".to_string())),
        ("ratio", JsonVal::Num("-1.5e3".to_string())),
    ]);
    let bytes = record_to_json(&r);
    let back = json_to_record(&bytes).expect("canonical bytes parse");
    assert_eq!(record_to_json(&back), bytes);
    assert_eq!(rec_get_id(&back), Some(9));
}

#[test]
fn string_escapes_round_trip() {
    let r = rec(vec![(
        "s",
        JsonVal::Str("tab\t backslash \\ quote \" newline \n bell \u{7} ünïcødé".to_string()),
    )]);
    let bytes = record_to_json(&r);
    let back = json_to_record(&bytes).expect("escaped text parses");
    assert_eq!(record_to_json(&back), bytes);
    match &back.fields[0].1 {
        JsonVal::Str(s) => {
            assert_eq!(s, "tab\t backslash \\ quote \" newline \n bell \u{7} ünïcødé")
        }
        _ => panic!("expected a string value"),
    }
}

#[test]
fn bad_json_is_rejected() {
    assert!(json_to_record(&b"{".to_vec()).is_none());
    assert!(json_to_record(&b"".to_vec()).is_none());
    assert!(json_to_record(&b"[1]".to_vec()).is_none());
    // duplicate keys are not canonical
    assert!(json_to_record(&br#"{"a":1,"a":2}"#.to_vec()).is_none());
    // trailing bytes are not part of one record
    assert!(json_to_record(&br#"{"a":1}x"#.to_vec()).is_none());
    // an empty object is fine
    let empty = json_to_record(&b"{}".to_vec()).expect("empty object");
    assert_eq!(empty.fields.len(), 0);
}

#[test]
fn non_canonical_numbers_are_rejected() {
    // a number that is a canonical u64 must parse as one, not as raw text
    let one = json_to_record(&br#"{"id":1}"#.to_vec()).expect("parses");
    match &one.fields[0].1 {
        JsonVal::UInt(n) => assert_eq!(*n, 1),
        _ => panic!("expected a u64 value"),
    }
    // non-u64 numbers keep their text
    let neg = json_to_record(&br#"{"x":-2.5}"#.to_vec()).expect("parses");
    match &neg.fields[0].1 {
        JsonVal::Num(t) => assert_eq!(t, "-2.5"),
        _ => panic!("expected a number literal"),
    }
}

#[test]
fn payload_round_trips() {
    let data = record_to_json(&user_record());
    let payload = make_payload(1234, 0, data.clone());
    assert_eq!(payload.len(), 17 + data.len());
    let (ts, op, back) = decode_payload(&payload).expect("payload decodes");
    assert_eq!(ts, 1234);
    assert_eq!(op, 0);
    assert_eq!(record_to_json(&back), data);
}

#[test]
fn corrupt_payload_is_rejected() {
    let data = record_to_json(&user_record());
    let mut payload = make_payload(1234, 0, data);
    // truncating breaks the embedded length
    payload.pop();
    assert!(decode_payload(&payload).is_none());
    assert!(decode_payload(&b"short".to_vec()).is_none());
}

#[test]
fn frame_has_length_header() {
    let payload = make_payload(7, 0, record_to_json(&user_record()));
    let frame = make_frame(&payload);
    assert_eq!(frame.len(), 4 + payload.len());
    let n = u32::from_le_bytes([frame[0], frame[1], frame[2], frame[3]]);
    assert_eq!(n as usize, payload.len());
}

#[test]
fn nested_values_round_trip() {
    let r = rec(vec![
        ("id", JsonVal::UInt(4)),
        (
            "profile",
            JsonVal::Nested(r#"{"name":"n","tags":["a","}x{"],"deep":{"k":[1,2]}}"#.to_string()),
        ),
        ("list", JsonVal::Nested("[1,\"]\",{\"q\":null}]".to_string())),
    ]);
    let bytes = record_to_json(&r);
    assert_eq!(
        bytes,
        br#"{"id":4,"profile":{"name":"n","tags":["a","}x{"],"deep":{"k":[1,2]}},"list":[1,"]",{"q":null}]}"#
            .to_vec()
    );
    let back = json_to_record(&bytes).expect("nested values parse");
    assert_eq!(record_to_json(&back), bytes);
    match &back.fields[1].1 {
        JsonVal::Nested(t) => {
            assert_eq!(t, r#"{"name":"n","tags":["a","}x{"],"deep":{"k":[1,2]}}"#)
        }
        _ => panic!("expected a nested value"),
    }
}

#[test]
fn unbalanced_nested_values_are_rejected() {
    // a torn nested tail leaves the record without its close
    assert!(json_to_record(&br#"{"a":{"x":1}"#.to_vec()).is_none());
    assert!(json_to_record(&br#"{"a":[1,2"#.to_vec()).is_none());
    // the balance scan pairs any close with any opener, so a mismatched
    // close still delimits the value
    let odd = json_to_record(&br#"{"a":[1}}"#.to_vec()).expect("balanced by count");
    match &odd.fields[0].1 {
        JsonVal::Nested(t) => assert_eq!(t, "[1}"),
        _ => panic!("expected a nested value"),
    }
}
