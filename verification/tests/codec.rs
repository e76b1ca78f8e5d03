//! Round-trip and conformance tests for the wire codec and the
//! linear-memory marshaling convention.

use debugger::abi::{
    decode_list, decode_record, decode_record_list, decode_string, encode_list, encode_record,
    encode_record_list, encode_ret_area, encode_string, read_ret_area, FieldKind, Mem,
};
use debugger::json::{decode_payload, encode_payload};
use debugger::value::{FieldVal, Item, RecordVal, Scalar};

fn roundtrip(items: Vec<Item>) {
    let bytes = encode_payload(&items);
    let back = decode_payload(&bytes).expect("encoded payload must decode");
    assert_eq!(back, items);
}

#[test]
fn roundtrip_primitive() {
    roundtrip(vec![Item::Sc(Scalar::Int(0))]);
    roundtrip(vec![Item::Sc(Scalar::Int(42)), Item::Sc(Scalar::Int(-7))]);
    roundtrip(vec![Item::Sc(Scalar::Int(i64::MAX)), Item::Sc(Scalar::Int(i64::MIN))]);
}

#[test]
fn roundtrip_string() {
    roundtrip(vec![Item::Sc(Scalar::Str(b"hello".to_vec()))]);
    roundtrip(vec![Item::Sc(Scalar::Str(b"".to_vec()))]);
    // quotes and backslashes pass through the two escapes
    roundtrip(vec![Item::Sc(Scalar::Str(br#"say "hi" \ bye"#.to_vec()))]);
}

#[test]
fn roundtrip_list_of_primitives() {
    roundtrip(vec![Item::ScList(vec![Scalar::Int(1), Scalar::Int(2), Scalar::Int(3)])]);
    roundtrip(vec![Item::ScList(vec![])]);
    roundtrip(vec![Item::ScList(vec![Scalar::Str(b"a".to_vec()), Scalar::Int(-1)])]);
}

fn sample_record(tag: &[u8], n: i64) -> RecordVal {
    RecordVal {
        fields: vec![
            FieldVal { name: b"str".to_vec(), value: Scalar::Str(tag.to_vec()) },
            FieldVal { name: b"idx".to_vec(), value: Scalar::Int(n) },
        ],
    }
}

#[test]
fn roundtrip_record_with_mixed_fields() {
    roundtrip(vec![Item::Rec(sample_record(b"a", 3))]);
    roundtrip(vec![Item::Rec(RecordVal { fields: vec![] })]);
}

#[test]
fn roundtrip_list_of_records() {
    roundtrip(vec![Item::RecList(vec![sample_record(b"x", 0), sample_record(b"y", 2)])]);
}

#[test]
fn roundtrip_empty_payload() {
    roundtrip(vec![]);
}

#[test]
fn encoder_is_canonical() {
    let items = vec![Item::Sc(Scalar::Int(2)), Item::Sc(Scalar::Int(10))];
    assert_eq!(encode_payload(&items), b"[2,10]".to_vec());
    let items = vec![Item::Rec(sample_record(b"a", 0))];
    assert_eq!(encode_payload(&items), br#"[{"str":"a","idx":0}]"#.to_vec());
}

#[test]
fn decoder_accepts_whitespace() {
    let spaced = decode_payload(b" [ 2 , 10 ] ").unwrap();
    let tight = decode_payload(b"[2,10]").unwrap();
    assert_eq!(spaced, tight);
}

#[test]
fn decoder_rejects_leading_zeros() {
    assert!(decode_payload(b"[01]").is_none());
    assert!(decode_payload(b"[-01]").is_none());
    assert!(decode_payload(b"[0]").is_some());
}

#[test]
fn decoder_handles_integer_bounds() {
    let max = decode_payload(b"[9223372036854775807]").unwrap();
    assert_eq!(max, vec![Item::Sc(Scalar::Int(i64::MAX))]);
    let min = decode_payload(b"[-9223372036854775808]").unwrap();
    assert_eq!(min, vec![Item::Sc(Scalar::Int(i64::MIN))]);
    assert!(decode_payload(b"[9223372036854775808]").is_none());
    assert!(decode_payload(b"[-9223372036854775809]").is_none());
}

#[test]
fn decoder_rejects_trailing_garbage() {
    assert!(decode_payload(b"[1] x").is_none());
    assert!(decode_payload(b"[1][2]").is_none());
    assert!(decode_payload(b"[1").is_none());
    assert!(decode_payload(b"1").is_none());
}

#[test]
fn decoder_rejects_unknown_escapes_and_literals() {
    assert!(decode_payload(br#"["a\nb"]"#).is_none());
    assert!(decode_payload(b"[true]").is_none());
    assert!(decode_payload(b"[null]").is_none());
    assert!(decode_payload(b"[1.5]").is_none());
}

#[test]
fn codec_agrees_with_reference_json_parser() {
    let items = vec![
        Item::Sc(Scalar::Int(-12)),
        Item::Sc(Scalar::Str(br#"q"uo\te"#.to_vec())),
        Item::RecList(vec![sample_record(b"a", 1)]),
    ];
    let bytes = encode_payload(&items);
    // the canonical output is real JSON
    let v: serde_json::Value = serde_json::from_slice(&bytes).expect("canonical output is JSON");
    let arr = v.as_array().unwrap();
    assert_eq!(arr.len(), 3);
    assert_eq!(arr[0], serde_json::Value::from(-12));
    assert_eq!(arr[1].as_str().unwrap().as_bytes(), br#"q"uo\te"#);
    assert_eq!(arr[2][0]["str"], serde_json::Value::from("a"));
    assert_eq!(arr[2][0]["idx"], serde_json::Value::from(1));
    // and JSON text produced elsewhere decodes to the same values
    // (records stay out of this half: the reference parser reorders keys)
    let scalars = vec![Item::Sc(Scalar::Int(-12)), Item::ScList(vec![Scalar::Int(3), Scalar::Str(
        b"ok".to_vec(),
    )])];
    let w: serde_json::Value = serde_json::from_slice(&encode_payload(&scalars)).unwrap();
    let pretty = serde_json::to_vec_pretty(&w).unwrap();
    assert_eq!(decode_payload(&pretty).unwrap(), scalars);
}

#[test]
fn abi_string_roundtrip() {
    let mut mem = Mem::new();
    let (off, len) = encode_string(&mut mem, b"linear memory");
    assert_eq!(decode_string(&mem, off, len), b"linear memory".to_vec());
    // a second buffer leaves the first intact
    let (off2, len2) = encode_string(&mut mem, b"second");
    assert_eq!(decode_string(&mem, off2, len2), b"second".to_vec());
    assert_eq!(decode_string(&mem, off, len), b"linear memory".to_vec());
    assert_eq!(off, 0);
    assert_eq!(off2, 13);
}

#[test]
fn abi_list_roundtrip() {
    let mut mem = Mem::new();
    let xs = vec![0i32, 1, -1, i32::MAX, i32::MIN, 123456];
    let (off, count) = encode_list(&mut mem, &xs);
    assert_eq!(count as usize, xs.len());
    assert_eq!(decode_list(&mem, off, count), xs);
}

#[test]
fn abi_record_roundtrip() {
    let mut mem = Mem::new();
    let fields = vec![
        Scalar::Str(b"a piece".to_vec()),
        Scalar::Int(-42),
        Scalar::Str(b"".to_vec()),
        Scalar::Int(i64::MIN),
    ];
    let kinds = vec![FieldKind::Ptr, FieldKind::Prim, FieldKind::Ptr, FieldKind::Prim];
    let off = encode_record(&mut mem, &fields);
    assert_eq!(decode_record(&mem, &kinds, off).unwrap(), fields);
    // a second record in the same memory leaves the first intact
    let fields2 = vec![Scalar::Int(7)];
    let off2 = encode_record(&mut mem, &fields2);
    assert_eq!(decode_record(&mem, &vec![FieldKind::Prim], off2).unwrap(), fields2);
    assert_eq!(decode_record(&mem, &kinds, off).unwrap(), fields);
}

#[test]
fn abi_record_rejects_bad_pointer() {
    let mut mem = Mem::new();
    // a block whose pair points past the end of memory
    let (off, _) = encode_string(&mut mem, &[255, 255, 0, 0, 9, 0, 0, 0]);
    assert!(decode_record(&mem, &vec![FieldKind::Ptr], off).is_none());
    assert!(decode_record(&mem, &vec![FieldKind::Prim, FieldKind::Prim], off).is_none());
}

#[test]
fn abi_record_list_roundtrip() {
    let mut mem = Mem::new();
    let rows = vec![sample_record(b"a", 0), sample_record(b"bc", 2), sample_record(b"", 5)];
    let (off, count) = encode_record_list(&mut mem, &rows);
    assert_eq!(count, 3);
    let kinds = vec![FieldKind::Ptr, FieldKind::Prim];
    let back = decode_record_list(&mem, &kinds, off, count).unwrap();
    let expected: Vec<Vec<Scalar>> = rows
        .iter()
        .map(|r| r.fields.iter().map(|f| clone_scalar(&f.value)).collect())
        .collect();
    assert_eq!(back, expected);
}

fn clone_scalar(s: &Scalar) -> Scalar {
    match s {
        Scalar::Int(i) => Scalar::Int(*i),
        Scalar::Str(b) => Scalar::Str(b.clone()),
    }
}

#[test]
fn abi_empty_record_list() {
    let mut mem = Mem::new();
    let (off, count) = encode_record_list(&mut mem, &vec![]);
    assert_eq!(count, 0);
    let kinds = vec![FieldKind::Ptr, FieldKind::Prim];
    assert_eq!(decode_record_list(&mem, &kinds, off, count).unwrap(), Vec::<Vec<Scalar>>::new());
}

#[test]
fn abi_ret_area_roundtrip() {
    let mut mem = Mem::new();
    let (off, len) = encode_string(&mut mem, b"result bytes");
    let ret = encode_ret_area(&mut mem, off, len);
    let (roff, rlen) = read_ret_area(&mem, ret);
    assert_eq!((roff, rlen), (off, len));
    assert_eq!(decode_string(&mem, roff, rlen), b"result bytes".to_vec());
}
