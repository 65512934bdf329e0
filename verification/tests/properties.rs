use bson::raw::{RawArrayBuf, RawBson, RawDocumentBuf};
use bson::spec::BinarySubtype;
use bson::{Binary, DateTime, Decimal128, oid::ObjectId};

use mutable_bson::err::{DecodeError, EncodeError};
use mutable_bson::parsed_document::ParsedDocument;
use mutable_bson::value::{
    MutableArray, MutableBinary, MutableDocument, MutableRegex, MutableValue,
};

fn doc_to_vec(doc: &ParsedDocument) -> Vec<u8> {
    let mut out = vec![];
    doc.put(&mut out).unwrap();
    out
}

#[test]
fn empty_doc_exact_bytes() {
    let doc = MutableDocument::Owned(ParsedDocument::new());
    assert_eq!(doc.to_vec().unwrap(), vec![0x05, 0, 0, 0, 0]);
}

#[test]
fn borrowed_doc_encodes_verbatim() {
    let mut raw = RawDocumentBuf::new();
    raw.append("a", 1i32);
    raw.append("weird", "bytes kept as they are");
    let doc = MutableDocument::Borrowed(raw.as_bytes().to_vec());
    assert_eq!(doc.to_vec().unwrap(), raw.as_bytes());
}

#[test]
fn promote_then_encode_is_identity() {
    let mut inner = RawArrayBuf::new();
    inner.push(10i32);
    inner.push("xyz");
    let mut raw = RawDocumentBuf::new();
    raw.append("nums", inner);
    raw.append("flag", false);
    raw.append("id", ObjectId::from_bytes([7; 12]));
    let doc = MutableDocument::Borrowed(raw.as_bytes().to_vec());
    let promoted = doc.try_into_parsed().unwrap();
    assert_eq!(promoted.to_vec().unwrap(), raw.as_bytes());
}

#[test]
fn insert_then_get_returns_value() {
    let mut doc = ParsedDocument::new();
    doc.insert(b"answer".to_vec(), MutableValue::Int64(42));
    assert_eq!(doc.get(b"answer").and_then(MutableValue::as_i64), Some(42));
    doc.insert(b"answer".to_vec(), MutableValue::String(b"now text".to_vec()));
    assert_eq!(
        doc.get(b"answer")
            .and_then(MutableValue::as_str)
            .map(|s| s.as_slice()),
        Some(&b"now text"[..])
    );
}

#[test]
fn replace_keeps_position_new_key_last() {
    let mut doc = ParsedDocument::new();
    doc.insert(b"a".to_vec(), MutableValue::Int32(1));
    doc.insert(b"b".to_vec(), MutableValue::Int32(2));
    doc.insert(b"c".to_vec(), MutableValue::Int32(3));
    doc.insert(b"b".to_vec(), MutableValue::Int32(20));
    doc.insert(b"d".to_vec(), MutableValue::Int32(4));
    let keys: Vec<Vec<u8>> = doc.iter().iter().map(|p| p.0.clone()).collect();
    assert_eq!(
        keys,
        vec![b"a".to_vec(), b"b".to_vec(), b"c".to_vec(), b"d".to_vec()]
    );
    assert_eq!(doc.get(b"b").and_then(MutableValue::as_i32), Some(20));
}

#[test]
fn remove_keeps_order() {
    let mut doc = ParsedDocument::new();
    doc.insert(b"a".to_vec(), MutableValue::Int32(1));
    doc.insert(b"b".to_vec(), MutableValue::Int32(2));
    doc.insert(b"c".to_vec(), MutableValue::Int32(3));
    assert!(doc.remove(b"b").is_some());
    let keys: Vec<Vec<u8>> = doc.iter().iter().map(|p| p.0.clone()).collect();
    assert_eq!(keys, vec![b"a".to_vec(), b"c".to_vec()]);
}

#[test]
fn array_reindexes_on_append() {
    let items = vec![
        MutableValue::Int32(5),
        MutableValue::String(b"y".to_vec()),
        MutableValue::Boolean(true),
    ];
    let arr = MutableArray::Owned(items);
    let mut expected = RawArrayBuf::new();
    expected.push(5i32);
    expected.push("y");
    expected.push(true);
    assert_eq!(arr.to_vec().unwrap(), expected.as_bytes());

    let mut items2 = match arr {
        MutableArray::Owned(v) => v,
        MutableArray::Borrowed(_) => unreachable!(),
    };
    items2.push(MutableValue::Int64(-1));
    let arr2 = MutableArray::Owned(items2);
    let mut expected2 = RawArrayBuf::new();
    expected2.push(5i32);
    expected2.push("y");
    expected2.push(true);
    expected2.push(-1i64);
    assert_eq!(arr2.to_vec().unwrap(), expected2.as_bytes());
}

#[test]
fn array_keys_roll_past_ten() {
    let items: Vec<MutableValue> = (0..12).map(MutableValue::Int32).collect();
    let arr = MutableArray::Owned(items);
    let mut expected = RawArrayBuf::new();
    for i in 0..12 {
        expected.push(i as i32);
    }
    assert_eq!(arr.to_vec().unwrap(), expected.as_bytes());
}

#[test]
fn fixed_scalars_round_trip_exactly() {
    let mut raw = RawDocumentBuf::new();
    raw.append("dbl", -12.75f64);
    raw.append("i32", -7i32);
    raw.append("i64", -90000000000i64);
    raw.append("dt", DateTime::from_millis(-1));
    raw.append(
        "ts",
        bson::Timestamp {
            time: 77,
            increment: 3,
        },
    );
    raw.append("oid", ObjectId::from_bytes([0x5a; 12]));
    raw.append("dec", Decimal128::from_bytes([0x3c; 16]));
    raw.append("yes", true);
    raw.append("no", false);
    let mut doc = MutableDocument::Borrowed(raw.as_bytes().to_vec());
    let parsed = doc.to_parsed().unwrap();

    assert_eq!(
        parsed.get(b"dbl").and_then(MutableValue::as_f64),
        Some((-12.75f64).to_bits())
    );
    assert_eq!(parsed.get(b"i32").and_then(MutableValue::as_i32), Some(-7));
    assert_eq!(
        parsed.get(b"i64").and_then(MutableValue::as_i64),
        Some(-90000000000)
    );
    assert_eq!(
        parsed.get(b"dt").and_then(MutableValue::as_date_time),
        Some(-1)
    );
    let ts = parsed
        .get(b"ts")
        .and_then(MutableValue::as_timestamp)
        .unwrap();
    assert_eq!((ts.time, ts.increment), (77, 3));
    assert_eq!(
        parsed
            .get(b"oid")
            .and_then(MutableValue::as_object_id)
            .map(|b| b.clone()),
        Some(vec![0x5a; 12])
    );
    assert_eq!(parsed.get(b"yes").and_then(MutableValue::as_bool), Some(true));
    assert_eq!(parsed.get(b"no").and_then(MutableValue::as_bool), Some(false));

    assert_eq!(doc_to_vec(parsed), raw.as_bytes());
}

#[test]
fn oversized_document_fails_encoding() {
    let mut doc = ParsedDocument::new();
    doc.insert(
        b"blob".to_vec(),
        MutableValue::Binary(MutableBinary {
            subtype: 0,
            bytes: vec![0u8; 33 * 1024 * 1024],
        }),
    );
    let doc = MutableDocument::Owned(doc);
    assert_eq!(doc.to_vec(), Err(EncodeError::SizeLimitExceeded));
}

#[test]
fn embedded_nul_in_key_fails_encoding() {
    let mut doc = ParsedDocument::new();
    doc.insert(b"bad\0key".to_vec(), MutableValue::Int32(1));
    let doc = MutableDocument::Owned(doc);
    assert_eq!(doc.to_vec(), Err(EncodeError::InvalidCString));
}

#[test]
fn embedded_nul_in_string_fails_encoding() {
    let mut doc = ParsedDocument::new();
    doc.insert(
        b"s".to_vec(),
        MutableValue::String(b"cut\0short".to_vec()),
    );
    let doc = MutableDocument::Owned(doc);
    assert_eq!(doc.to_vec(), Err(EncodeError::InvalidCString));
}

#[test]
fn embedded_nul_in_regex_fails_encoding() {
    let mut doc = ParsedDocument::new();
    doc.insert(
        b"re".to_vec(),
        MutableValue::RegularExpression(MutableRegex {
            pattern: b"a\0b".to_vec(),
            options: b"".to_vec(),
        }),
    );
    let doc = MutableDocument::Owned(doc);
    assert_eq!(doc.to_vec(), Err(EncodeError::InvalidCString));
}

#[test]
fn db_pointer_cannot_be_encoded() {
    let mut bytes: Vec<u8> = vec![27, 0, 0, 0];
    bytes.push(12);
    bytes.extend_from_slice(b"x\0");
    bytes.extend_from_slice(&[3, 0, 0, 0]);
    bytes.extend_from_slice(b"ab\0");
    bytes.extend_from_slice(&[0x11; 12]);
    bytes.push(0);
    assert_eq!(bytes.len(), 27);
    let mut doc = MutableDocument::Borrowed(bytes.clone());
    assert_eq!(
        MutableDocument::Borrowed(bytes.clone()).to_vec().unwrap(),
        bytes
    );
    let parsed = doc.to_parsed().unwrap();
    let mut out = vec![];
    assert_eq!(parsed.put(&mut out), Err(EncodeError::Unencodable));
}

#[test]
fn truncated_span_fails_decoding() {
    let mut doc = MutableDocument::Borrowed(vec![4, 0, 0, 0]);
    assert!(matches!(doc.to_parsed(), Err(DecodeError::Truncated)));
}

#[test]
fn length_prefix_mismatch_fails_decoding() {
    let mut doc = MutableDocument::Borrowed(vec![6, 0, 0, 0, 0]);
    assert!(matches!(doc.to_parsed(), Err(DecodeError::LengthMismatch)));
}

#[test]
fn missing_terminator_fails_decoding() {
    let mut doc = MutableDocument::Borrowed(vec![5, 0, 0, 0, 1]);
    assert!(matches!(doc.to_parsed(), Err(DecodeError::Truncated)));
}

#[test]
fn unterminated_key_fails_decoding() {
    let mut doc = MutableDocument::Borrowed(vec![7, 0, 0, 0, 10, 97, 0]);
    assert!(matches!(
        doc.to_parsed(),
        Err(DecodeError::UnterminatedCString)
    ));
}

#[test]
fn invalid_utf8_key_fails_decoding() {
    let mut doc = MutableDocument::Borrowed(vec![8, 0, 0, 0, 10, 255, 0, 0]);
    assert!(matches!(doc.to_parsed(), Err(DecodeError::InvalidUtf8)));
}

#[test]
fn multibyte_utf8_key_decodes() {
    let mut raw = RawDocumentBuf::new();
    raw.append("clé", 9i32);
    let mut doc = MutableDocument::Borrowed(raw.as_bytes().to_vec());
    let parsed = doc.to_parsed().unwrap();
    assert_eq!(
        parsed
            .get("clé".as_bytes())
            .and_then(MutableValue::as_i32),
        Some(9)
    );
}

#[test]
fn unrecognized_tag_fails_decoding() {
    let mut doc = MutableDocument::Borrowed(vec![8, 0, 0, 0, 32, 97, 0, 0]);
    assert!(matches!(doc.to_parsed(), Err(DecodeError::UnrecognizedTag)));
}

#[test]
fn invalid_boolean_byte_fails_decoding() {
    let mut doc = MutableDocument::Borrowed(vec![9, 0, 0, 0, 8, 97, 0, 2, 0]);
    assert!(matches!(doc.to_parsed(), Err(DecodeError::InvalidValue)));
}

#[test]
fn duplicate_keys_fold_on_promotion() {
    let mut bytes: Vec<u8> = vec![0, 0, 0, 0];
    for val in [1i32, 2i32] {
        bytes.push(16);
        bytes.extend_from_slice(b"k\0");
        bytes.extend_from_slice(&val.to_le_bytes());
    }
    bytes.push(0);
    let total = bytes.len() as u32;
    bytes[0..4].copy_from_slice(&total.to_le_bytes());
    let mut doc = MutableDocument::Borrowed(bytes);
    let parsed = doc.to_parsed().unwrap();
    assert_eq!(parsed.len(), 1);
    assert_eq!(parsed.get(b"k").and_then(MutableValue::as_i32), Some(2));
}

#[test]
fn binary_subtype_and_bytes_round_trip() {
    let mut raw = RawDocumentBuf::new();
    raw.append(
        "bin",
        Binary {
            subtype: BinarySubtype::Uuid,
            bytes: vec![9, 8, 7, 6],
        },
    );
    let mut doc = MutableDocument::Borrowed(raw.as_bytes().to_vec());
    let parsed = doc.to_parsed().unwrap();
    let bin = parsed
        .get(b"bin")
        .and_then(MutableValue::as_binary)
        .unwrap();
    assert_eq!(bin.subtype, 4);
    assert_eq!(bin.bytes, vec![9, 8, 7, 6]);
    assert_eq!(doc_to_vec(parsed), raw.as_bytes());
}

#[test]
fn element_type_reports_wire_tags() {
    assert_eq!(MutableValue::Double(0).element_type(), 1);
    assert_eq!(MutableValue::String(vec![]).element_type(), 2);
    assert_eq!(MutableValue::Int32(0).element_type(), 16);
    assert_eq!(MutableValue::Int64(0).element_type(), 18);
    assert_eq!(MutableValue::MinKey.element_type(), 255);
    assert_eq!(MutableValue::MaxKey.element_type(), 127);
    assert_eq!(RawBson::MinKey.element_type() as u8, 255);
    assert_eq!(RawBson::MaxKey.element_type() as u8, 127);
}

#[test]
fn array_try_into_parsed_keeps_values() {
    let mut raw = RawArrayBuf::new();
    raw.push(1i32);
    raw.push("two");
    let arr = MutableArray::Borrowed(raw.as_bytes().to_vec());
    let parsed = arr.try_into_parsed().unwrap();
    match &parsed {
        MutableArray::Owned(items) => {
            assert_eq!(items.len(), 2);
            assert_eq!(items[0].as_i32(), Some(1));
            assert_eq!(
                items[1].as_str().map(|s| s.as_slice()),
                Some(&b"two"[..])
            );
        }
        MutableArray::Borrowed(_) => panic!("not promoted"),
    }
    assert_eq!(parsed.to_vec().unwrap(), raw.as_bytes());
}

#[test]
fn string_length_helpers() {
    assert_eq!(mutable_bson::raw_cstr_len(&b"ab".to_vec()), 3);
    assert_eq!(mutable_bson::raw_str_len(&b"ab".to_vec()), 7);
}
