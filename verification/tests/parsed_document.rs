use bson::oid::ObjectId;
use bson::raw::{RawArrayBuf, RawBson, RawDocumentBuf, RawJavaScriptCodeWithScope};
use bson::spec::BinarySubtype;
use bson::{Binary, DateTime, Decimal128, Regex};

use mutable_bson::parsed_document::ParsedDocument;
use mutable_bson::value::{
    MutableArray, MutableBinary, MutableDocument, MutableJavaScriptCodeWithScope, MutableRegex,
    MutableValue,
};

fn doc_to_vec(doc: &ParsedDocument) -> Vec<u8> {
    let mut out = vec![];
    doc.put(&mut out).unwrap();
    out
}

fn doc_all_types() -> ParsedDocument {
    let mut doc = ParsedDocument::new();
    doc.insert(b"a".to_vec(), MutableValue::Double(1.0f64.to_bits()));
    doc.insert(b"b".to_vec(), MutableValue::String(b"str".to_vec()));
    let mut c = ParsedDocument::new();
    c.insert(
        b"text".to_vec(),
        MutableValue::String(b"the quick brown fox".to_vec()),
    );
    doc.insert(
        b"c".to_vec(),
        MutableValue::Document(MutableDocument::Owned(c)),
    );
    doc.insert(
        b"d".to_vec(),
        MutableValue::Array(MutableArray::Owned(vec![
            MutableValue::Int32(1),
            MutableValue::String(b"value".to_vec()),
        ])),
    );
    doc.insert(
        b"e".to_vec(),
        MutableValue::Binary(MutableBinary {
            subtype: 0,
            bytes: vec![1u8, 2, 3],
        }),
    );
    doc.insert(b"f".to_vec(), MutableValue::Undefined);
    doc.insert(b"g".to_vec(), MutableValue::ObjectId(vec![0xae; 12]));
    doc.insert(b"h".to_vec(), MutableValue::Boolean(true));
    doc.insert(b"i".to_vec(), MutableValue::DateTime(1234567890));
    doc.insert(b"j".to_vec(), MutableValue::Null);
    doc.insert(
        b"k".to_vec(),
        MutableValue::RegularExpression(MutableRegex {
            pattern: b"foo.*".to_vec(),
            options: b"i".to_vec(),
        }),
    );
    doc.insert(
        b"m".to_vec(),
        MutableValue::JavaScriptCode(b"some code".to_vec()),
    );
    doc.insert(b"n".to_vec(), MutableValue::Symbol(b"symbol".to_vec()));
    let mut scope = ParsedDocument::new();
    scope.insert(
        b"text".to_vec(),
        MutableValue::String(b"jumped over the lazy dog".to_vec()),
    );
    doc.insert(
        b"o".to_vec(),
        MutableValue::JavaScriptCodeWithScope(MutableJavaScriptCodeWithScope {
            code: b"more code".to_vec(),
            scope: MutableDocument::Owned(scope),
        }),
    );
    doc.insert(b"p".to_vec(), MutableValue::Int32(7));
    doc.insert(
        b"q".to_vec(),
        MutableValue::Timestamp(mutable_bson::value::Timestamp {
            time: 1234567890,
            increment: 2,
        }),
    );
    doc.insert(b"r".to_vec(), MutableValue::Int64(11));
    doc.insert(b"s".to_vec(), MutableValue::Decimal128(vec![0xaf; 16]));
    doc.insert(b"t".to_vec(), MutableValue::MinKey);
    doc.insert(b"u".to_vec(), MutableValue::MaxKey);
    doc
}

fn raw_all_types() -> RawDocumentBuf {
    let mut buf = RawDocumentBuf::new();
    buf.append("a", 1.0f64);
    buf.append("b", "str");
    let mut c = RawDocumentBuf::new();
    c.append("text", "the quick brown fox");
    buf.append("c", c);
    let mut d = RawArrayBuf::new();
    d.push(1i32);
    d.push("value");
    buf.append("d", d);
    buf.append(
        "e",
        Binary {
            subtype: BinarySubtype::Generic,
            bytes: vec![1u8, 2, 3],
        },
    );
    buf.append("f", RawBson::Undefined);
    buf.append("g", ObjectId::from_bytes([0xae; 12]));
    buf.append("h", true);
    buf.append("i", DateTime::from_millis(1234567890));
    buf.append("j", RawBson::Null);
    buf.append(
        "k",
        Regex {
            pattern: "foo.*".into(),
            options: "i".into(),
        },
    );
    buf.append("m", RawBson::JavaScriptCode("some code".to_string()));
    buf.append("n", RawBson::Symbol("symbol".to_string()));
    let mut scope = RawDocumentBuf::new();
    scope.append("text", "jumped over the lazy dog");
    buf.append(
        "o",
        RawJavaScriptCodeWithScope {
            code: "more code".to_string(),
            scope,
        },
    );
    buf.append("p", 7i32);
    buf.append(
        "q",
        bson::Timestamp {
            time: 1234567890,
            increment: 2,
        },
    );
    buf.append("r", 11i64);
    buf.append("s", Decimal128::from_bytes([0xaf; 16]));
    buf.append("t", RawBson::MinKey);
    buf.append("u", RawBson::MaxKey);
    buf
}

fn raw_foo_bar() -> RawDocumentBuf {
    let mut buf = RawDocumentBuf::new();
    buf.append("foo", 5i32);
    buf.append("bar", "bat");
    buf
}

#[test]
fn it_works() {}

#[test]
fn empty() {
    let doc = ParsedDocument::new();
    assert_eq!(doc.len(), 0);
    assert!(doc.is_empty());
    assert!(doc.iter().is_empty());
    assert_eq!(doc.raw_len(), 5);
    assert_eq!(doc_to_vec(&doc), vec![5, 0, 0, 0, 0]);
}

#[test]
fn all_types_owned() {
    let doc = doc_all_types();
    assert_eq!(doc_to_vec(&doc), raw_all_types().as_bytes());
}

#[test]
fn all_types_unowned() {
    let raw_doc = raw_all_types();
    let mut doc = MutableDocument::Borrowed(raw_doc.as_bytes().to_vec());
    let parsed = doc.to_parsed().unwrap();
    assert_eq!(doc_to_vec(parsed), raw_all_types().as_bytes());
}

#[test]
fn contains_key() {
    let doc = doc_all_types();
    assert!(doc.contains_key(b"e"));
    assert!(!doc.contains_key(b"z"));
}

#[test]
fn get() {
    let doc = doc_all_types();
    assert_eq!(doc.get(b"p").and_then(MutableValue::as_i32).unwrap(), 7);
    assert!(doc.get(b"z").is_none());
}

#[test]
fn insert_and_replace() {
    let mut doc = ParsedDocument::new();
    assert!(doc.insert(b"foo".to_vec(), MutableValue::Int32(5)).is_none());
    assert!(doc
        .insert(b"bar".to_vec(), MutableValue::String(b"bat".to_vec()))
        .is_none());
    assert_eq!(doc_to_vec(&doc), raw_foo_bar().as_bytes());

    assert!(doc
        .insert(b"foo".to_vec(), MutableValue::Int32(16384))
        .is_some());
    let mut expected = RawDocumentBuf::new();
    expected.append("foo", 16384i32);
    expected.append("bar", "bat");
    assert_eq!(doc_to_vec(&doc), expected.as_bytes());
}

#[test]
fn remove() {
    let mut doc = ParsedDocument::new();
    assert!(doc.insert(b"foo".to_vec(), MutableValue::Int32(5)).is_none());
    assert!(doc
        .insert(b"bar".to_vec(), MutableValue::String(b"bat".to_vec()))
        .is_none());
    assert_eq!(doc_to_vec(&doc), raw_foo_bar().as_bytes());

    assert!(doc.remove(b"foo").is_some());
    let mut expected = RawDocumentBuf::new();
    expected.append("bar", "bat");
    assert_eq!(doc_to_vec(&doc), expected.as_bytes());

    assert!(doc.remove(b"foo").is_none());
}

#[test]
fn get_mut() {
    let mut doc = ParsedDocument::new();
    assert!(doc.insert(b"foo".to_vec(), MutableValue::Int32(5)).is_none());
    assert!(doc.get_mut(b"bar").is_none());

    let v = doc.get_mut(b"foo").expect("foo is present");
    if let MutableValue::Int32(i) = v {
        assert_eq!(*i, 5);
    } else {
        panic!("not an int32");
    }

    *v = MutableValue::String(b"bar".to_vec());
    let mut expected = RawDocumentBuf::new();
    expected.append("foo", "bar");
    assert_eq!(doc_to_vec(&doc), expected.as_bytes());
}

#[test]
fn clear() {
    let mut doc = doc_all_types();
    assert_eq!(doc_to_vec(&doc), raw_all_types().as_bytes());

    doc.clear();
    assert_eq!(doc_to_vec(&doc), vec![5, 0, 0, 0, 0]);
}

#[test]
fn mutate_unowned() {
    let mut raw_doc = RawDocumentBuf::new();
    raw_doc.append("foo", "bar");
    raw_doc.append("bat", 5i32);
    let mut doc = MutableDocument::Borrowed(raw_doc.as_bytes().to_vec());
    let parsed = doc.to_parsed().unwrap();
    assert!(parsed
        .insert(b"bat".to_vec(), MutableValue::Boolean(true))
        .is_some());
    assert!(parsed
        .insert(b"quux".to_vec(), MutableValue::Int32(7))
        .is_none());
    let mut expected = RawDocumentBuf::new();
    expected.append("foo", "bar");
    expected.append("bat", true);
    expected.append("quux", 7i32);
    assert_eq!(doc_to_vec(parsed), expected.as_bytes());
}

#[test]
fn mutate_unowned_embedded_doc() {
    let mut inner = RawDocumentBuf::new();
    inner.append("id", 0i32);
    inner.append("score", 1.1f64);
    let mut raw_doc = RawDocumentBuf::new();
    raw_doc.append("foo", 5i32);
    raw_doc.append("bar", inner);
    let mut doc = MutableDocument::Borrowed(raw_doc.as_bytes().to_vec());
    let parsed = doc.to_parsed().unwrap();
    let emb_doc = parsed
        .get_mut(b"bar")
        .and_then(MutableValue::as_doc_mut)
        .unwrap()
        .to_parsed()
        .unwrap();
    assert!(emb_doc
        .insert(b"score".to_vec(), MutableValue::Double(2.1f64.to_bits()))
        .is_some());
    assert!(emb_doc
        .insert(b"price".to_vec(), MutableValue::Double(7.17f64.to_bits()))
        .is_none());
    let mut expected_inner = RawDocumentBuf::new();
    expected_inner.append("id", 0i32);
    expected_inner.append("score", 2.1f64);
    expected_inner.append("price", 7.17f64);
    let mut expected = RawDocumentBuf::new();
    expected.append("foo", 5i32);
    expected.append("bar", expected_inner);
    assert_eq!(doc_to_vec(parsed), expected.as_bytes());
}

#[test]
fn mutate_embedded_array() {
    let mut vec_arr = RawArrayBuf::new();
    vec_arr.push(0i32);
    vec_arr.push("foo");
    vec_arr.push(2i32);
    vec_arr.push(3i32);
    let mut raw_doc = RawDocumentBuf::new();
    raw_doc.append("foo", 5i32);
    raw_doc.append("vec", vec_arr);
    let mut doc = MutableDocument::Borrowed(raw_doc.as_bytes().to_vec());
    let parsed = doc.to_parsed().unwrap();
    let emb_array = parsed
        .get_mut(b"vec")
        .and_then(MutableValue::as_array_mut)
        .unwrap()
        .to_parsed()
        .unwrap();
    emb_array[2] = MutableValue::String(b"bar".to_vec());
    emb_array.push(MutableValue::Int32(4));
    let mut expected_arr = RawArrayBuf::new();
    expected_arr.push(0i32);
    expected_arr.push("foo");
    expected_arr.push("bar");
    expected_arr.push(3i32);
    expected_arr.push(4i32);
    let mut expected = RawDocumentBuf::new();
    expected.append("foo", 5i32);
    expected.append("vec", expected_arr);
    assert_eq!(doc_to_vec(parsed), expected.as_bytes());
}
