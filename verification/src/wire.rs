//! The mathematical model of the wire format.
//!
//! `ValueV`, `DocV` and `ArrV` mirror the runtime value tree at the
//! specification level; `enc_value` and its companions give the exact byte
//! sequence a value encodes to, and `enc_err_value` gives the first encoding
//! error in traversal order, if any.

use vstd::prelude::*;

use crate::err::EncodeError;

verus! {

broadcast use vstd::seq::group_seq_axioms;

/// Greatest admissible encoded document size in bytes (32 MiB). Reaching or
/// exceeding it fails the encode call.
pub const MAX_DOC_LEN: usize = 33554432;

/// Specification-level picture of a value: one variant per wire element kind.
/// Doubles are carried as their IEEE-754 bit pattern, strings and keys as
/// their UTF-8 bytes.
pub enum ValueV {
    Double(u64),
    String(Seq<u8>),
    Document(DocV),
    Array(ArrV),
    Binary(u8, Seq<u8>),
    Undefined,
    ObjectId(Seq<u8>),
    Boolean(bool),
    DateTime(i64),
    Null,
    RegularExpression(Seq<u8>, Seq<u8>),
    DbPointer(Seq<u8>),
    JavaScriptCode(Seq<u8>),
    Symbol(Seq<u8>),
    JavaScriptCodeWithScope(Seq<u8>, DocV),
    Int32(i32),
    Timestamp(u32, u32),
    Int64(i64),
    Decimal128(Seq<u8>),
    MinKey,
    MaxKey,
}

/// Specification-level picture of a document: either a verbatim encoded span
/// or a materialized key/value sequence.
pub enum DocV {
    Raw(Seq<u8>),
    Entries(Seq<(Seq<u8>, ValueV)>),
}

/// Specification-level picture of an array: either a verbatim encoded span or
/// a materialized value sequence.
pub enum ArrV {
    Raw(Seq<u8>),
    Items(Seq<ValueV>),
}

/// The wire type tag emitted for each value kind.
pub open spec fn tag_of(v: ValueV) -> u8 {
    match v {
        ValueV::Double(_) => 1,
        ValueV::String(_) => 2,
        ValueV::Document(_) => 3,
        ValueV::Array(_) => 4,
        ValueV::Binary(_, _) => 5,
        ValueV::Undefined => 6,
        ValueV::ObjectId(_) => 7,
        ValueV::Boolean(_) => 8,
        ValueV::DateTime(_) => 9,
        ValueV::Null => 10,
        ValueV::RegularExpression(_, _) => 11,
        ValueV::DbPointer(_) => 12,
        ValueV::JavaScriptCode(_) => 13,
        ValueV::Symbol(_) => 14,
        ValueV::JavaScriptCodeWithScope(_, _) => 15,
        ValueV::Int32(_) => 16,
        ValueV::Timestamp(_, _) => 17,
        ValueV::Int64(_) => 18,
        ValueV::Decimal128(_) => 19,
        ValueV::MinKey => 255,
        ValueV::MaxKey => 127,
    }
}

/// Little-endian bytes of a 32-bit value.
pub open spec fn le32(x: u32) -> Seq<u8> {
    seq![
        (x & 0xff) as u8,
        ((x >> 8) & 0xff) as u8,
        ((x >> 16) & 0xff) as u8,
        ((x >> 24) & 0xff) as u8,
    ]
}

/// Little-endian bytes of a 64-bit value.
pub open spec fn le64(x: u64) -> Seq<u8> {
    seq![
        (x & 0xff) as u8,
        ((x >> 8) & 0xff) as u8,
        ((x >> 16) & 0xff) as u8,
        ((x >> 24) & 0xff) as u8,
        ((x >> 32) & 0xff) as u8,
        ((x >> 40) & 0xff) as u8,
        ((x >> 48) & 0xff) as u8,
        ((x >> 56) & 0xff) as u8,
    ]
}

/// The 32-bit value read little-endian from four bytes.
pub open spec fn rd32(s: Seq<u8>) -> u32
    recommends
        s.len() == 4,
{
    (s[0] as u32) | ((s[1] as u32) << 8) | ((s[2] as u32) << 16) | ((s[3] as u32) << 24)
}

/// The 64-bit value read little-endian from eight bytes.
pub open spec fn rd64(s: Seq<u8>) -> u64
    recommends
        s.len() == 8,
{
    (s[0] as u64) | ((s[1] as u64) << 8) | ((s[2] as u64) << 16) | ((s[3] as u64) << 24)
        | ((s[4] as u64) << 32) | ((s[5] as u64) << 40) | ((s[6] as u64) << 48) | ((s[7]
        as u64) << 56)
}

/// Two's-complement bit pattern of a signed 64-bit value.
pub open spec fn u64_of_i64(x: i64) -> u64 {
    if x >= 0 {
        x as u64
    } else {
        (x + 0x1_0000_0000_0000_0000) as u64
    }
}

/// Signed 64-bit value of a two's-complement bit pattern.
pub open spec fn i64_of_u64(x: u64) -> i64 {
    if x < 0x8000_0000_0000_0000 {
        x as i64
    } else {
        (x - 0x1_0000_0000_0000_0000) as i64
    }
}

/// Two's-complement bit pattern of a signed 32-bit value.
pub open spec fn u32_of_i32(x: i32) -> u32 {
    if x >= 0 {
        x as u32
    } else {
        (x + 0x1_0000_0000) as u32
    }
}

/// Signed 32-bit value of a two's-complement bit pattern.
pub open spec fn i32_of_u32(x: u32) -> i32 {
    if x < 0x8000_0000 {
        x as i32
    } else {
        (x - 0x1_0000_0000) as i32
    }
}

/// NUL-terminated string: the bytes followed by a single zero byte.
pub open spec fn enc_cstr(s: Seq<u8>) -> Seq<u8> {
    s + seq![0u8]
}

/// Length-prefixed string: little-endian byte count (payload plus terminator)
/// followed by the bytes and a zero byte.
pub open spec fn enc_str(s: Seq<u8>) -> Seq<u8> {
    le32((s.len() + 1) as u32) + s + seq![0u8]
}

/// Decimal ASCII digits of a non-negative number, the positional key of an
/// array element.
pub open spec fn dec_bytes(n: int) -> Seq<u8>
    recommends
        n >= 0,
    decreases n,
{
    if n < 10 {
        seq![(48 + if n >= 0 { n } else { 0 }) as u8]
    } else {
        dec_bytes(n / 10).push((48 + n % 10) as u8)
    }
}

/// Wire bytes of one value, excluding the leading type tag and key.
/// Total over all values; whether a value can actually be emitted is a
/// separate question answered by [`enc_err_value`].
pub open spec fn enc_value(v: ValueV) -> Seq<u8>
    decreases v, 0int,
{
    match v {
        ValueV::Double(b) => le64(b),
        ValueV::String(s) => enc_str(s),
        ValueV::Document(d) => enc_doc(d),
        ValueV::Array(a) => enc_arr(a),
        ValueV::Binary(st, b) => le32(b.len() as u32) + seq![st] + b,
        ValueV::Undefined => seq![],
        ValueV::ObjectId(b) => b,
        ValueV::Boolean(b) => seq![if b { 1u8 } else { 0u8 }],
        ValueV::DateTime(x) => le64(u64_of_i64(x)),
        ValueV::Null => seq![],
        ValueV::RegularExpression(p, o) => enc_cstr(p) + enc_cstr(o),
        ValueV::DbPointer(raw) => raw,
        ValueV::JavaScriptCode(s) => enc_str(s),
        ValueV::Symbol(s) => enc_str(s),
        ValueV::JavaScriptCodeWithScope(c, scope) => {
            let body = enc_str(c) + enc_doc(scope);
            le32((4 + body.len()) as u32) + body
        },
        ValueV::Int32(x) => le32(u32_of_i32(x)),
        ValueV::Timestamp(t, i) => le32(i) + le32(t),
        ValueV::Int64(x) => le64(u64_of_i64(x)),
        ValueV::Decimal128(b) => b,
        ValueV::MinKey => seq![],
        ValueV::MaxKey => seq![],
    }
}

/// Wire bytes of a document: verbatim for a raw span, assembled for entries.
pub open spec fn enc_doc(d: DocV) -> Seq<u8>
    decreases d, 1int,
{
    match d {
        DocV::Raw(b) => b,
        DocV::Entries(es) => enc_entries(es),
    }
}

/// Wire bytes of a materialized document: inclusive little-endian length,
/// each entry in order, and a terminating zero byte.
pub open spec fn enc_entries(es: Seq<(Seq<u8>, ValueV)>) -> Seq<u8>
    decreases es, 1int,
{
    let body = enc_entry_list(es);
    le32((body.len() + 5) as u32) + body + seq![0u8]
}

/// The concatenated elements of a materialized document, in order.
pub open spec fn enc_entry_list(es: Seq<(Seq<u8>, ValueV)>) -> Seq<u8>
    decreases es, 0int,
{
    if es.len() == 0 {
        seq![]
    } else {
        enc_element(es[0].0, es[0].1) + enc_entry_list(es.drop_first())
    }
}

/// One document element: type tag, NUL-terminated key, value bytes.
pub open spec fn enc_element(k: Seq<u8>, v: ValueV) -> Seq<u8>
    decreases v, 1int,
{
    seq![tag_of(v)] + enc_cstr(k) + enc_value(v)
}

/// Wire bytes of an array: verbatim for a raw span; otherwise a document
/// whose keys are the decimal digits of each zero-based position.
pub open spec fn enc_arr(a: ArrV) -> Seq<u8>
    decreases a, 1int,
{
    match a {
        ArrV::Raw(b) => b,
        ArrV::Items(items) => {
            let body = enc_item_list(items, 0);
            le32((body.len() + 5) as u32) + body + seq![0u8]
        },
    }
}

/// The concatenated elements of a materialized array whose first element has
/// positional key `i`.
pub open spec fn enc_item_list(items: Seq<ValueV>, i: int) -> Seq<u8>
    decreases items, 0int,
{
    if items.len() == 0 {
        seq![]
    } else {
        enc_element(dec_bytes(i), items[0]) + enc_item_list(items.drop_first(), i + 1)
    }
}

/// Whether the bytes hold an embedded NUL, which a NUL-terminated field
/// cannot carry.
pub open spec fn has_nul(s: Seq<u8>) -> bool {
    exists|i: int| 0 <= i < s.len() && s[i] == 0
}

/// The first encoding error met when emitting this value, in traversal
/// order, or `None` when the value can be emitted.
pub open spec fn enc_err_value(v: ValueV) -> Option<EncodeError>
    decreases v, 1int,
{
    match v {
        ValueV::String(s) => if has_nul(s) {
            Some(EncodeError::InvalidCString)
        } else {
            None
        },
        ValueV::Document(d) => enc_err_doc(d),
        ValueV::Array(a) => enc_err_arr(a),
        ValueV::RegularExpression(p, o) => if has_nul(p) || has_nul(o) {
            Some(EncodeError::InvalidCString)
        } else {
            None
        },
        ValueV::DbPointer(_) => Some(EncodeError::Unencodable),
        ValueV::JavaScriptCode(s) => if has_nul(s) {
            Some(EncodeError::InvalidCString)
        } else {
            None
        },
        ValueV::Symbol(s) => if has_nul(s) {
            Some(EncodeError::InvalidCString)
        } else {
            None
        },
        ValueV::JavaScriptCodeWithScope(c, scope) => if has_nul(c) {
            Some(EncodeError::InvalidCString)
        } else {
            enc_err_doc(scope)
        },
        _ => None,
    }
}

/// The first encoding error of a document. A raw span is copied verbatim and
/// never fails.
pub open spec fn enc_err_doc(d: DocV) -> Option<EncodeError>
    decreases d, 2int,
{
    match d {
        DocV::Raw(_) => None,
        DocV::Entries(es) => enc_err_entries(es),
    }
}

/// The first encoding error among a document's entries: for each entry in
/// order, an embedded NUL in the key, then the value's own first error.
pub open spec fn enc_err_entries(es: Seq<(Seq<u8>, ValueV)>) -> Option<EncodeError>
    decreases es, 0int,
{
    if es.len() == 0 {
        None
    } else if has_nul(es[0].0) {
        Some(EncodeError::InvalidCString)
    } else if enc_err_value(es[0].1) is Some {
        enc_err_value(es[0].1)
    } else {
        enc_err_entries(es.drop_first())
    }
}

/// The first encoding error of an array. Positional keys never hold a NUL.
pub open spec fn enc_err_arr(a: ArrV) -> Option<EncodeError>
    decreases a, 2int,
{
    match a {
        ArrV::Raw(_) => None,
        ArrV::Items(items) => enc_err_items(items),
    }
}

/// The first encoding error among an array's values, in order.
pub open spec fn enc_err_items(items: Seq<ValueV>) -> Option<EncodeError>
    decreases items, 0int,
{
    if items.len() == 0 {
        None
    } else if enc_err_value(items[0]) is Some {
        enc_err_value(items[0])
    } else {
        enc_err_items(items.drop_first())
    }
}

/// A byte count clamped to what a machine word can hold.
pub open spec fn clamp_len(n: int) -> usize {
    if n > usize::MAX {
        usize::MAX
    } else if n < 0 {
        0
    } else {
        n as usize
    }
}

pub broadcast proof fn lemma_le32_len(x: u32)
    ensures
        (#[trigger] le32(x)).len() == 4,
{
}

pub broadcast proof fn lemma_le64_len(x: u64)
    ensures
        (#[trigger] le64(x)).len() == 8,
{
}

/// Writing back the value read from four bytes reproduces them.
pub proof fn lemma_le32_rd32(s: Seq<u8>)
    requires
        s.len() == 4,
    ensures
        le32(rd32(s)) == s,
{
    let x = rd32(s);
    let s0 = s[0] as u32;
    let s1 = s[1] as u32;
    let s2 = s[2] as u32;
    let s3 = s[3] as u32;
    assert(((x == s0 | s1 << 8 | s2 << 16 | s3 << 24) && s0 < 256 && s1 < 256 && s2 < 256 && s3
        < 256) ==> s0 == (x & 0xff) && s1 == ((x >> 8) & 0xff) && s2 == ((x >> 16) & 0xff) && s3
        == ((x >> 24) & 0xff)) by (bit_vector);
    assert(le32(x) =~= s);
}

/// Writing back the value read from eight bytes reproduces them.
pub proof fn lemma_le64_rd64(s: Seq<u8>)
    requires
        s.len() == 8,
    ensures
        le64(rd64(s)) == s,
{
    let x = rd64(s);
    let s0 = s[0] as u64;
    let s1 = s[1] as u64;
    let s2 = s[2] as u64;
    let s3 = s[3] as u64;
    let s4 = s[4] as u64;
    let s5 = s[5] as u64;
    let s6 = s[6] as u64;
    let s7 = s[7] as u64;
    assert(((x == s0 | s1 << 8 | s2 << 16 | s3 << 24 | s4 << 32 | s5 << 40 | s6 << 48 | s7 << 56)
        && s0 < 256 && s1 < 256 && s2 < 256 && s3 < 256 && s4 < 256 && s5 < 256 && s6 < 256 && s7
        < 256) ==> s0 == (x & 0xff) && s1 == ((x >> 8) & 0xff) && s2 == ((x >> 16) & 0xff) && s3
        == ((x >> 24) & 0xff) && s4 == ((x >> 32) & 0xff) && s5 == ((x >> 40) & 0xff) && s6 == ((x
        >> 48) & 0xff) && s7 == ((x >> 56) & 0xff)) by (bit_vector);
    assert(le64(x) =~= s);
}

/// The signed reading of a bit pattern carries the pattern.
pub proof fn lemma_u64_i64_roundtrip(x: u64)
    ensures
        u64_of_i64(i64_of_u64(x)) == x,
{
}

/// The signed reading of a bit pattern carries the pattern.
pub proof fn lemma_u32_i32_roundtrip(x: u32)
    ensures
        u32_of_i32(i32_of_u32(x)) == x,
{
}

/// Appending an entry appends its element bytes.
pub proof fn lemma_enc_entry_list_snoc(es: Seq<(Seq<u8>, ValueV)>, k: Seq<u8>, v: ValueV)
    ensures
        enc_entry_list(es.push((k, v))) == enc_entry_list(es) + enc_element(k, v),
    decreases es.len(),
{
    let es2 = es.push((k, v));
    if es.len() == 0 {
        assert(es2.len() == 1);
        assert(es2[0] == (k, v));
        assert(es2.drop_first() =~= Seq::<(Seq<u8>, ValueV)>::empty());
        assert(enc_entry_list(Seq::<(Seq<u8>, ValueV)>::empty()) == Seq::<u8>::empty());
        assert(enc_entry_list(es2) == enc_element(k, v) + Seq::<u8>::empty());
        assert(enc_entry_list(es2) =~= enc_element(k, v));
        assert(enc_entry_list(es) + enc_element(k, v) =~= enc_element(k, v));
    } else {
        assert(es2.drop_first() =~= es.drop_first().push((k, v)));
        lemma_enc_entry_list_snoc(es.drop_first(), k, v);
        assert(enc_entry_list(es2) =~= enc_entry_list(es) + enc_element(k, v));
    }
}

/// Appending a value appends its element bytes under the next positional key.
pub proof fn lemma_enc_item_list_snoc(items: Seq<ValueV>, j: int, v: ValueV)
    ensures
        enc_item_list(items.push(v), j) == enc_item_list(items, j) + enc_element(
            dec_bytes(j + items.len()),
            v,
        ),
    decreases items.len(),
{
    let is2 = items.push(v);
    if items.len() == 0 {
        assert(is2.len() == 1);
        assert(is2[0] == v);
        assert(is2.drop_first() =~= Seq::<ValueV>::empty());
        assert(enc_item_list(Seq::<ValueV>::empty(), j + 1) == Seq::<u8>::empty());
        assert(enc_item_list(is2, j) == enc_element(dec_bytes(j), v) + Seq::<u8>::empty());
        assert(enc_item_list(is2, j) =~= enc_element(dec_bytes(j), v));
        assert(enc_item_list(items, j) + enc_element(dec_bytes(j), v) =~= enc_element(
            dec_bytes(j),
            v,
        ));
    } else {
        assert(is2.drop_first() =~= items.drop_first().push(v));
        lemma_enc_item_list_snoc(items.drop_first(), j + 1, v);
        assert(enc_item_list(is2, j) =~= enc_item_list(items, j) + enc_element(
            dec_bytes(j + items.len()),
            v,
        ));
    }
}

/// Each entry's value bytes fit inside the element list.
pub proof fn lemma_entry_value_bound(es: Seq<(Seq<u8>, ValueV)>, i: int)
    requires
        0 <= i < es.len(),
    ensures
        enc_value(es[i].1).len() <= enc_entry_list(es).len(),
    decreases i,
{
    if i == 0 {
        assert(enc_entry_list(es) == enc_element(es[0].0, es[0].1) + enc_entry_list(
            es.drop_first(),
        ));
    } else {
        lemma_entry_value_bound(es.drop_first(), i - 1);
        assert(es.drop_first()[i - 1] == es[i]);
    }
}

/// Each value's bytes fit inside the array element list.
pub proof fn lemma_item_value_bound(items: Seq<ValueV>, j: int, i: int)
    requires
        0 <= i < items.len(),
    ensures
        enc_value(items[i]).len() <= enc_item_list(items, j).len(),
    decreases i,
{
    if i == 0 {
        assert(enc_item_list(items, j) == enc_element(dec_bytes(j), items[0]) + enc_item_list(
            items.drop_first(),
            j + 1,
        ));
    } else {
        lemma_item_value_bound(items.drop_first(), j + 1, i - 1);
        assert(items.drop_first()[i - 1] == items[i]);
    }
}

} // verus!
