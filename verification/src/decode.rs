//! One-level decoding of an encoded document span.
//!
//! The specification parser (`parse_doc`, `parse_elems`, `parse_value`) reads
//! a span into key/value pairs whose composite children stay verbatim raw
//! spans; the runtime parser follows it exactly. Decoding never yields a
//! partial document: the first malformed byte fails the whole span.

use vstd::prelude::*;
use vstd::utf8::valid_utf8;

use crate::err::DecodeError;
use crate::parsed_document::ParsedDocument;
use crate::value::{
    MutableArray, MutableBinary, MutableDocument, MutableJavaScriptCodeWithScope, MutableRegex,
    MutableValue, Timestamp, view_entries, view_items, view_value,
};
use crate::wire::{
    ArrV, DocV, ValueV, enc_cstr, enc_doc, enc_element, enc_entries, enc_entry_list, enc_str,
    enc_value, i32_of_u32, i64_of_u64, le32, le64, lemma_le32_rd32, lemma_le64_rd64,
    lemma_u32_i32_roundtrip, lemma_u64_i64_roundtrip, rd32, rd64, tag_of,
};

verus! {

broadcast use vstd::seq::group_seq_axioms;

/// The position of the first zero byte, or -1 when there is none.
pub open spec fn find_nul_at(s: Seq<u8>) -> int
    decreases s.len(),
{
    if s.len() == 0 {
        -1
    } else if s[0] == 0 {
        0
    } else {
        let r = find_nul_at(s.drop_first());
        if r < 0 {
            -1
        } else {
            1 + r
        }
    }
}

/// `find_nul_at` finds the first zero byte, and -1 exactly when no byte is
/// zero.
pub proof fn lemma_find_nul_at(s: Seq<u8>)
    ensures
        find_nul_at(s) >= 0 ==> find_nul_at(s) < s.len() && s[find_nul_at(s)] == 0 && (forall|
            j: int,
        |
            0 <= j < find_nul_at(s) ==> s[j] != 0),
        find_nul_at(s) < 0 ==> find_nul_at(s) == -1 && (forall|j: int|
            0 <= j < s.len() ==> s[j] != 0),
    decreases s.len(),
{
    if s.len() > 0 && s[0] != 0 {
        let rest = s.drop_first();
        lemma_find_nul_at(rest);
        if find_nul_at(s) >= 0 {
            assert forall|j: int| 0 <= j < find_nul_at(s) implies s[j] != 0 by {
                if j >= 1 {
                    assert(rest[j - 1] == s[j]);
                }
            }
        } else {
            assert forall|j: int| 0 <= j < s.len() implies s[j] != 0 by {
                if j >= 1 {
                    assert(rest[j - 1] == s[j]);
                }
            }
        }
    }
}

/// The first index is pinned by its characterization.
pub proof fn lemma_find_nul_at_is(s: Seq<u8>, i: int)
    requires
        0 <= i < s.len(),
        s[i] == 0,
        forall|j: int| 0 <= j < i ==> s[j] != 0,
    ensures
        find_nul_at(s) == i,
{
    lemma_find_nul_at(s);
    if find_nul_at(s) < 0 {
        assert(s[i] != 0);
    } else {
        if find_nul_at(s) < i {
            assert(s[find_nul_at(s)] != 0);
        }
        if find_nul_at(s) > i {
            assert(s[i] != 0);
        }
    }
}

/// Reads a length-prefixed string: little-endian count (payload plus
/// terminator), payload, zero terminator; the payload must be UTF-8. Returns
/// the payload and the bytes consumed.
pub open spec fn parse_str(s: Seq<u8>) -> Result<(Seq<u8>, int), DecodeError> {
    if s.len() < 4 {
        Err(DecodeError::Truncated)
    } else {
        let l = rd32(s.subrange(0, 4)) as int;
        if l < 1 {
            Err(DecodeError::LengthMismatch)
        } else if 4 + l > s.len() {
            Err(DecodeError::LengthMismatch)
        } else if s[4 + l - 1] != 0 {
            Err(DecodeError::UnterminatedCString)
        } else {
            let p = s.subrange(4, 4 + l - 1);
            if !valid_utf8(p) {
                Err(DecodeError::InvalidUtf8)
            } else {
                Ok((p, 4 + l))
            }
        }
    }
}

/// Reads an embedded document or array span: its announced length must lie
/// inside the enclosing span and end with the terminating zero byte. The span
/// is kept verbatim; its inside is not examined further.
pub open spec fn parse_span(s: Seq<u8>) -> Result<(Seq<u8>, int), DecodeError> {
    if s.len() < 4 {
        Err(DecodeError::Truncated)
    } else {
        let l = rd32(s.subrange(0, 4)) as int;
        if l < 5 || l > s.len() {
            Err(DecodeError::LengthMismatch)
        } else if s[l - 1] != 0 {
            Err(DecodeError::Truncated)
        } else {
            Ok((s.subrange(0, l), l))
        }
    }
}

/// Reads one value of the given type tag from the front of the span. Returns
/// the value and the bytes consumed.
pub open spec fn parse_value(tag: u8, s: Seq<u8>) -> Result<(ValueV, int), DecodeError> {
    if tag == 1 {
        if s.len() < 8 {
            Err(DecodeError::Truncated)
        } else {
            Ok((ValueV::Double(rd64(s.subrange(0, 8))), 8))
        }
    } else if tag == 2 {
        match parse_str(s) {
            Err(e) => Err(e),
            Ok((p, m)) => Ok((ValueV::String(p), m)),
        }
    } else if tag == 3 {
        match parse_span(s) {
            Err(e) => Err(e),
            Ok((sp, m)) => Ok((ValueV::Document(DocV::Raw(sp)), m)),
        }
    } else if tag == 4 {
        match parse_span(s) {
            Err(e) => Err(e),
            Ok((sp, m)) => Ok((ValueV::Array(ArrV::Raw(sp)), m)),
        }
    } else if tag == 5 {
        if s.len() < 5 {
            Err(DecodeError::Truncated)
        } else {
            let l = rd32(s.subrange(0, 4)) as int;
            if 5 + l > s.len() {
                Err(DecodeError::LengthMismatch)
            } else {
                Ok((ValueV::Binary(s[4], s.subrange(5, 5 + l)), 5 + l))
            }
        }
    } else if tag == 6 {
        Ok((ValueV::Undefined, 0))
    } else if tag == 7 {
        if s.len() < 12 {
            Err(DecodeError::Truncated)
        } else {
            Ok((ValueV::ObjectId(s.subrange(0, 12)), 12))
        }
    } else if tag == 8 {
        if s.len() < 1 {
            Err(DecodeError::Truncated)
        } else if s[0] == 0 {
            Ok((ValueV::Boolean(false), 1))
        } else if s[0] == 1 {
            Ok((ValueV::Boolean(true), 1))
        } else {
            Err(DecodeError::InvalidValue)
        }
    } else if tag == 9 {
        if s.len() < 8 {
            Err(DecodeError::Truncated)
        } else {
            Ok((ValueV::DateTime(i64_of_u64(rd64(s.subrange(0, 8)))), 8))
        }
    } else if tag == 10 {
        Ok((ValueV::Null, 0))
    } else if tag == 11 {
        let pi = find_nul_at(s);
        if pi < 0 {
            Err(DecodeError::UnterminatedCString)
        } else {
            let pat = s.subrange(0, pi);
            let r2 = s.subrange(pi + 1, s.len() as int);
            let oi = find_nul_at(r2);
            if oi < 0 {
                Err(DecodeError::UnterminatedCString)
            } else {
                let opts = r2.subrange(0, oi);
                if !valid_utf8(pat) || !valid_utf8(opts) {
                    Err(DecodeError::InvalidUtf8)
                } else {
                    Ok((ValueV::RegularExpression(pat, opts), pi + 1 + oi + 1))
                }
            }
        }
    } else if tag == 12 {
        if s.len() < 4 {
            Err(DecodeError::Truncated)
        } else {
            let l = rd32(s.subrange(0, 4)) as int;
            if l < 1 || 4 + l + 12 > s.len() {
                Err(DecodeError::LengthMismatch)
            } else if s[4 + l - 1] != 0 {
                Err(DecodeError::UnterminatedCString)
            } else {
                Ok((ValueV::DbPointer(s.subrange(0, 4 + l + 12)), 4 + l + 12))
            }
        }
    } else if tag == 13 {
        match parse_str(s) {
            Err(e) => Err(e),
            Ok((p, m)) => Ok((ValueV::JavaScriptCode(p), m)),
        }
    } else if tag == 14 {
        match parse_str(s) {
            Err(e) => Err(e),
            Ok((p, m)) => Ok((ValueV::Symbol(p), m)),
        }
    } else if tag == 15 {
        if s.len() < 4 {
            Err(DecodeError::Truncated)
        } else {
            let t = rd32(s.subrange(0, 4)) as int;
            if t < 4 || t > s.len() {
                Err(DecodeError::LengthMismatch)
            } else {
                let inner = s.subrange(4, t);
                match parse_str(inner) {
                    Err(e) => Err(e),
                    Ok((code, m)) => {
                        let scope = inner.subrange(m, inner.len() as int);
                        if scope.len() < 5 {
                            Err(DecodeError::Truncated)
                        } else if rd32(scope.subrange(0, 4)) as int != scope.len() {
                            Err(DecodeError::LengthMismatch)
                        } else if scope[scope.len() - 1] != 0 {
                            Err(DecodeError::Truncated)
                        } else {
                            Ok(
                                (
                                    ValueV::JavaScriptCodeWithScope(code, DocV::Raw(scope)),
                                    t,
                                ),
                            )
                        }
                    },
                }
            }
        }
    } else if tag == 16 {
        if s.len() < 4 {
            Err(DecodeError::Truncated)
        } else {
            Ok((ValueV::Int32(i32_of_u32(rd32(s.subrange(0, 4)))), 4))
        }
    } else if tag == 17 {
        if s.len() < 8 {
            Err(DecodeError::Truncated)
        } else {
            Ok(
                (
                    ValueV::Timestamp(rd32(s.subrange(4, 8)), rd32(s.subrange(0, 4))),
                    8,
                ),
            )
        }
    } else if tag == 18 {
        if s.len() < 8 {
            Err(DecodeError::Truncated)
        } else {
            Ok((ValueV::Int64(i64_of_u64(rd64(s.subrange(0, 8)))), 8))
        }
    } else if tag == 19 {
        if s.len() < 16 {
            Err(DecodeError::Truncated)
        } else {
            Ok((ValueV::Decimal128(s.subrange(0, 16)), 16))
        }
    } else if tag == 255 {
        Ok((ValueV::MinKey, 0))
    } else if tag == 127 {
        Ok((ValueV::MaxKey, 0))
    } else {
        Err(DecodeError::UnrecognizedTag)
    }
}

/// Reads one element from the front of a document body: type tag,
/// NUL-terminated UTF-8 key, value. Returns key, value, and bytes consumed.
pub open spec fn parse_elem(s: Seq<u8>) -> Result<(Seq<u8>, ValueV, int), DecodeError>
    recommends
        s.len() > 0,
{
    let tag = s[0];
    let r1 = s.subrange(1, s.len() as int);
    let ki = find_nul_at(r1);
    if ki < 0 {
        Err(DecodeError::UnterminatedCString)
    } else {
        let key = r1.subrange(0, ki);
        if !valid_utf8(key) {
            Err(DecodeError::InvalidUtf8)
        } else {
            let rest = r1.subrange(ki + 1, r1.len() as int);
            match parse_value(tag, rest) {
                Err(e) => Err(e),
                Ok((v, m)) => Ok((key, v, 1 + ki + 1 + m)),
            }
        }
    }
}

/// A successful value parse consumes no more than the span holds.
pub proof fn lemma_parse_value_len(tag: u8, s: Seq<u8>)
    ensures
        parse_value(tag, s) matches Ok((v, m)) ==> 0 <= m <= s.len(),
{
    if tag == 11 {
        lemma_find_nul_at(s);
        let pi = find_nul_at(s);
        if pi >= 0 {
            lemma_find_nul_at(s.subrange(pi + 1, s.len() as int));
        }
    }
}

/// A successful element parse consumes at least the tag byte and the key
/// terminator, and no more than the span holds.
pub proof fn lemma_parse_elem_len(s: Seq<u8>)
    requires
        s.len() > 0,
    ensures
        parse_elem(s) matches Ok((k, v, n)) ==> 1 <= n <= s.len(),
{
    let r1 = s.subrange(1, s.len() as int);
    lemma_find_nul_at(r1);
    let ki = find_nul_at(r1);
    if ki >= 0 {
        lemma_parse_value_len(s[0], r1.subrange(ki + 1, r1.len() as int));
    }
}

/// Reads every element of a document body, in order.
pub open spec fn parse_elems(s: Seq<u8>) -> Result<Seq<(Seq<u8>, ValueV)>, DecodeError>
    decreases s.len(),
    via parse_elems_dec
{
    if s.len() == 0 {
        Ok(Seq::empty())
    } else {
        match parse_elem(s) {
            Err(e) => Err(e),
            Ok((k, v, n)) => match parse_elems(s.subrange(n, s.len() as int)) {
                Err(e) => Err(e),
                Ok(rest) => Ok(seq![(k, v)] + rest),
            },
        }
    }
}

#[via_fn]
proof fn parse_elems_dec(s: Seq<u8>) {
    if s.len() > 0 {
        lemma_parse_elem_len(s);
    }
}

/// Reads a whole document span: inclusive length prefix that must equal the
/// span, the elements, and the terminating zero byte.
pub open spec fn parse_doc(b: Seq<u8>) -> Result<Seq<(Seq<u8>, ValueV)>, DecodeError> {
    if b.len() < 5 {
        Err(DecodeError::Truncated)
    } else if rd32(b.subrange(0, 4)) as int != b.len() {
        Err(DecodeError::LengthMismatch)
    } else if b[b.len() - 1] != 0 {
        Err(DecodeError::Truncated)
    } else {
        parse_elems(b.subrange(4, b.len() - 1))
    }
}

/// Re-encoding a successfully read string reproduces its bytes.
pub proof fn lemma_parse_str_encode(s: Seq<u8>)
    requires
        parse_str(s) is Ok,
    ensures
        parse_str(s) matches Ok((p, m)) ==> enc_str(p) == s.subrange(0, m) && 4 <= m <= s.len()
            && p.len() + 1 < 0x1_0000_0000,
{
    let l = rd32(s.subrange(0, 4)) as int;
    let p = s.subrange(4, 4 + l - 1);
    lemma_le32_rd32(s.subrange(0, 4));
    assert((p.len() + 1) as u32 == rd32(s.subrange(0, 4)));
    assert(enc_str(p) =~= s.subrange(0, 4 + l));
}

/// Re-encoding a successfully read value reproduces its bytes, under its own
/// type tag.
pub proof fn lemma_parse_value_encode(tag: u8, s: Seq<u8>)
    requires
        parse_value(tag, s) is Ok,
    ensures
        parse_value(tag, s) matches Ok((v, m)) ==> tag_of(v) == tag && enc_value(v) == s.subrange(
            0,
            m,
        ) && 0 <= m <= s.len(),
    decreases s.len(),
{
    lemma_parse_value_len(tag, s);
    if tag == 1 {
        lemma_le64_rd64(s.subrange(0, 8));
        assert(enc_value(ValueV::Double(rd64(s.subrange(0, 8)))) =~= s.subrange(0, 8));
    } else if tag == 2 || tag == 13 || tag == 14 {
        lemma_parse_str_encode(s);
    } else if tag == 3 || tag == 4 {
    } else if tag == 5 {
        let l = rd32(s.subrange(0, 4)) as int;
        lemma_le32_rd32(s.subrange(0, 4));
        assert((s.subrange(5, 5 + l).len()) as u32 == rd32(s.subrange(0, 4)));
        assert(enc_value(ValueV::Binary(s[4], s.subrange(5, 5 + l))) =~= s.subrange(0, 5 + l));
    } else if tag == 6 || tag == 10 || tag == 255 || tag == 127 {
        assert(parse_value(tag, s) matches Ok((v, m)) ==> enc_value(v) =~= s.subrange(0, 0));
    } else if tag == 7 {
        assert(enc_value(ValueV::ObjectId(s.subrange(0, 12))) =~= s.subrange(0, 12));
    } else if tag == 8 {
        if s[0] == 0 {
            assert(enc_value(ValueV::Boolean(false)) =~= s.subrange(0, 1));
        } else {
            assert(enc_value(ValueV::Boolean(true)) =~= s.subrange(0, 1));
        }
    } else if tag == 9 {
        lemma_le64_rd64(s.subrange(0, 8));
        lemma_u64_i64_roundtrip(rd64(s.subrange(0, 8)));
        assert(enc_value(ValueV::DateTime(i64_of_u64(rd64(s.subrange(0, 8))))) =~= s.subrange(
            0,
            8,
        ));
    } else if tag == 11 {
        lemma_find_nul_at(s);
        let pi = find_nul_at(s);
        let pat = s.subrange(0, pi);
        let r2 = s.subrange(pi + 1, s.len() as int);
        lemma_find_nul_at(r2);
        let oi = find_nul_at(r2);
        let opts = r2.subrange(0, oi);
        assert(enc_cstr(pat) + enc_cstr(opts) =~= s.subrange(0, pi + 1 + oi + 1));
    } else if tag == 12 {
        let l = rd32(s.subrange(0, 4)) as int;
        assert(enc_value(ValueV::DbPointer(s.subrange(0, 4 + l + 12))) =~= s.subrange(
            0,
            4 + l + 12,
        ));
    } else if tag == 15 {
        let t = rd32(s.subrange(0, 4)) as int;
        let inner = s.subrange(4, t);
        lemma_parse_str_encode(inner);
        let m = match parse_str(inner) {
            Ok((_, m)) => m,
            Err(_) => 0,
        };
        let scope = inner.subrange(m, inner.len() as int);
        let code = match parse_str(inner) {
            Ok((c, _)) => c,
            Err(_) => Seq::empty(),
        };
        let body = enc_str(code) + enc_doc(DocV::Raw(scope));
        assert(enc_str(code) == inner.subrange(0, m));
        assert(body =~= inner);
        lemma_le32_rd32(s.subrange(0, 4));
        assert((4 + body.len()) as u32 == rd32(s.subrange(0, 4)));
        assert(le32((4 + body.len()) as u32) + body =~= s.subrange(0, t));
    } else if tag == 16 {
        lemma_le32_rd32(s.subrange(0, 4));
        lemma_u32_i32_roundtrip(rd32(s.subrange(0, 4)));
        assert(enc_value(ValueV::Int32(i32_of_u32(rd32(s.subrange(0, 4))))) =~= s.subrange(0, 4));
    } else if tag == 17 {
        lemma_le32_rd32(s.subrange(0, 4));
        lemma_le32_rd32(s.subrange(4, 8));
        assert(le32(rd32(s.subrange(0, 4))) + le32(rd32(s.subrange(4, 8))) =~= s.subrange(0, 8));
    } else if tag == 18 {
        lemma_le64_rd64(s.subrange(0, 8));
        lemma_u64_i64_roundtrip(rd64(s.subrange(0, 8)));
        assert(enc_value(ValueV::Int64(i64_of_u64(rd64(s.subrange(0, 8))))) =~= s.subrange(0, 8));
    } else if tag == 19 {
        assert(enc_value(ValueV::Decimal128(s.subrange(0, 16))) =~= s.subrange(0, 16));
    }
}

/// Re-encoding a successfully read element reproduces its bytes.
pub proof fn lemma_parse_elem_encode(s: Seq<u8>)
    requires
        s.len() > 0,
        parse_elem(s) is Ok,
    ensures
        parse_elem(s) matches Ok((k, v, n)) ==> enc_element(k, v) == s.subrange(0, n) && 1 <= n
            <= s.len(),
{
    let r1 = s.subrange(1, s.len() as int);
    lemma_find_nul_at(r1);
    let ki = find_nul_at(r1);
    let rest = r1.subrange(ki + 1, r1.len() as int);
    lemma_parse_value_encode(s[0], rest);
    match parse_elem(s) {
        Ok((k, v, n)) => {
            assert(enc_value(v) == rest.subrange(0, n - ki - 2));
            assert(enc_element(k, v) =~= s.subrange(0, n));
        },
        Err(_) => {},
    }
}

/// Re-encoding a successfully read document body reproduces its bytes.
pub proof fn lemma_parse_elems_encode(s: Seq<u8>)
    requires
        parse_elems(s) is Ok,
    ensures
        parse_elems(s) matches Ok(es) ==> enc_entry_list(es) == s,
    decreases s.len(),
{
    if s.len() == 0 {
        assert(enc_entry_list(Seq::<(Seq<u8>, ValueV)>::empty()) =~= s);
    } else {
        lemma_parse_elem_encode(s);
        match parse_elem(s) {
            Ok((k, v, n)) => {
                let tail = s.subrange(n, s.len() as int);
                lemma_parse_elems_encode(tail);
                match parse_elems(tail) {
                    Ok(rest) => {
                        let es = seq![(k, v)] + rest;
                        assert(es[0] == (k, v));
                        assert(es.drop_first() =~= rest);
                        assert(enc_entry_list(es) == enc_element(k, v) + enc_entry_list(rest));
                        assert(enc_element(k, v) + enc_entry_list(rest) =~= s);
                    },
                    Err(_) => {},
                }
            },
            Err(_) => {},
        }
    }
}

/// Re-encoding a successfully read document span reproduces its bytes
/// exactly: a span the parser accepts is canonical.
pub proof fn lemma_parse_doc_encode(b: Seq<u8>)
    requires
        parse_doc(b) is Ok,
    ensures
        parse_doc(b) matches Ok(es) ==> enc_entries(es) == b,
{
    let body = b.subrange(4, b.len() - 1);
    lemma_parse_elems_encode(body);
    lemma_le32_rd32(b.subrange(0, 4));
    match parse_doc(b) {
        Ok(es) => {
            assert(enc_entry_list(es) == body);
            assert((enc_entry_list(es).len() + 5) as u32 == rd32(b.subrange(0, 4)));
            assert(enc_entries(es) =~= b);
        },
        Err(_) => {},
    }
}


/// Nested subranges flatten.
pub proof fn lemma_sub_sub(b: Seq<u8>, from: int, to: int, a: int, c: int)
    requires
        0 <= from <= to <= b.len(),
        0 <= a <= c <= to - from,
    ensures
        b.subrange(from, to).subrange(a, c) == b.subrange(from + a, from + c),
{
    assert(b.subrange(from, to).subrange(a, c) =~= b.subrange(from + a, from + c));
}

/// Relies on `core::str::from_utf8`: it accepts a byte slice exactly when
/// the bytes are valid UTF-8, the set that vstd's `valid_utf8` describes.
#[verifier::external_body]
fn is_valid_utf8(b: &[u8]) -> (r: bool)
    ensures
        r == valid_utf8(b@),
{
    core::str::from_utf8(b).is_ok()
}

/// The 32-bit value read little-endian at a position.
fn rd32_at(b: &[u8], off: usize) -> (r: u32)
    requires
        off + 4 <= b@.len(),
    ensures
        r == rd32(b@.subrange(off as int, off as int + 4)),
{
    let blen = b.len();
    proof {
        assert(off + 4 <= blen);
    }
    let b0 = *vstd::slice::slice_index_get(b, off) as u32;
    let b1 = *vstd::slice::slice_index_get(b, off + 1) as u32;
    let b2 = *vstd::slice::slice_index_get(b, off + 2) as u32;
    let b3 = *vstd::slice::slice_index_get(b, off + 3) as u32;
    b0 | (b1 << 8) | (b2 << 16) | (b3 << 24)
}

/// The 64-bit value read little-endian at a position.
fn rd64_at(b: &[u8], off: usize) -> (r: u64)
    requires
        off + 8 <= b@.len(),
    ensures
        r == rd64(b@.subrange(off as int, off as int + 8)),
{
    let blen = b.len();
    proof {
        assert(off + 8 <= blen);
    }
    let b0 = *vstd::slice::slice_index_get(b, off) as u64;
    let b1 = *vstd::slice::slice_index_get(b, off + 1) as u64;
    let b2 = *vstd::slice::slice_index_get(b, off + 2) as u64;
    let b3 = *vstd::slice::slice_index_get(b, off + 3) as u64;
    let b4 = *vstd::slice::slice_index_get(b, off + 4) as u64;
    let b5 = *vstd::slice::slice_index_get(b, off + 5) as u64;
    let b6 = *vstd::slice::slice_index_get(b, off + 6) as u64;
    let b7 = *vstd::slice::slice_index_get(b, off + 7) as u64;
    b0 | (b1 << 8) | (b2 << 16) | (b3 << 24) | (b4 << 32) | (b5 << 40) | (b6 << 48) | (b7 << 56)
}

/// The signed 64-bit value of a two's-complement bit pattern.
fn i64_from_bits(x: u64) -> (r: i64)
    ensures
        r == i64_of_u64(x),
{
    if x < 0x8000_0000_0000_0000 {
        x as i64
    } else {
        ((x as i128) - 0x1_0000_0000_0000_0000i128) as i64
    }
}

/// The signed 32-bit value of a two's-complement bit pattern.
fn i32_from_bits(x: u32) -> (r: i32)
    ensures
        r == i32_of_u32(x),
{
    if x < 0x8000_0000 {
        x as i32
    } else {
        ((x as i64) - 0x1_0000_0000i64) as i32
    }
}

/// The bytes of a range, copied.
fn read_vec(b: &[u8], from: usize, to: usize) -> (r: Vec<u8>)
    requires
        from <= to <= b@.len(),
    ensures
        r@ == b@.subrange(from as int, to as int),
{
    vstd::slice::slice_to_vec(vstd::slice::slice_subrange(b, from, to))
}

/// The absolute position of the first zero byte in a range, if any.
fn find_nul_range(b: &[u8], from: usize, to: usize) -> (r: Option<usize>)
    requires
        from <= to <= b@.len(),
    ensures
        r matches Some(i) ==> from <= i < to && i as int - from == find_nul_at(
            b@.subrange(from as int, to as int),
        ),
        r is None ==> find_nul_at(b@.subrange(from as int, to as int)) == -1,
{
    let ghost s = b@.subrange(from as int, to as int);
    let mut i = from;
    while i < to
        invariant
            from <= i <= to <= b@.len(),
            s == b@.subrange(from as int, to as int),
            forall|j: int| 0 <= j < i - from ==> s[j] != 0,
        decreases to - i,
    {
        if *vstd::slice::slice_index_get(b, i) == 0 {
            proof {
                assert(s[i - from] == 0);
                lemma_find_nul_at_is(s, i as int - from);
            }
            return Some(i);
        }
        i = i + 1;
    }
    proof {
        lemma_find_nul_at(s);
        if find_nul_at(s) >= 0 {
            assert(s[find_nul_at(s)] != 0);
        }
    }
    None
}

/// Reads a length-prefixed string in a range; mirrors [`parse_str`].
fn parse_str_bytes(b: &[u8], from: usize, to: usize) -> (r: Result<(Vec<u8>, usize), DecodeError>)
    requires
        from <= to <= b@.len(),
    ensures
        r matches Ok((p, m)) ==> parse_str(b@.subrange(from as int, to as int)) matches Ok(
            (sp, sm),
        ) && p@ == sp && m as int == sm && 4 <= m && from + m <= to,
        r matches Err(e) ==> parse_str(b@.subrange(from as int, to as int)) matches Err(e2) && e
            == e2,
{
    let ghost s = b@.subrange(from as int, to as int);
    if to - from < 4 {
        return Err(DecodeError::Truncated);
    }
    let l32 = rd32_at(b, from);
    proof {
        lemma_sub_sub(b@, from as int, to as int, 0, 4);
    }
    let l = l32 as usize;
    if l < 1 {
        return Err(DecodeError::LengthMismatch);
    }
    if l > to - from - 4 {
        return Err(DecodeError::LengthMismatch);
    }
    let endp = from + 4 + l;
    if *vstd::slice::slice_index_get(b, endp - 1) != 0 {
        proof {
            assert(s[4 + l - 1] == b@[endp - 1]);
        }
        return Err(DecodeError::UnterminatedCString);
    }
    proof {
        assert(s[4 + l - 1] == b@[endp - 1]);
    }
    let pslice = vstd::slice::slice_subrange(b, from + 4, endp - 1);
    proof {
        lemma_sub_sub(b@, from as int, to as int, 4, 4 + l - 1);
    }
    if !is_valid_utf8(pslice) {
        return Err(DecodeError::InvalidUtf8);
    }
    let p = vstd::slice::slice_to_vec(pslice);
    Ok((p, 4 + l))
}

/// Reads an embedded document or array span in a range; mirrors
/// [`parse_span`].
fn parse_span_bytes(b: &[u8], from: usize, to: usize) -> (r: Result<(Vec<u8>, usize), DecodeError>)
    requires
        from <= to <= b@.len(),
    ensures
        r matches Ok((p, m)) ==> parse_span(b@.subrange(from as int, to as int)) matches Ok(
            (sp, sm),
        ) && p@ == sp && m as int == sm && 5 <= m && from + m <= to,
        r matches Err(e) ==> parse_span(b@.subrange(from as int, to as int)) matches Err(e2) && e
            == e2,
{
    let ghost s = b@.subrange(from as int, to as int);
    if to - from < 4 {
        return Err(DecodeError::Truncated);
    }
    let l32 = rd32_at(b, from);
    proof {
        lemma_sub_sub(b@, from as int, to as int, 0, 4);
    }
    let l = l32 as usize;
    if l < 5 || l > to - from {
        return Err(DecodeError::LengthMismatch);
    }
    if *vstd::slice::slice_index_get(b, from + l - 1) != 0 {
        proof {
            assert(s[l - 1] == b@[from + l - 1]);
        }
        return Err(DecodeError::Truncated);
    }
    proof {
        assert(s[l - 1] == b@[from + l - 1]);
    }
    let p = read_vec(b, from, from + l);
    Ok((p, l))
}

/// Reads one value of the given type tag in a range; mirrors [`parse_value`].
#[verifier::rlimit(100)]
fn parse_value_bytes(b: &[u8], tag: u8, from: usize, to: usize) -> (r: Result<
    (MutableValue, usize),
    DecodeError,
>)
    requires
        from <= to <= b@.len(),
    ensures
        r matches Ok((v, m)) ==> parse_value(tag, b@.subrange(from as int, to as int)) matches Ok(
            (sv, sm),
        ) && view_value(v) == sv && m as int == sm && from + m <= to,
        r matches Err(e) ==> parse_value(tag, b@.subrange(from as int, to as int)) matches Err(
            e2,
        ) && e == e2,
{
    let ghost s = b@.subrange(from as int, to as int);
    let n = to - from;
    if tag == 1 {
        if n < 8 {
            return Err(DecodeError::Truncated);
        }
        let x = rd64_at(b, from);
        proof {
            lemma_sub_sub(b@, from as int, to as int, 0, 8);
        }
        Ok((MutableValue::Double(x), 8))
    } else if tag == 2 {
        match parse_str_bytes(b, from, to) {
            Err(e) => Err(e),
            Ok((p, m)) => Ok((MutableValue::String(p), m)),
        }
    } else if tag == 3 {
        match parse_span_bytes(b, from, to) {
            Err(e) => Err(e),
            Ok((p, m)) => Ok((MutableValue::Document(MutableDocument::Borrowed(p)), m)),
        }
    } else if tag == 4 {
        match parse_span_bytes(b, from, to) {
            Err(e) => Err(e),
            Ok((p, m)) => Ok((MutableValue::Array(MutableArray::Borrowed(p)), m)),
        }
    } else if tag == 5 {
        if n < 5 {
            return Err(DecodeError::Truncated);
        }
        let l32 = rd32_at(b, from);
        proof {
            lemma_sub_sub(b@, from as int, to as int, 0, 4);
        }
        let l = l32 as usize;
        if l > n - 5 {
            return Err(DecodeError::LengthMismatch);
        }
        let subtype = *vstd::slice::slice_index_get(b, from + 4);
        let payload = read_vec(b, from + 5, from + 5 + l);
        proof {
            assert(s[4] == b@[from + 4]);
            lemma_sub_sub(b@, from as int, to as int, 5, 5 + l);
        }
        Ok((MutableValue::Binary(MutableBinary { subtype, bytes: payload }), 5 + l))
    } else if tag == 6 {
        Ok((MutableValue::Undefined, 0))
    } else if tag == 7 {
        if n < 12 {
            return Err(DecodeError::Truncated);
        }
        let oid = read_vec(b, from, from + 12);
        proof {
            lemma_sub_sub(b@, from as int, to as int, 0, 12);
        }
        Ok((MutableValue::ObjectId(oid), 12))
    } else if tag == 8 {
        if n < 1 {
            return Err(DecodeError::Truncated);
        }
        let x = *vstd::slice::slice_index_get(b, from);
        proof {
            assert(s[0] == b@[from as int]);
        }
        if x == 0 {
            Ok((MutableValue::Boolean(false), 1))
        } else if x == 1 {
            Ok((MutableValue::Boolean(true), 1))
        } else {
            Err(DecodeError::InvalidValue)
        }
    } else if tag == 9 {
        if n < 8 {
            return Err(DecodeError::Truncated);
        }
        let x = rd64_at(b, from);
        proof {
            lemma_sub_sub(b@, from as int, to as int, 0, 8);
        }
        Ok((MutableValue::DateTime(i64_from_bits(x)), 8))
    } else if tag == 10 {
        Ok((MutableValue::Null, 0))
    } else if tag == 11 {
        let pnul = find_nul_range(b, from, to);
        match pnul {
            None => Err(DecodeError::UnterminatedCString),
            Some(pend) => {
                let onul = find_nul_range(b, pend + 1, to);
                proof {
                    lemma_sub_sub(b@, from as int, to as int, pend + 1 - from, to - from);
                    assert(s.subrange(pend + 1 - from, s.len() as int) == b@.subrange(
                        pend + 1,
                        to as int,
                    ));
                }
                match onul {
                    None => Err(DecodeError::UnterminatedCString),
                    Some(oend) => {
                        let pslice = vstd::slice::slice_subrange(b, from, pend);
                        let oslice = vstd::slice::slice_subrange(b, pend + 1, oend);
                        proof {
                            lemma_sub_sub(b@, from as int, to as int, 0, pend - from);
                            lemma_sub_sub(
                                b@,
                                pend + 1,
                                to as int,
                                0,
                                oend - pend - 1,
                            );
                        }
                        if !is_valid_utf8(pslice) || !is_valid_utf8(oslice) {
                            return Err(DecodeError::InvalidUtf8);
                        }
                        let pat = vstd::slice::slice_to_vec(pslice);
                        let opts = vstd::slice::slice_to_vec(oslice);
                        Ok(
                            (
                                MutableValue::RegularExpression(
                                    MutableRegex { pattern: pat, options: opts },
                                ),
                                oend + 1 - from,
                            ),
                        )
                    },
                }
            },
        }
    } else if tag == 12 {
        if n < 4 {
            return Err(DecodeError::Truncated);
        }
        let l32 = rd32_at(b, from);
        proof {
            lemma_sub_sub(b@, from as int, to as int, 0, 4);
        }
        let l = l32 as usize;
        if l < 1 || l > n || n - l < 16 {
            proof {
                assert(l < 1 || 4 + l as int + 12 > s.len());
            }
            return Err(DecodeError::LengthMismatch);
        }
        if *vstd::slice::slice_index_get(b, from + 4 + l - 1) != 0 {
            proof {
                assert(s[4 + l - 1] == b@[from + 4 + l - 1]);
            }
            return Err(DecodeError::UnterminatedCString);
        }
        let raw = read_vec(b, from, from + 4 + l + 12);
        proof {
            assert(s[4 + l - 1] == b@[from + 4 + l - 1]);
            lemma_sub_sub(b@, from as int, to as int, 0, 4 + l + 12);
        }
        Ok((MutableValue::DbPointer(raw), 4 + l + 12))
    } else if tag == 13 {
        match parse_str_bytes(b, from, to) {
            Err(e) => Err(e),
            Ok((p, m)) => Ok((MutableValue::JavaScriptCode(p), m)),
        }
    } else if tag == 14 {
        match parse_str_bytes(b, from, to) {
            Err(e) => Err(e),
            Ok((p, m)) => Ok((MutableValue::Symbol(p), m)),
        }
    } else if tag == 15 {
        if n < 4 {
            return Err(DecodeError::Truncated);
        }
        let t32 = rd32_at(b, from);
        proof {
            lemma_sub_sub(b@, from as int, to as int, 0, 4);
        }
        let t = t32 as usize;
        if t < 4 || t > n {
            return Err(DecodeError::LengthMismatch);
        }
        let ghost inner = s.subrange(4, t as int);
        proof {
            lemma_sub_sub(b@, from as int, to as int, 4, t as int);
        }
        match parse_str_bytes(b, from + 4, from + t) {
            Err(e) => Err(e),
            Ok((code, m)) => {
                let ghost scope_s = inner.subrange(m as int, inner.len() as int);
                proof {
                    lemma_sub_sub(b@, from + 4, from + t, m as int, inner.len() as int);
                }
                if t - 4 - m < 5 {
                    return Err(DecodeError::Truncated);
                }
                let sl32 = rd32_at(b, from + 4 + m);
                proof {
                    lemma_sub_sub(b@, from + 4 + m, from + t, 0, 4);
                }
                if sl32 as usize != t - 4 - m {
                    return Err(DecodeError::LengthMismatch);
                }
                if *vstd::slice::slice_index_get(b, from + t - 1) != 0 {
                    proof {
                        assert(scope_s[scope_s.len() - 1] == b@[from + t - 1]);
                    }
                    return Err(DecodeError::Truncated);
                }
                let scope = read_vec(b, from + 4 + m, from + t);
                proof {
                    assert(scope_s[scope_s.len() - 1] == b@[from + t - 1]);
                }
                Ok(
                    (
                        MutableValue::JavaScriptCodeWithScope(
                            MutableJavaScriptCodeWithScope {
                                code,
                                scope: MutableDocument::Borrowed(scope),
                            },
                        ),
                        t,
                    ),
                )
            },
        }
    } else if tag == 16 {
        if n < 4 {
            return Err(DecodeError::Truncated);
        }
        let x = rd32_at(b, from);
        proof {
            lemma_sub_sub(b@, from as int, to as int, 0, 4);
        }
        Ok((MutableValue::Int32(i32_from_bits(x)), 4))
    } else if tag == 17 {
        if n < 8 {
            return Err(DecodeError::Truncated);
        }
        let incr = rd32_at(b, from);
        let time = rd32_at(b, from + 4);
        proof {
            lemma_sub_sub(b@, from as int, to as int, 0, 4);
            lemma_sub_sub(b@, from as int, to as int, 4, 8);
        }
        Ok((MutableValue::Timestamp(Timestamp { time, increment: incr }), 8))
    } else if tag == 18 {
        if n < 8 {
            return Err(DecodeError::Truncated);
        }
        let x = rd64_at(b, from);
        proof {
            lemma_sub_sub(b@, from as int, to as int, 0, 8);
        }
        Ok((MutableValue::Int64(i64_from_bits(x)), 8))
    } else if tag == 19 {
        if n < 16 {
            return Err(DecodeError::Truncated);
        }
        let d = read_vec(b, from, from + 16);
        proof {
            lemma_sub_sub(b@, from as int, to as int, 0, 16);
        }
        Ok((MutableValue::Decimal128(d), 16))
    } else if tag == 255 {
        Ok((MutableValue::MinKey, 0))
    } else if tag == 127 {
        Ok((MutableValue::MaxKey, 0))
    } else {
        Err(DecodeError::UnrecognizedTag)
    }
}

/// Reads one element at a position; mirrors [`parse_elem`]. Returns the key,
/// the value, and the position just past the element.
#[verifier::rlimit(100)]
fn parse_elem_bytes(b: &[u8], off: usize, end: usize) -> (r: Result<
    (Vec<u8>, MutableValue, usize),
    DecodeError,
>)
    requires
        off < end <= b@.len(),
    ensures
        r matches Ok((k, v, noff)) ==> parse_elem(b@.subrange(off as int, end as int)) matches Ok(
            (sk, sv, sn),
        ) && k@ == sk && view_value(v) == sv && noff as int == off + sn && off < noff <= end,
        r matches Err(e) ==> parse_elem(b@.subrange(off as int, end as int)) matches Err(e2) && e
            == e2,
{
    let ghost s = b@.subrange(off as int, end as int);
    let tag = *vstd::slice::slice_index_get(b, off);
    proof {
        assert(s[0] == tag);
        lemma_sub_sub(b@, off as int, end as int, 1, s.len() as int);
        assert(s.subrange(1, s.len() as int) == b@.subrange(off + 1, end as int));
    }
    match find_nul_range(b, off + 1, end) {
        None => Err(DecodeError::UnterminatedCString),
        Some(kend) => {
            let kslice = vstd::slice::slice_subrange(b, off + 1, kend);
            proof {
                lemma_sub_sub(b@, off + 1, end as int, 0, kend - off - 1);
            }
            if !is_valid_utf8(kslice) {
                return Err(DecodeError::InvalidUtf8);
            }
            let key = vstd::slice::slice_to_vec(kslice);
            proof {
                lemma_sub_sub(
                    b@,
                    off + 1,
                    end as int,
                    kend - off,
                    end - off - 1,
                );
            }
            match parse_value_bytes(b, tag, kend + 1, end) {
                Err(e) => Err(e),
                Ok((v, m)) => Ok((key, v, kend + 1 + m)),
            }
        },
    }
}

/// Joins already-read entries with the outcome of reading the rest.
pub open spec fn elems_join(
    pre: Seq<(Seq<u8>, ValueV)>,
    r: Result<Seq<(Seq<u8>, ValueV)>, DecodeError>,
) -> Result<Seq<(Seq<u8>, ValueV)>, DecodeError> {
    match r {
        Ok(rest) => Ok(pre + rest),
        Err(e) => Err(e),
    }
}

/// Reads a whole document span into its key/value pairs, one level deep;
/// follows [`parse_doc`] exactly, including its errors.
pub fn parse_doc_bytes(b: &[u8]) -> (r: Result<Vec<(Vec<u8>, MutableValue)>, DecodeError>)
    ensures
        r matches Ok(es) ==> parse_doc(b@) matches Ok(sv) && view_entries(es@) == sv,
        r matches Err(e) ==> parse_doc(b@) matches Err(e2) && e == e2,
{
    broadcast use crate::value::lemma_view_entries_push;

    let n = b.len();
    if n < 5 {
        return Err(DecodeError::Truncated);
    }
    let l32 = rd32_at(b, 0);
    if l32 as usize != n {
        return Err(DecodeError::LengthMismatch);
    }
    if *vstd::slice::slice_index_get(b, n - 1) != 0 {
        return Err(DecodeError::Truncated);
    }
    let ghost body = b@.subrange(4, b@.len() - 1);
    let mut acc: Vec<(Vec<u8>, MutableValue)> = Vec::new();
    let mut off: usize = 4;
    let end = n - 1;
    proof {
        assert(view_entries(acc@) =~= Seq::<(Seq<u8>, ValueV)>::empty());
        assert(b@.subrange(off as int, end as int) =~= body);
        assert(Seq::<(Seq<u8>, ValueV)>::empty() + parse_elems(body)->Ok_0 =~= parse_elems(
            body,
        )->Ok_0);
        assert(rd32(b@.subrange(0, 4)) as int == b@.len());
        assert(parse_doc(b@) == parse_elems(body));
    }
    while off < end
        invariant
            4 <= off <= end,
            end == b@.len() - 1,
            body == b@.subrange(4, b@.len() - 1),
            parse_doc(b@) == parse_elems(body),
            parse_elems(body) == elems_join(
                view_entries(acc@),
                parse_elems(b@.subrange(off as int, end as int)),
            ),
        decreases end - off,
    {
        let ghost suffix = b@.subrange(off as int, end as int);
        match parse_elem_bytes(b, off, end) {
            Err(e) => {
                proof {
                    assert(suffix.len() > 0);
                    assert(parse_elems(suffix) matches Err(e2) && e2 == e);
                }
                return Err(e);
            },
            Ok((key, v, noff)) => {
                proof {
                    let sn = noff - off;
                    lemma_sub_sub(b@, off as int, end as int, sn as int, end - off);
                    assert(suffix.subrange(sn as int, suffix.len() as int) == b@.subrange(
                        noff as int,
                        end as int,
                    ));
                    let tail = parse_elems(b@.subrange(noff as int, end as int));
                    match tail {
                        Ok(rest) => {
                            assert(parse_elems(suffix) == Ok::<
                                Seq<(Seq<u8>, ValueV)>,
                                DecodeError,
                            >(seq![(key@, view_value(v))] + rest));
                            crate::value::lemma_view_entries_push(acc@, (key, v));
                            assert(view_entries(acc@.push((key, v))) == view_entries(acc@).push(
                                (key@, view_value(v)),
                            ));
                            assert(view_entries(acc@) + (seq![(key@, view_value(v))] + rest)
                                =~= view_entries(acc@).push((key@, view_value(v))) + rest);
                        },
                        Err(_) => {
                            assert(parse_elems(suffix) == tail);
                        },
                    }
                }
                acc.push((key, v));
                off = noff;
            },
        }
    }
    proof {
        assert(b@.subrange(off as int, end as int).len() == 0);
        assert(b@.subrange(off as int, end as int) =~= Seq::<u8>::empty());
        assert(parse_elems(Seq::<u8>::empty()) == Ok::<Seq<(Seq<u8>, ValueV)>, DecodeError>(Seq::<(Seq<u8>, ValueV)>::empty()));
        assert(view_entries(acc@) + Seq::<(Seq<u8>, ValueV)>::empty() =~= view_entries(acc@));
    }
    Ok(acc)
}


/// The outcome of promoting a document to its materialized form: a raw span
/// is decoded one level deep, entries with a repeated key folding into one;
/// an already materialized document is kept as it is.
pub open spec fn promoted(d: DocV) -> Result<Seq<(Seq<u8>, ValueV)>, DecodeError> {
    match d {
        DocV::Raw(b) => match parse_doc(b) {
            Ok(es) => Ok(crate::parsed_document::dedup_entries(es)),
            Err(e) => Err(e),
        },
        DocV::Entries(es) => Ok(es),
    }
}

/// The values of a document body in order, keys dropped.
pub open spec fn entry_values(es: Seq<(Seq<u8>, ValueV)>) -> Seq<ValueV> {
    Seq::new(es.len(), |i: int| es[i].1)
}

/// The outcome of promoting an array to its materialized form: a raw span is
/// decoded one level deep and its positional keys are dropped; an already
/// materialized array is kept as it is.
pub open spec fn promoted_items(a: ArrV) -> Result<Seq<ValueV>, DecodeError> {
    match a {
        ArrV::Raw(b) => match parse_doc(b) {
            Ok(es) => Ok(entry_values(es)),
            Err(e) => Err(e),
        },
        ArrV::Items(items) => Ok(items),
    }
}

impl MutableDocument {
    /// Converts the representation to a parsed document if necessary and
    /// hands out mutable access to it. Fails, leaving the document untouched,
    /// exactly when the raw span is malformed; it does nothing when the
    /// document is already parsed.
    pub fn to_parsed(&mut self) -> (r: Result<&mut ParsedDocument, DecodeError>)
        ensures
            r matches Ok(p) ==> promoted(old(self)@) matches Ok(es) && (*p)@ == es && *final(self)
                == MutableDocument::Owned(*final(p)),
            r matches Err(e) ==> promoted(old(self)@) matches Err(e2) && e == e2 && *final(self)
                == *old(self),
            r is Ok <==> promoted(old(self)@) is Ok,
            r matches Ok(p) ==> (old(self)@ is Raw ==> (*p).wf()),
    {
        let parsed = match self {
            MutableDocument::Borrowed(bytes) => Some(parse_doc_bytes(bytes.as_slice())),
            MutableDocument::Owned(_) => None,
        };
        match parsed {
            Some(Err(e)) => {
                return Err(e);
            },
            Some(Ok(es)) => {
                *self = MutableDocument::Owned(ParsedDocument::from_entries(es));
            },
            None => {},
        }
        match self {
            MutableDocument::Owned(p) => Ok(p),
            MutableDocument::Borrowed(_) => {
                proof {
                    assert(false);
                }
                Err(DecodeError::Truncated)
            },
        }
    }

    /// Converts the representation to a parsed document if necessary,
    /// consuming this one. Fails exactly when the raw span is malformed.
    pub fn try_into_parsed(self) -> (r: Result<MutableDocument, DecodeError>)
        ensures
            r matches Ok(d) ==> promoted(self@) matches Ok(es) && d@ == DocV::Entries(es),
            r matches Err(e) ==> promoted(self@) matches Err(e2) && e == e2,
            r is Ok <==> promoted(self@) is Ok,
    {
        match self {
            MutableDocument::Owned(p) => Ok(MutableDocument::Owned(p)),
            MutableDocument::Borrowed(bytes) => match parse_doc_bytes(bytes.as_slice()) {
                Err(e) => Err(e),
                Ok(es) => Ok(MutableDocument::Owned(ParsedDocument::from_entries(es))),
            },
        }
    }
}

impl MutableArray {
    /// Decodes an encoded array span into its values, in order; the
    /// positional keys carried on the wire are dropped, not checked.
    pub fn encoded_to_parsed(raw: &Vec<u8>) -> (r: Result<Vec<MutableValue>, DecodeError>)
        ensures
            r matches Ok(vs) ==> parse_doc(raw@) matches Ok(es) && view_items(vs@) == entry_values(
                es,
            ),
            r matches Err(e) ==> parse_doc(raw@) matches Err(e2) && e == e2,
            r is Ok <==> parse_doc(raw@) is Ok,
    {
        match parse_doc_bytes(raw.as_slice()) {
            Err(e) => Err(e),
            Ok(es) => {
                let ghost all = view_entries(es@);
                proof {
                    crate::value::lemma_view_entries(es@);
                }
                let mut rest = es;
                let mut out: Vec<MutableValue> = Vec::new();
                let ghost mut i: int = 0;
                proof {
                    crate::value::lemma_view_items(out@);
                }
                while rest.len() > 0
                    invariant
                        0 <= i <= all.len(),
                        rest@.len() == all.len() - i,
                        forall|j: int|
                            0 <= j < rest@.len() ==> (rest@[j].0@, view_value(rest@[j].1))
                                == all[i + j],
                        out@.len() == i,
                        forall|j: int| 0 <= j < i ==> view_value(#[trigger] out@[j]) == all[j].1,
                    decreases rest@.len(),
                {
                    let ghost rest_pre = rest@;
                    let pair = rest.remove(0);
                    out.push(pair.1);
                    proof {
                        assert(view_value(pair.1) == all[i].1);
                        assert forall|j: int| 0 <= j < rest@.len() implies (
                            rest@[j].0@,
                            view_value(rest@[j].1),
                        ) == all[i + 1 + j] by {
                            assert(rest@[j] == rest_pre[j + 1]);
                        }
                        i = i + 1;
                    }
                }
                proof {
                    crate::value::lemma_view_items(out@);
                    assert(view_items(out@) =~= entry_values(all));
                }
                Ok(out)
            },
        }
    }

    /// Converts the representation to a parsed value list if necessary and
    /// hands out mutable access to it. Fails, leaving the array untouched,
    /// exactly when the raw span is malformed; it does nothing when the array
    /// is already parsed.
    pub fn to_parsed(&mut self) -> (r: Result<&mut Vec<MutableValue>, DecodeError>)
        ensures
            r matches Ok(p) ==> promoted_items(old(self)@) matches Ok(items) && view_items((*p)@)
                == items && *final(self) == MutableArray::Owned(*final(p)),
            r matches Err(e) ==> promoted_items(old(self)@) matches Err(e2) && e == e2
                && *final(self) == *old(self),
            r is Ok <==> promoted_items(old(self)@) is Ok,
    {
        let parsed = match self {
            MutableArray::Borrowed(bytes) => Some(MutableArray::encoded_to_parsed(bytes)),
            MutableArray::Owned(_) => None,
        };
        match parsed {
            Some(Err(e)) => {
                return Err(e);
            },
            Some(Ok(vs)) => {
                *self = MutableArray::Owned(vs);
            },
            None => {},
        }
        match self {
            MutableArray::Owned(p) => Ok(p),
            MutableArray::Borrowed(_) => {
                proof {
                    assert(false);
                }
                Err(DecodeError::Truncated)
            },
        }
    }

    /// Converts the representation to a parsed value list if necessary,
    /// consuming this one. Fails exactly when the raw span is malformed.
    pub fn try_into_parsed(self) -> (r: Result<MutableArray, DecodeError>)
        ensures
            r matches Ok(a) ==> promoted_items(self@) matches Ok(items) && a@ == ArrV::Items(
                items,
            ),
            r matches Err(e) ==> promoted_items(self@) matches Err(e2) && e == e2,
            r is Ok <==> promoted_items(self@) is Ok,
    {
        match self {
            MutableArray::Owned(p) => Ok(MutableArray::Owned(p)),
            MutableArray::Borrowed(bytes) => match MutableArray::encoded_to_parsed(&bytes) {
                Err(e) => Err(e),
                Ok(vs) => Ok(MutableArray::Owned(vs)),
            },
        }
    }
}

} // verus!
