//! The two-phase encoder: exact byte lengths, then wire bytes.

use vstd::prelude::*;

use crate::err::EncodeError;
use crate::parsed_document::ParsedDocument;
use crate::value::{
    MutableArray, MutableBinary, MutableDocument, MutableJavaScriptCodeWithScope, MutableRegex,
    MutableValue, view_entries, view_items, view_value,
};
use crate::value::{lemma_view_entries, lemma_view_items};
use crate::wire::{
    MAX_DOC_LEN, ValueV, clamp_len, dec_bytes, enc_arr, enc_cstr, enc_doc, enc_element,
    enc_entries, enc_entry_list, enc_err_arr, enc_err_doc, enc_err_entries, enc_err_items,
    enc_err_value, enc_item_list, enc_str, enc_value, has_nul, le32, le64, u32_of_i32, u64_of_i64,
};

verus! {

broadcast use vstd::seq::group_seq_axioms, vstd::std_specs::vec::group_vec_axioms,
    vstd::array::group_array_axioms, crate::wire::lemma_le32_len, crate::wire::lemma_le64_len,
    crate::value::lemma_view_entries, crate::value::lemma_view_items;

/// Appends a slice's bytes.
pub fn push_bytes(buf: &mut Vec<u8>, s: &[u8])
    ensures
        final(buf)@ == old(buf)@ + s@,
{
    proof {
        assert(old(buf)@ + s@.take(0) =~= old(buf)@);
    }
    let mut i: usize = 0;
    while i < s.len()
        invariant
            i <= s@.len(),
            buf@ == old(buf)@ + s@.take(i as int),
        decreases s@.len() - i,
    {
        let b = *vstd::slice::slice_index_get(s, i);
        buf.push(b);
        proof {
            assert(s@.take(i + 1) =~= s@.take(i as int).push(s@[i as int]));
            assert(buf@ =~= old(buf)@ + s@.take(i + 1));
        }
        i = i + 1;
    }
    proof {
        assert(s@.take(s@.len() as int) =~= s@);
    }
}

/// Appends a 32-bit value little-endian.
pub fn push_u32_le(buf: &mut Vec<u8>, x: u32)
    ensures
        final(buf)@ == old(buf)@ + le32(x),
{
    proof {
        assert((x & 0xff) < 256 && ((x >> 8) & 0xff) < 256 && ((x >> 16) & 0xff) < 256 && ((x
            >> 24) & 0xff) < 256) by (bit_vector);
    }
    buf.push((x & 0xff) as u8);
    buf.push(((x >> 8) & 0xff) as u8);
    buf.push(((x >> 16) & 0xff) as u8);
    buf.push(((x >> 24) & 0xff) as u8);
    proof {
        assert(buf@ =~= old(buf)@ + le32(x));
    }
}

/// Appends a 64-bit value little-endian.
pub fn push_u64_le(buf: &mut Vec<u8>, x: u64)
    ensures
        final(buf)@ == old(buf)@ + le64(x),
{
    proof {
        assert((x & 0xff) < 256 && ((x >> 8) & 0xff) < 256 && ((x >> 16) & 0xff) < 256 && ((x
            >> 24) & 0xff) < 256 && ((x >> 32) & 0xff) < 256 && ((x >> 40) & 0xff) < 256 && ((x
            >> 48) & 0xff) < 256 && ((x >> 56) & 0xff) < 256) by (bit_vector);
    }
    buf.push((x & 0xff) as u8);
    buf.push(((x >> 8) & 0xff) as u8);
    buf.push(((x >> 16) & 0xff) as u8);
    buf.push(((x >> 24) & 0xff) as u8);
    buf.push(((x >> 32) & 0xff) as u8);
    buf.push(((x >> 40) & 0xff) as u8);
    buf.push(((x >> 48) & 0xff) as u8);
    buf.push(((x >> 56) & 0xff) as u8);
    proof {
        assert(buf@ =~= old(buf)@ + le64(x));
    }
}

/// The two's-complement bit pattern of a signed 64-bit value.
pub fn i64_bits(x: i64) -> (r: u64)
    ensures
        r == u64_of_i64(x),
{
    if x >= 0 {
        x as u64
    } else {
        ((x as i128) + 0x1_0000_0000_0000_0000i128) as u64
    }
}

/// The two's-complement bit pattern of a signed 32-bit value.
pub fn i32_bits(x: i32) -> (r: u32)
    ensures
        r == u32_of_i32(x),
{
    if x >= 0 {
        x as u32
    } else {
        ((x as i64) + 0x1_0000_0000i64) as u32
    }
}

/// Whether the bytes hold an embedded NUL.
pub fn has_nul_bytes(s: &Vec<u8>) -> (r: bool)
    ensures
        r == has_nul(s@),
{
    let mut i: usize = 0;
    while i < s.len()
        invariant
            i <= s@.len(),
            forall|j: int| 0 <= j < i ==> s@[j] != 0,
        decreases s@.len() - i,
    {
        if s[i] == 0 {
            proof {
                assert(s@[i as int] == 0);
            }
            return true;
        }
        i = i + 1;
    }
    false
}

/// Writes a NUL-terminated string: the bytes, then a zero terminator. Fails,
/// writing nothing, when the bytes hold an embedded NUL.
pub fn put_raw_cstr(s: &Vec<u8>, buf: &mut Vec<u8>) -> (r: Result<(), EncodeError>)
    ensures
        r is Ok <==> !has_nul(s@),
        r is Ok ==> final(buf)@ == old(buf)@ + enc_cstr(s@),
        r matches Err(e) ==> final(buf)@ == old(buf)@ && e == EncodeError::InvalidCString,
{
    if has_nul_bytes(s) {
        return Err(EncodeError::InvalidCString);
    }
    push_bytes(buf, s.as_slice());
    buf.push(0);
    proof {
        assert(buf@ =~= old(buf)@ + enc_cstr(s@));
    }
    Ok(())
}

/// Byte length of a NUL-terminated string on the wire: the bytes plus the
/// single terminator byte.
pub fn raw_cstr_len(s: &Vec<u8>) -> (r: usize)
    requires
        s@.len() < usize::MAX,
    ensures
        r == s@.len() + 1,
        r == enc_cstr(s@).len(),
{
    s.len() + 1
}

/// Byte length of a length-prefixed string on the wire: four length bytes,
/// the payload, one terminator.
pub fn raw_str_len(s: &Vec<u8>) -> (r: usize)
    requires
        s@.len() + 5 <= usize::MAX,
    ensures
        r == s@.len() + 5,
        r == enc_str(s@).len(),
{
    4 + s.len() + 1
}

/// Writes a length-prefixed string: little-endian byte count (payload plus
/// terminator), the payload, a zero terminator. Fails, writing nothing, when
/// the payload holds an embedded NUL.
pub fn put_raw_str(s: &Vec<u8>, buf: &mut Vec<u8>) -> (r: Result<(), EncodeError>)
    requires
        s@.len() + 1 < 0x1_0000_0000,
    ensures
        r is Ok <==> !has_nul(s@),
        r is Ok ==> final(buf)@ == old(buf)@ + enc_str(s@),
        r matches Err(e) ==> final(buf)@ == old(buf)@ && e == EncodeError::InvalidCString,
{
    if has_nul_bytes(s) {
        return Err(EncodeError::InvalidCString);
    }
    let n: u32 = s.len() as u32 + 1;
    push_u32_le(buf, n);
    push_bytes(buf, s.as_slice());
    buf.push(0);
    proof {
        assert(n == (s@.len() + 1) as u32);
        assert(buf@ =~= old(buf)@ + enc_str(s@));
    }
    Ok(())
}

/// Every decimal digit byte is between `'0'` and `'9'`; in particular no NUL.
pub proof fn lemma_dec_bytes_digits(n: int)
    requires
        n >= 0,
    ensures
        forall|i: int| 0 <= i < dec_bytes(n).len() ==> 48 <= #[trigger] dec_bytes(n)[i] <= 57,
        !has_nul(dec_bytes(n)),
    decreases n,
{
    if n >= 10 {
        lemma_dec_bytes_digits(n / 10);
    }
}

/// Appends the decimal digits of `n`.
fn push_dec(n: usize, out: &mut Vec<u8>)
    ensures
        final(out)@ == old(out)@ + dec_bytes(n as int),
    decreases n,
{
    if n >= 10 {
        push_dec(n / 10, out);
        let d: u8 = (n % 10) as u8;
        out.push(48 + d);
        proof {
            assert(out@ =~= old(out)@ + dec_bytes(n as int));
        }
    } else {
        let d: u8 = n as u8;
        out.push(48 + d);
        proof {
            assert(out@ =~= old(out)@ + dec_bytes(n as int));
        }
    }
}

/// The decimal digits of a zero-based position, the synthesized key of an
/// array element.
pub fn dec_key(n: usize) -> (r: Vec<u8>)
    ensures
        r@ == dec_bytes(n as int),
{
    let mut out: Vec<u8> = Vec::new();
    push_dec(n, &mut out);
    proof {
        assert(Seq::<u8>::empty() + dec_bytes(n as int) =~= dec_bytes(n as int));
    }
    out
}

/// Saturating byte-count addition.
fn sat_add(a: usize, b: usize) -> (r: usize)
    ensures
        r == clamp_len(a + b),
{
    a.saturating_add(b)
}

/// Clamping twice is clamping once: a clamped count plus more, clamped,
/// equals the true total clamped.
pub proof fn lemma_clamp_add(x: int, y: int)
    requires
        x >= 0,
        y >= 0,
    ensures
        clamp_len(clamp_len(x) as int + y) == clamp_len(x + y),
        clamp_len(y + clamp_len(x) as int) == clamp_len(x + y),
{
}

impl MutableValue {
    /// Exact encoded payload byte count, excluding the leading type tag and
    /// key, clamped to the machine word.
    pub fn raw_len(&self) -> (r: usize)
        ensures
            r == clamp_len(enc_value(self@).len() as int),
        decreases *self,
    {
        match self {
            MutableValue::Double(_) => 8,
            MutableValue::String(s) => sat_add(s.len(), 5),
            MutableValue::Document(d) => d.raw_len(),
            MutableValue::Array(a) => a.raw_len(),
            MutableValue::Binary(b) => b.raw_len(),
            MutableValue::Undefined => 0,
            MutableValue::ObjectId(oid) => oid.len(),
            MutableValue::Boolean(_) => 1,
            MutableValue::DateTime(_) => 8,
            MutableValue::Null => 0,
            MutableValue::RegularExpression(re) => re.raw_len(),
            MutableValue::DbPointer(raw) => raw.len(),
            MutableValue::JavaScriptCode(s) => sat_add(s.len(), 5),
            MutableValue::Symbol(s) => sat_add(s.len(), 5),
            MutableValue::JavaScriptCodeWithScope(c) => c.raw_len(),
            MutableValue::Int32(_) => 4,
            MutableValue::Timestamp(_) => 8,
            MutableValue::Int64(_) => 8,
            MutableValue::Decimal128(d) => d.len(),
            MutableValue::MinKey => 0,
            MutableValue::MaxKey => 0,
        }
    }
}

impl MutableBinary {
    /// Encoded byte count: length prefix, subtype byte, payload.
    pub fn raw_len(&self) -> (r: usize)
        ensures
            r == clamp_len(enc_value(ValueV::Binary(self.subtype, self.bytes@)).len() as int),
    {
        sat_add(self.bytes.len(), 5)
    }
}

impl MutableRegex {
    /// Encoded byte count: both parts, each NUL-terminated.
    pub fn raw_len(&self) -> (r: usize)
        ensures
            r == clamp_len(
                enc_value(ValueV::RegularExpression(self.pattern@, self.options@)).len() as int,
            ),
    {
        let r = sat_add(sat_add(self.pattern.len(), self.options.len()), 2);
        proof {
            lemma_clamp_add(self.pattern@.len() + self.options@.len() as int, 2);
        }
        r
    }

    /// The pattern and the options.
    pub fn parts(&self) -> (r: (&Vec<u8>, &Vec<u8>))
        ensures
            r.0@ == self.pattern@,
            r.1@ == self.options@,
    {
        (&self.pattern, &self.options)
    }
}

impl MutableJavaScriptCodeWithScope {
    /// Encoded byte count: total length prefix, length-prefixed code string,
    /// the scope document's own bytes.
    pub fn raw_len(&self) -> (r: usize)
        ensures
            r == clamp_len(
                enc_value(
                    ValueV::JavaScriptCodeWithScope(self.code@, crate::value::view_doc(self.scope)),
                ).len() as int,
            ),
        decreases *self,
    {
        let slen = self.scope.raw_len();
        let r = sat_add(sat_add(self.code.len(), 9), slen);
        proof {
            let sreal = enc_doc(crate::value::view_doc(self.scope)).len() as int;
            lemma_clamp_add(self.code@.len() as int + 9, slen as int);
            lemma_clamp_add(sreal, self.code@.len() as int + 9);
        }
        r
    }
}

impl MutableDocument {
    /// Encoded byte count of the whole document.
    pub fn raw_len(&self) -> (r: usize)
        ensures
            r == clamp_len(enc_doc(self@).len() as int),
        decreases *self,
    {
        match self {
            MutableDocument::Borrowed(b) => b.len(),
            MutableDocument::Owned(p) => p.raw_len(),
        }
    }
}

impl ParsedDocument {
    /// Encoded byte count of the whole document: length prefix, one element
    /// per entry, terminator.
    pub fn raw_len(&self) -> (r: usize)
        ensures
            r == clamp_len(enc_entries(self@).len() as int),
        decreases *self,
    {
        let mut total: usize = 5;
        let mut i: usize = 0;
        proof {
            lemma_view_entries(self.entries@);
            assert(self@.take(0) =~= Seq::<(Seq<u8>, ValueV)>::empty());
        }
        while i < self.entries.len()
            invariant
                i <= self.entries@.len(),
                self@.len() == self.entries@.len(),
                forall|j: int|
                    0 <= j < self.entries@.len() ==> self@[j] == (
                        self.entries@[j].0@,
                        view_value(self.entries@[j].1),
                    ),
                total == clamp_len(5 + enc_entry_list(self@.take(i as int)).len() as int),
            decreases self.entries@.len() - i,
        {
            let pair = &self.entries[i];
            let vlen = pair.1.raw_len();
            let ghost prev = self@.take(i as int);
            let ghost b = enc_entry_list(prev).len() as int;
            let ghost ev = enc_value(view_value(self.entries@[i as int].1)).len() as int;
            total = sat_add(sat_add(sat_add(total, 2), pair.0.len()), vlen);
            proof {
                assert(self@.take(i + 1) =~= prev.push(self@[i as int]));
                crate::wire::lemma_enc_entry_list_snoc(prev, self@[i as int].0, self@[i as int].1);
                lemma_clamp_add(5 + b, 2);
                lemma_clamp_add(5 + b + 2, pair.0@.len() as int);
                lemma_clamp_add(5 + b + 2 + pair.0@.len(), clamp_len(ev) as int);
                lemma_clamp_add(ev, 5 + b + 2 + pair.0@.len());
            }
            i = i + 1;
        }
        proof {
            assert(self@.take(self@.len() as int) =~= self@);
        }
        total
    }
}

impl MutableArray {
    /// Encoded byte count of the whole array, positional keys included.
    pub fn raw_len(&self) -> (r: usize)
        ensures
            r == clamp_len(enc_arr(self@).len() as int),
        decreases *self,
    {
        match self {
            MutableArray::Borrowed(b) => b.len(),
            MutableArray::Owned(items) => {
                let ghost vs = view_items(items@);
                proof {
                    lemma_view_items(items@);
                    assert(vs.take(0) =~= Seq::<ValueV>::empty());
                }
                let mut total: usize = 5;
                let mut i: usize = 0;
                while i < items.len()
                    invariant
                        i <= items@.len(),
                        *self == MutableArray::Owned(*items),
                        vs == view_items(items@),
                        vs.len() == items@.len(),
                        forall|j: int|
                            0 <= j < items@.len() ==> vs[j] == view_value(items@[j]),
                        total == clamp_len(5 + enc_item_list(vs.take(i as int), 0).len() as int),
                    decreases items@.len() - i,
                {
                    let v = &items[i];
                    proof {
                        assert(decreases_to!(*self => self->Owned_0));
                        assert(decreases_to!(self->Owned_0 => self->Owned_0@));
                        assert(decreases_to!(self->Owned_0@ => self->Owned_0@[i as int]));
                        assert(self->Owned_0@[i as int] == items@[i as int]);
                        assert(decreases_to!(*self => items@[i as int]));
                    }
                    let vlen = v.raw_len();
                    let key = dec_key(i);
                    let ghost prev = vs.take(i as int);
                    let ghost b = enc_item_list(prev, 0).len() as int;
                    let ghost ev = enc_value(vs[i as int]).len() as int;
                    total = sat_add(sat_add(sat_add(total, 2), key.len()), vlen);
                    proof {
                        assert(vs.take(i + 1) =~= prev.push(vs[i as int]));
                        crate::wire::lemma_enc_item_list_snoc(prev, 0, vs[i as int]);
                        assert(prev.len() == i as int);
                        lemma_clamp_add(5 + b, 2);
                        lemma_clamp_add(5 + b + 2, key@.len() as int);
                        lemma_clamp_add(5 + b + 2 + key@.len(), clamp_len(ev) as int);
                        lemma_clamp_add(ev, 5 + b + 2 + key@.len());
                    }
                    i = i + 1;
                }
                proof {
                    assert(vs.take(vs.len() as int) =~= vs);
                }
                total
            },
        }
    }
}


impl MutableValue {
    /// Writes this value's wire bytes, excluding the leading type tag and
    /// key. On failure the buffer may hold a partial prefix; it is not
    /// rolled back.
    pub fn put(&self, buf: &mut Vec<u8>) -> (r: Result<(), EncodeError>)
        requires
            enc_value(self@).len() <= MAX_DOC_LEN as int,
        ensures
            r is Ok <==> enc_err_value(self@) is None,
            r is Ok ==> final(buf)@ == old(buf)@ + enc_value(self@),
            r matches Err(e) ==> Some(e) == enc_err_value(self@),
        decreases *self,
    {
        match self {
            MutableValue::Double(b) => {
                push_u64_le(buf, *b);
                Ok(())
            },
            MutableValue::String(s) => put_raw_str(s, buf),
            MutableValue::Document(d) => d.put(buf),
            MutableValue::Array(a) => a.put(buf),
            MutableValue::Binary(b) => {
                b.put(buf);
                Ok(())
            },
            MutableValue::Undefined => {
                proof {
                    assert(old(buf)@ + enc_value(self@) =~= old(buf)@);
                }
                Ok(())
            },
            MutableValue::ObjectId(b) => {
                push_bytes(buf, b.as_slice());
                Ok(())
            },
            MutableValue::Boolean(x) => {
                buf.push(if *x { 1 } else { 0 });
                proof {
                    assert(buf@ =~= old(buf)@ + enc_value(self@));
                }
                Ok(())
            },
            MutableValue::DateTime(x) => {
                push_u64_le(buf, i64_bits(*x));
                Ok(())
            },
            MutableValue::Null => {
                proof {
                    assert(old(buf)@ + enc_value(self@) =~= old(buf)@);
                }
                Ok(())
            },
            MutableValue::RegularExpression(re) => re.put(buf),
            MutableValue::DbPointer(_) => Err(EncodeError::Unencodable),
            MutableValue::JavaScriptCode(s) => put_raw_str(s, buf),
            MutableValue::Symbol(s) => put_raw_str(s, buf),
            MutableValue::JavaScriptCodeWithScope(c) => c.put(buf),
            MutableValue::Int32(x) => {
                push_u32_le(buf, i32_bits(*x));
                Ok(())
            },
            MutableValue::Timestamp(t) => {
                push_u32_le(buf, t.increment);
                push_u32_le(buf, t.time);
                proof {
                    assert(buf@ =~= old(buf)@ + enc_value(self@));
                }
                Ok(())
            },
            MutableValue::Int64(x) => {
                push_u64_le(buf, i64_bits(*x));
                Ok(())
            },
            MutableValue::Decimal128(b) => {
                push_bytes(buf, b.as_slice());
                Ok(())
            },
            MutableValue::MinKey => {
                proof {
                    assert(old(buf)@ + enc_value(self@) =~= old(buf)@);
                }
                Ok(())
            },
            MutableValue::MaxKey => {
                proof {
                    assert(old(buf)@ + enc_value(self@) =~= old(buf)@);
                }
                Ok(())
            },
        }
    }
}

impl MutableBinary {
    /// Writes the blob: length prefix (excluding the subtype byte), subtype,
    /// payload. Never fails.
    pub fn put(&self, buf: &mut Vec<u8>)
        requires
            self.bytes@.len() + 5 <= MAX_DOC_LEN as int,
        ensures
            final(buf)@ == old(buf)@ + enc_value(ValueV::Binary(self.subtype, self.bytes@)),
    {
        push_u32_le(buf, self.bytes.len() as u32);
        buf.push(self.subtype);
        push_bytes(buf, self.bytes.as_slice());
        proof {
            assert(buf@ =~= old(buf)@ + enc_value(ValueV::Binary(self.subtype, self.bytes@)));
        }
    }
}

impl MutableRegex {
    /// Writes the pattern and the options, each NUL-terminated. Fails when
    /// either part holds an embedded NUL.
    pub fn put(&self, buf: &mut Vec<u8>) -> (r: Result<(), EncodeError>)
        ensures
            r is Ok <==> enc_err_value(
                ValueV::RegularExpression(self.pattern@, self.options@),
            ) is None,
            r is Ok ==> final(buf)@ == old(buf)@ + enc_value(
                ValueV::RegularExpression(self.pattern@, self.options@),
            ),
            r matches Err(e) ==> Some(e) == enc_err_value(
                ValueV::RegularExpression(self.pattern@, self.options@),
            ),
    {
        match put_raw_cstr(&self.pattern, buf) {
            Err(e) => {
                return Err(e);
            },
            Ok(_) => {},
        }
        match put_raw_cstr(&self.options, buf) {
            Err(e) => {
                return Err(e);
            },
            Ok(_) => {},
        }
        proof {
            assert(buf@ =~= old(buf)@ + enc_value(
                ValueV::RegularExpression(self.pattern@, self.options@),
            ));
        }
        Ok(())
    }
}

impl MutableJavaScriptCodeWithScope {
    /// Writes the total length prefix, the length-prefixed code string, and
    /// the scope document's bytes.
    pub fn put(&self, buf: &mut Vec<u8>) -> (r: Result<(), EncodeError>)
        requires
            enc_value(
                ValueV::JavaScriptCodeWithScope(self.code@, crate::value::view_doc(self.scope)),
            ).len() <= MAX_DOC_LEN as int,
        ensures
            r is Ok <==> enc_err_value(
                ValueV::JavaScriptCodeWithScope(self.code@, crate::value::view_doc(self.scope)),
            ) is None,
            r is Ok ==> final(buf)@ == old(buf)@ + enc_value(
                ValueV::JavaScriptCodeWithScope(self.code@, crate::value::view_doc(self.scope)),
            ),
            r matches Err(e) ==> Some(e) == enc_err_value(
                ValueV::JavaScriptCodeWithScope(self.code@, crate::value::view_doc(self.scope)),
            ),
        decreases *self,
    {
        let ghost scope_view = crate::value::view_doc(self.scope);
        let slen = self.scope.raw_len();
        proof {
            assert(slen == enc_doc(scope_view).len());
        }
        let total = 4 + raw_str_len(&self.code) + slen;
        push_u32_le(buf, total as u32);
        match put_raw_str(&self.code, buf) {
            Err(e) => {
                return Err(e);
            },
            Ok(_) => {},
        }
        match self.scope.put(buf) {
            Err(e) => {
                return Err(e);
            },
            Ok(_) => {},
        }
        proof {
            let body = enc_str(self.code@) + enc_doc(scope_view);
            assert(total as int == 4 + body.len());
            assert(buf@ =~= old(buf)@ + (le32((4 + body.len()) as u32) + body));
        }
        Ok(())
    }
}

impl MutableDocument {
    /// Writes the whole document: verbatim for a raw span, assembled for a
    /// parsed one.
    pub fn put(&self, buf: &mut Vec<u8>) -> (r: Result<(), EncodeError>)
        requires
            enc_doc(self@).len() <= MAX_DOC_LEN as int,
        ensures
            r is Ok <==> enc_err_doc(self@) is None,
            r is Ok ==> final(buf)@ == old(buf)@ + enc_doc(self@),
            r matches Err(e) ==> Some(e) == enc_err_doc(self@),
        decreases *self,
    {
        match self {
            MutableDocument::Borrowed(b) => {
                push_bytes(buf, b.as_slice());
                Ok(())
            },
            MutableDocument::Owned(p) => p.put(buf),
        }
    }
}

impl ParsedDocument {
    /// Writes the whole document: inclusive length prefix, one element per
    /// entry in document order, terminating zero byte.
    pub fn put(&self, buf: &mut Vec<u8>) -> (r: Result<(), EncodeError>)
        requires
            enc_entries(self@).len() <= MAX_DOC_LEN as int,
        ensures
            r is Ok <==> enc_err_entries(self@) is None,
            r is Ok ==> final(buf)@ == old(buf)@ + enc_entries(self@),
            r matches Err(e) ==> Some(e) == enc_err_entries(self@),
        decreases *self,
    {
        let total = self.raw_len();
        proof {
            lemma_view_entries(self.entries@);
            assert(total as int == enc_entry_list(self@).len() + 5);
        }
        push_u32_le(buf, total as u32);
        let mut i: usize = 0;
        proof {
            assert(self@.take(0) =~= Seq::<(Seq<u8>, ValueV)>::empty());
            assert(self@.skip(0) =~= self@);
            assert(buf@ =~= old(buf)@ + le32(total as u32) + enc_entry_list(self@.take(0)));
        }
        while i < self.entries.len()
            invariant
                i <= self.entries@.len(),
                self@.len() == self.entries@.len(),
                forall|j: int|
                    0 <= j < self.entries@.len() ==> self@[j] == (
                        self.entries@[j].0@,
                        view_value(self.entries@[j].1),
                    ),
                total as int == enc_entry_list(self@).len() + 5,
                enc_entry_list(self@).len() + 5 <= MAX_DOC_LEN as int,
                buf@ == old(buf)@ + le32(total as u32) + enc_entry_list(self@.take(i as int)),
                enc_err_entries(self@) == enc_err_entries(self@.skip(i as int)),
            decreases self.entries@.len() - i,
        {
            let pair = &self.entries[i];
            let ghost pre = self@;
            let ghost cur = self@[i as int];
            proof {
                assert(pre.skip(i as int).len() > 0);
                assert(pre.skip(i as int)[0] == cur);
                assert(pre.skip(i as int).drop_first() =~= pre.skip(i + 1));
            }
            let tag = pair.1.element_type();
            buf.push(tag);
            match put_raw_cstr(&pair.0, buf) {
                Err(e) => {
                    return Err(e);
                },
                Ok(_) => {},
            }
            proof {
                crate::wire::lemma_entry_value_bound(pre, i as int);
            }
            match pair.1.put(buf) {
                Err(e) => {
                    return Err(e);
                },
                Ok(_) => {},
            }
            proof {
                assert(pre.take(i + 1) =~= pre.take(i as int).push(cur));
                crate::wire::lemma_enc_entry_list_snoc(pre.take(i as int), cur.0, cur.1);
                assert(enc_element(cur.0, cur.1) == seq![crate::wire::tag_of(cur.1)] + enc_cstr(
                    cur.0,
                ) + enc_value(cur.1));
                assert(buf@ =~= old(buf)@ + le32(total as u32) + enc_entry_list(pre.take(i + 1)));
            }
            i = i + 1;
        }
        buf.push(0);
        proof {
            assert(self@.take(self@.len() as int) =~= self@);
            assert(self@.skip(self@.len() as int) =~= Seq::<(Seq<u8>, ValueV)>::empty());
            assert((total as u32) == (enc_entry_list(self@).len() + 5) as u32);
            assert(buf@ =~= old(buf)@ + enc_entries(self@));
        }
        Ok(())
    }
}

impl MutableArray {
    /// Writes the whole array: verbatim for a raw span; otherwise a document
    /// whose keys are the decimal digits of each zero-based position,
    /// regenerated on every encode.
    pub fn put(&self, buf: &mut Vec<u8>) -> (r: Result<(), EncodeError>)
        requires
            enc_arr(self@).len() <= MAX_DOC_LEN as int,
        ensures
            r is Ok <==> enc_err_arr(self@) is None,
            r is Ok ==> final(buf)@ == old(buf)@ + enc_arr(self@),
            r matches Err(e) ==> Some(e) == enc_err_arr(self@),
        decreases *self,
    {
        match self {
            MutableArray::Borrowed(b) => {
                push_bytes(buf, b.as_slice());
                Ok(())
            },
            MutableArray::Owned(items) => {
                let ghost vs = view_items(items@);
                let total = self.raw_len();
                proof {
                    lemma_view_items(items@);
                    assert(total as int == enc_item_list(vs, 0).len() + 5);
                }
                push_u32_le(buf, total as u32);
                let mut i: usize = 0;
                proof {
                    assert(vs.take(0) =~= Seq::<ValueV>::empty());
                    assert(vs.skip(0) =~= vs);
                    assert(buf@ =~= old(buf)@ + le32(total as u32) + enc_item_list(vs.take(0), 0));
                }
                while i < items.len()
                    invariant
                        i <= items@.len(),
                        *self == MutableArray::Owned(*items),
                        vs == view_items(items@),
                        vs.len() == items@.len(),
                        forall|j: int|
                            0 <= j < items@.len() ==> vs[j] == view_value(items@[j]),
                        total as int == enc_item_list(vs, 0).len() + 5,
                        enc_item_list(vs, 0).len() + 5 <= MAX_DOC_LEN as int,
                        buf@ == old(buf)@ + le32(total as u32) + enc_item_list(
                            vs.take(i as int),
                            0,
                        ),
                        enc_err_arr(self@) == enc_err_items(vs.skip(i as int)),
                    decreases items@.len() - i,
                {
                    let v = &items[i];
                    let ghost cur = vs[i as int];
                    proof {
                        assert(vs.skip(i as int).len() > 0);
                        assert(vs.skip(i as int)[0] == cur);
                        assert(vs.skip(i as int).drop_first() =~= vs.skip(i + 1));
                    }
                    let tag = v.element_type();
                    buf.push(tag);
                    let key = dec_key(i);
                    match put_raw_cstr(&key, buf) {
                        Err(e) => {
                            proof {
                                lemma_dec_bytes_digits(i as int);
                                assert(false);
                            }
                            return Err(e);
                        },
                        Ok(_) => {},
                    }
                    proof {
                        crate::wire::lemma_item_value_bound(vs, 0, i as int);
                        assert(decreases_to!(*self => self->Owned_0));
                        assert(decreases_to!(self->Owned_0 => self->Owned_0@));
                        assert(decreases_to!(self->Owned_0@ => self->Owned_0@[i as int]));
                        assert(self->Owned_0@[i as int] == items@[i as int]);
                        assert(decreases_to!(*self => items@[i as int]));
                    }
                    match v.put(buf) {
                        Err(e) => {
                            return Err(e);
                        },
                        Ok(_) => {},
                    }
                    proof {
                        assert(vs.take(i + 1) =~= vs.take(i as int).push(cur));
                        crate::wire::lemma_enc_item_list_snoc(vs.take(i as int), 0, cur);
                        assert(vs.take(i as int).len() == i as int);
                        assert(enc_element(dec_bytes(i as int), cur) == seq![
                            crate::wire::tag_of(cur),
                        ] + enc_cstr(dec_bytes(i as int)) + enc_value(cur));
                        assert(buf@ =~= old(buf)@ + le32(total as u32) + enc_item_list(
                            vs.take(i + 1),
                            0,
                        ));
                    }
                    i = i + 1;
                }
                buf.push(0);
                proof {
                    assert(vs.take(vs.len() as int) =~= vs);
                    assert(vs.skip(vs.len() as int) =~= Seq::<ValueV>::empty());
                    assert((total as u32) == (enc_item_list(vs, 0).len() + 5) as u32);
                    assert(buf@ =~= old(buf)@ + enc_arr(self@));
                }
                Ok(())
            },
        }
    }

    /// Promotes if necessary is not needed here: a raw span is copied
    /// verbatim and a parsed list is assembled; this is the array analogue of
    /// [`MutableDocument::to_vec`].
    pub fn to_vec(&self) -> (r: Result<Vec<u8>, EncodeError>)
        ensures
            r matches Ok(b) ==> b@ == enc_arr(self@) && enc_arr(self@).len() < MAX_DOC_LEN as int
                && enc_err_arr(self@) is None,
            r is Ok <==> (enc_arr(self@).len() < MAX_DOC_LEN as int && enc_err_arr(
                self@,
            ) is None),
            r matches Err(e) ==> (if enc_arr(self@).len() >= MAX_DOC_LEN as int {
                e == EncodeError::SizeLimitExceeded
            } else {
                Some(e) == enc_err_arr(self@)
            }),
    {
        let len = self.raw_len();
        if len >= MAX_DOC_LEN {
            return Err(EncodeError::SizeLimitExceeded);
        }
        let mut buf: Vec<u8> = Vec::with_capacity(len);
        match self.put(&mut buf) {
            Ok(_) => {
                proof {
                    assert(Seq::<u8>::empty() + enc_arr(self@) =~= enc_arr(self@));
                }
                Ok(buf)
            },
            Err(e) => Err(e),
        }
    }
}

impl MutableDocument {
    /// Produces the encoded document. Fails, before any allocation, when the
    /// total byte count reaches the 32 MiB ceiling, and otherwise exactly
    /// when some part of the tree cannot be emitted.
    pub fn to_vec(&self) -> (r: Result<Vec<u8>, EncodeError>)
        ensures
            r matches Ok(b) ==> b@ == enc_doc(self@) && enc_doc(self@).len() < MAX_DOC_LEN as int
                && enc_err_doc(self@) is None,
            r is Ok <==> (enc_doc(self@).len() < MAX_DOC_LEN as int && enc_err_doc(
                self@,
            ) is None),
            r matches Err(e) ==> (if enc_doc(self@).len() >= MAX_DOC_LEN as int {
                e == EncodeError::SizeLimitExceeded
            } else {
                Some(e) == enc_err_doc(self@)
            }),
    {
        let len = self.raw_len();
        if len >= MAX_DOC_LEN {
            return Err(EncodeError::SizeLimitExceeded);
        }
        let mut buf: Vec<u8> = Vec::with_capacity(len);
        match self.put(&mut buf) {
            Ok(_) => {
                proof {
                    assert(Seq::<u8>::empty() + enc_doc(self@) =~= enc_doc(self@));
                }
                Ok(buf)
            },
            Err(e) => Err(e),
        }
    }
}

} // verus!
