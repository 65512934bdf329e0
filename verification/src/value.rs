//! The mutable value tree and its specification-level views.

use vstd::prelude::*;

use crate::parsed_document::ParsedDocument;
use crate::wire::{ArrV, DocV, ValueV};

verus! {

broadcast use vstd::seq::group_seq_axioms, vstd::std_specs::vec::group_vec_axioms;

/// A point in time on the wire: seconds and an ordinal within the second.
#[derive(Clone, Copy, Debug, PartialEq, Eq, Structural)]
pub struct Timestamp {
    pub time: u32,
    pub increment: u32,
}

/// A mutable value: one variant per wire element kind.
///
/// Fixed-size kinds are stored inline; doubles are carried as their IEEE-754
/// bit pattern so that encoding is exact, and strings as their UTF-8 bytes.
/// Composite kinds own a sub-structure.
#[derive(Debug)]
pub enum MutableValue {
    Double(u64),
    String(Vec<u8>),
    Document(MutableDocument),
    Array(MutableArray),
    Binary(MutableBinary),
    Undefined,
    ObjectId(Vec<u8>),
    Boolean(bool),
    DateTime(i64),
    Null,
    RegularExpression(MutableRegex),
    /// Carried through from decoded input verbatim; cannot be encoded.
    DbPointer(Vec<u8>),
    JavaScriptCode(Vec<u8>),
    Symbol(Vec<u8>),
    JavaScriptCodeWithScope(MutableJavaScriptCodeWithScope),
    Int32(i32),
    Timestamp(Timestamp),
    Int64(i64),
    Decimal128(Vec<u8>),
    MinKey,
    MaxKey,
}

/// A document: either a verbatim encoded span or a parsed, mutable structure.
#[derive(Debug)]
pub enum MutableDocument {
    Borrowed(Vec<u8>),
    Owned(ParsedDocument),
}

/// An array: either a verbatim encoded span or a parsed list of values whose
/// positional keys are synthesized at encode time.
#[derive(Debug)]
pub enum MutableArray {
    Borrowed(Vec<u8>),
    Owned(Vec<MutableValue>),
}

/// A binary blob with its subtype byte.
#[derive(Debug)]
pub struct MutableBinary {
    pub subtype: u8,
    pub bytes: Vec<u8>,
}

/// A regular expression: NUL-terminated pattern and options on the wire.
#[derive(Debug)]
pub struct MutableRegex {
    pub pattern: Vec<u8>,
    pub options: Vec<u8>,
}

/// A code string together with its scope document.
#[derive(Debug)]
pub struct MutableJavaScriptCodeWithScope {
    pub code: Vec<u8>,
    pub scope: MutableDocument,
}

/// The specification-level picture of a value.
pub open spec fn view_value(v: MutableValue) -> ValueV
    decreases v, 1int,
{
    match v {
        MutableValue::Double(b) => ValueV::Double(b),
        MutableValue::String(s) => ValueV::String(s@),
        MutableValue::Document(d) => ValueV::Document(view_doc(d)),
        MutableValue::Array(a) => ValueV::Array(view_arr(a)),
        MutableValue::Binary(b) => ValueV::Binary(b.subtype, b.bytes@),
        MutableValue::Undefined => ValueV::Undefined,
        MutableValue::ObjectId(b) => ValueV::ObjectId(b@),
        MutableValue::Boolean(b) => ValueV::Boolean(b),
        MutableValue::DateTime(x) => ValueV::DateTime(x),
        MutableValue::Null => ValueV::Null,
        MutableValue::RegularExpression(r) => ValueV::RegularExpression(r.pattern@, r.options@),
        MutableValue::DbPointer(raw) => ValueV::DbPointer(raw@),
        MutableValue::JavaScriptCode(s) => ValueV::JavaScriptCode(s@),
        MutableValue::Symbol(s) => ValueV::Symbol(s@),
        MutableValue::JavaScriptCodeWithScope(c) => ValueV::JavaScriptCodeWithScope(
            c.code@,
            view_doc(c.scope),
        ),
        MutableValue::Int32(x) => ValueV::Int32(x),
        MutableValue::Timestamp(t) => ValueV::Timestamp(t.time, t.increment),
        MutableValue::Int64(x) => ValueV::Int64(x),
        MutableValue::Decimal128(b) => ValueV::Decimal128(b@),
        MutableValue::MinKey => ValueV::MinKey,
        MutableValue::MaxKey => ValueV::MaxKey,
    }
}

/// The specification-level picture of a document.
pub open spec fn view_doc(d: MutableDocument) -> DocV
    decreases d, 1int,
{
    match d {
        MutableDocument::Borrowed(b) => DocV::Raw(b@),
        MutableDocument::Owned(p) => DocV::Entries(view_entries(p.entries@)),
    }
}

/// The specification-level picture of an array.
pub open spec fn view_arr(a: MutableArray) -> ArrV
    decreases a, 1int,
{
    match a {
        MutableArray::Borrowed(b) => ArrV::Raw(b@),
        MutableArray::Owned(items) => ArrV::Items(view_items(items@)),
    }
}

/// The views of a sequence of key/value pairs, in order.
pub open spec fn view_entries(es: Seq<(Vec<u8>, MutableValue)>) -> Seq<(Seq<u8>, ValueV)>
    decreases es, 0int,
{
    if es.len() == 0 {
        Seq::empty()
    } else {
        seq![(es[0].0@, view_value(es[0].1))] + view_entries(es.drop_first())
    }
}

/// The views of a sequence of values, in order.
pub open spec fn view_items(items: Seq<MutableValue>) -> Seq<ValueV>
    decreases items, 0int,
{
    if items.len() == 0 {
        Seq::empty()
    } else {
        seq![view_value(items[0])] + view_items(items.drop_first())
    }
}

/// `view_entries` is the element-wise view.
pub broadcast proof fn lemma_view_entries(es: Seq<(Vec<u8>, MutableValue)>)
    ensures
        #[trigger] view_entries(es).len() == es.len(),
        forall|i: int|
            0 <= i < es.len() ==> view_entries(es)[i] == (es[i].0@, view_value(es[i].1)),
    decreases es.len(),
{
    if es.len() > 0 {
        lemma_view_entries(es.drop_first());
    }
}

/// `view_items` is the element-wise view.
pub broadcast proof fn lemma_view_items(items: Seq<MutableValue>)
    ensures
        #[trigger] view_items(items).len() == items.len(),
        forall|i: int| 0 <= i < items.len() ==> view_items(items)[i] == view_value(items[i]),
    decreases items.len(),
{
    if items.len() > 0 {
        lemma_view_items(items.drop_first());
    }
}

/// Updating one pair updates its view pointwise.
pub broadcast proof fn lemma_view_entries_update(
    es: Seq<(Vec<u8>, MutableValue)>,
    i: int,
    e: (Vec<u8>, MutableValue),
)
    requires
        0 <= i < es.len(),
    ensures
        #[trigger] view_entries(es.update(i, e)) == view_entries(es).update(
            i,
            (e.0@, view_value(e.1)),
        ),
{
    lemma_view_entries(es);
    lemma_view_entries(es.update(i, e));
    assert(view_entries(es.update(i, e)) =~= view_entries(es).update(i, (e.0@, view_value(e.1))));
}

/// Appending a pair appends its view.
pub broadcast proof fn lemma_view_entries_push(
    es: Seq<(Vec<u8>, MutableValue)>,
    e: (Vec<u8>, MutableValue),
)
    ensures
        #[trigger] view_entries(es.push(e)) == view_entries(es).push((e.0@, view_value(e.1))),
{
    lemma_view_entries(es);
    lemma_view_entries(es.push(e));
    assert(view_entries(es.push(e)) =~= view_entries(es).push((e.0@, view_value(e.1))));
}

/// Removing a pair removes its view.
pub broadcast proof fn lemma_view_entries_remove(es: Seq<(Vec<u8>, MutableValue)>, i: int)
    requires
        0 <= i < es.len(),
    ensures
        #[trigger] view_entries(es.remove(i)) == view_entries(es).remove(i),
{
    lemma_view_entries(es);
    lemma_view_entries(es.remove(i));
    assert(view_entries(es.remove(i)) =~= view_entries(es).remove(i));
}

impl View for MutableValue {
    type V = ValueV;

    open spec fn view(&self) -> ValueV {
        view_value(*self)
    }
}

impl View for MutableDocument {
    type V = DocV;

    open spec fn view(&self) -> DocV {
        view_doc(*self)
    }
}

impl View for MutableArray {
    type V = ArrV;

    open spec fn view(&self) -> ArrV {
        view_arr(*self)
    }
}

impl MutableValue {
    /// The wire type tag emitted for this value.
    pub fn element_type(&self) -> (r: u8)
        ensures
            r == crate::wire::tag_of(self@),
    {
        match self {
            Self::Double(_) => 1,
            Self::String(_) => 2,
            Self::Document(_) => 3,
            Self::Array(_) => 4,
            Self::Binary(_) => 5,
            Self::Undefined => 6,
            Self::ObjectId(_) => 7,
            Self::Boolean(_) => 8,
            Self::DateTime(_) => 9,
            Self::Null => 10,
            Self::RegularExpression(_) => 11,
            Self::DbPointer(_) => 12,
            Self::JavaScriptCode(_) => 13,
            Self::Symbol(_) => 14,
            Self::JavaScriptCodeWithScope(_) => 15,
            Self::Int32(_) => 16,
            Self::Timestamp(_) => 17,
            Self::Int64(_) => 18,
            Self::Decimal128(_) => 19,
            Self::MinKey => 255,
            Self::MaxKey => 127,
        }
    }

    /// The IEEE-754 bit pattern of the double, if this is a double.
    pub fn as_f64(&self) -> (r: Option<u64>)
        ensures
            r matches Some(b) ==> self@ == ValueV::Double(b),
            r is Some <==> self@ is Double,
    {
        match self {
            Self::Double(b) => Some(*b),
            _ => None,
        }
    }

    /// The UTF-8 bytes of the string, if this is a string.
    pub fn as_str(&self) -> (r: Option<&Vec<u8>>)
        ensures
            r matches Some(s) ==> self@ == ValueV::String(s@),
            r is Some <==> self@ is String,
    {
        match self {
            Self::String(s) => Some(s),
            _ => None,
        }
    }

    /// The contained document, if this is a document.
    pub fn as_doc(&self) -> (r: Option<&MutableDocument>)
        ensures
            r matches Some(d) ==> self@ == ValueV::Document(d@),
            r is Some <==> self@ is Document,
    {
        match self {
            Self::Document(d) => Some(d),
            _ => None,
        }
    }

    /// Mutable access to the contained document, if this is a document.
    pub fn as_doc_mut(&mut self) -> (r: Option<&mut MutableDocument>)
        ensures
            r matches Some(d) ==> old(self)@ == ValueV::Document((*d)@) && *final(self)
                == MutableValue::Document(*final(d)),
            r is Some <==> old(self)@ is Document,
            r is None ==> *final(self) == *old(self),
    {
        match self {
            Self::Document(d) => Some(d),
            _ => None,
        }
    }

    /// The contained array, if this is an array.
    pub fn as_array(&self) -> (r: Option<&MutableArray>)
        ensures
            r matches Some(a) ==> self@ == ValueV::Array(a@),
            r is Some <==> self@ is Array,
    {
        match self {
            Self::Array(a) => Some(a),
            _ => None,
        }
    }

    /// Mutable access to the contained array, if this is an array.
    pub fn as_array_mut(&mut self) -> (r: Option<&mut MutableArray>)
        ensures
            r matches Some(a) ==> old(self)@ == ValueV::Array((*a)@) && *final(self)
                == MutableValue::Array(*final(a)),
            r is Some <==> old(self)@ is Array,
            r is None ==> *final(self) == *old(self),
    {
        match self {
            Self::Array(a) => Some(a),
            _ => None,
        }
    }

    /// The contained binary blob, if this is one.
    pub fn as_binary(&self) -> (r: Option<&MutableBinary>)
        ensures
            r matches Some(b) ==> self@ == ValueV::Binary(b.subtype, b.bytes@),
            r is Some <==> self@ is Binary,
    {
        match self {
            Self::Binary(b) => Some(b),
            _ => None,
        }
    }

    /// Mutable access to the contained binary blob, if this is one.
    pub fn as_binary_mut(&mut self) -> (r: Option<&mut MutableBinary>)
        ensures
            r matches Some(b) ==> old(self)@ == ValueV::Binary((*b).subtype, (*b).bytes@)
                && *final(self) == MutableValue::Binary(*final(b)),
            r is Some <==> old(self)@ is Binary,
            r is None ==> *final(self) == *old(self),
    {
        match self {
            Self::Binary(b) => Some(b),
            _ => None,
        }
    }

    /// The object id's twelve bytes, if this is an object id.
    pub fn as_object_id(&self) -> (r: Option<&Vec<u8>>)
        ensures
            r matches Some(b) ==> self@ == ValueV::ObjectId(b@),
            r is Some <==> self@ is ObjectId,
    {
        match self {
            Self::ObjectId(b) => Some(b),
            _ => None,
        }
    }

    /// The boolean, if this is a boolean.
    pub fn as_bool(&self) -> (r: Option<bool>)
        ensures
            r matches Some(b) ==> self@ == ValueV::Boolean(b),
            r is Some <==> self@ is Boolean,
    {
        match self {
            Self::Boolean(b) => Some(*b),
            _ => None,
        }
    }

    /// The instant in milliseconds, if this is a datetime.
    pub fn as_date_time(&self) -> (r: Option<i64>)
        ensures
            r matches Some(x) ==> self@ == ValueV::DateTime(x),
            r is Some <==> self@ is DateTime,
    {
        match self {
            Self::DateTime(x) => Some(*x),
            _ => None,
        }
    }

    /// Whether this is the null value.
    pub fn as_null(&self) -> (r: Option<()>)
        ensures
            r is Some <==> self@ is Null,
    {
        match self {
            Self::Null => Some(()),
            _ => None,
        }
    }

    /// The 32-bit integer, if this is one.
    pub fn as_i32(&self) -> (r: Option<i32>)
        ensures
            r matches Some(x) ==> self@ == ValueV::Int32(x),
            r is Some <==> self@ is Int32,
    {
        match self {
            Self::Int32(x) => Some(*x),
            _ => None,
        }
    }

    /// The timestamp, if this is one.
    pub fn as_timestamp(&self) -> (r: Option<Timestamp>)
        ensures
            r matches Some(t) ==> self@ == ValueV::Timestamp(t.time, t.increment),
            r is Some <==> self@ is Timestamp,
    {
        match self {
            Self::Timestamp(t) => Some(*t),
            _ => None,
        }
    }

    /// The 64-bit integer, if this is one.
    pub fn as_i64(&self) -> (r: Option<i64>)
        ensures
            r matches Some(x) ==> self@ == ValueV::Int64(x),
            r is Some <==> self@ is Int64,
    {
        match self {
            Self::Int64(x) => Some(*x),
            _ => None,
        }
    }
}

} // verus!
