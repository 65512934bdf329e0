//! The materialized, mutable document structure: an ordered key-to-value
//! container with insertion order kept, except that replacing an existing key
//! keeps its original position.

use vstd::prelude::*;

use crate::value::{
    MutableValue, lemma_view_entries, lemma_view_entries_push, lemma_view_entries_remove,
    lemma_view_entries_update, view_entries, view_value,
};
use crate::wire::ValueV;

verus! {

broadcast use vstd::seq::group_seq_axioms, vstd::std_specs::vec::group_vec_axioms,
    crate::value::lemma_view_entries, crate::value::lemma_view_entries_update,
    crate::value::lemma_view_entries_push, crate::value::lemma_view_entries_remove;

/// No two entries share a key.
pub open spec fn keys_unique(es: Seq<(Seq<u8>, ValueV)>) -> bool {
    forall|i: int, j: int| 0 <= i < j < es.len() ==> es[i].0 != es[j].0
}

/// Some entry carries this key.
pub open spec fn has_key(es: Seq<(Seq<u8>, ValueV)>, k: Seq<u8>) -> bool {
    exists|i: int| 0 <= i < es.len() && es[i].0 == k
}

/// The position of the first entry carrying this key; the length when none
/// does.
pub open spec fn key_index(es: Seq<(Seq<u8>, ValueV)>, k: Seq<u8>) -> int
    decreases es.len(),
{
    if es.len() == 0 {
        0
    } else if es[0].0 == k {
        0
    } else {
        1 + key_index(es.drop_first(), k)
    }
}

/// The value stored under this key, if any.
pub open spec fn spec_get(es: Seq<(Seq<u8>, ValueV)>, k: Seq<u8>) -> Option<ValueV> {
    if has_key(es, k) {
        Some(es[key_index(es, k)].1)
    } else {
        None
    }
}

/// `key_index` finds the first entry with the key, and the length when the
/// key is absent.
pub proof fn lemma_key_index(es: Seq<(Seq<u8>, ValueV)>, k: Seq<u8>)
    ensures
        has_key(es, k) ==> 0 <= key_index(es, k) < es.len() && es[key_index(es, k)].0 == k && (
        forall|j: int| 0 <= j < key_index(es, k) ==> es[j].0 != k),
        !has_key(es, k) ==> key_index(es, k) == es.len(),
    decreases es.len(),
{
    if es.len() == 0 {
    } else if es[0].0 == k {
    } else {
        let rest = es.drop_first();
        lemma_key_index(rest, k);
        if has_key(es, k) {
            let i = choose|i: int| 0 <= i < es.len() && es[i].0 == k;
            assert(i >= 1);
            assert(rest[i - 1] == es[i]);
            assert(has_key(rest, k));
        }
        if has_key(rest, k) {
            let i = choose|i: int| 0 <= i < rest.len() && rest[i].0 == k;
            assert(es[i + 1] == rest[i]);
            assert(has_key(es, k));
        }
        assert forall|j: int| 0 <= j < key_index(es, k) implies es[j].0 != k by {
            if j >= 1 {
                assert(es[j] == rest[j - 1]);
            }
        }
    }
}


/// The first index is pinned by its characterization.
pub proof fn lemma_key_index_is(es: Seq<(Seq<u8>, ValueV)>, k: Seq<u8>, i: int)
    requires
        0 <= i < es.len(),
        es[i].0 == k,
        forall|j: int| 0 <= j < i ==> es[j].0 != k,
    ensures
        has_key(es, k),
        key_index(es, k) == i,
{
    assert(has_key(es, k));
    lemma_key_index(es, k);
    let ki = key_index(es, k);
    if ki < i {
        assert(es[ki].0 != k);
    }
    if ki > i {
        assert(es[i].0 != k);
    }
}

/// A parsed document: key/value pairs in document order.
///
/// The entries are exposed so that the specification-level view can be stated
/// openly; well-formed documents (every constructor and method here keeps
/// this) have pairwise distinct keys, see [`ParsedDocument::wf`].
#[derive(Debug)]
pub struct ParsedDocument {
    pub entries: Vec<(Vec<u8>, MutableValue)>,
}

impl View for ParsedDocument {
    type V = Seq<(Seq<u8>, ValueV)>;

    open spec fn view(&self) -> Seq<(Seq<u8>, ValueV)> {
        view_entries(self.entries@)
    }
}

/// Whether two byte strings hold the same bytes.
pub fn bytes_eq(a: &[u8], b: &[u8]) -> (r: bool)
    ensures
        r == (a@ == b@),
{
    if a.len() != b.len() {
        proof {
            assert(a@ != b@);
        }
        return false;
    }
    let mut i: usize = 0;
    while i < a.len()
        invariant
            a@.len() == b@.len(),
            i <= a@.len(),
            forall|j: int| 0 <= j < i ==> a@[j] == b@[j],
        decreases a@.len() - i,
    {
        if *vstd::slice::slice_index_get(a, i) != *vstd::slice::slice_index_get(b, i) {
            return false;
        }
        i = i + 1;
    }
    proof {
        assert(a@ =~= b@);
    }
    true
}

impl ParsedDocument {
    /// All keys are pairwise distinct.
    pub open spec fn wf(&self) -> bool {
        keys_unique(self@)
    }

    /// An empty document.
    pub fn new() -> (r: ParsedDocument)
        ensures
            r@ == Seq::<(Seq<u8>, ValueV)>::empty(),
            r.wf(),
    {
        let d = ParsedDocument { entries: Vec::new() };
        proof {
            assert(d@ =~= Seq::<(Seq<u8>, ValueV)>::empty());
        }
        d
    }

    /// The position of the entry carrying this key, scanning from the front.
    fn find_key(&self, key: &[u8]) -> (r: Option<usize>)
        ensures
            r matches Some(i) ==> (i as int) < self@.len() && self@[i as int].0 == key@ && i as int
                == key_index(self@, key@),
            r is Some <==> has_key(self@, key@),
    {
        proof {
            lemma_view_entries(self.entries@);
            lemma_key_index(self@, key@);
        }
        let mut i: usize = 0;
        while i < self.entries.len()
            invariant
                i <= self.entries@.len(),
                self@.len() == self.entries@.len(),
                forall|j: int|
                    0 <= j < self.entries@.len() ==> self@[j] == (
                        self.entries@[j].0@,
                        view_value(self.entries@[j].1),
                    ),
                forall|j: int| 0 <= j < i ==> self@[j].0 != key@,
            decreases self.entries@.len() - i,
        {
            if bytes_eq(self.entries[i].0.as_slice(), key) {
                proof {
                    lemma_key_index(self@, key@);
                    assert(self@[i as int].0 == key@);
                    assert(has_key(self@, key@));
                    let ki = key_index(self@, key@);
                    if ki < i as int {
                        assert(self@[ki].0 != key@);
                        assert(false);
                    }
                    if ki > i as int {
                        assert(self@[i as int].0 != key@);
                        assert(false);
                    }
                }
                return Some(i);
            }
            i = i + 1;
        }
        proof {
            lemma_key_index(self@, key@);
            if has_key(self@, key@) {
                assert(self@[key_index(self@, key@)].0 == key@);
                assert(false);
            }
        }
        None
    }

    /// Whether the document holds this key.
    pub fn contains_key(&self, key: &[u8]) -> (r: bool)
        ensures
            r == has_key(self@, key@),
    {
        self.find_key(key).is_some()
    }

    /// The number of entries.
    pub fn len(&self) -> (r: usize)
        ensures
            r == self@.len(),
    {
        proof {
            lemma_view_entries(self.entries@);
        }
        self.entries.len()
    }

    /// Whether the document has no entries.
    pub fn is_empty(&self) -> (r: bool)
        ensures
            r == (self@.len() == 0),
    {
        proof {
            lemma_view_entries(self.entries@);
        }
        self.entries.is_empty()
    }

    /// The value stored under this key, if any.
    pub fn get(&self, key: &[u8]) -> (r: Option<&MutableValue>)
        ensures
            r matches Some(v) ==> spec_get(self@, key@) == Some(v@),
            r is Some <==> has_key(self@, key@),
    {
        match self.find_key(key) {
            Some(i) => {
                proof {
                    lemma_view_entries(self.entries@);
                }
                Some(&self.entries[i].1)
            },
            None => None,
        }
    }

    /// Mutable access to the value stored under this key, if any. The entry
    /// keeps its key and its position.
    pub fn get_mut(&mut self, key: &[u8]) -> (r: Option<&mut MutableValue>)
        ensures
            r matches Some(m) ==> {
                &&& has_key(old(self)@, key@)
                &&& Some((*m)@) == spec_get(old(self)@, key@)
                &&& final(self)@ == old(self)@.update(
                    key_index(old(self)@, key@),
                    (key@, (*final(m))@),
                )
            },
            r is Some <==> has_key(old(self)@, key@),
            r is None ==> *final(self) == *old(self),
            old(self).wf() && r is Some ==> final(self).wf(),
    {
        let found = self.find_key(key);
        match found {
            Some(i) => {
                proof {
                    lemma_view_entries(self.entries@);
                }
                let pair = vstd::std_specs::vec::vec_index_mut(&mut self.entries, i);
                Some(&mut pair.1)
            },
            None => None,
        }
    }

    /// Inserts the value under the key. When the key exists its entry keeps
    /// its original position and the previous value comes back; otherwise the
    /// entry is appended at the end.
    pub fn insert(&mut self, key: Vec<u8>, value: MutableValue) -> (r: Option<MutableValue>)
        ensures
            r matches Some(prev) ==> {
                &&& has_key(old(self)@, key@)
                &&& Some(prev@) == spec_get(old(self)@, key@)
                &&& final(self)@ == old(self)@.update(
                    key_index(old(self)@, key@),
                    (key@, value@),
                )
            },
            r is None ==> !has_key(old(self)@, key@) && final(self)@ == old(self)@.push(
                (key@, value@),
            ),
            r is Some <==> has_key(old(self)@, key@),
            old(self).wf() ==> final(self).wf(),
    {
        let found = self.find_key(key.as_slice());
        match found {
            Some(i) => {
                let ghost idx = i as int;
                let prev = self.entries.remove(i);
                self.entries.insert(i, (key, value));
                proof {
                    lemma_view_entries(old(self).entries@);
                    lemma_view_entries(self.entries@);
                    assert(self.entries@ =~= old(self).entries@.update(
                        idx,
                        self.entries@[idx],
                    ));
                    assert(self@ =~= old(self)@.update(idx, (key@, value@)));
                    if old(self).wf() {
                        assert(keys_unique(final(self)@)) by {
                            assert forall|a: int, b: int|
                                0 <= a < b < self@.len() implies self@[a].0 != self@[b].0 by {
                                assert(old(self)@[a].0 == if a == idx {
                                    key@
                                } else {
                                    self@[a].0
                                } || true);
                            }
                        }
                    }
                }
                Some(prev.1)
            },
            None => {
                self.entries.push((key, value));
                proof {
                    assert(self@ =~= old(self)@.push((key@, value@)));
                    if old(self).wf() {
                        assert forall|a: int, b: int|
                            0 <= a < b < self@.len() implies self@[a].0 != self@[b].0 by {
                            if b == self@.len() - 1 {
                                assert(self@[a] == old(self)@[a]);
                            }
                        }
                    }
                }
                None
            },
        }
    }

    /// Removes the entry carrying this key, shifting the entries after it to
    /// keep their relative order, and returns its value if it was present.
    pub fn remove(&mut self, key: &[u8]) -> (r: Option<MutableValue>)
        ensures
            r matches Some(v) ==> {
                &&& has_key(old(self)@, key@)
                &&& Some(v@) == spec_get(old(self)@, key@)
                &&& final(self)@ == old(self)@.remove(key_index(old(self)@, key@))
            },
            r is None ==> !has_key(old(self)@, key@) && *final(self) == *old(self),
            r is Some <==> has_key(old(self)@, key@),
            old(self).wf() ==> final(self).wf(),
    {
        let found = self.find_key(key);
        match found {
            Some(i) => {
                let ghost idx = i as int;
                let prev = self.entries.remove(i);
                proof {
                    lemma_view_entries(old(self).entries@);
                    assert(self@ =~= old(self)@.remove(idx));
                    if old(self).wf() {
                        assert forall|a: int, b: int|
                            0 <= a < b < self@.len() implies self@[a].0 != self@[b].0 by {
                            let oa = if a < idx {
                                a
                            } else {
                                a + 1
                            };
                            let ob = if b < idx {
                                b
                            } else {
                                b + 1
                            };
                            assert(self@[a] == old(self)@[oa]);
                            assert(self@[b] == old(self)@[ob]);
                        }
                    }
                }
                Some(prev.1)
            },
            None => None,
        }
    }

    /// Empties the document.
    pub fn clear(&mut self)
        ensures
            final(self)@ == Seq::<(Seq<u8>, ValueV)>::empty(),
            final(self).wf(),
    {
        self.entries.clear();
        proof {
            assert(self@ =~= Seq::<(Seq<u8>, ValueV)>::empty());
        }
    }

    /// The key/value pairs in document order.
    pub fn iter(&self) -> (r: Vec<(&Vec<u8>, &MutableValue)>)
        ensures
            r@.len() == self@.len(),
            forall|i: int| 0 <= i < r@.len() ==> (r@[i].0@, (*r@[i].1)@) == self@[i],
    {
        proof {
            lemma_view_entries(self.entries@);
        }
        let mut out: Vec<(&Vec<u8>, &MutableValue)> = Vec::new();
        let mut i: usize = 0;
        while i < self.entries.len()
            invariant
                i <= self.entries@.len(),
                self@.len() == self.entries@.len(),
                forall|j: int|
                    0 <= j < self.entries@.len() ==> self@[j] == (
                        self.entries@[j].0@,
                        view_value(self.entries@[j].1),
                    ),
                out@.len() == i,
                forall|j: int| 0 <= j < i ==> (out@[j].0@, (*out@[j].1)@) == self@[j],
            decreases self.entries@.len() - i,
        {
            let pair = &self.entries[i];
            out.push((&pair.0, &pair.1));
            i = i + 1;
        }
        out
    }
}


/// Inserting a pair at the specification level: replace in place when the
/// key exists, append otherwise.
pub open spec fn insert_entry(es: Seq<(Seq<u8>, ValueV)>, k: Seq<u8>, v: ValueV) -> Seq<
    (Seq<u8>, ValueV),
> {
    if has_key(es, k) {
        es.update(key_index(es, k), (k, v))
    } else {
        es.push((k, v))
    }
}

/// Folding a pair sequence into a document by repeated insertion: later
/// values win, the first occurrence keeps the position.
pub open spec fn dedup_entries(es: Seq<(Seq<u8>, ValueV)>) -> Seq<(Seq<u8>, ValueV)>
    decreases es.len(),
{
    if es.len() == 0 {
        Seq::empty()
    } else {
        insert_entry(dedup_entries(es.drop_last()), es.last().0, es.last().1)
    }
}

/// Insertion keeps keys pairwise distinct.
pub proof fn lemma_insert_entry_unique(es: Seq<(Seq<u8>, ValueV)>, k: Seq<u8>, v: ValueV)
    requires
        keys_unique(es),
    ensures
        keys_unique(insert_entry(es, k, v)),
{
    lemma_key_index(es, k);
    let es2 = insert_entry(es, k, v);
    if has_key(es, k) {
        let ki = key_index(es, k);
        assert forall|a: int| 0 <= a < es2.len() implies es2[a].0 == es[a].0 by {}
        assert forall|a: int, b: int| 0 <= a < b < es2.len() implies es2[a].0 != es2[b].0 by {
            assert(es[a].0 != es[b].0);
        }
    } else {
        assert forall|a: int, b: int| 0 <= a < b < es2.len() implies es2[a].0 != es2[b].0 by {
            if b == es2.len() - 1 {
                assert(es2[a] == es[a]);
                if es[a].0 == k {
                    assert(has_key(es, k));
                }
            } else {
                assert(es2[a] == es[a]);
                assert(es2[b] == es[b]);
            }
        }
    }
}

/// A folded document has pairwise distinct keys.
pub proof fn lemma_dedup_unique(es: Seq<(Seq<u8>, ValueV)>)
    ensures
        keys_unique(dedup_entries(es)),
    decreases es.len(),
{
    if es.len() > 0 {
        lemma_dedup_unique(es.drop_last());
        lemma_insert_entry_unique(dedup_entries(es.drop_last()), es.last().0, es.last().1);
    }
}

/// Folding leaves a sequence with pairwise distinct keys unchanged.
pub proof fn lemma_dedup_id(es: Seq<(Seq<u8>, ValueV)>)
    requires
        keys_unique(es),
    ensures
        dedup_entries(es) == es,
    decreases es.len(),
{
    if es.len() == 0 {
        assert(dedup_entries(es) =~= es);
    } else {
        let pre = es.drop_last();
        assert forall|a: int, b: int| 0 <= a < b < pre.len() implies pre[a].0 != pre[b].0 by {
            assert(pre[a] == es[a]);
            assert(pre[b] == es[b]);
        }
        lemma_dedup_id(pre);
        let k = es.last().0;
        if has_key(pre, k) {
            let i = choose|i: int| 0 <= i < pre.len() && pre[i].0 == k;
            assert(es[i].0 == es[es.len() - 1].0);
            assert(false);
        }
        assert(dedup_entries(es) == pre.push(es.last()));
        assert(pre.push(es.last()) =~= es);
    }
}

impl ParsedDocument {
    /// Builds a document from decoded pairs by inserting each in turn: a
    /// repeated key keeps its first position and its last value.
    pub fn from_entries(es: Vec<(Vec<u8>, MutableValue)>) -> (r: ParsedDocument)
        ensures
            r@ == dedup_entries(view_entries(es@)),
            r.wf(),
    {
        let ghost all = view_entries(es@);
        proof {
            lemma_view_entries(es@);
        }
        let mut rest = es;
        let mut d = ParsedDocument::new();
        let ghost mut i: int = 0;
        proof {
            assert(all.take(0) =~= Seq::<(Seq<u8>, ValueV)>::empty());
            assert(dedup_entries(all.take(0)) =~= Seq::<(Seq<u8>, ValueV)>::empty());
            assert(view_entries(rest@) == all);
            assert(all =~= all.skip(0));
        }
        while rest.len() > 0
            invariant
                0 <= i <= all.len(),
                view_entries(rest@) == all.skip(i),
                rest@.len() == all.len() - i,
                d@ == dedup_entries(all.take(i)),
                d.wf(),
            decreases rest@.len(),
        {
            let ghost rest_pre = rest@;
            proof {
                lemma_view_entries(rest_pre);
            }
            let pair = rest.remove(0);
            let ghost cur = all[i];
            proof {
                assert(all.skip(i)[0] == cur);
                assert((pair.0@, view_value(pair.1)) == cur);
                lemma_view_entries(rest@);
                assert forall|j: int| 0 <= j < rest@.len() implies view_entries(rest@)[j]
                    == all.skip(i + 1)[j] by {
                    assert(rest@[j] == rest_pre[j + 1]);
                    assert(view_entries(rest_pre)[j + 1] == all.skip(i)[j + 1]);
                }
                assert(view_entries(rest@) =~= all.skip(i + 1));
            }
            let prev = d.insert(pair.0, pair.1);
            proof {
                lemma_key_index(dedup_entries(all.take(i)), cur.0);
                assert(all.take(i + 1).drop_last() =~= all.take(i));
                assert(all.take(i + 1).last() == cur);
                assert(d@ == insert_entry(dedup_entries(all.take(i)), cur.0, cur.1));
                i = i + 1;
            }
        }
        proof {
            assert(all.take(all.len() as int) =~= all);
        }
        d
    }
}
} // verus!
