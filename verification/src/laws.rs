//! The library's global laws, each stated over the specification model and
//! proved once and for all.

use vstd::prelude::*;

use crate::decode::{lemma_parse_doc_encode, parse_doc, promoted};
use crate::err::EncodeError;
use crate::parsed_document::{
    has_key, insert_entry, key_index, keys_unique, lemma_dedup_id, lemma_key_index,
    lemma_key_index_is, spec_get,
};
use crate::wire::{
    DocV, ValueV, dec_bytes, enc_doc, enc_element, enc_entries, enc_entry_list, enc_item_list,
    le32, lemma_enc_item_list_snoc,
};

verus! {

broadcast use vstd::seq::group_seq_axioms;

/// A document kept as a raw span encodes to the span verbatim, byte for
/// byte.
pub proof fn lemma_raw_round_trip(b: Seq<u8>)
    ensures
        enc_doc(DocV::Raw(b)) == b,
{
}

/// Promoting a span the parser accepts, with pairwise distinct keys, and
/// re-encoding without mutation reproduces the original bytes exactly.
pub proof fn lemma_promote_round_trip(b: Seq<u8>)
    requires
        parse_doc(b) is Ok,
        keys_unique(parse_doc(b)->Ok_0),
    ensures
        promoted(DocV::Raw(b)) matches Ok(es) && enc_entries(es) == b,
{
    lemma_parse_doc_encode(b);
    lemma_dedup_id(parse_doc(b)->Ok_0);
}

/// Inserting a value and then reading its key gives that value back, for
/// any key and value.
pub proof fn lemma_insert_then_get(es: Seq<(Seq<u8>, ValueV)>, k: Seq<u8>, v: ValueV)
    requires
        keys_unique(es),
    ensures
        spec_get(insert_entry(es, k, v), k) == Some(v),
{
    lemma_key_index(es, k);
    let es2 = insert_entry(es, k, v);
    if has_key(es, k) {
        let ki = key_index(es, k);
        assert(es2[ki].0 == k);
        assert forall|j: int| 0 <= j < ki implies es2[j].0 != k by {
            assert(es2[j] == es[j]);
        }
        lemma_key_index_is(es2, k, ki);
    } else {
        let n = es.len() as int;
        assert(es2[n] == (k, v));
        assert forall|j: int| 0 <= j < n implies es2[j].0 != k by {
            assert(es2[j] == es[j]);
            if es[j].0 == k {
                assert(has_key(es, k));
            }
        }
        lemma_key_index_is(es2, k, n);
    }
}

/// Re-inserting an existing key keeps every entry in its original ordinal
/// slot: the key sequence is unchanged.
pub proof fn lemma_replace_keeps_positions(es: Seq<(Seq<u8>, ValueV)>, k: Seq<u8>, v: ValueV)
    requires
        keys_unique(es),
        has_key(es, k),
    ensures
        insert_entry(es, k, v).len() == es.len(),
        forall|j: int| 0 <= j < es.len() ==> #[trigger] insert_entry(es, k, v)[j].0 == es[j].0,
{
    lemma_key_index(es, k);
}

/// A brand-new key is appended after every existing entry.
pub proof fn lemma_new_key_appended(es: Seq<(Seq<u8>, ValueV)>, k: Seq<u8>, v: ValueV)
    requires
        !has_key(es, k),
    ensures
        insert_entry(es, k, v) == es.push((k, v)),
{
}

/// Removing a key shifts the entries after it, keeping every other entry and
/// the relative order.
pub proof fn lemma_remove_keeps_order(es: Seq<(Seq<u8>, ValueV)>, k: Seq<u8>)
    requires
        keys_unique(es),
        has_key(es, k),
    ensures
        es.remove(key_index(es, k)).len() == es.len() - 1,
        forall|j: int| 0 <= j < key_index(es, k) ==> #[trigger] es.remove(key_index(es, k))[j]
            == es[j],
        forall|j: int|
            key_index(es, k) <= j < es.len() - 1 ==> #[trigger] es.remove(key_index(es, k))[j]
                == es[j + 1],
{
    lemma_key_index(es, k);
}

/// The empty document encodes to exactly five bytes: its own length, little
/// endian, and the terminating zero byte.
pub proof fn lemma_empty_doc_bytes()
    ensures
        enc_entries(Seq::<(Seq<u8>, ValueV)>::empty()) == seq![5u8, 0u8, 0u8, 0u8, 0u8],
{
    assert(enc_entry_list(Seq::<(Seq<u8>, ValueV)>::empty()) =~= Seq::<u8>::empty());
    assert(5u32 & 0xff == 5 && (5u32 >> 8) & 0xff == 0 && (5u32 >> 16) & 0xff == 0 && (5u32 >> 24)
        & 0xff == 0) by (bit_vector);
    assert(enc_entries(Seq::<(Seq<u8>, ValueV)>::empty()) =~= seq![5u8, 0u8, 0u8, 0u8, 0u8]);
}

/// Appending a value to an array extends its element bytes by one element
/// keyed with the next position's decimal digits; the elements before it,
/// and their keys, are byte-identical.
pub proof fn lemma_array_append(items: Seq<ValueV>, w: ValueV)
    ensures
        enc_item_list(items.push(w), 0) == enc_item_list(items, 0) + enc_element(
            dec_bytes(items.len() as int),
            w,
        ),
{
    lemma_enc_item_list_snoc(items, 0, w);
}

} // verus!
