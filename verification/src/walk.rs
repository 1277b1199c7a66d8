//! The order in which an ordered map hands out its keys.

use crate::keys::{ascending, lemma_lists_unique, lists, ordered_keys};
use vstd::prelude::*;
use vstd::std_specs::btree::increasing_seq;
use vstd::std_specs::cmp::OrdSpec;
use vstd::std_specs::iter::IteratorSpec;

verus! {

/// Takes the next item of `it`: the head of what remains, if anything does.
pub fn advance<I: Iterator>(it: &mut I) -> (item: Option<I::Item>)
    ensures
        (*final(it)).obeys_prophetic_iter_laws() == (*old(it)).obeys_prophetic_iter_laws(),
        (*final(it)).obeys_prophetic_iter_laws() ==> if (*old(it)).remaining().len() > 0 {
            &&& (*final(it)).remaining() == (*old(it)).remaining().drop_first()
            &&& item == Some((*old(it)).remaining()[0])
        } else {
            &&& (*final(it)).remaining() == (*old(it)).remaining()
            &&& item is None
        },
{
    it.next()
}

/// Keys that a `BTreeMap` hands out in increasing order are ascending.
pub proof fn lemma_increasing_is_ascending(ks: Seq<u64>)
    requires
        increasing_seq(ks),
    ensures
        ascending(ks),
{
    broadcast use vstd::std_specs::btree::axiom_increasing_seq_meaning;
    broadcast use vstd::laws_cmp::group_laws_cmp;

    assert(vstd::laws_cmp::obeys_cmp::<u64>());
    assert forall|i: int, j: int| 0 <= i < j < ks.len() implies ks[i] < ks[j] by {
        assert(ks[i].cmp_spec(&ks[j]) is Less);
    }
}

/// A walk over a map in increasing key order that meets every key visits the
/// keys as `ordered_keys` lists them.
pub proof fn lemma_walk_is_ordered<V>(m: Map<u64, V>, ks: Seq<u64>)
    requires
        increasing_seq(ks),
        forall|i: int| 0 <= i < ks.len() ==> m.contains_key(#[trigger] ks[i]),
        forall|k: u64| #[trigger] m.contains_key(k) ==> ks.contains(k),
    ensures
        ks == ordered_keys(m.dom()),
        lists(ks, m.dom()),
{
    lemma_increasing_is_ascending(ks);
    assert forall|k: u64| ks.contains(k) implies m.dom().contains(k) by {
        let i = choose|i: int| 0 <= i < ks.len() && ks[i] == k;
        assert(m.contains_key(ks[i]));
    }
    lemma_lists_unique(ks, m.dom());
}

} // verus!
