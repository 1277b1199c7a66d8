//! The keys of an ordered map, as the ascending sequence in which it is walked.

use vstd::prelude::*;

verus! {

/// `ks` rises strictly from each element to the next.
pub open spec fn ascending(ks: Seq<u64>) -> bool {
    forall|i: int, j: int| 0 <= i < j < ks.len() ==> ks[i] < ks[j]
}

/// `ks` holds exactly the members of `s`, each once, smallest first.
pub open spec fn lists(ks: Seq<u64>, s: Set<u64>) -> bool {
    &&& ascending(ks)
    &&& forall|k: u64|
        #![trigger s.contains(k)]
        #![trigger ks.contains(k)]
        s.contains(k) <==> ks.contains(k)
}

/// The members of `s` that lie below `n`, smallest first.
pub open spec fn keys_below(s: Set<u64>, n: nat) -> Seq<u64>
    decreases n,
{
    if n == 0 {
        Seq::empty()
    } else {
        let k = (n - 1) as u64;
        let lower = keys_below(s, (n - 1) as nat);
        if s.contains(k) {
            lower.push(k)
        } else {
            lower
        }
    }
}

/// The members of `s`, smallest first.
pub open spec fn ordered_keys(s: Set<u64>) -> Seq<u64> {
    keys_below(s, 0x1_0000_0000_0000_0000)
}

/// `keys_below(s, n)` is ascending and holds exactly the members of `s` below `n`.
pub proof fn lemma_keys_below(s: Set<u64>, n: nat)
    requires
        n <= 0x1_0000_0000_0000_0000,
    ensures
        ascending(keys_below(s, n)),
        forall|k: u64|
            #![trigger keys_below(s, n).contains(k)]
            #![trigger s.contains(k)]
            keys_below(s, n).contains(k) <==> s.contains(k) && k < n,
    decreases n,
{
    if n > 0 {
        let k = (n - 1) as u64;
        let lower = keys_below(s, (n - 1) as nat);
        lemma_keys_below(s, (n - 1) as nat);
        if s.contains(k) {
            let ks = lower.push(k);
            assert forall|i: int, j: int| 0 <= i < j < ks.len() implies ks[i] < ks[j] by {
                assert(ks[i] == lower[i]);
                if j < lower.len() {
                    assert(ks[j] == lower[j]);
                } else {
                    assert(lower.contains(lower[i]));
                }
            }
            assert forall|x: u64| ks.contains(x) <==> s.contains(x) && x < n by {
                if ks.contains(x) {
                    let i = choose|i: int| 0 <= i < ks.len() && ks[i] == x;
                    if i < lower.len() {
                        assert(lower.contains(x));
                    }
                }
                if s.contains(x) && x < n {
                    if x == k {
                        assert(ks[lower.len() as int] == x);
                    } else {
                        assert(lower.contains(x));
                        let i = choose|i: int| 0 <= i < lower.len() && lower[i] == x;
                        assert(ks[i] == x);
                    }
                }
            }
        }
    }
}

/// The ordered keys of a set are ascending and are exactly its members.
pub proof fn lemma_ordered_keys(s: Set<u64>)
    ensures
        lists(ordered_keys(s), s),
{
    lemma_keys_below(s, 0x1_0000_0000_0000_0000);
}

/// Two ascending sequences with the same elements are the same sequence.
pub proof fn lemma_ascending_unique(a: Seq<u64>, b: Seq<u64>)
    requires
        ascending(a),
        ascending(b),
        forall|k: u64|
            #![trigger a.contains(k)]
            #![trigger b.contains(k)]
            a.contains(k) <==> b.contains(k),
    ensures
        a == b,
    decreases a.len(),
{
    if a.len() == 0 {
        if b.len() > 0 {
            assert(b.contains(b[0]));
        }
        assert(a =~= b);
    } else {
        let top = a.last();
        assert(a.contains(top));
        let at = choose|i: int| 0 <= i < b.len() && b[i] == top;
        if at < b.len() - 1 {
            assert(b.contains(b.last()));
            let back = choose|i: int| 0 <= i < a.len() && a[i] == b.last();
        }
        assert(b.last() == top);
        let a0 = a.drop_last();
        let b0 = b.drop_last();
        assert forall|k: u64| a0.contains(k) <==> b0.contains(k) by {
            if a0.contains(k) {
                let i = choose|i: int| 0 <= i < a0.len() && a0[i] == k;
                assert(a[i] == k);
                assert(a.contains(k));
                let j = choose|j: int| 0 <= j < b.len() && b[j] == k;
                assert(b0[j] == k);
            }
            if b0.contains(k) {
                let i = choose|i: int| 0 <= i < b0.len() && b0[i] == k;
                assert(b[i] == k);
                assert(b.contains(k));
                let j = choose|j: int| 0 <= j < a.len() && a[j] == k;
                assert(a0[j] == k);
            }
        }
        lemma_ascending_unique(a0, b0);
        assert(a =~= a0.push(top));
        assert(b =~= b0.push(top));
    }
}

/// Only one sequence lists a set: the ordered keys.
pub proof fn lemma_lists_unique(ks: Seq<u64>, s: Set<u64>)
    requires
        lists(ks, s),
    ensures
        ks == ordered_keys(s),
{
    lemma_ordered_keys(s);
    lemma_ascending_unique(ks, ordered_keys(s));
}

} // verus!
