//! Laws of the tree stated over the values its contracts speak of: the view
//! as a set of keys, and the least/greatest elements that the end probes
//! select.
use vstd::prelude::*;

use crate::node::is_max_key;
use crate::node::is_min_key;

verus! {

/// LAW (inserts count distinct keys): inserting a key the view already
/// holds leaves its size unchanged; a fresh key adds exactly one.
pub proof fn lemma_insert_key_count(s: Set<int>, v: i32)
    requires
        s.finite(),
    ensures
        s.contains(v as int) ==> s.insert(v as int).len() == s.len(),
        !s.contains(v as int) ==> s.insert(v as int).len() == s.len() + 1,
{
    if s.contains(v as int) {
        assert(s.insert(v as int) =~= s);
    }
}

/// LAW (insert idempotence): inserting the same key twice leaves the view
/// exactly as inserting it once does.
pub proof fn lemma_insert_idempotent(s: Set<int>, v: i32)
    ensures
        s.insert(v as int).insert(v as int) == s.insert(v as int),
{
    assert(s.insert(v as int).insert(v as int) =~= s.insert(v as int));
}

/// LAW (ascending removal): two successive least elements ascend, so
/// repeated removal of the minimum yields a strictly ascending sequence.
pub proof fn lemma_remove_first_ascending(s: Set<int>, a: int, b: int)
    requires
        is_min_key(a, s),
        is_min_key(b, s.remove(a)),
    ensures
        a < b,
{
    assert(s.contains(b));
}

/// LAW (descending removal): two successive greatest elements descend, so
/// repeated removal of the maximum yields a strictly descending sequence.
pub proof fn lemma_remove_last_descending(s: Set<int>, a: int, b: int)
    requires
        is_max_key(a, s),
        is_max_key(b, s.remove(a)),
    ensures
        b < a,
{
    assert(s.contains(b));
}

/// The view after inserting each key of `ks` in order, as `insert`'s
/// contract describes it.
pub open spec fn insert_all(s: Set<int>, ks: Seq<int>) -> Set<int>
    decreases ks.len(),
{
    if ks.len() == 0 {
        s
    } else {
        insert_all(s, ks.drop_last()).insert(ks.last())
    }
}

/// The view after removing each key of `ks` in order, as `remove`'s
/// contract describes it.
pub open spec fn remove_all(s: Set<int>, ks: Seq<int>) -> Set<int>
    decreases ks.len(),
{
    if ks.len() == 0 {
        s
    } else {
        remove_all(s, ks.drop_last()).remove(ks.last())
    }
}

/// Inserting a sequence of keys adds exactly its set of keys.
pub proof fn lemma_insert_all_union(s: Set<int>, ks: Seq<int>)
    ensures
        insert_all(s, ks) == s.union(ks.to_set()),
    decreases ks.len(),
{
    if ks.len() == 0 {
        assert(insert_all(s, ks) =~= s.union(ks.to_set())) by {
            assert(forall|k: int| !ks.to_set().contains(k));
        }
    } else {
        lemma_insert_all_union(s, ks.drop_last());
        assert(insert_all(s, ks) =~= s.union(ks.to_set())) by {
            assert forall|k: int| ks.to_set().contains(k) implies ks.drop_last().to_set().insert(
                ks.last(),
            ).contains(k) by {
                let t = choose|t: int| 0 <= t < ks.len() && ks[t] == k;
                if t < ks.len() - 1 {
                    assert(ks.drop_last()[t] == k);
                }
            }
            assert forall|k: int| ks.drop_last().to_set().contains(k) implies ks.to_set().contains(
                k,
            ) by {
                let t = choose|t: int| 0 <= t < ks.drop_last().len() && ks.drop_last()[t] == k;
                assert(ks[t] == k);
            }
            assert(ks.to_set().contains(ks.last()));
        }
    }
}

/// Removing a sequence of keys takes away exactly its set of keys.
pub proof fn lemma_remove_all_difference(s: Set<int>, ks: Seq<int>)
    ensures
        remove_all(s, ks) == s.difference(ks.to_set()),
    decreases ks.len(),
{
    if ks.len() == 0 {
        assert(remove_all(s, ks) =~= s.difference(ks.to_set())) by {
            assert(forall|k: int| !ks.to_set().contains(k));
        }
    } else {
        lemma_remove_all_difference(s, ks.drop_last());
        assert(remove_all(s, ks) =~= s.difference(ks.to_set())) by {
            assert forall|k: int| ks.to_set().contains(k) implies ks.drop_last().to_set().insert(
                ks.last(),
            ).contains(k) by {
                let t = choose|t: int| 0 <= t < ks.len() && ks[t] == k;
                if t < ks.len() - 1 {
                    assert(ks.drop_last()[t] == k);
                }
            }
            assert forall|k: int| ks.drop_last().to_set().contains(k) implies ks.to_set().contains(
                k,
            ) by {
                let t = choose|t: int| 0 <= t < ks.drop_last().len() && ks.drop_last()[t] == k;
                assert(ks[t] == k);
            }
            assert(ks.to_set().contains(ks.last()));
        }
    }
}

/// LAW (surviving set): inserting the keys of `ins` into an empty tree and
/// then removing the keys of `rem` — following the contracts of `insert`
/// and `remove` — leaves exactly the inserted keys minus the removed ones.
pub proof fn lemma_surviving_set(ins: Seq<int>, rem: Seq<int>)
    ensures
        remove_all(insert_all(Set::empty(), ins), rem) == ins.to_set().difference(rem.to_set()),
{
    lemma_insert_all_union(Set::empty(), ins);
    lemma_remove_all_difference(insert_all(Set::empty(), ins), rem);
    assert(Set::empty().union(ins.to_set()) =~= ins.to_set());
}

} // verus!
