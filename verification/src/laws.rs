//! General laws of the table, stated over its abstract value.
//!
//! Every public operation's contract describes the table as a `Map` from
//! key views to values. The laws below are therefore stated over such
//! maps; together with those contracts they cover sequences of calls.

use vstd::prelude::*;

verus! {

/// Round-trip: after an insert of (k, v), the key k is present and looks
/// up to v.
pub proof fn lemma_insert_lookup<KV, V>(m: Map<KV, V>, k: KV, v: V)
    ensures
        m.insert(k, v).contains_key(k),
        m.insert(k, v)[k] == v,
{
}

/// Uniqueness under overwrite: inserting an already-present key replaces
/// its value and never duplicates the entry — a second insert of the same
/// key leaves exactly the state of the later insert alone.
pub proof fn lemma_insert_overwrite<KV, V>(m: Map<KV, V>, k: KV, v1: V, v2: V)
    ensures
        m.insert(k, v1)[k] == v1,
        m.insert(k, v1).insert(k, v2) == m.insert(k, v2),
{
    assert(m.insert(k, v1).insert(k, v2) =~= m.insert(k, v2));
}

/// A key's entry survives inserts and removals of other keys unchanged.
pub proof fn lemma_unrelated_ops_preserve<KV, V>(m: Map<KV, V>, k: KV, k2: KV, v2: V)
    requires
        k != k2,
    ensures
        m.insert(k2, v2).contains_key(k) == m.contains_key(k),
        m.contains_key(k) ==> m.insert(k2, v2)[k] == m[k],
        m.remove(k2).contains_key(k) == m.contains_key(k),
        m.contains_key(k) ==> m.remove(k2)[k] == m[k],
{
}

/// Removal correctness: after a removal the key is absent, and removing
/// an absent key changes nothing.
pub proof fn lemma_remove_then_absent<KV, V>(m: Map<KV, V>, k: KV)
    ensures
        !m.remove(k).contains_key(k),
        !m.contains_key(k) ==> m.remove(k) == m,
{
    if !m.contains_key(k) {
        assert(m.remove(k) =~= m);
    }
}

/// The map after inserting each pair of `pairs` in order, oldest first.
pub open spec fn insert_all<KV, V>(m: Map<KV, V>, pairs: Seq<(KV, V)>) -> Map<KV, V>
    decreases pairs.len(),
{
    if pairs.len() == 0 {
        m
    } else {
        insert_all(m, pairs.drop_last()).insert(pairs.last().0, pairs.last().1)
    }
}

/// Growth transparency: after inserting any number of distinctly keyed
/// pairs, every one of them is present with its own value — however many
/// internal rebuilds the inserts triggered, none loses or corrupts a pair.
pub proof fn lemma_distinct_inserts_all_present<KV, V>(m: Map<KV, V>, pairs: Seq<(KV, V)>)
    requires
        forall|i: int, j: int|
            0 <= i < j < pairs.len() ==> (#[trigger] pairs[i]).0 != (#[trigger] pairs[j]).0,
    ensures
        forall|i: int|
            0 <= i < pairs.len() ==> insert_all(m, pairs).contains_key((#[trigger] pairs[i]).0)
                && insert_all(m, pairs)[pairs[i].0] == pairs[i].1,
    decreases pairs.len(),
{
    if pairs.len() > 0 {
        let prefix = pairs.drop_last();
        lemma_distinct_inserts_all_present(m, prefix);
        assert forall|i: int|
            0 <= i < pairs.len() implies insert_all(m, pairs).contains_key(
            (#[trigger] pairs[i]).0,
        ) && insert_all(m, pairs)[pairs[i].0] == pairs[i].1 by {
            if i < pairs.len() - 1 {
                assert(prefix[i] == pairs[i]);
                assert(pairs[i].0 != pairs.last().0);
            }
        }
    }
}

} // verus!
