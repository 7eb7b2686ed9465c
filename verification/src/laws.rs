//! What runs of insertions leave in a list.
//!
//! A run is told by the states of a list before, between and after the
//! insertions: each state's view is the view before it with one more
//! `Map::insert`, which is what `SkipList::insert` ensures. `SkipList::get`
//! and `SkipList::len` read the view, so what is proved of the last view
//! here is what they return after the run.

use vstd::prelude::*;
use crate::list::SkipList;
use crate::order::OrderedKey;

verus! {

/// The map after the insertions `ops`, made in order into the map `m`.
pub open spec fn insert_all<K, V>(m: Map<K, V>, ops: Seq<(K, V)>) -> Map<K, V>
    decreases ops.len(),
{
    if ops.len() == 0 {
        m
    } else {
        insert_all(m, ops.drop_last()).insert(ops.last().0, ops.last().1)
    }
}

/// The keys that the insertions `ops` name.
pub open spec fn keys_in<K, V>(ops: Seq<(K, V)>) -> Set<K> {
    Set::new(|k: K| exists|i: int| 0 <= i < ops.len() && #[trigger] ops[i].0 == k)
}

/// `states` are the states of a list before, between and after the
/// insertions `ops`: state `i + 1` is state `i` after `insert` of `ops[i]`.
pub open spec fn is_run<K: OrderedKey, V>(states: Seq<SkipList<K, V>>, ops: Seq<(K, V)>) -> bool {
    &&& states.len() == ops.len() + 1
    &&& forall|i: int|
        0 <= i < ops.len() ==> states[i + 1]@ == states[i]@.insert((#[trigger] ops[i]).0, ops[i].1)
}

/// The last state of a run holds what the insertions, made in order, leave
/// of the first state's map.
pub proof fn lemma_run_inserts_all<K: OrderedKey, V>(
    states: Seq<SkipList<K, V>>,
    ops: Seq<(K, V)>,
)
    requires
        is_run(states, ops),
    ensures
        states.last()@ == insert_all(states[0]@, ops),
    decreases ops.len(),
{
    if ops.len() > 0 {
        let n = ops.len() as int;
        let front_states = states.drop_last();
        let front = ops.drop_last();
        assert forall|i: int| 0 <= i < front.len() implies front_states[i + 1]@
            == front_states[i]@.insert((#[trigger] front[i]).0, front[i].1) by {
            assert(front[i] == ops[i]);
        }
        lemma_run_inserts_all(front_states, front);
        assert(front_states.last() == states[n - 1]);
        assert(states[n]@ == states[n - 1]@.insert(ops[n - 1].0, ops[n - 1].1));
    }
}

/// The keys of `insert_all` into an empty map are the keys inserted.
proof fn lemma_keys_of_insert_all<K, V>(ops: Seq<(K, V)>)
    ensures
        insert_all(Map::<K, V>::empty(), ops).dom() == keys_in(ops),
        keys_in(ops).finite(),
    decreases ops.len(),
{
    let m = insert_all(Map::<K, V>::empty(), ops);
    if ops.len() == 0 {
        assert(m.dom() =~= keys_in(ops));
    } else {
        let front = ops.drop_last();
        lemma_keys_of_insert_all(front);
        let k = ops.last().0;
        assert forall|q: K| keys_in(ops).contains(q) <==> keys_in(front).insert(k).contains(q) by {
            if keys_in(ops).contains(q) {
                let i = choose|i: int| 0 <= i < ops.len() && #[trigger] ops[i].0 == q;
                if i < front.len() {
                    assert(front[i].0 == q);
                }
            }
            if keys_in(front).contains(q) {
                let i = choose|i: int| 0 <= i < front.len() && #[trigger] front[i].0 == q;
                assert(ops[i].0 == q);
            }
            if q == k {
                assert(ops[ops.len() - 1].0 == q);
            }
        }
        assert(keys_in(ops) =~= keys_in(front).insert(k));
        assert(m.dom() =~= keys_in(ops));
    }
}

/// In `insert_all`, the last insertion of a key gives the key's value.
proof fn lemma_last_of_insert_all<K, V>(m: Map<K, V>, ops: Seq<(K, V)>, i: int)
    requires
        0 <= i < ops.len(),
        forall|j: int| i < j < ops.len() ==> (#[trigger] ops[j]).0 != ops[i].0,
    ensures
        insert_all(m, ops).contains_key(ops[i].0),
        insert_all(m, ops)[ops[i].0] == ops[i].1,
    decreases ops.len(),
{
    if i < ops.len() - 1 {
        let front = ops.drop_last();
        assert(ops[ops.len() - 1].0 != ops[i].0);
        assert forall|j: int| i < j < front.len() implies (#[trigger] front[j]).0 != front[i].0 by {
            assert(front[j] == ops[j]);
        }
        lemma_last_of_insert_all(m, front, i);
    }
}

/// `insert_all` neither adds nor removes a key that no insertion names.
proof fn lemma_untouched_by_insert_all<K, V>(m: Map<K, V>, ops: Seq<(K, V)>, key: K)
    requires
        !keys_in(ops).contains(key),
    ensures
        insert_all(m, ops).contains_key(key) == m.contains_key(key),
        m.contains_key(key) ==> insert_all(m, ops)[key] == m[key],
    decreases ops.len(),
{
    if ops.len() > 0 {
        let front = ops.drop_last();
        assert(ops[ops.len() - 1].0 != key);
        assert forall|i: int| 0 <= i < front.len() implies (#[trigger] front[i]).0 != key by {
            assert(ops[i].0 != key);
        }
        lemma_untouched_by_insert_all(m, front, key);
    }
}

/// After any run of insertions into an empty list, the keys of the list are
/// the keys that were inserted, and its length is the number of distinct
/// keys among them.
pub proof fn lemma_len_counts_distinct_keys<K: OrderedKey, V>(
    states: Seq<SkipList<K, V>>,
    ops: Seq<(K, V)>,
)
    requires
        is_run(states, ops),
        states[0]@ == Map::<K, V>::empty(),
    ensures
        states.last()@.dom() == keys_in(ops),
        keys_in(ops).finite(),
        states.last()@.len() == keys_in(ops).len(),
{
    lemma_run_inserts_all(states, ops);
    lemma_keys_of_insert_all(ops);
}

/// After a run of insertions, a key that was inserted and not inserted
/// again later has the value it was inserted with.
pub proof fn lemma_last_insert_wins<K: OrderedKey, V>(
    states: Seq<SkipList<K, V>>,
    ops: Seq<(K, V)>,
    i: int,
)
    requires
        is_run(states, ops),
        0 <= i < ops.len(),
        forall|j: int| i < j < ops.len() ==> (#[trigger] ops[j]).0 != ops[i].0,
    ensures
        states.last()@.contains_key(ops[i].0),
        states.last()@[ops[i].0] == ops[i].1,
{
    lemma_run_inserts_all(states, ops);
    lemma_last_of_insert_all(states[0]@, ops, i);
}

/// Inserting a key twice leaves as many keys as inserting it once, and the
/// key has the second value: the list holds what the second insertion alone
/// would have left.
pub proof fn lemma_upsert<K: OrderedKey, V>(
    before: SkipList<K, V>,
    once: SkipList<K, V>,
    twice: SkipList<K, V>,
    key: K,
    v1: V,
    v2: V,
)
    requires
        before.wf(),
        once@ == before@.insert(key, v1),
        twice@ == once@.insert(key, v2),
    ensures
        twice@.len() == once@.len(),
        twice@[key] == v2,
        twice@ == before@.insert(key, v2),
{
    before.lemma_finite();
    assert(twice@ =~= before@.insert(key, v2));
    assert(once@.dom() =~= twice@.dom());
}

/// A run of insertions leaves a key that it does not name as it was: absent
/// if it was absent, so absent after any run into an empty list, and with
/// its value if it was there.
pub proof fn lemma_never_inserted_absent<K: OrderedKey, V>(
    states: Seq<SkipList<K, V>>,
    ops: Seq<(K, V)>,
    key: K,
)
    requires
        is_run(states, ops),
        !keys_in(ops).contains(key),
    ensures
        states.last()@.contains_key(key) == states[0]@.contains_key(key),
        states[0]@.contains_key(key) ==> states.last()@[key] == states[0]@[key],
        states[0]@ == Map::<K, V>::empty() ==> !states.last()@.contains_key(key),
{
    lemma_run_inserts_all(states, ops);
    lemma_untouched_by_insert_all(states[0]@, ops, key);
}

} // verus!
