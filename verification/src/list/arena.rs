//! The arena behind a list as contracts see it: what it means for the links
//! of a level to be in order, and why searching, splicing and overwriting
//! keep them so.

use vstd::prelude::*;
use vstd::set_lib::{lemma_int_range, lemma_len_subset, set_int_range};
use crate::level::MAX_LEVEL;
use crate::order::{lemma_order_laws, OrderedKey};
use super::Node;

verus! {

/// The keys of the arena, by index.
pub(super) open spec fn keys_of<K, V>(ns: Seq<Node<K, V>>) -> Seq<Option<K>> {
    Seq::new(ns.len(), |i: int| ns[i].key)
}

/// The tower heights of the arena, by index.
pub(super) open spec fn heights_of<K, V>(ns: Seq<Node<K, V>>) -> Seq<nat> {
    Seq::new(ns.len(), |i: int| ns[i].tower@.len())
}

/// The links of level `l`, by index; `None` where a node is too short.
pub(super) open spec fn links_of<K, V>(ns: Seq<Node<K, V>>, l: int) -> Seq<Option<usize>> {
    Seq::new(
        ns.len(),
        |i: int|
            if 0 <= l < ns[i].tower@.len() {
                ns[i].tower@[l]
            } else {
                None
            },
    )
}

/// Node `a` stands strictly before node `p`: it is the head (index 0), or its
/// key precedes that of `p`.
pub(super) open spec fn before<K: OrderedKey>(ks: Seq<Option<K>>, a: int, p: int) -> bool {
    a == 0 || ks[a].unwrap().precedes(ks[p].unwrap())
}

/// `p` is one of the first `cnt` nodes, is not the head, and reaches level `l`.
pub(super) open spec fn on_level(hs: Seq<nat>, cnt: int, l: int, p: int) -> bool {
    1 <= p < cnt && l < hs[p]
}

/// The link of node `a` on level `l` leads to the next node of that level:
/// to a later node with no node of the level in between, or nowhere if no
/// node of the level comes later.
pub(super) open spec fn link_ok<K: OrderedKey>(
    ks: Seq<Option<K>>,
    hs: Seq<nat>,
    ls: Seq<Option<usize>>,
    cnt: int,
    l: int,
    a: int,
) -> bool {
    match ls[a] {
        Some(b) => {
            &&& on_level(hs, cnt, l, b as int)
            &&& before(ks, a, b as int)
            &&& forall|p: int| #[trigger]
                on_level(hs, cnt, l, p) && before(ks, a, p) ==> !ks[p].unwrap().precedes(
                    ks[b as int].unwrap(),
                )
        },
        None => forall|p: int| #[trigger] on_level(hs, cnt, l, p) ==> !before(ks, a, p),
    }
}

/// Every link of level `l` among the first `cnt` nodes is in order.
pub(super) open spec fn level_ok<K: OrderedKey>(
    ks: Seq<Option<K>>,
    hs: Seq<nat>,
    ls: Seq<Option<usize>>,
    cnt: int,
    l: int,
) -> bool {
    forall|a: int| 0 <= a < cnt && l < hs[a] ==> #[trigger] link_ok(ks, hs, ls, cnt, l, a)
}

/// Node `x` is the last node of level `l` that stands before `key`.
pub(super) open spec fn pred_ok<K: OrderedKey>(
    ks: Seq<Option<K>>,
    hs: Seq<nat>,
    cnt: int,
    l: int,
    x: int,
    key: K,
) -> bool {
    &&& 0 <= x < cnt
    &&& l < hs[x]
    &&& (x == 0 || ks[x].unwrap().precedes(key))
    &&& forall|p: int| #[trigger]
        on_level(hs, cnt, l, p) && ks[p].unwrap().precedes(key) ==> !before(ks, x, p)
}

/// The head stands at index 0 with a full tower; every other node has a key,
/// a value and a tower of 1 to `MAX_LEVEL` links.
pub(super) open spec fn shape_ok<K, V>(ns: Seq<Node<K, V>>) -> bool {
    &&& ns.len() >= 1
    &&& ns[0].tower@.len() == MAX_LEVEL
    &&& forall|i: int|
        1 <= i < ns.len() ==> {
            &&& (#[trigger] ns[i]).key is Some
            &&& ns[i].val is Some
            &&& 1 <= ns[i].tower@.len() <= MAX_LEVEL
        }
}

/// No two nodes hold the same key.
pub(super) open spec fn distinct<K>(ks: Seq<Option<K>>) -> bool {
    forall|i: int, j: int| 1 <= i < j < ks.len() ==> #[trigger] ks[i] != #[trigger] ks[j]
}

/// Node `i` is a real node and holds key `k`.
pub(super) open spec fn holds<K, V>(ns: Seq<Node<K, V>>, i: int, k: K) -> bool {
    1 <= i < ns.len() && ns[i].key == Some(k)
}

/// The map that the arena stands for: each real node's key to its value.
pub(super) open spec fn map_of<K, V>(ns: Seq<Node<K, V>>) -> Map<K, V> {
    Map::new(
        |k: K| exists|i: int| holds(ns, i, k),
        |k: K| ns[choose|i: int| holds(ns, i, k)].val.unwrap(),
    )
}

/// The tower height of the node that holds key `k`.
pub(super) open spec fn height_in<K, V>(ns: Seq<Node<K, V>>, k: K) -> nat {
    ns[choose|i: int| holds(ns, i, k)].tower@.len()
}

/// The nodes of level `l` that stand after node `x`.
pub(super) open spec fn ahead<K: OrderedKey>(ks: Seq<Option<K>>, hs: Seq<nat>, l: int, x: int) -> Set<int> {
    Set::new(|p: int| on_level(hs, ks.len() as int, l, p) && before(ks, x, p))
}

/// The nodes ahead of any node are finitely many, fewer than the arena has
/// nodes.
pub(super) proof fn lemma_ahead_finite<K: OrderedKey>(ks: Seq<Option<K>>, hs: Seq<nat>, l: int, x: int)
    requires
        ks.len() >= 1,
    ensures
        ahead(ks, hs, l, x).finite(),
        ahead(ks, hs, l, x).len() <= ks.len() - 1,
{
    let full = set_int_range(1, ks.len() as int);
    lemma_int_range(1, ks.len() as int);
    assert(ahead(ks, hs, l, x).subset_of(full));
    lemma_len_subset(ahead(ks, hs, l, x), full);
}

/// A step to a later node of the level leaves fewer nodes ahead.
pub(super) proof fn lemma_ahead_shrinks<K: OrderedKey>(
    ks: Seq<Option<K>>,
    hs: Seq<nat>,
    l: int,
    x: int,
    m: int,
)
    requires
        0 <= x < ks.len(),
        on_level(hs, ks.len() as int, l, m),
        before(ks, x, m),
    ensures
        ahead(ks, hs, l, m).len() < ahead(ks, hs, l, x).len(),
{
    lemma_order_laws::<K>();
    lemma_ahead_finite(ks, hs, l, x);
    let rest = ahead(ks, hs, l, x).remove(m);
    assert(ahead(ks, hs, l, x).contains(m));
    assert forall|p: int| ahead(ks, hs, l, m).contains(p) implies rest.contains(p) by {
        assert(ks[m].unwrap().precedes(ks[p].unwrap()));
    }
    assert(ahead(ks, hs, l, m).subset_of(rest));
    lemma_len_subset(ahead(ks, hs, l, m), rest);
}

/// Key `k` is the key of a node of level `l` that stands after node `x`.
pub(super) open spec fn key_ahead<K: OrderedKey>(ks: Seq<Option<K>>, hs: Seq<nat>, l: int, x: int, k: K) -> bool {
    exists|p: int| ahead(ks, hs, l, x).contains(p) && #[trigger] ks[p] == Some(k)
}

/// The keys met on a walk along level `l` that starts with the link `from`
/// and takes at most `steps` steps.
pub(super) open spec fn walk<K, V>(ns: Seq<Node<K, V>>, l: int, from: Option<usize>, steps: nat) -> Seq<K>
    decreases steps,
{
    if steps == 0 {
        Seq::empty()
    } else {
        match from {
            None => Seq::empty(),
            Some(c) => seq![ns[c as int].key.unwrap()] + walk(
                ns,
                l,
                ns[c as int].tower@[l],
                (steps - 1) as nat,
            ),
        }
    }
}

/// A walk along level `l` from node `x` with enough steps meets exactly the
/// nodes of the level that stand after `x`, each once and in key order.
pub(super) proof fn lemma_walk<K: OrderedKey, V>(ns: Seq<Node<K, V>>, l: int, x: int, steps: nat)
    requires
        shape_ok(ns),
        distinct(keys_of(ns)),
        0 <= l < MAX_LEVEL,
        level_ok(keys_of(ns), heights_of(ns), links_of(ns, l), ns.len() as int, l),
        0 <= x < ns.len(),
        l < ns[x].tower@.len(),
        steps >= ahead(keys_of(ns), heights_of(ns), l, x).len(),
    ensures
        walk(ns, l, ns[x].tower@[l], steps).len() == ahead(
            keys_of(ns),
            heights_of(ns),
            l,
            x,
        ).len(),
        forall|i: int|
            0 <= i < walk(ns, l, ns[x].tower@[l], steps).len() ==> key_ahead(
                keys_of(ns),
                heights_of(ns),
                l,
                x,
                #[trigger] walk(ns, l, ns[x].tower@[l], steps)[i],
            ),
        forall|p: int| #[trigger]
            ahead(keys_of(ns), heights_of(ns), l, x).contains(p) ==> walk(
                ns,
                l,
                ns[x].tower@[l],
                steps,
            ).contains(ns[p].key.unwrap()),
        forall|i: int, j: int|
            0 <= i < j < walk(ns, l, ns[x].tower@[l], steps).len() ==> (#[trigger] walk(
                ns,
                l,
                ns[x].tower@[l],
                steps,
            )[i]).precedes(#[trigger] walk(ns, l, ns[x].tower@[l], steps)[j]),
    decreases steps,
{
    lemma_order_laws::<K>();
    let ks = keys_of(ns);
    let hs = heights_of(ns);
    let n = ns.len() as int;
    let w = walk(ns, l, ns[x].tower@[l], steps);
    lemma_ahead_finite(ks, hs, l, x);
    assert(link_ok(ks, hs, links_of(ns, l), n, l, x));
    assert(links_of(ns, l)[x] == ns[x].tower@[l]);
    match ns[x].tower@[l] {
        None => {
            assert(ahead(ks, hs, l, x) =~= Set::<int>::empty());
        },
        Some(b) => {
            let b = b as int;
            let kb = ns[b].key.unwrap();
            assert(on_level(hs, n, l, b));
            assert(ns[b].key is Some);
            lemma_ahead_finite(ks, hs, l, b);
            assert forall|p: int|
                ahead(ks, hs, l, x).contains(p) <==> ahead(ks, hs, l, b).insert(b).contains(
                    p,
                ) by {
                if ahead(ks, hs, l, x).contains(p) && p != b {
                    assert(ns[p].key is Some);
                    assert(ks[p] != ks[b]);
                }
                if ahead(ks, hs, l, b).contains(p) {
                    assert(ks[b].unwrap().precedes(ks[p].unwrap()));
                }
            }
            assert(ahead(ks, hs, l, x) =~= ahead(ks, hs, l, b).insert(b));
            assert(!ahead(ks, hs, l, b).contains(b));
            assert(steps > 0);
            let rest = walk(ns, l, ns[b].tower@[l], (steps - 1) as nat);
            lemma_walk(ns, l, b, (steps - 1) as nat);
            assert(w == seq![kb] + rest);
            assert forall|i: int| 0 <= i < w.len() implies key_ahead(
                ks,
                hs,
                l,
                x,
                #[trigger] w[i],
            ) by {
                if i == 0 {
                    assert(ahead(ks, hs, l, x).contains(b) && ks[b] == Some(w[i]));
                } else {
                    assert(w[i] == rest[i - 1]);
                    assert(key_ahead(ks, hs, l, b, rest[i - 1]));
                    let p = choose|p: int|
                        ahead(ks, hs, l, b).contains(p) && #[trigger] ks[p] == Some(rest[i - 1]);
                    assert(ahead(ks, hs, l, x).contains(p) && ks[p] == Some(w[i]));
                }
            }
            assert forall|p: int| #[trigger] ahead(ks, hs, l, x).contains(p) implies w.contains(
                ns[p].key.unwrap(),
            ) by {
                if p == b {
                    assert(w[0] == kb);
                } else {
                    assert(ahead(ks, hs, l, b).contains(p));
                    assert(rest.contains(ns[p].key.unwrap()));
                    let i = choose|i: int| 0 <= i < rest.len() && rest[i] == ns[p].key.unwrap();
                    assert(w[i + 1] == rest[i]);
                }
            }
            assert forall|i: int, j: int| 0 <= i < j < w.len() implies (#[trigger] w[i]).precedes(
                #[trigger] w[j],
            ) by {
                assert(w[j] == rest[j - 1]);
                if i == 0 {
                    assert(key_ahead(ks, hs, l, b, rest[j - 1]));
                    let p = choose|p: int|
                        ahead(ks, hs, l, b).contains(p) && #[trigger] ks[p] == Some(rest[j - 1]);
                    assert(before(ks, b, p));
                } else {
                    assert(w[i] == rest[i - 1]);
                }
            }
        },
    }
}

/// A real node's key is in the map, with that node's value.
pub(super) proof fn lemma_map_at<K, V>(ns: Seq<Node<K, V>>, i: int)
    requires
        shape_ok(ns),
        distinct(keys_of(ns)),
        1 <= i < ns.len(),
    ensures
        map_of(ns).contains_key(ns[i].key.unwrap()),
        map_of(ns)[ns[i].key.unwrap()] == ns[i].val.unwrap(),
        height_in(ns, ns[i].key.unwrap()) == ns[i].tower@.len(),
{
    let k = ns[i].key.unwrap();
    assert(holds(ns, i, k));
    let j = choose|j: int| holds(ns, j, k);
    assert(keys_of(ns)[i] == keys_of(ns)[j]);
}

/// A key that the level-0 successor of its predecessor does not hold is in
/// no node.
pub(super) proof fn lemma_absent<K: OrderedKey, V>(ns: Seq<Node<K, V>>, x: int, key: K)
    requires
        shape_ok(ns),
        level_ok(keys_of(ns), heights_of(ns), links_of(ns, 0), ns.len() as int, 0),
        pred_ok(keys_of(ns), heights_of(ns), ns.len() as int, 0, x, key),
        match links_of(ns, 0)[x] {
            Some(c) => ns[c as int].key != Some(key),
            None => true,
        },
    ensures
        forall|i: int| !holds(ns, i, key),
        !map_of(ns).contains_key(key),
{
    lemma_order_laws::<K>();
    let ks = keys_of(ns);
    let hs = heights_of(ns);
    let n = ns.len() as int;
    assert(link_ok(ks, hs, links_of(ns, 0), n, 0, x));
    assert forall|i: int| !holds(ns, i, key) by {
        if holds(ns, i, key) {
            assert(ns[i].key is Some);
            assert(on_level(hs, n, 0, i));
            assert(before(ks, x, i));
            match links_of(ns, 0)[x] {
                Some(c) => {
                    assert(on_level(hs, n, 0, c as int));
                    assert(ns[c as int].key is Some);
                    assert(!ks[c as int].unwrap().precedes(key));
                },
                None => {},
            }
        }
    }
}

/// Splicing a new node `n` behind its predecessor `x` on level `l` keeps the
/// level in order, now with the new node on it.
pub(super) proof fn lemma_splice<K: OrderedKey>(
    ks: Seq<Option<K>>,
    hs: Seq<nat>,
    ls: Seq<Option<usize>>,
    ls2: Seq<Option<usize>>,
    n: int,
    l: int,
    x: int,
    key: K,
)
    requires
        1 <= n < usize::MAX,
        ks.len() == n + 1,
        hs.len() == n + 1,
        ls.len() == n + 1,
        ks[n] == Some(key),
        forall|i: int| 1 <= i < n ==> (#[trigger] ks[i]) is Some && ks[i] != Some(key),
        distinct(ks),
        0 <= l < hs[n],
        level_ok(ks, hs, ls, n, l),
        pred_ok(ks, hs, n, l, x, key),
        ls2 == ls.update(n, ls[x]).update(x, Some(n as usize)),
    ensures
        level_ok(ks, hs, ls2, n + 1, l),
{
    lemma_order_laws::<K>();
    assert(link_ok(ks, hs, ls, n, l, x));
    assert forall|a: int| 0 <= a < n + 1 && l < hs[a] implies #[trigger] link_ok(
        ks,
        hs,
        ls2,
        n + 1,
        l,
        a,
    ) by {
        if a == x {
            assert(on_level(hs, n + 1, l, n));
            assert(before(ks, x, n));
            assert forall|p: int| #[trigger]
                on_level(hs, n + 1, l, p) && before(ks, x, p) implies !ks[p].unwrap().precedes(
                ks[n].unwrap(),
            ) by {
                if p < n {
                    assert(on_level(hs, n, l, p));
                }
            }
        } else if a == n {
            match ls[x] {
                Some(b) => {
                    assert(on_level(hs, n, l, b as int));
                    assert(on_level(hs, n + 1, l, b as int));
                    assert(!ks[b as int].unwrap().precedes(key));
                    assert(ks[b as int] != Some(key));
                    assert(before(ks, n, b as int));
                    assert forall|p: int| #[trigger]
                        on_level(hs, n + 1, l, p) && before(
                            ks,
                            n,
                            p,
                        ) implies !ks[p].unwrap().precedes(ks[b as int].unwrap()) by {
                        if p < n {
                            assert(on_level(hs, n, l, p));
                            assert(before(ks, x, p));
                        }
                    }
                },
                None => {
                    assert forall|p: int| #[trigger] on_level(hs, n + 1, l, p) implies !before(
                        ks,
                        n,
                        p,
                    ) by {
                        if p < n {
                            assert(on_level(hs, n, l, p));
                            if before(ks, n, p) {
                                assert(before(ks, x, p));
                            }
                        }
                    }
                },
            }
        } else {
            assert(link_ok(ks, hs, ls, n, l, a));
            assert(ls2[a] == ls[a]);
            if a != 0 {
                assert(on_level(hs, n, l, a));
            }
            if x != 0 {
                assert(on_level(hs, n, l, x));
            }
            match ls[a] {
                Some(b) => {
                    assert(on_level(hs, n, l, b as int));
                    assert(on_level(hs, n + 1, l, b as int));
                    assert forall|p: int| #[trigger]
                        on_level(hs, n + 1, l, p) && before(
                            ks,
                            a,
                            p,
                        ) implies !ks[p].unwrap().precedes(ks[b as int].unwrap()) by {
                        if p < n {
                            assert(on_level(hs, n, l, p));
                        } else if key.precedes(ks[b as int].unwrap()) {
                            if x != 0 {
                                assert(before(ks, a, x));
                            }
                        }
                    }
                },
                None => {
                    assert forall|p: int| #[trigger] on_level(hs, n + 1, l, p) implies !before(
                        ks,
                        a,
                        p,
                    ) by {
                        if p < n {
                            assert(on_level(hs, n, l, p));
                        } else if before(ks, a, n) {
                            if x != 0 {
                                assert(before(ks, a, x));
                            }
                        }
                    }
                },
            }
        }
    }
}

/// A level that is in order among the first `n` nodes is in order among
/// `n + 1` of them if node `n` does not reach it.
pub(super) proof fn lemma_short_node<K: OrderedKey>(
    ks: Seq<Option<K>>,
    hs: Seq<nat>,
    ls: Seq<Option<usize>>,
    n: int,
    l: int,
)
    requires
        level_ok(ks, hs, ls, n, l),
        hs[n] <= l,
    ensures
        level_ok(ks, hs, ls, n + 1, l),
{
    assert forall|a: int| 0 <= a < n + 1 && l < hs[a] implies #[trigger] link_ok(
        ks,
        hs,
        ls,
        n + 1,
        l,
        a,
    ) by {
        assert(link_ok(ks, hs, ls, n, l, a));
        match ls[a] {
            Some(b) => {
                assert(on_level(hs, n + 1, l, b as int));
                assert forall|p: int| #[trigger]
                    on_level(hs, n + 1, l, p) && before(ks, a, p) implies !ks[p].unwrap().precedes(
                    ks[b as int].unwrap(),
                ) by {
                    assert(on_level(hs, n, l, p));
                }
            },
            None => {
                assert forall|p: int| #[trigger] on_level(hs, n + 1, l, p) implies !before(
                    ks,
                    a,
                    p,
                ) by {
                    assert(on_level(hs, n, l, p));
                }
            },
        }
    }
}

/// A node pushed to the end of the arena leaves every level in order among
/// the nodes that were there, and every predecessor what it was.
pub(super) proof fn lemma_pushed<K: OrderedKey>(
    ks: Seq<Option<K>>,
    hs: Seq<nat>,
    ls: Seq<Option<usize>>,
    k: Option<K>,
    h: nat,
    e: Option<usize>,
    l: int,
)
    requires
        ks.len() == hs.len(),
        ks.len() == ls.len(),
    ensures
        level_ok(ks, hs, ls, ks.len() as int, l) ==> level_ok(
            ks.push(k),
            hs.push(h),
            ls.push(e),
            ks.len() as int,
            l,
        ),
        forall|x: int, key: K|
            pred_ok(ks, hs, ks.len() as int, l, x, key) ==> #[trigger] pred_ok(
                ks.push(k),
                hs.push(h),
                ks.len() as int,
                l,
                x,
                key,
            ),
{
    let n = ks.len() as int;
    let ks2 = ks.push(k);
    let hs2 = hs.push(h);
    let ls2 = ls.push(e);
    if level_ok(ks, hs, ls, n, l) {
        assert forall|a: int| 0 <= a < n && l < hs2[a] implies #[trigger] link_ok(
            ks2,
            hs2,
            ls2,
            n,
            l,
            a,
        ) by {
            assert(link_ok(ks, hs, ls, n, l, a));
            match ls[a] {
                Some(b) => {
                    assert(on_level(hs, n, l, b as int));
                    assert forall|p: int| #[trigger]
                        on_level(hs2, n, l, p) && before(
                            ks2,
                            a,
                            p,
                        ) implies !ks2[p].unwrap().precedes(ks2[b as int].unwrap()) by {
                        assert(on_level(hs, n, l, p));
                        assert(before(ks, a, p));
                    }
                },
                None => {
                    assert forall|p: int| #[trigger] on_level(hs2, n, l, p) implies !before(
                        ks2,
                        a,
                        p,
                    ) by {
                        assert(on_level(hs, n, l, p));
                    }
                },
            }
        }
    }
    assert forall|x: int, key: K| pred_ok(ks, hs, n, l, x, key) implies #[trigger] pred_ok(
        ks2,
        hs2,
        n,
        l,
        x,
        key,
    ) by {
        assert forall|p: int| #[trigger]
            on_level(hs2, n, l, p) && ks2[p].unwrap().precedes(key) implies !before(ks2, x, p) by {
            assert(on_level(hs, n, l, p));
        }
    }
}

/// The head is the predecessor of every key on a level that no node reaches.
pub(super) proof fn lemma_head_alone<K: OrderedKey>(ks: Seq<Option<K>>, hs: Seq<nat>, cnt: int, l: int, key: K)
    requires
        1 <= cnt <= hs.len(),
        l < hs[0],
        forall|i: int| 1 <= i < cnt ==> (#[trigger] hs[i]) <= l,
    ensures
        pred_ok(ks, hs, cnt, l, 0, key),
{
}

/// A new node at the end of the arena adds its key and value to the map.
pub(super) proof fn lemma_map_push<K, V>(ns: Seq<Node<K, V>>, nf: Seq<Node<K, V>>, key: K, val: V)
    requires
        shape_ok(ns),
        shape_ok(nf),
        distinct(keys_of(ns)),
        distinct(keys_of(nf)),
        forall|i: int| !holds(ns, i, key),
        nf.len() == ns.len() + 1,
        forall|j: int|
            0 <= j < ns.len() ==> {
                &&& (#[trigger] nf[j]).key == ns[j].key
                &&& nf[j].val == ns[j].val
                &&& nf[j].tower@.len() == ns[j].tower@.len()
            },
        nf[ns.len() as int].key == Some(key),
        nf[ns.len() as int].val == Some(val),
    ensures
        map_of(nf) == map_of(ns).insert(key, val),
        height_in(nf, key) == nf[ns.len() as int].tower@.len(),
        forall|q: K| #[trigger] map_of(ns).contains_key(q) ==> height_in(nf, q) == height_in(ns, q),
{
    lemma_map_at(nf, ns.len() as int);
    assert forall|q: K| #[trigger] map_of(ns).contains_key(q) implies height_in(nf, q)
        == height_in(ns, q) by {
        let i = choose|i: int| holds(ns, i, q);
        assert(holds(nf, i, q));
        lemma_map_at(ns, i);
        lemma_map_at(nf, i);
    }
    let n = ns.len() as int;
    let target = map_of(ns).insert(key, val);
    assert forall|q: K| map_of(nf).contains_key(q) <==> target.contains_key(q) by {
        if map_of(nf).contains_key(q) {
            let i = choose|i: int| holds(nf, i, q);
            if i < n {
                assert(holds(ns, i, q));
            }
        }
        if target.contains_key(q) {
            if q == key {
                assert(holds(nf, n, q));
            } else {
                let i = choose|i: int| holds(ns, i, q);
                assert(holds(nf, i, q));
            }
        }
    }
    assert forall|q: K| map_of(nf).contains_key(q) implies map_of(nf)[q] == target[q] by {
        if q == key {
            lemma_map_at(nf, n);
        } else {
            assert(target.contains_key(q));
            assert(map_of(ns).contains_key(q));
            let i = choose|i: int| holds(ns, i, q);
            assert(holds(nf, i, q));
            lemma_map_at(ns, i);
            lemma_map_at(nf, i);
        }
    }
    assert(map_of(nf) =~= target);
}

/// A new value in node `c` replaces the value of that node's key in the map.
pub(super) proof fn lemma_map_set<K, V>(ns: Seq<Node<K, V>>, nf: Seq<Node<K, V>>, c: int, val: V)
    requires
        shape_ok(ns),
        shape_ok(nf),
        distinct(keys_of(ns)),
        distinct(keys_of(nf)),
        1 <= c < ns.len(),
        nf.len() == ns.len(),
        forall|j: int|
            0 <= j < ns.len() ==> (#[trigger] nf[j]).key == ns[j].key && nf[j].tower@.len()
                == ns[j].tower@.len(),
        forall|j: int| 0 <= j < ns.len() && j != c ==> (#[trigger] nf[j]).val == ns[j].val,
        nf[c].val == Some(val),
    ensures
        map_of(nf) == map_of(ns).insert(ns[c].key.unwrap(), val),
        forall|q: K| #[trigger] map_of(ns).contains_key(q) ==> height_in(nf, q) == height_in(ns, q),
{
    assert forall|q: K| #[trigger] map_of(ns).contains_key(q) implies height_in(nf, q)
        == height_in(ns, q) by {
        let i = choose|i: int| holds(ns, i, q);
        assert(holds(nf, i, q));
        lemma_map_at(ns, i);
        lemma_map_at(nf, i);
    }
    let key = ns[c].key.unwrap();
    let target = map_of(ns).insert(key, val);
    assert forall|q: K| map_of(nf).contains_key(q) <==> target.contains_key(q) by {
        if map_of(nf).contains_key(q) {
            let i = choose|i: int| holds(nf, i, q);
            assert(holds(ns, i, q));
        }
        if target.contains_key(q) {
            if q == key {
                assert(holds(nf, c, q));
            } else {
                let i = choose|i: int| holds(ns, i, q);
                assert(holds(nf, i, q));
            }
        }
    }
    assert forall|q: K| map_of(nf).contains_key(q) implies map_of(nf)[q] == target[q] by {
        if q == key {
            lemma_map_at(nf, c);
        } else {
            assert(target.contains_key(q));
            assert(map_of(ns).contains_key(q));
            let i = choose|i: int| holds(ns, i, q);
            assert(holds(nf, i, q));
            lemma_map_at(ns, i);
            lemma_map_at(nf, i);
        }
    }
    assert(map_of(nf) =~= target);
}

/// The invariant of a list with arena `ns`, size counter `size` and level
/// `level`.
pub(super) open spec fn arena_ok<K: OrderedKey, V>(ns: Seq<Node<K, V>>, size: usize, level: usize) -> bool {
    &&& shape_ok(ns)
    &&& distinct(keys_of(ns))
    &&& forall|l: int|
        0 <= l < MAX_LEVEL ==> #[trigger] level_ok(
            keys_of(ns),
            heights_of(ns),
            links_of(ns, l),
            ns.len() as int,
            l,
        )
    &&& size + 1 == ns.len()
    &&& 1 <= level <= MAX_LEVEL
    &&& forall|i: int| 1 <= i < ns.len() ==> (#[trigger] ns[i]).tower@.len() <= level
    &&& map_of(ns).dom().finite()
    &&& map_of(ns).dom().len() == size
}

/// A new value in node `c` keeps the invariant and replaces the value of
/// that node's key in the map.
pub(super) proof fn lemma_overwrite<K: OrderedKey, V>(
    ns: Seq<Node<K, V>>,
    nf: Seq<Node<K, V>>,
    c: int,
    val: V,
    size: usize,
    level: usize,
)
    requires
        arena_ok(ns, size, level),
        1 <= c < ns.len(),
        nf.len() == ns.len(),
        forall|j: int| 0 <= j < ns.len() && j != c ==> (#[trigger] nf[j]) == ns[j],
        nf[c].key == ns[c].key,
        nf[c].tower == ns[c].tower,
        nf[c].val == Some(val),
    ensures
        arena_ok(nf, size, level),
        map_of(nf) == map_of(ns).insert(ns[c].key.unwrap(), val),
        forall|q: K| #[trigger] map_of(ns).contains_key(q) ==> height_in(nf, q) == height_in(ns, q),
{
    assert(keys_of(nf) =~= keys_of(ns));
    assert(heights_of(nf) =~= heights_of(ns));
    assert forall|l: int| 0 <= l < MAX_LEVEL implies #[trigger] level_ok(
        keys_of(nf),
        heights_of(nf),
        links_of(nf, l),
        nf.len() as int,
        l,
    ) by {
        assert(links_of(nf, l) =~= links_of(ns, l));
        assert(level_ok(keys_of(ns), heights_of(ns), links_of(ns, l), ns.len() as int, l));
    }
    lemma_map_at(ns, c);
    lemma_map_set(ns, nf, c, val);
    assert(map_of(nf).dom() =~= map_of(ns).dom());
}

/// Arena `nf` is arena `ns` with another value in node `c`.
pub(super) open spec fn rewritten<K, V>(ns: Seq<Node<K, V>>, nf: Seq<Node<K, V>>, c: int) -> bool {
    &&& nf.len() == ns.len()
    &&& forall|j: int| 0 <= j < ns.len() && j != c ==> (#[trigger] nf[j]) == ns[j]
    &&& nf[c].key == ns[c].key
    &&& nf[c].tower == ns[c].tower
    &&& nf[c].val is Some
}

/// Lends out the value of node `a`; everything else stays.
pub(super) fn val_mut<K, V>(nodes: &mut Vec<Node<K, V>>, a: usize) -> (r: Option<&mut V>)
    requires
        a < old(nodes)@.len(),
        old(nodes)@[a as int].val is Some,
    ensures
        r is Some,
        *r.unwrap() == old(nodes)@[a as int].val.unwrap(),
        rewritten(old(nodes)@, final(nodes)@, a as int),
        final(nodes)@[a as int].val == Some(*final(r.unwrap())),
{
    nodes[a].val.as_mut()
}

/// Sets the link of node `a` on level `l`; everything else stays.
pub(super) fn set_link<K, V>(nodes: &mut Vec<Node<K, V>>, a: usize, l: usize, v: Option<usize>)
    requires
        a < old(nodes)@.len(),
        l < old(nodes)@[a as int].tower@.len(),
    ensures
        final(nodes)@.len() == old(nodes)@.len(),
        forall|j: int|
            0 <= j < old(nodes)@.len() && j != a ==> (#[trigger] final(nodes)@[j]) == old(nodes)@[j],
        final(nodes)@[a as int].key == old(nodes)@[a as int].key,
        final(nodes)@[a as int].val == old(nodes)@[a as int].val,
        final(nodes)@[a as int].tower@ == old(nodes)@[a as int].tower@.update(l as int, v),
{
    nodes[a].tower[l] = v;
}

/// Sets the value of node `a`; everything else stays.
pub(super) fn set_val<K, V>(nodes: &mut Vec<Node<K, V>>, a: usize, val: V)
    requires
        a < old(nodes)@.len(),
    ensures
        final(nodes)@.len() == old(nodes)@.len(),
        forall|j: int|
            0 <= j < old(nodes)@.len() && j != a ==> (#[trigger] final(nodes)@[j]) == old(nodes)@[j],
        final(nodes)@[a as int].key == old(nodes)@[a as int].key,
        final(nodes)@[a as int].val == Some(val),
        final(nodes)@[a as int].tower == old(nodes)@[a as int].tower,
{
    nodes[a].val = Some(val);
}

} // verus!
