//! The skip list: an arena of nodes, each with a tower of forward links, and
//! the search, lookup and insertion that walk and splice those links.

use vstd::prelude::*;
use vstd::set_lib::{lemma_int_range, set_int_range};
use crate::order::{OrderedKey, lemma_order_laws};
use crate::level::{MAX_LEVEL, rand_lvl};
use self::arena::{
    ahead, arena_ok, before, distinct, height_in, heights_of, holds, key_ahead, keys_of,
    lemma_absent, lemma_ahead_finite, lemma_ahead_shrinks, lemma_head_alone, lemma_map_at,
    lemma_map_push, lemma_overwrite, lemma_pushed, lemma_short_node, lemma_splice, lemma_walk,
    level_ok, link_ok, links_of, map_of, on_level, pred_ok, rewritten, set_link, set_val,
    shape_ok, val_mut, walk,
};

mod arena;

verus! {

/// One node of the arena: a key, a value and a tower of forward links.
///
/// A link is the arena index of the next node on that level, or `None` at the
/// end of the level's chain. The head sentinel has neither key nor value.
pub struct Node<K, V> {
    key: Option<K>,
    val: Option<V>,
    tower: Vec<Option<usize>>,
}

impl<K, V> Node<K, V> {
    /// The key, `None` for a sentinel.
    pub closed spec fn spec_key(&self) -> Option<K> {
        self.key
    }

    /// The value, `None` for a sentinel.
    pub closed spec fn spec_val(&self) -> Option<V> {
        self.val
    }

    /// The number of levels the node takes part in.
    pub closed spec fn height(&self) -> nat {
        self.tower@.len()
    }

    /// The forward link on level `l`.
    pub closed spec fn link(&self, l: int) -> Option<usize>
        recommends
            0 <= l < self.height(),
    {
        self.tower@[l]
    }

    /// A node without key and value whose tower has exactly `height` links,
    /// all of them empty.
    pub fn allocate(height: usize) -> (n: Self)
        ensures
            n.spec_key() is None,
            n.spec_val() is None,
            n.height() == height,
            forall|l: int| 0 <= l < height ==> n.link(l) is None,
    {
        let mut tower: Vec<Option<usize>> = Vec::new();
        let mut i: usize = 0;
        while i < height
            invariant
                i <= height,
                tower@.len() == i,
                forall|l: int| 0 <= l < i ==> tower@[l] is None,
            decreases height - i,
        {
            tower.push(None);
            i += 1;
        }
        Node { key: None, val: None, tower }
    }

    /// A node for `key` and `val` with `height` empty links.
    pub fn new(key: K, val: V, height: usize) -> (n: Self)
        ensures
            n.spec_key() == Some(key),
            n.spec_val() == Some(val),
            n.height() == height,
            forall|l: int| 0 <= l < height ==> n.link(l) is None,
    {
        let blank: Self = Self::allocate(height);
        let ghost empty = blank;
        let n = Node { key: Some(key), val: Some(val), tower: blank.tower };
        proof {
            assert forall|l: int| 0 <= l < height implies n.link(l) is None by {
                assert(empty.link(l) is None);
            }
        }
        n
    }

    /// A sentinel: a node of the given height that never gets a key or a
    /// value.
    pub fn new_uninit(height: usize) -> (n: Self)
        ensures
            n.spec_key() is None,
            n.spec_val() is None,
            n.height() == height,
            forall|l: int| 0 <= l < height ==> n.link(l) is None,
    {
        Self::allocate(height)
    }
    /// The number of links in the tower.
    pub fn levels(&self) -> (h: usize)
        ensures
            h == self.height(),
    {
        self.tower.len()
    }

    /// The key, if the node has one.
    pub fn key(&self) -> (k: Option<&K>)
        ensures
            k == match self.spec_key() {
                Some(key) => Some(&key),
                None => None,
            },
    {
        self.key.as_ref()
    }

    /// The value, if the node has one.
    pub fn value(&self) -> (v: Option<&V>)
        ensures
            v == match self.spec_val() {
                Some(val) => Some(&val),
                None => None,
            },
    {
        self.val.as_ref()
    }

    /// The forward link on level `l`.
    pub fn next(&self, l: usize) -> (r: Option<usize>)
        requires
            l < self.height(),
        ensures
            r == self.link(l as int),
    {
        self.tower[l]
    }
}

/// A skip list from keys to values.
///
/// `nodes` is the arena, with the head sentinel at index 0; `size` counts the
/// other nodes and `level` is the number of levels in use.
pub struct SkipList<K, V> {
    nodes: Vec<Node<K, V>>,
    size: usize,
    level: usize,
}

impl<K: OrderedKey, V> View for SkipList<K, V> {
    type V = Map<K, V>;

    closed spec fn view(&self) -> Map<K, V> {
        map_of(self.nodes@)
    }
}

impl<K: OrderedKey, V> SkipList<K, V> {
    /// The invariant of the list: the arena is well shaped, keys are
    /// distinct, every level's links lead from each node to the next node of
    /// that level in key order, no node is taller than the level of the
    /// list, and the size is the number of keys.
    pub closed spec fn wf(&self) -> bool {
        arena_ok(self.nodes@, self.size, self.level)
    }

    /// The height of the tower of the node that holds `key`.
    pub closed spec fn tower_height(&self, key: K) -> nat {
        height_in(self.nodes@, key)
    }

    /// The number of levels in use: no node is taller.
    pub closed spec fn spec_level(&self) -> nat {
        self.level as nat
    }

    /// The keys of the chain of level `l`, in the order in which a walk from
    /// the head along the links of that level meets them.
    pub closed spec fn chain_at(&self, l: int) -> Seq<K> {
        walk(self.nodes@, l, self.nodes@[0].tower@[l], self.size as nat)
    }

    /// The keys of the level-0 chain, in the order in which a walk from the
    /// head meets them.
    pub open spec fn chain(&self) -> Seq<K> {
        self.chain_at(0)
    }

    /// The level-0 chain of a list holds the keys of the list, each once, in
    /// strictly increasing order.
    pub proof fn lemma_chain_ascending(&self)
        requires
            self.wf(),
        ensures
            self.chain().len() == self@.len(),
            forall|k: K| self.chain().contains(k) <==> self@.contains_key(k),
            forall|i: int, j: int|
                0 <= i < j < self.chain().len() ==> (#[trigger] self.chain()[i]).precedes(
                    #[trigger] self.chain()[j],
                ),
    {
        let ns = self.nodes@;
        let ks = keys_of(ns);
        let hs = heights_of(ns);
        let w = self.chain();
        lemma_ahead_finite(ks, hs, 0, 0);
        assert(level_ok(ks, hs, links_of(ns, 0), ns.len() as int, 0));
        lemma_walk(ns, 0, 0, self.size as nat);
        assert(ahead(ks, hs, 0, 0) =~= set_int_range(1, ns.len() as int)) by {
            assert forall|p: int| 1 <= p < ns.len() implies ahead(ks, hs, 0, 0).contains(p) by {
                assert(ns[p].key is Some);
            }
        }
        lemma_int_range(1, ns.len() as int);
        assert forall|k: K| w.contains(k) <==> self@.contains_key(k) by {
            if w.contains(k) {
                let i = choose|i: int| 0 <= i < w.len() && w[i] == k;
                assert(key_ahead(ks, hs, 0, 0, w[i]));
                let p = choose|p: int|
                    ahead(ks, hs, 0, 0).contains(p) && #[trigger] ks[p] == Some(k);
                assert(holds(ns, p, k));
            }
            if self@.contains_key(k) {
                let p = choose|p: int| holds(ns, p, k);
                assert(ahead(ks, hs, 0, 0).contains(p));
            }
        }
    }

    /// A list holds finitely many keys.
    pub proof fn lemma_finite(&self)
        requires
            self.wf(),
        ensures
            self@.dom().finite(),
    {
    }

    /// The tower of every key of a list has at least one link and no more
    /// links than the list has levels in use, which are at most `MAX_LEVEL`.
    pub proof fn lemma_heights_in_range(&self, key: K)
        requires
            self.wf(),
            self@.contains_key(key),
        ensures
            1 <= self.tower_height(key) <= self.spec_level() <= MAX_LEVEL,
    {
        let p = choose|p: int| holds(self.nodes@, p, key);
        lemma_map_at(self.nodes@, p);
        assert(self.nodes@[p].tower@.len() <= self.level);
    }

    /// The chain of level `l` is in strictly increasing key order and holds
    /// exactly the keys of the list whose towers are taller than `l`, so
    /// every key on it is on the chain of the level below as well. From the
    /// level of the list upwards the chains are empty.
    pub proof fn lemma_level_chains(&self, l: int)
        requires
            self.wf(),
            0 <= l < MAX_LEVEL,
        ensures
            forall|i: int, j: int|
                0 <= i < j < self.chain_at(l).len() ==> (#[trigger] self.chain_at(l)[i]).precedes(
                    #[trigger] self.chain_at(l)[j],
                ),
            forall|k: K| #[trigger]
                self.chain_at(l).contains(k) <==> self@.contains_key(k) && self.tower_height(k) > l,
            l > 0 ==> forall|k: K| #[trigger]
                self.chain_at(l).contains(k) ==> self.chain_at(l - 1).contains(k),
            l >= self.spec_level() ==> self.chain_at(l).len() == 0,
    {
        let ns = self.nodes@;
        let ks = keys_of(ns);
        let hs = heights_of(ns);
        let w = self.chain_at(l);
        lemma_ahead_finite(ks, hs, l, 0);
        assert(level_ok(ks, hs, links_of(ns, l), ns.len() as int, l));
        lemma_walk(ns, l, 0, self.size as nat);
        assert forall|k: K| self@.contains_key(k) && self.tower_height(k) > l implies #[trigger]
            w.contains(k) by {
            let p = choose|p: int| holds(ns, p, k);
            lemma_map_at(ns, p);
            assert(ahead(ks, hs, l, 0).contains(p));
        }
        assert forall|k: K| #[trigger] w.contains(k) implies self@.contains_key(k)
            && self.tower_height(k) > l && (l > 0 ==> self.chain_at(l - 1).contains(k)) by {
            let i = choose|i: int| 0 <= i < w.len() && w[i] == k;
            assert(key_ahead(ks, hs, l, 0, w[i]));
            let p = choose|p: int| ahead(ks, hs, l, 0).contains(p) && #[trigger] ks[p] == Some(k);
            assert(holds(ns, p, k));
            lemma_map_at(ns, p);
            if l > 0 {
                lemma_ahead_finite(ks, hs, l - 1, 0);
                assert(level_ok(ks, hs, links_of(ns, l - 1), ns.len() as int, l - 1));
                lemma_walk(ns, l - 1, 0, self.size as nat);
                assert(ahead(ks, hs, l - 1, 0).contains(p));
            }
        }
        if l >= self.level {
            assert forall|p: int| !ahead(ks, hs, l, 0).contains(p) by {
                if 1 <= p < ns.len() {
                    assert(ns[p].tower@.len() <= self.level);
                }
            }
            assert(ahead(ks, hs, l, 0) =~= Set::<int>::empty());
        }
    }

    /// An empty list: no key, one level in use, and nothing on the chain of
    /// any level.
    pub fn new() -> (s: Self)
        ensures
            s.wf(),
            s@ == Map::<K, V>::empty(),
            s.spec_level() == 1,
            forall|l: int| 0 <= l < MAX_LEVEL ==> (#[trigger] s.chain_at(l)).len() == 0,
    {
        let head: Node<K, V> = Node::new_uninit(MAX_LEVEL);
        let ghost sentinel = head;
        let mut nodes: Vec<Node<K, V>> = Vec::new();
        nodes.push(head);
        let s = Self { nodes, size: 0, level: 1 };
        proof {
            let ns = s.nodes@;
            assert forall|l: int| 0 <= l < MAX_LEVEL implies #[trigger] level_ok(
                keys_of(ns),
                heights_of(ns),
                links_of(ns, l),
                ns.len() as int,
                l,
            ) by {
                assert(ns[0] == sentinel);
                assert(sentinel.link(l) is None);
                assert(link_ok(keys_of(ns), heights_of(ns), links_of(ns, l), 1, l, 0));
            }
            assert(s@ =~= Map::<K, V>::empty());
        }
        s
    }

    /// The number of levels in use.
    pub fn level(&self) -> (l: usize)
        requires
            self.wf(),
        ensures
            l == self.spec_level(),
            1 <= l <= MAX_LEVEL,
    {
        self.level
    }

    /// The number of keys in the list.
    pub fn len(&self) -> (n: usize)
        requires
            self.wf(),
        ensures
            n == self@.len(),
            self@.dom().finite(),
    {
        self.size
    }

    /// Walks the levels from the top down and records in `update`, for each
    /// level in use, the last node that stands before `key`. Returns the
    /// level-0 successor of the last of them: the first node whose key does
    /// not precede `key`, if there is one.
    fn find_gt_or_eq_node(&self, key: &K, update: &mut Vec<Option<usize>>) -> (r: Option<usize>)
        requires
            self.wf(),
            old(update)@.len() == MAX_LEVEL,
        ensures
            final(update)@.len() == MAX_LEVEL,
            forall|l: int|
                0 <= l < self.level ==> {
                    &&& (#[trigger] final(update)@[l]) is Some
                    &&& pred_ok(
                        keys_of(self.nodes@),
                        heights_of(self.nodes@),
                        self.nodes@.len() as int,
                        l,
                        final(update)@[l].unwrap() as int,
                        *key,
                    )
                },
            forall|l: int| self.level <= l < MAX_LEVEL ==> final(update)@[l] == old(update)@[l],
            r == links_of(self.nodes@, 0)[final(update)@[0].unwrap() as int],
            match r {
                Some(c) => {
                    &&& 1 <= c < self.nodes@.len()
                    &&& !self.nodes@[c as int].key.unwrap().precedes(*key)
                    &&& forall|p: int|
                        1 <= p < self.nodes@.len() && !(#[trigger] self.nodes@[p]).key.unwrap().precedes(
                            *key,
                        ) ==> !self.nodes@[p].key.unwrap().precedes(
                            self.nodes@[c as int].key.unwrap(),
                        )
                },
                None => forall|p: int|
                    1 <= p < self.nodes@.len() ==> (#[trigger] self.nodes@[p]).key.unwrap().precedes(
                        *key,
                    ),
            },
    {
        let ghost ks = keys_of(self.nodes@);
        let ghost hs = heights_of(self.nodes@);
        let ghost n = self.nodes@.len() as int;
        let mut x: usize = 0;
        let mut i: usize = self.level;
        proof {
            lemma_order_laws::<K>();
        }
        while i > 0
            invariant
                self.wf(),
                ks == keys_of(self.nodes@),
                hs == heights_of(self.nodes@),
                n == self.nodes@.len(),
                i <= self.level,
                update@.len() == MAX_LEVEL,
                x < n,
                i <= hs[x as int],
                x == 0 || ks[x as int].unwrap().precedes(*key),
                forall|l: int|
                    i <= l < self.level ==> {
                        &&& (#[trigger] update@[l]) is Some
                        &&& pred_ok(ks, hs, n, l, update@[l].unwrap() as int, *key)
                    },
                forall|l: int| self.level <= l < MAX_LEVEL ==> update@[l] == old(update)@[l],
                i < self.level ==> update@[i as int] == Some(x),
            decreases i,
        {
            i = i - 1;
            let mut moving: bool = true;
            while moving
                invariant
                    self.wf(),
                    ks == keys_of(self.nodes@),
                    hs == heights_of(self.nodes@),
                    n == self.nodes@.len(),
                    i < self.level,
                    x < n,
                    i < hs[x as int],
                    x == 0 || ks[x as int].unwrap().precedes(*key),
                    !moving ==> pred_ok(ks, hs, n, i as int, x as int, *key),
                decreases ahead(ks, hs, i as int, x as int).len() + if moving { 1int } else { 0int },
            {
                let nxt: Option<usize> = self.nodes[x].tower[i];
                proof {
                    lemma_order_laws::<K>();
                    assert(level_ok(ks, hs, links_of(self.nodes@, i as int), n, i as int));
                    assert(link_ok(ks, hs, links_of(self.nodes@, i as int), n, i as int, x as int));
                    assert(links_of(self.nodes@, i as int)[x as int] == nxt);
                }
                match nxt {
                    Some(m) => {
                        assert(on_level(hs, n, i as int, m as int));
                        assert(self.nodes@[m as int].key is Some);
                        let less: bool = match &self.nodes[m].key {
                            Some(k) => k.is_less(key),
                            None => false,
                        };
                        if less {
                            proof {
                                lemma_ahead_shrinks(ks, hs, i as int, x as int, m as int);
                            }
                            x = m;
                        } else {
                            moving = false;
                        }
                    },
                    None => {
                        moving = false;
                    },
                }
            }
            update[i] = Some(x);
        }
        let r: Option<usize> = self.nodes[x].tower[0];
        proof {
            assert(level_ok(ks, hs, links_of(self.nodes@, 0), n, 0));
            assert(link_ok(ks, hs, links_of(self.nodes@, 0), n, 0, x as int));
            assert(pred_ok(ks, hs, n, 0, x as int, *key));
            if let Some(c) = r {
                assert(on_level(hs, n, 0, c as int));
                assert(self.nodes@[c as int].key is Some);
            }
            assert forall|p: int| 1 <= p < n implies {
                &&& on_level(hs, n, 0, p)
                &&& before(ks, x as int, p) == (x == 0 || ks[x as int].unwrap().precedes(
                    (#[trigger] self.nodes@[p]).key.unwrap(),
                ))
            } by {
                assert(self.nodes@[p].key is Some);
            }
        }
        r
    }

    /// The keys of the list in the order of the level-0 chain: one walk from
    /// the head's successor to the end of the chain. They are all the keys
    /// of the list, in strictly increasing order.
    pub fn keys(&self) -> (r: Vec<&K>)
        requires
            self.wf(),
        ensures
            r@.len() == self.chain().len(),
            forall|i: int| 0 <= i < r@.len() ==> *(#[trigger] r@[i]) == self.chain()[i],
            r@.len() == self@.len(),
            forall|i: int| 0 <= i < r@.len() ==> self@.contains_key(*(#[trigger] r@[i])),
            forall|i: int, j: int|
                0 <= i < j < r@.len() ==> (*(#[trigger] r@[i])).precedes(*(#[trigger] r@[j])),
    {
        proof {
            self.lemma_chain_ascending();
            assert forall|i: int| 0 <= i < self.chain().len() implies self@.contains_key(
                #[trigger] self.chain()[i],
            ) by {
                assert(self.chain().contains(self.chain()[i]));
            }
        }
        let ghost ns = self.nodes@;
        let ghost ks = keys_of(ns);
        let ghost hs = heights_of(ns);
        let ghost n = ns.len() as int;
        let mut out: Vec<&K> = Vec::new();
        let mut cur: Option<usize> = self.nodes[0].tower[0];
        let mut left: usize = self.size;
        let ghost x: int = 0;
        while left > 0 && cur.is_some()
            invariant
                self.wf(),
                ns == self.nodes@,
                ks == keys_of(ns),
                hs == heights_of(ns),
                n == ns.len(),
                0 <= x < n,
                cur == ns[x].tower@[0],
                out@.len() + walk(ns, 0, cur, left as nat).len() == self.chain().len(),
                forall|i: int| 0 <= i < out@.len() ==> *(#[trigger] out@[i]) == self.chain()[i],
                forall|i: int|
                    0 <= i < walk(ns, 0, cur, left as nat).len() ==> (#[trigger] walk(
                        ns,
                        0,
                        cur,
                        left as nat,
                    )[i]) == self.chain()[out@.len() + i],
            decreases left,
        {
            let c: usize = cur.unwrap();
            proof {
                assert(level_ok(ks, hs, links_of(ns, 0), n, 0));
                assert(hs[x] == ns[x].tower@.len());
                assert(link_ok(ks, hs, links_of(ns, 0), n, 0, x));
                assert(links_of(ns, 0)[x] == cur);
                assert(on_level(hs, n, 0, c as int));
                assert(ns[c as int].key is Some);
                x = c as int;
            }
            let ghost w = walk(ns, 0, cur, left as nat);
            let ghost rest = walk(ns, 0, ns[c as int].tower@[0], (left - 1) as nat);
            assert(w == seq![ns[c as int].key.unwrap()] + rest);
            assert(w[0] == ns[c as int].key.unwrap());
            assert forall|i: int| 0 <= i < rest.len() implies #[trigger] rest[i] == self.chain()[out@.len()
                + 1 + i] by {
                assert(w[i + 1] == rest[i]);
            }
            match &self.nodes[c].key {
                Some(k) => {
                    out.push(k);
                },
                None => {},
            }
            cur = self.nodes[c].tower[0];
            left = left - 1;
        }
        out
    }

    /// Searches for `key`: fills `update` as `find_gt_or_eq_node` does and
    /// returns the node that holds `key`, if one does.
    fn locate(&self, key: &K, update: &mut Vec<Option<usize>>) -> (r: Option<usize>)
        requires
            self.wf(),
            old(update)@.len() == MAX_LEVEL,
        ensures
            final(update)@.len() == MAX_LEVEL,
            forall|l: int|
                0 <= l < self.level ==> {
                    &&& (#[trigger] final(update)@[l]) is Some
                    &&& pred_ok(
                        keys_of(self.nodes@),
                        heights_of(self.nodes@),
                        self.nodes@.len() as int,
                        l,
                        final(update)@[l].unwrap() as int,
                        *key,
                    )
                },
            match r {
                Some(c) => holds(self.nodes@, c as int, *key),
                None => forall|i: int| !holds(self.nodes@, i, *key),
            },
            r is Some <==> self@.contains_key(*key),
    {
        let found: Option<usize> = self.find_gt_or_eq_node(key, update);
        if let Some(c) = found {
            let hit: bool = match &self.nodes[c].key {
                Some(k) => k.is_equal(key),
                None => false,
            };
            if hit {
                proof {
                    lemma_map_at(self.nodes@, c as int);
                }
                return Some(c);
            }
        }
        proof {
            lemma_absent(self.nodes@, update@[0].unwrap() as int, *key);
        }
        None
    }

    /// The value stored for `key`, if the list holds the key.
    pub fn get(&self, key: &K) -> (r: Option<&V>)
        requires
            self.wf(),
        ensures
            r == if self@.contains_key(*key) {
                Some(&self@[*key])
            } else {
                None
            },
    {
        let mut update: Vec<Option<usize>> = empty_path();
        match self.locate(key, &mut update) {
            Some(c) => {
                proof {
                    lemma_map_at(self.nodes@, c as int);
                }
                self.nodes[c].val.as_ref()
            },
            None => None,
        }
    }

    /// The value stored for `key`, for the caller to read and to change, if
    /// the list holds the key. What the caller leaves there is the key's
    /// value afterwards; nothing else changes.
    pub fn get_mut(&mut self, key: &K) -> (r: Option<&mut V>)
        requires
            old(self).wf(),
        ensures
            final(self).wf(),
            final(self).spec_level() == old(self).spec_level(),
            forall|q: K| #[trigger]
                old(self)@.contains_key(q) ==> final(self).tower_height(q) == old(self).tower_height(
                    q,
                ),
            match r {
                Some(v) => {
                    &&& old(self)@.contains_key(*key)
                    &&& *v == old(self)@[*key]
                    &&& final(self)@ == old(self)@.insert(*key, *final(v))
                },
                None => !old(self)@.contains_key(*key) && final(self)@ == old(self)@,
            },
    {
        let mut update: Vec<Option<usize>> = empty_path();
        match self.locate(key, &mut update) {
            Some(c) => {
                let ghost ns = self.nodes@;
                proof {
                    lemma_map_at(ns, c as int);
                }
                proof {
                    assert forall|nf: Seq<Node<K, V>>| #[trigger]
                        rewritten(ns, nf, c as int) implies {
                        &&& arena_ok(nf, self.size, self.level)
                        &&& map_of(nf) == map_of(ns).insert(*key, nf[c as int].val.unwrap())
                        &&& forall|q: K| #[trigger]
                            map_of(ns).contains_key(q) ==> height_in(nf, q) == height_in(ns, q)
                    } by {
                        lemma_overwrite(
                            ns,
                            nf,
                            c as int,
                            nf[c as int].val.unwrap(),
                            self.size,
                            self.level,
                        );
                    }
                }
                let r: Option<&mut V> = val_mut(&mut self.nodes, c);
                r
            },
            None => None,
        }
    }

    /// Puts `val` into node `c` in place of the value it holds.
    fn overwrite(&mut self, c: usize, val: V)
        requires
            old(self).wf(),
            1 <= c < old(self).nodes@.len(),
        ensures
            final(self).wf(),
            final(self)@ == old(self)@.insert(old(self).nodes@[c as int].key.unwrap(), val),
            final(self).level == old(self).level,
            forall|q: K| #[trigger]
                old(self)@.contains_key(q) ==> final(self).tower_height(q) == old(self).tower_height(
                    q,
                ),
    {
        let ghost ns = self.nodes@;
        set_val(&mut self.nodes, c, val);
        proof {
            lemma_overwrite(ns, self.nodes@, c as int, val, self.size, self.level);
        }
    }

    /// Links a new node for `key` of the given height into the list, behind
    /// the predecessors that a search for `key` recorded in `update`.
    fn link_new(&mut self, key: K, val: V, height: usize, update: Vec<Option<usize>>)
        requires
            old(self).wf(),
            1 <= height <= MAX_LEVEL,
            update@.len() == MAX_LEVEL,
            forall|i: int| !holds(old(self).nodes@, i, key),
            forall|l: int|
                0 <= l < old(self).level ==> {
                    &&& (#[trigger] update@[l]) is Some
                    &&& pred_ok(
                        keys_of(old(self).nodes@),
                        heights_of(old(self).nodes@),
                        old(self).nodes@.len() as int,
                        l,
                        update@[l].unwrap() as int,
                        key,
                    )
                },
        ensures
            final(self).wf(),
            final(self)@ == old(self)@.insert(key, val),
            final(self).level == if height > old(self).level {
                height
            } else {
                old(self).level
            },
            final(self).tower_height(key) == height,
            forall|q: K| #[trigger]
                old(self)@.contains_key(q) ==> final(self).tower_height(q) == old(self).tower_height(
                    q,
                ),
    {
        let mut update = update;
        let ghost ns0 = self.nodes@;
        let ghost ks0 = keys_of(ns0);
        let ghost hs0 = heights_of(ns0);
        let ghost n = ns0.len() as int;
        let ghost old_level = self.level;
        if height > self.level {
            let mut i: usize = self.level;
            while i < height
                invariant
                    old_level <= i <= height <= MAX_LEVEL,
                    update@.len() == MAX_LEVEL,
                    forall|l: int|
                        0 <= l < i ==> {
                            &&& (#[trigger] update@[l]) is Some
                            &&& pred_ok(ks0, hs0, n, l, update@[l].unwrap() as int, key)
                        },
                    1 <= n == hs0.len(),
                    hs0[0] == MAX_LEVEL,
                    forall|j: int| 1 <= j < n ==> (#[trigger] hs0[j]) <= old_level,
                decreases height - i,
            {
                proof {
                    lemma_head_alone(ks0, hs0, n, i as int, key);
                }
                update[i] = Some(0);
                i += 1;
            }
            self.level = height;
        }
        let node: Node<K, V> = Node::new(key, val, height);
        let ghost fresh = node;
        self.nodes.push(node);
        let idx: usize = self.nodes.len() - 1;
        let ghost ns1 = self.nodes@;
        let ghost ks1 = ks0.push(Some(key));
        let ghost hs1 = hs0.push(height as nat);
        proof {
            assert(keys_of(ns1) =~= ks1);
            assert(heights_of(ns1) =~= hs1);
            assert forall|l: int| 0 <= l < MAX_LEVEL implies #[trigger] level_ok(
                ks1,
                hs1,
                links_of(ns1, l),
                n,
                l,
            ) by {
                let e = if l < height {
                    fresh.tower@[l]
                } else {
                    None
                };
                assert(links_of(ns1, l) =~= links_of(ns0, l).push(e));
                assert(level_ok(ks0, hs0, links_of(ns0, l), n, l));
                lemma_pushed(ks0, hs0, links_of(ns0, l), Some(key), height as nat, e, l);
            }
            assert forall|l: int| 0 <= l < height implies pred_ok(
                ks1,
                hs1,
                n,
                l,
                (#[trigger] update@[l]).unwrap() as int,
                key,
            ) by {
                lemma_pushed(ks0, hs0, links_of(ns0, l), Some(key), height as nat, None, l);
                assert(pred_ok(ks0, hs0, n, l, update@[l].unwrap() as int, key));
            }
            assert forall|i: int| 1 <= i < n implies (#[trigger] ks1[i]) is Some && ks1[i] != Some(
                key,
            ) by {
                assert(!holds(ns0, i, key));
                assert(ns0[i].key is Some);
            }
            assert(distinct(ks1)) by {
                assert forall|i: int, j: int| 1 <= i < j < ks1.len() implies #[trigger] ks1[i]
                    != #[trigger] ks1[j] by {
                    if j < n {
                        assert(ks0[i] != ks0[j]);
                    }
                }
            }
        }
        let mut i: usize = 0;
        while i < height
            invariant
                i <= height <= MAX_LEVEL,
                1 <= n < usize::MAX,
                idx == n,
                self.nodes@.len() == n + 1,
                self.size + 1 == n,
                self.level == if height > old_level {
                    height
                } else {
                    old_level
                },
                ns1.len() == n + 1,
                ks1.len() == n + 1,
                hs1.len() == n + 1,
                hs1[n] == height,
                ks1[n] == Some(key),
                keys_of(self.nodes@) == ks1,
                heights_of(self.nodes@) == hs1,
                forall|j: int| 0 <= j <= n ==> (#[trigger] self.nodes@[j]).val == ns1[j].val,
                distinct(ks1),
                forall|i: int| 1 <= i < n ==> (#[trigger] ks1[i]) is Some && ks1[i] != Some(key),
                update@.len() == MAX_LEVEL,
                forall|l: int|
                    0 <= l < height ==> {
                        &&& (#[trigger] update@[l]) is Some
                        &&& pred_ok(ks1, hs1, n, l, update@[l].unwrap() as int, key)
                    },
                forall|l: int|
                    0 <= l < i ==> #[trigger] level_ok(ks1, hs1, links_of(self.nodes@, l), n + 1, l),
                forall|l: int|
                    i <= l < MAX_LEVEL ==> #[trigger] level_ok(
                        ks1,
                        hs1,
                        links_of(self.nodes@, l),
                        n,
                        l,
                    ),
            decreases height - i,
        {
            let ghost cur = self.nodes@;
            assert(update@[i as int] is Some);
            let p: usize = update[i].unwrap();
            assert(pred_ok(ks1, hs1, n, i as int, p as int, key));
            assert(heights_of(cur)[p as int] == cur[p as int].tower@.len());
            assert(heights_of(cur)[n] == cur[n].tower@.len());
            let nxt: Option<usize> = self.nodes[p].tower[i];
            set_link(&mut self.nodes, idx, i, nxt);
            let ghost mid = self.nodes@;
            set_link(&mut self.nodes, p, i, Some(idx));
            proof {
                let now = self.nodes@;
                assert(keys_of(now) =~= ks1);
                assert(heights_of(now) =~= hs1);
                assert(links_of(now, i as int) =~= links_of(cur, i as int).update(
                    n,
                    links_of(cur, i as int)[p as int],
                ).update(p as int, Some(idx)));
                assert(level_ok(ks1, hs1, links_of(cur, i as int), n, i as int));
                lemma_splice(
                    ks1,
                    hs1,
                    links_of(cur, i as int),
                    links_of(now, i as int),
                    n,
                    i as int,
                    p as int,
                    key,
                );
                assert forall|l: int| 0 <= l < MAX_LEVEL && l != i implies links_of(now, l)
                    == links_of(cur, l) by {
                    assert(links_of(now, l) =~= links_of(cur, l));
                }
                assert forall|l: int| 0 <= l < i + 1 implies #[trigger] level_ok(
                    ks1,
                    hs1,
                    links_of(now, l),
                    n + 1,
                    l,
                ) by {
                    if l < i {
                        assert(level_ok(ks1, hs1, links_of(cur, l), n + 1, l));
                    }
                }
                assert forall|l: int| i + 1 <= l < MAX_LEVEL implies #[trigger] level_ok(
                    ks1,
                    hs1,
                    links_of(now, l),
                    n,
                    l,
                ) by {
                    assert(level_ok(ks1, hs1, links_of(cur, l), n, l));
                }
            }
            i += 1;
        }
        self.size += 1;
        proof {
            let nf = self.nodes@;
            assert forall|l: int| 0 <= l < MAX_LEVEL implies #[trigger] level_ok(
                keys_of(nf),
                heights_of(nf),
                links_of(nf, l),
                nf.len() as int,
                l,
            ) by {
                if l >= height {
                    assert(level_ok(ks1, hs1, links_of(nf, l), n, l));
                    lemma_short_node(ks1, hs1, links_of(nf, l), n, l);
                } else {
                    assert(level_ok(ks1, hs1, links_of(nf, l), n + 1, l));
                }
            }
            assert(shape_ok(nf)) by {
                assert forall|j: int| 1 <= j < nf.len() implies {
                    &&& (#[trigger] nf[j]).key is Some
                    &&& nf[j].val is Some
                    &&& 1 <= nf[j].tower@.len() <= MAX_LEVEL
                } by {
                    assert(keys_of(nf)[j] == nf[j].key);
                    assert(heights_of(nf)[j] == nf[j].tower@.len());
                    assert(nf[j].val == ns1[j].val);
                    if j < n {
                        assert(ns1[j] == ns0[j]);
                        assert(ns0[j].key is Some);
                        assert(hs0[j] == ns0[j].tower@.len());
                    }
                }
                assert(heights_of(nf)[0] == nf[0].tower@.len());
                assert(hs0[0] == ns0[0].tower@.len());
            }
            assert forall|j: int| 1 <= j < nf.len() implies (#[trigger] nf[j]).tower@.len()
                <= self.level by {
                assert(heights_of(nf)[j] == nf[j].tower@.len());
                if j < n {
                    assert(hs0[j] == ns0[j].tower@.len());
                }
            }
            assert forall|j: int| 0 <= j < n implies {
                &&& (#[trigger] nf[j]).key == ns0[j].key
                &&& nf[j].val == ns0[j].val
                &&& nf[j].tower@.len() == ns0[j].tower@.len()
            } by {
                assert(keys_of(nf)[j] == nf[j].key);
                assert(ks0[j] == ns0[j].key);
                assert(heights_of(nf)[j] == nf[j].tower@.len());
                assert(hs0[j] == ns0[j].tower@.len());
                assert(ns1[j] == ns0[j]);
            }
            assert(heights_of(nf)[n] == nf[n].tower@.len());
            assert(keys_of(nf)[n] == nf[n].key);
            assert(nf[n].val == ns1[n].val);
            lemma_map_push(ns0, nf, key, val);
            assert(!map_of(ns0).dom().contains(key));
        }
    }

    /// Upsert with a given tower height: stores `val` under `key`, in place
    /// if the list holds the key, else in a new node whose tower has
    /// `height` links. The level of the list rises to `height` if a new node
    /// is taller than every node before it, and never falls.
    pub fn insert_with_height(&mut self, key: K, val: V, height: usize)
        requires
            old(self).wf(),
            1 <= height <= MAX_LEVEL,
        ensures
            final(self).wf(),
            final(self)@ == old(self)@.insert(key, val),
            final(self).spec_level() == if !old(self)@.contains_key(key) && height > old(
                self,
            ).spec_level() {
                height as nat
            } else {
                old(self).spec_level()
            },
            !old(self)@.contains_key(key) ==> final(self).tower_height(key) == height,
            forall|q: K| #[trigger]
                old(self)@.contains_key(q) ==> final(self).tower_height(q) == old(self).tower_height(
                    q,
                ),
    {
        let mut update: Vec<Option<usize>> = empty_path();
        match self.locate(&key, &mut update) {
            Some(c) => {
                self.overwrite(c, val);
            },
            None => {
                self.link_new(key, val, height, update);
            },
        }
    }

    /// Upsert: stores `val` under `key`, in place of the value that the key
    /// had if the list holds it, else in a new node whose height is drawn at
    /// random. No other key changes, and the level of the list never falls.
    pub fn insert(&mut self, key: K, val: V)
        requires
            old(self).wf(),
        ensures
            final(self).wf(),
            final(self)@ == old(self)@.insert(key, val),
            final(self).spec_level() >= old(self).spec_level(),
            old(self)@.contains_key(key) ==> final(self).spec_level() == old(self).spec_level(),
            !old(self)@.contains_key(key) ==> {
                &&& 1 <= final(self).tower_height(key) <= MAX_LEVEL
                &&& final(self).spec_level() == if final(self).tower_height(key) > old(
                    self,
                ).spec_level() {
                    final(self).tower_height(key)
                } else {
                    old(self).spec_level()
                }
            },
            forall|q: K| #[trigger]
                old(self)@.contains_key(q) ==> final(self).tower_height(q) == old(self).tower_height(
                    q,
                ),
    {
        let mut update: Vec<Option<usize>> = empty_path();
        match self.locate(&key, &mut update) {
            Some(c) => {
                self.overwrite(c, val);
            },
            None => {
                let height: usize = rand_lvl();
                self.link_new(key, val, height, update);
            },
        }
    }
}

/// A search path with no predecessor recorded on any level.
fn empty_path() -> (update: Vec<Option<usize>>)
    ensures
        update@.len() == MAX_LEVEL,
        forall|l: int| 0 <= l < MAX_LEVEL ==> update@[l] is None,
{
    let mut update: Vec<Option<usize>> = Vec::new();
    let mut i: usize = 0;
    while i < MAX_LEVEL
        invariant
            i <= MAX_LEVEL,
            update@.len() == i,
            forall|l: int| 0 <= l < i ==> update@[l] is None,
        decreases MAX_LEVEL - i,
    {
        update.push(None);
        i += 1;
    }
    update
}

} // verus!
