//! Keys of the map: types with a strict total order that executable code can
//! decide.

use vstd::prelude::*;

verus! {

/// A key type with a strict total order.
///
/// `precedes` is the order as contracts see it; the three lemmas make it a
/// strict total order, and `is_less` / `is_equal` decide it at run time.
pub trait OrderedKey: Sized {
    /// `self` comes strictly before `other`.
    spec fn precedes(self, other: Self) -> bool;

    /// No key comes before itself.
    proof fn lemma_irreflexive(a: Self)
        ensures
            !a.precedes(a),
    ;

    /// The order is transitive.
    proof fn lemma_transitive(a: Self, b: Self, c: Self)
        requires
            a.precedes(b),
            b.precedes(c),
        ensures
            a.precedes(c),
    ;

    /// Any two different keys are ordered one way or the other.
    proof fn lemma_total(a: Self, b: Self)
        ensures
            a.precedes(b) || b.precedes(a) || a == b,
    ;

    /// Decides `precedes`.
    fn is_less(&self, other: &Self) -> (r: bool)
        ensures
            r == self.precedes(*other),
    ;

    /// Decides equality of keys.
    fn is_equal(&self, other: &Self) -> (r: bool)
        ensures
            r == (*self == *other),
    ;
}

impl OrderedKey for u8 {
    open spec fn precedes(self, other: Self) -> bool {
        self < other
    }

    proof fn lemma_irreflexive(a: Self) {
    }

    proof fn lemma_transitive(a: Self, b: Self, c: Self) {
    }

    proof fn lemma_total(a: Self, b: Self) {
    }

    fn is_less(&self, other: &Self) -> (r: bool) {
        *self < *other
    }

    fn is_equal(&self, other: &Self) -> (r: bool) {
        *self == *other
    }
}

impl OrderedKey for u16 {
    open spec fn precedes(self, other: Self) -> bool {
        self < other
    }

    proof fn lemma_irreflexive(a: Self) {
    }

    proof fn lemma_transitive(a: Self, b: Self, c: Self) {
    }

    proof fn lemma_total(a: Self, b: Self) {
    }

    fn is_less(&self, other: &Self) -> (r: bool) {
        *self < *other
    }

    fn is_equal(&self, other: &Self) -> (r: bool) {
        *self == *other
    }
}

impl OrderedKey for u32 {
    open spec fn precedes(self, other: Self) -> bool {
        self < other
    }

    proof fn lemma_irreflexive(a: Self) {
    }

    proof fn lemma_transitive(a: Self, b: Self, c: Self) {
    }

    proof fn lemma_total(a: Self, b: Self) {
    }

    fn is_less(&self, other: &Self) -> (r: bool) {
        *self < *other
    }

    fn is_equal(&self, other: &Self) -> (r: bool) {
        *self == *other
    }
}

impl OrderedKey for u64 {
    open spec fn precedes(self, other: Self) -> bool {
        self < other
    }

    proof fn lemma_irreflexive(a: Self) {
    }

    proof fn lemma_transitive(a: Self, b: Self, c: Self) {
    }

    proof fn lemma_total(a: Self, b: Self) {
    }

    fn is_less(&self, other: &Self) -> (r: bool) {
        *self < *other
    }

    fn is_equal(&self, other: &Self) -> (r: bool) {
        *self == *other
    }
}

impl OrderedKey for usize {
    open spec fn precedes(self, other: Self) -> bool {
        self < other
    }

    proof fn lemma_irreflexive(a: Self) {
    }

    proof fn lemma_transitive(a: Self, b: Self, c: Self) {
    }

    proof fn lemma_total(a: Self, b: Self) {
    }

    fn is_less(&self, other: &Self) -> (r: bool) {
        *self < *other
    }

    fn is_equal(&self, other: &Self) -> (r: bool) {
        *self == *other
    }
}

impl OrderedKey for i8 {
    open spec fn precedes(self, other: Self) -> bool {
        self < other
    }

    proof fn lemma_irreflexive(a: Self) {
    }

    proof fn lemma_transitive(a: Self, b: Self, c: Self) {
    }

    proof fn lemma_total(a: Self, b: Self) {
    }

    fn is_less(&self, other: &Self) -> (r: bool) {
        *self < *other
    }

    fn is_equal(&self, other: &Self) -> (r: bool) {
        *self == *other
    }
}

impl OrderedKey for i16 {
    open spec fn precedes(self, other: Self) -> bool {
        self < other
    }

    proof fn lemma_irreflexive(a: Self) {
    }

    proof fn lemma_transitive(a: Self, b: Self, c: Self) {
    }

    proof fn lemma_total(a: Self, b: Self) {
    }

    fn is_less(&self, other: &Self) -> (r: bool) {
        *self < *other
    }

    fn is_equal(&self, other: &Self) -> (r: bool) {
        *self == *other
    }
}

impl OrderedKey for i32 {
    open spec fn precedes(self, other: Self) -> bool {
        self < other
    }

    proof fn lemma_irreflexive(a: Self) {
    }

    proof fn lemma_transitive(a: Self, b: Self, c: Self) {
    }

    proof fn lemma_total(a: Self, b: Self) {
    }

    fn is_less(&self, other: &Self) -> (r: bool) {
        *self < *other
    }

    fn is_equal(&self, other: &Self) -> (r: bool) {
        *self == *other
    }
}

impl OrderedKey for i64 {
    open spec fn precedes(self, other: Self) -> bool {
        self < other
    }

    proof fn lemma_irreflexive(a: Self) {
    }

    proof fn lemma_transitive(a: Self, b: Self, c: Self) {
    }

    proof fn lemma_total(a: Self, b: Self) {
    }

    fn is_less(&self, other: &Self) -> (r: bool) {
        *self < *other
    }

    fn is_equal(&self, other: &Self) -> (r: bool) {
        *self == *other
    }
}

impl OrderedKey for isize {
    open spec fn precedes(self, other: Self) -> bool {
        self < other
    }

    proof fn lemma_irreflexive(a: Self) {
    }

    proof fn lemma_transitive(a: Self, b: Self, c: Self) {
    }

    proof fn lemma_total(a: Self, b: Self) {
    }

    fn is_less(&self, other: &Self) -> (r: bool) {
        *self < *other
    }

    fn is_equal(&self, other: &Self) -> (r: bool) {
        *self == *other
    }
}

/// The order laws of `K` as quantified facts, for proofs that compare many
/// keys at once.
pub proof fn lemma_order_laws<K: OrderedKey>()
    ensures
        forall|a: K| !(#[trigger] a.precedes(a)),
        forall|a: K, b: K, c: K| #[trigger] a.precedes(b) && #[trigger] b.precedes(c) ==> a.precedes(c),
        forall|a: K, b: K| #[trigger] a.precedes(b) || b.precedes(a) || a == b,
{
    assert forall|a: K| !(#[trigger] a.precedes(a)) by {
        K::lemma_irreflexive(a);
    }
    assert forall|a: K, b: K, c: K| #[trigger] a.precedes(b) && #[trigger] b.precedes(c) implies a.precedes(c) by {
        K::lemma_transitive(a, b, c);
    }
    assert forall|a: K, b: K| #[trigger] a.precedes(b) || b.precedes(a) || a == b by {
        K::lemma_total(a, b);
    }
}

} // verus!
