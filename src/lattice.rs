use vstd::prelude::*;

verus! {

/// A join-semilattice whose values can also be intersected.
///
/// `join` is commutative, associative and idempotent; `meet` is only
/// required to be computable.
pub trait Semilattice: Sized + Copy {
    spec fn spec_join(self, other: Self) -> Self;

    spec fn spec_meet(self, other: Self) -> Self;

    fn join(&self, other: &Self) -> (r: Self)
        ensures
            r == self.spec_join(*other),
    ;

    fn meet(&self, other: &Self) -> (r: Self)
        ensures
            r == self.spec_meet(*other),
    ;

    fn same(&self, other: &Self) -> (r: bool)
        ensures
            r == (*self == *other),
    ;

    proof fn lemma_join_commutative(a: Self, b: Self)
        ensures
            a.spec_join(b) == b.spec_join(a),
    ;

    proof fn lemma_join_associative(a: Self, b: Self, c: Self)
        ensures
            a.spec_join(b).spec_join(c) == a.spec_join(b.spec_join(c)),
    ;

    proof fn lemma_join_idempotent(a: Self)
        ensures
            a.spec_join(a) == a,
    ;
}

impl Semilattice for u8 {
    open spec fn spec_join(self, other: u8) -> u8 {
        self | other
    }

    open spec fn spec_meet(self, other: u8) -> u8 {
        self & other
    }

    fn join(&self, other: &u8) -> (r: u8) {
        *self | *other
    }

    fn meet(&self, other: &u8) -> (r: u8) {
        *self & *other
    }

    fn same(&self, other: &u8) -> (r: bool) {
        *self == *other
    }

    proof fn lemma_join_commutative(a: u8, b: u8) {
        assert(a | b == b | a) by (bit_vector);
    }

    proof fn lemma_join_associative(a: u8, b: u8, c: u8) {
        assert((a | b) | c == a | (b | c)) by (bit_vector);
    }

    proof fn lemma_join_idempotent(a: u8) {
        assert(a | a == a) by (bit_vector);
    }
}

/// A predicate on lattice values that a join satisfies exactly when one of
/// its operands does; this is what lets a search skip whole subtrees.
pub trait Condition<T: Semilattice> {
    spec fn accepts(&self, x: T) -> bool;

    fn test(&self, x: &T) -> (r: bool)
        ensures
            r == self.accepts(*x),
    ;

    proof fn lemma_accepts_join(&self, a: T, b: T)
        ensures
            self.accepts(a.spec_join(b)) == (self.accepts(a) || self.accepts(b)),
    ;
}

/// Accepts every value other than zero.
pub struct NonZero;

impl Condition<u8> for NonZero {
    open spec fn accepts(&self, x: u8) -> bool {
        x != 0
    }

    fn test(&self, x: &u8) -> (r: bool) {
        *x != 0
    }

    proof fn lemma_accepts_join(&self, a: u8, b: u8) {
        assert((a | b != 0) == (a != 0 || b != 0)) by (bit_vector);
    }
}

} // verus!
