use vstd::prelude::*;

verus! {

/// A totally ordered, cheaply duplicable element type.
///
/// The heap routines are generic over this trait: `le` is the order the
/// sorted result obeys, the three lemmas oblige every implementation to
/// prove that `le` really is a total order, `gt` is the executable strict
/// comparison the algorithm branches on, and `copy_val` supplies the value
/// semantics that let an element be read and rewritten elsewhere.
pub trait TotalOrder: Sized {
    /// `self` comes no later than `other` in the order.
    spec fn le(self, other: Self) -> bool;

    /// Any two values are comparable.
    proof fn lemma_le_total(a: Self, b: Self)
        ensures
            a.le(b) || b.le(a),
    ;

    /// The order is transitive.
    proof fn lemma_le_transitive(a: Self, b: Self, c: Self)
        requires
            a.le(b),
            b.le(c),
        ensures
            a.le(c),
    ;

    /// Strict comparison: true exactly when `self` comes strictly after `other`.
    fn gt(&self, other: &Self) -> (r: bool)
        ensures
            r == !self.le(*other),
    ;

    /// Duplicate the value without giving up the original.
    fn copy_val(&self) -> (r: Self)
        ensures
            r == *self,
    ;
}

impl TotalOrder for i32 {
    open spec fn le(self, other: Self) -> bool {
        self <= other
    }

    proof fn lemma_le_total(a: Self, b: Self) {
    }

    proof fn lemma_le_transitive(a: Self, b: Self, c: Self) {
    }

    fn gt(&self, other: &Self) -> (r: bool) {
        *self > *other
    }

    fn copy_val(&self) -> (r: Self) {
        *self
    }
}

impl TotalOrder for u64 {
    open spec fn le(self, other: Self) -> bool {
        self <= other
    }

    proof fn lemma_le_total(a: Self, b: Self) {
    }

    proof fn lemma_le_transitive(a: Self, b: Self, c: Self) {
    }

    fn gt(&self, other: &Self) -> (r: bool) {
        *self > *other
    }

    fn copy_val(&self) -> (r: Self) {
        *self
    }
}

} // verus!
