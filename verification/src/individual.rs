//! The capability contract a candidate solution must satisfy.

use vstd::prelude::*;

verus! {

/// One candidate solution. The engine never looks inside an individual: it
/// only creates random ones, breeds two into a child, and mutates a child.
///
/// The three `may_*` predicates let an implementation state what its
/// operations can produce; the engine's contracts are phrased through them.
/// Each defaults to `true`, which promises nothing, so an implementation
/// only overrides the ones it has something to say about.
pub trait Individual: Sized {
    /// Whether `fresh` is a possible result of [`Individual::make_random`].
    open spec fn may_make_random(fresh: Self) -> bool {
        true
    }

    /// Whether `child` is a possible result of `self.reproduce(&other)`.
    open spec fn may_reproduce(self, other: Self, child: Self) -> bool {
        true
    }

    /// Whether `after` is a possible state of `self` once mutated.
    open spec fn may_mutate(self, after: Self) -> bool {
        true
    }

    /// Produces a new individual from the features of `self` and `other`.
    /// Neither parent is changed.
    fn reproduce(&self, other: &Self) -> (child: Self)
        ensures
            self.may_reproduce(*other, child),
    ;

    /// Produces an individual whose features are drawn at random,
    /// independently of every other individual.
    fn make_random() -> (fresh: Self)
        ensures
            Self::may_make_random(fresh),
    ;

    /// Perturbs the features of this individual in place.
    fn mutate(&mut self)
        ensures
            old(self).may_mutate(*final(self)),
    ;
}

/// Whether `child` may come of breeding `first` with `second`: some newborn
/// of the two parents, mutated once, is `child`.
pub open spec fn bred<T: Individual>(first: T, second: T, child: T) -> bool {
    exists|newborn: T| #[trigger] first.may_reproduce(second, newborn) && newborn.may_mutate(child)
}

/// Breeds a child of `first` and `second`: reproduction followed by one
/// mutation of the newborn. Every child is mutated.
pub fn breed<T: Individual>(first: &T, second: &T) -> (child: T)
    ensures
        bred(*first, *second, child),
{
    let mut child = first.reproduce(second);
    child.mutate();
    child
}

} // verus!
