//! The population of one training run and the steps of a generation.

use vstd::prelude::*;
use crate::individual::{breed, bred, Individual};
use crate::ranking::{
    is_ranked, lemma_ranked_fixes_ranked, lemma_ranked_is_ranked, lemma_ranked_permutes,
    rank_members, ranked,
};
use crate::selection::{breeding_pair, elite_count, elite_size, parents_of};

verus! {

/// `s` is a newly drawn population of `n` members: every individual is a
/// possible result of [`Individual::make_random`] and every score is zero.
pub open spec fn is_fresh<T: Individual>(s: Seq<(T, u64)>, n: nat) -> bool {
    &&& s.len() == n
    &&& forall|i: int| 0 <= i < s.len() ==> T::may_make_random((#[trigger] s[i]).0) && s[i].1 == 0
}

/// `after` holds the individuals of `before`, in the same order, each with
/// a score that `loss` may return for it.
pub open spec fn scored<T, F: Fn(&T) -> u64>(
    loss: F,
    before: Seq<(T, u64)>,
    after: Seq<(T, u64)>,
) -> bool {
    &&& after.len() == before.len()
    &&& forall|i: int|
        0 <= i < before.len() ==> (#[trigger] after[i]).0 == before[i].0 && loss.ensures(
            (&before[i].0,),
            after[i].1,
        )
}

/// `after` is the next generation bred from the ranked population `before`:
/// the breeding pool at the front is carried over untouched, and every slot
/// behind it holds a child of the two pool members paired for that slot,
/// with its score reset to zero.
pub open spec fn regenerated<T: Individual>(before: Seq<(T, u64)>, after: Seq<(T, u64)>) -> bool {
    let elite = elite_size(before.len()) as int;
    &&& after.len() == before.len()
    &&& forall|i: int| 0 <= i < elite && i < before.len() ==> #[trigger] after[i] == before[i]
    &&& forall|slot: int|
        elite <= slot < before.len() ==> (#[trigger] after[slot]).1 == 0 && bred(
            before[parents_of(slot as nat, elite as nat).0 as int].0,
            before[parents_of(slot as nat, elite as nat).1 as int].0,
            after[slot].0,
        )
}

/// The candidate solutions of a training run, each with its latest score.
///
/// Its view is the sequence of `(individual, score)` pairs, best first once
/// the population has been ranked.
pub struct Population<T> {
    members: Vec<(T, u64)>,
}

impl<T> View for Population<T> {
    type V = Seq<(T, u64)>;

    closed spec fn view(&self) -> Seq<(T, u64)> {
        self.members@
    }
}

impl<T> Population<T> {
    /// A population of the given individuals, in the given order, none of
    /// them scored yet.
    pub fn seeded(individuals: Vec<T>) -> (population: Self)
        ensures
            population@.len() == individuals@.len(),
            forall|i: int|
                0 <= i < individuals@.len() ==> #[trigger] population@[i] == (
                    individuals@[i],
                    0u64,
                ),
    {
        let ghost given = individuals@;
        let mut members: Vec<(T, u64)> = Vec::with_capacity(individuals.len());
        for individual in it: individuals
            invariant
                it.seq() == given,
                members@.len() == it.index(),
                forall|i: int|
                    0 <= i < members@.len() ==> #[trigger] members@[i] == (given[i], 0u64),
        {
            members.push((individual, 0));
        }
        Population { members }
    }

    /// The number of members.
    pub fn len(&self) -> (n: usize)
        ensures
            n == self@.len(),
    {
        self.members.len()
    }

    /// The individual at `position`.
    pub fn individual(&self, position: usize) -> (individual: &T)
        requires
            position < self@.len(),
        ensures
            *individual == self@[position as int].0,
    {
        &self.members[position].0
    }

    /// The latest score of the member at `position`.
    pub fn score(&self, position: usize) -> (score: u64)
        requires
            position < self@.len(),
        ensures
            score == self@[position as int].1,
    {
        self.members[position].1
    }

    /// The score of the first member, which is the lowest of all once the
    /// population has been ranked.
    pub fn best_score(&self) -> (score: u64)
        requires
            self@.len() > 0,
        ensures
            score == self@[0].1,
            is_ranked(self@) ==> forall|i: int|
                0 <= i < self@.len() ==> score <= (#[trigger] self@[i]).1,
    {
        self.members[0].1
    }

    /// Gives up the population for its first member, the best one once the
    /// population has been ranked.
    pub fn into_best(self) -> (best: T)
        requires
            self@.len() > 0,
        ensures
            best == self@[0].0,
    {
        let mut members = self.members;
        let (best, _) = members.swap_remove(0);
        best
    }

    /// Scores every member anew with `loss`, leaving individuals and their
    /// order as they are. No earlier score survives.
    pub fn evaluate<F: Fn(&T) -> u64>(&mut self, loss: &F)
        requires
            forall|i: int|
                0 <= i < old(self)@.len() ==> loss.requires((&(#[trigger] old(self)@[i]).0,)),
        ensures
            scored(*loss, old(self)@, final(self)@),
    {
        let ghost before = self@;
        let n: usize = self.members.len();
        let mut i: usize = 0;
        while i < n
            invariant
                i <= n,
                self@.len() == n == before.len(),
                forall|j: int| 0 <= j < n ==> loss.requires((&(#[trigger] before[j]).0,)),
                forall|j: int| 0 <= j < n ==> (#[trigger] self@[j]).0 == before[j].0,
                forall|j: int|
                    0 <= j < i ==> loss.ensures((&before[j].0,), (#[trigger] self@[j]).1),
            decreases n - i,
        {
            let score: u64 = loss(&self.members[i].0);
            self.members[i].1 = score;
            i += 1;
        }
    }

    /// Puts the members in rank order: ascending by score, members with
    /// equal scores keeping their relative order.
    pub fn rank(&mut self)
        ensures
            final(self)@ == ranked(old(self)@),
            is_ranked(final(self)@),
            is_ranked(old(self)@) ==> final(self)@ == old(self)@,
            final(self)@.len() == old(self)@.len(),
            final(self)@.to_multiset() == old(self)@.to_multiset(),
    {
        let ghost before = self@;
        let mut members: Vec<(T, u64)> = Vec::new();
        std::mem::swap(&mut self.members, &mut members);
        self.members = rank_members(members);
        proof {
            lemma_ranked_is_ranked(before);
            lemma_ranked_permutes(before);
            if is_ranked(before) {
                lemma_ranked_fixes_ranked(before);
            }
        }
    }
}

impl<T: Individual> Population<T> {
    /// Draws a population of `num_individuals` random individuals, none of
    /// them scored yet.
    pub fn random(num_individuals: usize) -> (population: Self)
        ensures
            is_fresh(population@, num_individuals as nat),
    {
        let mut members: Vec<(T, u64)> = Vec::with_capacity(num_individuals);
        let mut i: usize = 0;
        while i < num_individuals
            invariant
                i <= num_individuals,
                is_fresh(members@, i as nat),
            decreases num_individuals - i,
        {
            members.push((T::make_random(), 0));
            i += 1;
        }
        Population { members }
    }

    /// Replaces everything behind the breeding pool by newly bred children.
    ///
    /// The pool, the leading fifth of the population but at least one
    /// member, is carried over untouched. Each slot behind it receives a
    /// child of the two pool members paired for that slot, and the child's
    /// score is reset to zero until the next evaluation.
    pub fn regenerate(&mut self)
        ensures
            regenerated(old(self)@, final(self)@),
    {
        let ghost before = self@;
        let n: usize = self.members.len();
        let elite: usize = elite_count(n);
        let mut slot: usize = elite;
        while slot < n
            invariant
                0 < elite <= slot,
                elite == elite_size(n as nat),
                self@.len() == n == before.len(),
                forall|i: int| 0 <= i < elite && i < n ==> #[trigger] self@[i] == before[i],
                forall|k: int|
                    elite <= k < slot && k < n ==> (#[trigger] self@[k]).1 == 0 && bred(
                        before[parents_of(k as nat, elite as nat).0 as int].0,
                        before[parents_of(k as nat, elite as nat).1 as int].0,
                        self@[k].0,
                    ),
            decreases n - slot,
        {
            let (first, second) = breeding_pair(slot, elite);
            let child = breed(&self.members[first].0, &self.members[second].0);
            self.members[slot] = (child, 0);
            slot += 1;
        }
    }
}

} // verus!
