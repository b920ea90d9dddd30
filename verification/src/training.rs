//! The evolution driver: generations of evaluation, ranking and breeding.
//!
//! A generation scores every member with the caller's loss function and
//! ranks the population. The run stops with the first generation whose best
//! score is at or below the target, or with the last generation its budget
//! allows. A run always evaluates at least one generation, so a budget of
//! zero behaves like a budget of one and the result is always a scored
//! individual. Between two generations everything behind the breeding pool
//! is replaced by offspring; nothing is bred after the final generation.

use vstd::prelude::*;
use crate::individual::Individual;
use crate::population::{is_fresh, regenerated, scored, Population};
use crate::ranking::{
    is_ranked, lemma_ranked_first_is_least, lemma_ranked_is_ranked, lemma_ranked_permutes,
    lemma_ranked_same_members, ranked,
};
use crate::selection::lemma_elite_size_bounds;

verus! {

/// `after` is `before` once evaluated: scored by `loss`, then ranked.
pub open spec fn assessed<T, F: Fn(&T) -> u64>(
    loss: F,
    before: Seq<(T, u64)>,
    after: Seq<(T, u64)>,
) -> bool {
    exists|marked: Seq<(T, u64)>| #[trigger] scored(loss, before, marked) && after == ranked(marked)
}

/// `next` is the evaluated generation that comes after the evaluated
/// generation `previous`: offspring replace what lies behind the breeding
/// pool, then the whole population is evaluated again.
pub open spec fn succeeds<T: Individual, F: Fn(&T) -> u64>(
    loss: F,
    previous: Seq<(T, u64)>,
    next: Seq<(T, u64)>,
) -> bool {
    exists|offspring: Seq<(T, u64)>| #[trigger]
        regenerated(previous, offspring) && assessed(loss, offspring, next)
}

/// The most generations a run with the given budget evaluates: the budget
/// itself, but never fewer than one.
pub open spec fn generation_limit(max_iterations: nat) -> nat {
    if max_iterations == 0 {
        1
    } else {
        max_iterations
    }
}

/// `history` is the course of a run from `start`: its evaluated
/// generations in order. The first is `start` evaluated, each later one
/// succeeds the one before, every generation but the last missed the
/// target, and the last either met it or used up the budget.
pub open spec fn is_course<T: Individual, F: Fn(&T) -> u64>(
    loss: F,
    target: u64,
    max_iterations: nat,
    start: Seq<(T, u64)>,
    history: Seq<Seq<(T, u64)>>,
) -> bool {
    &&& 1 <= history.len() <= generation_limit(max_iterations)
    &&& assessed(loss, start, history[0])
    &&& forall|g: int|
        1 <= g < history.len() ==> succeeds(loss, history[g - 1], #[trigger] history[g])
    &&& forall|g: int| 0 <= g < history.len() - 1 ==> (#[trigger] history[g])[0].1 > target
    &&& (history.last()[0].1 <= target || history.len() == generation_limit(max_iterations))
}

/// An evaluated population has the size of the one it was evaluated from,
/// is ranked, and pairs every individual with a score that `loss` may
/// return for it.
pub proof fn lemma_assessed<T, F: Fn(&T) -> u64>(
    loss: F,
    before: Seq<(T, u64)>,
    after: Seq<(T, u64)>,
)
    requires
        assessed(loss, before, after),
    ensures
        after.len() == before.len(),
        is_ranked(after),
        forall|i: int|
            0 <= i < after.len() ==> loss.ensures((&(#[trigger] after[i]).0,), after[i].1),
{
    let marked = choose|marked: Seq<(T, u64)>| #[trigger]
        scored(loss, before, marked) && after == ranked(marked);
    lemma_ranked_is_ranked(marked);
    lemma_ranked_permutes(marked);
    lemma_ranked_same_members(marked);
    assert forall|i: int| 0 <= i < after.len() implies loss.ensures(
        (&(#[trigger] after[i]).0,),
        after[i].1,
    ) by {
        assert(marked.contains(ranked(marked)[i]));
        let j = choose|j: int| 0 <= j < marked.len() && marked[j] == after[i];
        assert(marked[j].0 == before[j].0);
    }
}

/// Every generation of a course has as many members as the run started
/// with, is ranked, and pairs every individual with a score that `loss`
/// may return for it.
pub proof fn lemma_course_generation<T: Individual, F: Fn(&T) -> u64>(
    loss: F,
    target: u64,
    max_iterations: nat,
    start: Seq<(T, u64)>,
    history: Seq<Seq<(T, u64)>>,
    g: int,
)
    requires
        is_course(loss, target, max_iterations, start, history),
        0 <= g < history.len(),
    ensures
        history[g].len() == start.len(),
        is_ranked(history[g]),
        forall|i: int|
            0 <= i < start.len() ==> loss.ensures(
                (&(#[trigger] history[g][i]).0,),
                history[g][i].1,
            ),
    decreases g,
{
    if g == 0 {
        lemma_assessed(loss, start, history[0]);
    } else {
        lemma_course_generation(loss, target, max_iterations, start, history, g - 1);
        assert(succeeds(loss, history[g - 1], history[g]));
        let offspring = choose|offspring: Seq<(T, u64)>| #[trigger]
            regenerated(history[g - 1], offspring) && assessed(loss, offspring, history[g]);
        lemma_assessed(loss, offspring, history[g]);
    }
}

/// The last generation of a course is fully scored and ranked, so its
/// first member scores no higher than any member of that generation.
pub proof fn lemma_course_ends_on_best<T: Individual, F: Fn(&T) -> u64>(
    loss: F,
    target: u64,
    max_iterations: nat,
    start: Seq<(T, u64)>,
    history: Seq<Seq<(T, u64)>>,
)
    requires
        is_course(loss, target, max_iterations, start, history),
        start.len() > 0,
    ensures
        history.last().len() == start.len(),
        is_ranked(history.last()),
        forall|i: int|
            0 <= i < start.len() ==> history.last()[0].1 <= (#[trigger] history.last()[i]).1,
        forall|i: int|
            0 <= i < start.len() ==> loss.ensures(
                (&(#[trigger] history.last()[i]).0,),
                history.last()[i].1,
            ),
{
    lemma_course_generation(loss, target, max_iterations, start, history, history.len() - 1);
}

/// `loss` returns the same score whenever it is given the same individual.
pub open spec fn is_deterministic<T, F: Fn(&T) -> u64>(loss: F) -> bool {
    forall|individual: T, once: u64, again: u64|
        #![trigger loss.ensures((&individual,), once), loss.ensures((&individual,), again)]
        loss.ensures((&individual,), once) && loss.ensures((&individual,), again) ==> once
            == again
}

/// Under a deterministic `loss` the best score never rises from one
/// generation to the next: the breeding pool is carried over, so the best
/// individual found so far is always still there.
pub proof fn lemma_course_never_worsens<T: Individual, F: Fn(&T) -> u64>(
    loss: F,
    target: u64,
    max_iterations: nat,
    start: Seq<(T, u64)>,
    history: Seq<Seq<(T, u64)>>,
    g: int,
)
    requires
        is_course(loss, target, max_iterations, start, history),
        start.len() > 0,
        is_deterministic(loss),
        1 <= g < history.len(),
    ensures
        history[g][0].1 <= history[g - 1][0].1,
{
    let previous = history[g - 1];
    lemma_course_generation(loss, target, max_iterations, start, history, g - 1);
    assert(succeeds(loss, previous, history[g]));
    let offspring = choose|offspring: Seq<(T, u64)>| #[trigger]
        regenerated(previous, offspring) && assessed(loss, offspring, history[g]);
    let marked = choose|marked: Seq<(T, u64)>| #[trigger]
        scored(loss, offspring, marked) && history[g] == ranked(marked);
    lemma_elite_size_bounds(previous.len());
    assert(offspring[0] == previous[0]);
    assert(marked[0].0 == previous[0].0);
    assert(loss.ensures((&previous[0].0,), previous[0].1));
    assert(loss.ensures((&previous[0].0,), marked[0].1));
    lemma_ranked_first_is_least(marked);
}

/// Under a deterministic `loss` the run ends on the best score of all its
/// generations: no generation had a member scoring lower than the first
/// member of the last.
pub proof fn lemma_course_ends_on_overall_best<T: Individual, F: Fn(&T) -> u64>(
    loss: F,
    target: u64,
    max_iterations: nat,
    start: Seq<(T, u64)>,
    history: Seq<Seq<(T, u64)>>,
    g: int,
)
    requires
        is_course(loss, target, max_iterations, start, history),
        start.len() > 0,
        is_deterministic(loss),
        0 <= g < history.len(),
    ensures
        forall|i: int| 0 <= i < start.len() ==> history.last()[0].1 <= (#[trigger] history[g][i]).1,
    decreases history.len() - g,
{
    lemma_course_generation(loss, target, max_iterations, start, history, g);
    if g + 1 < history.len() {
        lemma_course_ends_on_overall_best(loss, target, max_iterations, start, history, g + 1);
        lemma_course_generation(loss, target, max_iterations, start, history, g + 1);
        lemma_course_never_worsens(loss, target, max_iterations, start, history, g + 1);
        assert(history.last()[0].1 <= history[g + 1][0].1);
    }
}

/// Where `loss` can return nothing above the target, a run stops after
/// its first generation.
pub proof fn lemma_course_stops_at_once<T: Individual, F: Fn(&T) -> u64>(
    loss: F,
    target: u64,
    max_iterations: nat,
    start: Seq<(T, u64)>,
    history: Seq<Seq<(T, u64)>>,
)
    requires
        is_course(loss, target, max_iterations, start, history),
        start.len() > 0,
        forall|individual: T, score: u64| #[trigger]
            loss.ensures((&individual,), score) ==> score <= target,
    ensures
        history.len() == 1,
{
    lemma_course_generation(loss, target, max_iterations, start, history, 0);
    lemma_assessed(loss, start, history[0]);
    assert(loss.ensures((&history[0][0].0,), history[0][0].1));
}

/// With the highest target there is, every run stops after its first
/// generation, whatever `loss` returns.
pub proof fn lemma_course_with_top_target<T: Individual, F: Fn(&T) -> u64>(
    loss: F,
    max_iterations: nat,
    start: Seq<(T, u64)>,
    history: Seq<Seq<(T, u64)>>,
)
    requires
        is_course(loss, u64::MAX, max_iterations, start, history),
        start.len() > 0,
    ensures
        history.len() == 1,
{
    lemma_course_stops_at_once(loss, u64::MAX, max_iterations, start, history);
}

/// Where `loss` can return nothing at or below the target, a run
/// evaluates as many generations as its budget allows.
pub proof fn lemma_course_runs_full<T: Individual, F: Fn(&T) -> u64>(
    loss: F,
    target: u64,
    max_iterations: nat,
    start: Seq<(T, u64)>,
    history: Seq<Seq<(T, u64)>>,
)
    requires
        is_course(loss, target, max_iterations, start, history),
        start.len() > 0,
        forall|individual: T, score: u64| #[trigger]
            loss.ensures((&individual,), score) ==> score > target,
    ensures
        history.len() == generation_limit(max_iterations),
        max_iterations > 0 ==> history.len() == max_iterations,
{
    lemma_course_ends_on_best(loss, target, max_iterations, start, history);
    assert(loss.ensures((&history.last()[0].0,), history.last()[0].1));
}

impl<T: Individual> Population<T> {
    /// Runs generations on this population until the best score is at or
    /// below `target` or `max_iterations` generations have been evaluated,
    /// and returns how many were. At least one generation is evaluated.
    ///
    /// Afterwards the population is the last evaluated generation: scored
    /// by `loss`, ranked, best member first.
    pub fn evolve<F: Fn(&T) -> u64>(
        &mut self,
        max_iterations: usize,
        target: u64,
        loss: &F,
    ) -> (generations: usize)
        requires
            old(self)@.len() > 0,
            forall|individual: &T| loss.requires((individual,)),
        ensures
            exists|history: Seq<Seq<(T, u64)>>| #[trigger]
                is_course(*loss, target, max_iterations as nat, old(self)@, history)
                    && history.len() == generations && history.last() == final(self)@,
            final(self)@.len() == old(self)@.len(),
            is_ranked(final(self)@),
            forall|i: int|
                0 <= i < final(self)@.len() ==> loss.ensures(
                    (&(#[trigger] final(self)@[i]).0,),
                    final(self)@[i].1,
                ),
            1 <= generations <= generation_limit(max_iterations as nat),
            final(self)@[0].1 <= target || generations == generation_limit(max_iterations as nat),
            (forall|individual: T, score: u64| #[trigger]
                loss.ensures((&individual,), score) ==> score <= target) ==> generations == 1,
            (forall|individual: T, score: u64| #[trigger]
                loss.ensures((&individual,), score) ==> score > target) ==> generations
                == generation_limit(max_iterations as nat),
    {
        let ghost start = self@;
        self.evaluate(loss);
        self.rank();
        let ghost mut history: Seq<Seq<(T, u64)>> = seq![self@];
        let mut generations: usize = 1;
        proof {
            assert(assessed(*loss, start, self@));
            lemma_assessed(*loss, start, self@);
        }
        while self.best_score() > target && generations < max_iterations
            invariant
                start.len() > 0,
                forall|individual: &T| loss.requires((individual,)),
                self@.len() == start.len(),
                history.len() == generations,
                history.last() == self@,
                1 <= generations <= generation_limit(max_iterations as nat),
                assessed(*loss, start, history[0]),
                forall|g: int|
                    1 <= g < history.len() ==> succeeds(*loss, history[g - 1], #[trigger] history[g]),
                forall|g: int| 0 <= g < history.len() - 1 ==> (#[trigger] history[g])[0].1 > target,
                is_ranked(self@),
                forall|i: int|
                    0 <= i < self@.len() ==> loss.ensures((&(#[trigger] self@[i]).0,), self@[i].1),
            decreases max_iterations - generations,
        {
            let ghost previous = self@;
            self.regenerate();
            let ghost offspring = self@;
            self.evaluate(loss);
            self.rank();
            generations += 1;
            proof {
                assert(assessed(*loss, offspring, self@));
                assert(succeeds(*loss, previous, self@));
                lemma_assessed(*loss, offspring, self@);
                let grown = history.push(self@);
                assert forall|g: int| 1 <= g < grown.len() implies succeeds(
                    *loss,
                    grown[g - 1],
                    #[trigger] grown[g],
                ) by {
                    if g < history.len() {
                        assert(grown[g] == history[g]);
                        assert(grown[g - 1] == history[g - 1]);
                    }
                }
                assert forall|g: int| 0 <= g < grown.len() - 1 implies (#[trigger] grown[g])[0].1
                    > target by {
                    if g < history.len() - 1 {
                        assert(grown[g] == history[g]);
                    }
                }
                history = grown;
            }
        }
        proof {
            assert(is_course(*loss, target, max_iterations as nat, start, history));
            if forall|individual: T, score: u64| #[trigger]
                loss.ensures((&individual,), score) ==> score <= target {
                lemma_course_stops_at_once(*loss, target, max_iterations as nat, start, history);
            }
            assert(loss.ensures((&self@[0].0,), self@[0].1));
        }
        generations
    }
}

/// `best` is a possible result of training: the first member of the last
/// generation of some course that a freshly drawn population of
/// `num_individuals` can take.
pub open spec fn is_trained<T: Individual, F: Fn(&T) -> u64>(
    loss: F,
    num_individuals: nat,
    max_iterations: nat,
    target: u64,
    best: T,
) -> bool {
    exists|start: Seq<(T, u64)>, history: Seq<Seq<(T, u64)>>|
        is_fresh(start, num_individuals) && #[trigger] is_course(
            loss,
            target,
            max_iterations,
            start,
            history,
        ) && best == history.last()[0].0
}

/// `best` is the first individual of `last`, a population in which every
/// member carries a score that `loss` may return for it and nobody scores
/// lower than the first.
pub open spec fn is_best_of<T, F: Fn(&T) -> u64>(loss: F, last: Seq<(T, u64)>, best: T) -> bool {
    &&& last.len() > 0
    &&& best == last[0].0
    &&& forall|i: int|
        0 <= i < last.len() ==> last[0].1 <= (#[trigger] last[i]).1 && loss.ensures(
            (&last[i].0,),
            last[i].1,
        )
}

/// The result of training is the best of a fully scored population of
/// `num_individuals` members.
pub proof fn lemma_trained_is_best<T: Individual, F: Fn(&T) -> u64>(
    loss: F,
    num_individuals: nat,
    max_iterations: nat,
    target: u64,
    best: T,
)
    requires
        num_individuals > 0,
        is_trained(loss, num_individuals, max_iterations, target, best),
    ensures
        exists|last: Seq<(T, u64)>| #[trigger]
            is_best_of(loss, last, best) && last.len() == num_individuals,
{
    let (start, history) = choose|start: Seq<(T, u64)>, history: Seq<Seq<(T, u64)>>|
        is_fresh(start, num_individuals) && #[trigger] is_course(
            loss,
            target,
            max_iterations,
            start,
            history,
        ) && best == history.last()[0].0;
    lemma_course_ends_on_best(loss, target, max_iterations, start, history);
    assert(is_best_of(loss, history.last(), best));
}

/// Evolves a random population of `num_individuals` towards low loss and
/// returns the best individual of the last generation evaluated.
///
/// `loss` scores an individual, lower being better. Training stops with
/// the first generation whose best score is at or below
/// `target_fitness_loss`, or after `max_iterations` generations. At least
/// one generation is always evaluated, so the result is a scored
/// individual even with a budget of zero.
pub fn train<T: Individual, F: Fn(&T) -> u64>(
    num_individuals: usize,
    max_iterations: usize,
    target_fitness_loss: u64,
    loss: F,
) -> (best: T)
    requires
        num_individuals > 0,
        forall|individual: &T| loss.requires((individual,)),
    ensures
        is_trained(loss, num_individuals as nat, max_iterations as nat, target_fitness_loss, best),
        exists|last: Seq<(T, u64)>| #[trigger]
            is_best_of(loss, last, best) && last.len() == num_individuals,
{
    let mut population: Population<T> = Population::random(num_individuals);
    let ghost start = population@;
    let generations = population.evolve(max_iterations, target_fitness_loss, &loss);
    proof {
        let history = choose|history: Seq<Seq<(T, u64)>>| #[trigger]
            is_course(loss, target_fitness_loss, max_iterations as nat, start, history)
                && history.len() == generations && history.last() == population@;
        assert(is_fresh(start, num_individuals as nat));
        assert(is_course(loss, target_fitness_loss, max_iterations as nat, start, history));
        assert(is_best_of(loss, population@, population@[0].0));
    }
    population.into_best()
}

} // verus!
