use genetic::individual::breed;
use genetic::{Individual, Population};

/// An individual that records where it came from.
#[derive(Debug, Clone, PartialEq)]
struct Traced {
    id: u64,
    parents: Option<(u64, u64)>,
    mutations: u32,
}

impl Individual for Traced {
    fn reproduce(&self, other: &Self) -> Self {
        Traced { id: self.id * 1000 + other.id, parents: Some((self.id, other.id)), mutations: 0 }
    }

    fn make_random() -> Self {
        Traced { id: 77, parents: None, mutations: 0 }
    }

    fn mutate(&mut self) {
        self.mutations += 1;
    }
}

fn founder(id: u64) -> Traced {
    Traced { id, parents: None, mutations: 0 }
}

fn founders(n: u64) -> Vec<Traced> {
    (1..=n).map(founder).collect()
}

fn ids(population: &Population<Traced>) -> Vec<u64> {
    (0..population.len()).map(|i| population.individual(i).id).collect()
}

fn scores(population: &Population<Traced>) -> Vec<u64> {
    (0..population.len()).map(|i| population.score(i)).collect()
}

#[test]
fn seeded_keeps_order_and_scores_nothing() {
    let population = Population::seeded(vec![founder(4), founder(2), founder(9)]);
    assert_eq!(population.len(), 3);
    assert_eq!(ids(&population), vec![4, 2, 9]);
    assert_eq!(scores(&population), vec![0, 0, 0]);
    assert_eq!(*population.individual(1), founder(2));
}

#[test]
fn seeded_with_nothing_is_empty() {
    let population: Population<Traced> = Population::seeded(Vec::new());
    assert_eq!(population.len(), 0);
}

#[test]
fn random_draws_the_asked_number_unscored() {
    let population: Population<Traced> = Population::random(6);
    assert_eq!(population.len(), 6);
    assert_eq!(ids(&population), vec![77; 6]);
    assert_eq!(scores(&population), vec![0; 6]);
    let none: Population<Traced> = Population::random(0);
    assert_eq!(none.len(), 0);
}

#[test]
fn evaluate_scores_each_member_in_place() {
    let mut population = Population::seeded(founders(5));
    population.evaluate(&|t: &Traced| t.id * t.id);
    assert_eq!(ids(&population), vec![1, 2, 3, 4, 5]);
    assert_eq!(scores(&population), vec![1, 4, 9, 16, 25]);
}

#[test]
fn evaluate_overwrites_earlier_scores() {
    let mut population = Population::seeded(founders(4));
    population.evaluate(&|t: &Traced| 100 + t.id);
    assert_eq!(scores(&population), vec![101, 102, 103, 104]);
    population.evaluate(&|t: &Traced| 10 - t.id);
    assert_eq!(scores(&population), vec![9, 8, 7, 6]);
}

#[test]
fn evaluate_calls_loss_once_per_member() {
    let calls = std::cell::Cell::new(0usize);
    let mut population = Population::seeded(founders(7));
    population.evaluate(&|t: &Traced| {
        calls.set(calls.get() + 1);
        t.id
    });
    assert_eq!(calls.get(), 7);
}

#[test]
fn best_score_and_into_best_take_the_front() {
    let mut population = Population::seeded(vec![founder(5), founder(3), founder(8)]);
    population.evaluate(&|t: &Traced| t.id);
    population.rank();
    assert_eq!(population.best_score(), 3);
    assert_eq!(population.score(2), 8);
    assert_eq!(population.into_best(), founder(3));
}

#[test]
fn breed_reproduces_then_mutates_once() {
    let child = breed(&founder(3), &founder(4));
    assert_eq!(child, Traced { id: 3004, parents: Some((3, 4)), mutations: 1 });
}

#[test]
fn regenerate_keeps_the_pool_and_breeds_the_rest() {
    let mut population = Population::seeded(founders(15));
    population.evaluate(&|t: &Traced| 100 - t.id);
    population.rank();
    assert_eq!(ids(&population)[..3], [15, 14, 13]);
    population.regenerate();
    assert_eq!(population.len(), 15);
    for position in 0..3 {
        assert_eq!(*population.individual(position), founder(15 - position as u64));
        assert_eq!(population.score(position), 85 + position as u64);
    }
    let pairs = [(15, 14), (14, 13), (13, 15)];
    for slot in 3..15 {
        let child = population.individual(slot);
        assert_eq!(child.parents, Some(pairs[(slot - 3) % 3]), "slot {}", slot);
        assert_eq!(child.mutations, 1);
        assert_eq!(population.score(slot), 0);
    }
}

#[test]
fn regenerate_with_a_pool_of_one_selfs_the_best() {
    for n in 1..=4u64 {
        let mut population = Population::seeded(founders(n));
        population.evaluate(&|t: &Traced| t.id);
        population.rank();
        population.regenerate();
        assert_eq!(population.len(), n as usize);
        assert_eq!(*population.individual(0), founder(1));
        assert_eq!(population.score(0), 1);
        for slot in 1..n as usize {
            assert_eq!(
                *population.individual(slot),
                Traced { id: 1001, parents: Some((1, 1)), mutations: 1 }
            );
            assert_eq!(population.score(slot), 0);
        }
    }
}

#[test]
fn regenerate_of_nothing_does_nothing() {
    let mut population: Population<Traced> = Population::seeded(Vec::new());
    population.regenerate();
    assert_eq!(population.len(), 0);
}

#[test]
fn regenerate_breeds_from_the_pool_as_it_was() {
    let mut population = Population::seeded(founders(10));
    population.evaluate(&|t: &Traced| t.id);
    population.rank();
    population.regenerate();
    let expected = [(1, 2), (2, 1), (1, 2), (2, 1), (1, 2), (2, 1), (1, 2), (2, 1)];
    for slot in 2..10 {
        assert_eq!(population.individual(slot).parents, Some(expected[slot - 2]));
    }
    assert_eq!(ids(&population)[..2], [1, 2]);
}
