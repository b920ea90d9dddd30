use genetic::selection::{breeding_pair, elite_count};

#[test]
fn elite_is_a_fifth_rounded_down() {
    assert_eq!(elite_count(5), 1);
    assert_eq!(elite_count(9), 1);
    assert_eq!(elite_count(10), 2);
    assert_eq!(elite_count(14), 2);
    assert_eq!(elite_count(200), 40);
    assert_eq!(elite_count(500), 100);
    assert_eq!(elite_count(usize::MAX), usize::MAX / 5);
}

#[test]
fn elite_floors_at_one_for_tiny_populations() {
    assert_eq!(elite_count(1), 1);
    assert_eq!(elite_count(2), 1);
    assert_eq!(elite_count(3), 1);
    assert_eq!(elite_count(4), 1);
    assert_eq!(elite_count(0), 1);
}

#[test]
fn elite_never_exceeds_the_population() {
    for n in 1..2000usize {
        let elite = elite_count(n);
        assert!(1 <= elite && elite <= n, "n = {}", n);
        if n >= 5 {
            assert_eq!(elite, n / 5);
        }
    }
}

#[test]
fn pairing_walks_the_pool_round_robin() {
    assert_eq!(breeding_pair(3, 3), (0, 1));
    assert_eq!(breeding_pair(4, 3), (1, 2));
    assert_eq!(breeding_pair(5, 3), (2, 0));
    assert_eq!(breeding_pair(6, 3), (0, 1));
    assert_eq!(breeding_pair(7, 3), (1, 2));
    assert_eq!(breeding_pair(8, 3), (2, 0));
}

#[test]
fn pairing_in_a_pool_of_one_is_selfing() {
    assert_eq!(breeding_pair(1, 1), (0, 0));
    assert_eq!(breeding_pair(2, 1), (0, 0));
    assert_eq!(breeding_pair(17, 1), (0, 0));
}

#[test]
fn pairing_in_a_pool_of_two_alternates() {
    assert_eq!(breeding_pair(2, 2), (0, 1));
    assert_eq!(breeding_pair(3, 2), (1, 0));
    assert_eq!(breeding_pair(4, 2), (0, 1));
}

#[test]
fn pairing_stays_inside_the_pool() {
    for elite in 1..40usize {
        for slot in elite..(elite * 5 + 5) {
            let (first, second) = breeding_pair(slot, elite);
            assert!(first < elite && second < elite);
            assert_eq!(first, (slot - elite) % elite);
            assert_eq!(second, (first + 1) % elite);
        }
    }
}

#[test]
fn pairing_at_the_top_of_the_range() {
    assert_eq!(breeding_pair(usize::MAX, 1), (0, 0));
    assert_eq!(breeding_pair(usize::MAX, usize::MAX), (0, 1));
}
