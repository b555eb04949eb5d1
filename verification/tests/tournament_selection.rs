use nsga2::tournament_selection::{challenge, tournament_selection_fast, tournament_winner};
use rand::{SeedableRng, StdRng};

fn seeded(seed: usize) -> StdRng {
    let seed: &[usize] = &[seed, 2, 3, 4];
    StdRng::from_seed(seed)
}

#[test]
fn test_tournament_with_scripted_draws() {
    // The ranked ordering is 4 < 0 < 2 < 1 < 3: position in this list.
    let place = [1usize, 3, 2, 4, 0];
    let better_than = |a: usize, b: usize| place[a] < place[b];
    assert_eq!(4, tournament_winner(&[2, 0, 4], &better_than));
    assert_eq!(0, tournament_winner(&[2, 0, 1], &better_than));
    assert_eq!(3, tournament_winner(&[3], &better_than));
    assert_eq!(2, tournament_winner(&[3, 2, 2, 1], &better_than));
}

#[test]
fn test_tournament_keeps_the_first_of_equals() {
    // Nobody is better than anybody: the first candidate stays.
    let never = |_: usize, _: usize| false;
    assert_eq!(7, tournament_winner(&[7, 1, 2, 3], &never));
    // Every challenger is better: the last candidate wins.
    let always = |_: usize, _: usize| true;
    assert_eq!(3, tournament_winner(&[7, 1, 2, 3], &always));
}

#[test]
fn test_challenge() {
    let smaller = |a: usize, b: usize| a < b;
    assert_eq!(1, challenge(&smaller, 1, 5));
    assert_eq!(1, challenge(&smaller, 5, 1));
    assert_eq!(4, challenge(&smaller, 4, 4));
}

#[test]
fn test_tournament_selection_stays_in_range() {
    let mut rng = seeded(1);
    let smaller = |a: usize, b: usize| a < b;
    for n in 1..20usize {
        for k in 0..5usize {
            let winner = tournament_selection_fast(&mut rng, smaller, n, k);
            assert!(winner < n);
        }
    }
    // One individual always wins.
    assert_eq!(0, tournament_selection_fast(&mut rng, smaller, 1, 3));
}

#[test]
fn test_tournament_selection_is_repeatable() {
    let smaller = |a: usize, b: usize| a < b;
    let mut first = seeded(42);
    let mut second = seeded(42);
    for _ in 0..100 {
        assert_eq!(
            tournament_selection_fast(&mut first, smaller, 50, 3),
            tournament_selection_fast(&mut second, smaller, 50, 3)
        );
    }
}

#[test]
fn test_large_tournaments_favour_the_best() {
    // With many candidates out of few individuals the best one is nearly
    // always among them.
    let mut rng = seeded(7);
    let smaller = |a: usize, b: usize| a < b;
    let mut wins_of_best = 0;
    for _ in 0..200 {
        if tournament_selection_fast(&mut rng, smaller, 4, 40) == 0 {
            wins_of_best += 1;
        }
    }
    assert!(wins_of_best >= 195);
}
