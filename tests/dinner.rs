use dining_philosophers::{Dinner, Fork, Phase};

/// Steps philosopher `p` until their phase is `target`, asserting that each
/// step goes through.
fn advance_to(d: &mut Dinner, p: usize, target: Phase) {
    while d.phase(p) != target {
        assert!(d.step(p));
    }
}

/// A small linear congruential generator, so that schedules repeat.
fn next_random(state: &mut u64) -> u64 {
    *state = state
        .wrapping_mul(6364136223846793005)
        .wrapping_add(1442695040888963407);
    *state >> 33
}

fn check_safety(d: &Dinner) {
    let n = d.len();
    for f in 0..n {
        if let Fork::Occupied(p) = d.fork(f) {
            assert!(p == f || (p + 1) % n == f);
        }
    }
    assert!(d.eating_count() <= n / 2);
    for p in 0..n {
        assert!(!(d.phase(p) == Phase::Eating && d.phase((p + 1) % n) == Phase::Eating));
    }
}

/// Runs `steps` randomly scheduled steps and returns the number of meals
/// started after each quarter of the run.
fn simulate(n: usize, seed: u64, steps: usize) -> Vec<usize> {
    let mut d = Dinner::new(n).unwrap();
    let mut rng = seed;
    let mut meals = 0usize;
    let mut marks = Vec::new();
    for k in 0..steps {
        assert!((0..n).any(|p| d.can_step(p)));
        let p = (next_random(&mut rng) as usize) % n;
        let before = d.phase(p);
        let progressed = d.step(p);
        if progressed && before == Phase::AcquiringSecond {
            assert_eq!(d.phase(p), Phase::Eating);
            meals += 1;
        }
        if !progressed {
            assert_eq!(d.phase(p), before);
        }
        check_safety(&d);
        if (k + 1) % (steps / 4) == 0 {
            marks.push(meals);
        }
    }
    marks
}

#[test]
fn fewer_than_two_seats_is_rejected() {
    assert!(Dinner::new(0).is_none());
    assert!(Dinner::new(1).is_none());
    assert!(Dinner::new(2).is_some());
}

#[test]
fn new_dinner_is_all_thinking_with_free_forks() {
    let d = Dinner::new(5).unwrap();
    assert_eq!(d.len(), 5);
    for p in 0..5 {
        assert_eq!(d.phase(p), Phase::Thinking);
        assert_eq!(d.fork(p), Fork::Free);
    }
    assert_eq!(d.eating_count(), 0);
}

#[test]
fn phases_follow_the_cycle() {
    let mut d = Dinner::new(3).unwrap();
    let order = [
        Phase::PreparingToEat,
        Phase::AcquiringFirst,
        Phase::AcquiringSecond,
        Phase::Eating,
        Phase::Releasing,
        Phase::Thinking,
    ];
    for ph in order {
        assert!(d.step(1));
        assert_eq!(d.phase(1), ph);
    }
}

#[test]
fn odd_philosopher_takes_right_fork_first_at_the_table() {
    let mut d = Dinner::new(5).unwrap();
    advance_to(&mut d, 1, Phase::AcquiringSecond);
    assert_eq!(d.fork(2), Fork::Occupied(1));
    assert_eq!(d.fork(1), Fork::Free);
}

#[test]
fn even_and_even_neighbours_once_removed_eat_together() {
    let mut d = Dinner::new(5).unwrap();
    advance_to(&mut d, 0, Phase::Eating);
    advance_to(&mut d, 2, Phase::Eating);
    assert_eq!(d.eating_count(), 2);
    assert_eq!(d.fork(0), Fork::Occupied(0));
    assert_eq!(d.fork(1), Fork::Occupied(0));
    assert_eq!(d.fork(2), Fork::Occupied(2));
    assert_eq!(d.fork(3), Fork::Occupied(2));
}

#[test]
fn adjacent_philosophers_never_eat_together() {
    let mut d = Dinner::new(5).unwrap();
    advance_to(&mut d, 0, Phase::Eating);
    advance_to(&mut d, 1, Phase::AcquiringSecond);
    assert_eq!(d.fork(2), Fork::Occupied(1));
    assert!(!d.can_step(1));
    assert!(!d.step(1));
    assert_eq!(d.phase(1), Phase::AcquiringSecond);
    assert_eq!(d.fork(1), Fork::Occupied(0));
    advance_to(&mut d, 0, Phase::Thinking);
    advance_to(&mut d, 1, Phase::Eating);
    assert_eq!(d.eating_count(), 1);
}

#[test]
fn release_frees_both_forks() {
    let mut d = Dinner::new(4).unwrap();
    advance_to(&mut d, 3, Phase::Releasing);
    assert_eq!(d.fork(3), Fork::Occupied(3));
    assert_eq!(d.fork(0), Fork::Occupied(3));
    assert!(d.step(3));
    assert_eq!(d.phase(3), Phase::Thinking);
    assert_eq!(d.fork(3), Fork::Free);
    assert_eq!(d.fork(0), Fork::Free);
}

#[test]
fn waiting_for_second_fork_keeps_the_first() {
    let mut d = Dinner::new(5).unwrap();
    advance_to(&mut d, 2, Phase::Eating);
    advance_to(&mut d, 3, Phase::AcquiringSecond);
    assert_eq!(d.fork(4), Fork::Occupied(3));
    assert!(!d.step(3));
    assert_eq!(d.fork(4), Fork::Occupied(3));
    advance_to(&mut d, 2, Phase::Thinking);
    assert!(d.step(3));
    assert_eq!(d.phase(3), Phase::Eating);
    assert_eq!(d.fork(3), Fork::Occupied(3));
}

#[test]
fn all_waiting_is_never_a_deadlock() {
    for n in 2..8usize {
        let mut d = Dinner::new(n).unwrap();
        for p in 0..n {
            advance_to(&mut d, p, Phase::AcquiringFirst);
        }
        for p in 0..n {
            d.step(p);
        }
        assert!((0..n).any(|p| d.can_step(p)));
    }
}

#[test]
fn meals_keep_coming_with_two() {
    let marks = simulate(2, 1, 4000);
    assert!(marks[0] > 0);
    assert!(marks.windows(2).all(|w| w[0] < w[1]));
}

#[test]
fn meals_keep_coming_with_three() {
    let marks = simulate(3, 7, 4000);
    assert!(marks[0] > 0);
    assert!(marks.windows(2).all(|w| w[0] < w[1]));
}

#[test]
fn meals_keep_coming_with_five() {
    let marks = simulate(5, 42, 8000);
    assert!(marks[0] > 0);
    assert!(marks.windows(2).all(|w| w[0] < w[1]));
}

#[test]
fn the_eating_bound_is_reached_with_six() {
    let mut d = Dinner::new(6).unwrap();
    for p in [0, 2, 4] {
        advance_to(&mut d, p, Phase::Eating);
    }
    assert_eq!(d.eating_count(), 3);
    for p in [1, 3, 5] {
        advance_to(&mut d, p, Phase::AcquiringFirst);
        assert!(!d.step(p));
    }
}
