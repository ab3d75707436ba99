use raft_core::random::Random;

#[test]
fn it_works() {
    let mut random = Random::new(1030307);

    assert_eq!(random.peek(), random.next());
}

#[test]
fn it_gives_a_value_between() {
    let mut random = Random::new(1030307);

    for _ in 0..20 {
        let result = random.next_between(15, 30);
        assert!(result >= 15);
        assert!(result <= 30);
    }
}

#[test]
fn it_draws_the_exact_linear_congruential_value() {
    let random = Random::new(1030307);

    // (1030307 * 378 + 2310) % 10000
    assert_eq!(random.peek(), 8356);
    // 15 + (15 * 8356) / 10000
    assert_eq!(random.peek_between(15, 30), 27);
}

#[test]
fn it_is_deterministic_for_equal_seeds() {
    let mut a = Random::new(7);
    let mut b = Random::new(7);

    for _ in 0..50 {
        assert_eq!(a.next_between(3, 11), b.next_between(3, 11));
    }
    assert_eq!(a.peek(), b.peek());
}

#[test]
fn it_collapses_the_range_when_bounds_are_equal() {
    let mut random = Random::new(42);

    for _ in 0..10 {
        assert_eq!(random.next_between(5, 5), 5);
    }
}
