use wasm_module::{fibonacci, fibonacci_sum, prime_count};

fn is_prime_by_trial_division(k: u32) -> bool {
    if k < 2 {
        return false;
    }
    let mut d: u32 = 2;
    while d < k {
        if k % d == 0 {
            return false;
        }
        d += 1;
    }
    true
}

#[test]
fn fibonacci_first_values() {
    assert_eq!(fibonacci(0), 0);
    assert_eq!(fibonacci(1), 1);
    assert_eq!(fibonacci(2), 1);
    assert_eq!(fibonacci(10), 55);
    assert_eq!(fibonacci(20), 6765);
}

#[test]
fn fibonacci_keeps_recurrence() {
    for n in 2..=200u32 {
        assert_eq!(fibonacci(n), fibonacci(n - 1).wrapping_add(fibonacci(n - 2)));
    }
}

#[test]
fn fibonacci_largest_exact_value() {
    assert_eq!(fibonacci(93), 12200160415121876738);
}

#[test]
fn fibonacci_wraps_past_u64() {
    assert_eq!(fibonacci(94), 1293530146158671551);
}

#[test]
fn fibonacci_sum_of_equal_arguments() {
    assert_eq!(fibonacci_sum(5, 5), 10);
}

#[test]
fn fibonacci_sum_matches_two_calls() {
    for a in 0..40u32 {
        for b in 0..40u32 {
            assert_eq!(fibonacci_sum(a, b), fibonacci(a).wrapping_add(fibonacci(b)));
        }
    }
    assert_eq!(fibonacci_sum(10, 20), 6820);
    assert_eq!(fibonacci_sum(0, 1), 1);
}

#[test]
fn fibonacci_sum_wraps_past_u64() {
    assert_eq!(fibonacci_sum(93, 93), 5953576756534201860);
}

#[test]
fn prime_count_small_limits() {
    assert_eq!(prime_count(0), 0);
    assert_eq!(prime_count(1), 0);
    assert_eq!(prime_count(2), 1);
    assert_eq!(prime_count(10), 4);
    assert_eq!(prime_count(100), 25);
}

#[test]
fn prime_count_at_perfect_squares() {
    assert_eq!(prime_count(3), 2);
    assert_eq!(prime_count(4), 2);
    assert_eq!(prime_count(9), 4);
    assert_eq!(prime_count(25), 9);
    assert_eq!(prime_count(49), 15);
    assert_eq!(prime_count(121), 30);
}

#[test]
fn prime_count_matches_trial_division() {
    let mut expected: u32 = 0;
    for limit in 0..=3000u32 {
        if is_prime_by_trial_division(limit) {
            expected += 1;
        }
        assert_eq!(prime_count(limit), expected);
    }
}

#[test]
fn prime_count_larger_limits() {
    assert_eq!(prime_count(1000), 168);
    assert_eq!(prime_count(10000), 1229);
    assert_eq!(prime_count(1000000), 78498);
}

#[test]
fn repeated_calls_agree() {
    for n in [0u32, 1, 7, 50, 94, 300] {
        assert_eq!(fibonacci(n), fibonacci(n));
        assert_eq!(fibonacci_sum(n, 3), fibonacci_sum(n, 3));
        assert_eq!(prime_count(n), prime_count(n));
    }
}
