use ruchy_docker::primes::sieve_of_eratosthenes;

#[test]
fn test_sieve_below_two_is_empty() {
    assert_eq!(sieve_of_eratosthenes(0), 0);
    assert_eq!(sieve_of_eratosthenes(1), 0);
}

#[test]
fn test_sieve_small_values() {
    assert_eq!(sieve_of_eratosthenes(2), 1);
    assert_eq!(sieve_of_eratosthenes(3), 2);
    assert_eq!(sieve_of_eratosthenes(4), 2);
    assert_eq!(sieve_of_eratosthenes(10), 4);
    assert_eq!(sieve_of_eratosthenes(11), 5);
    assert_eq!(sieve_of_eratosthenes(100), 25);
    assert_eq!(sieve_of_eratosthenes(1000), 168);
}

#[test]
fn test_sieve_squares_of_primes() {
    // A square of a prime is the first multiple that the sieve crosses for it.
    assert_eq!(sieve_of_eratosthenes(8), 4);
    assert_eq!(sieve_of_eratosthenes(9), 4);
    assert_eq!(sieve_of_eratosthenes(24), 9);
    assert_eq!(sieve_of_eratosthenes(25), 9);
    assert_eq!(sieve_of_eratosthenes(48), 15);
    assert_eq!(sieve_of_eratosthenes(49), 15);
}

#[test]
fn test_sieve_hundred_thousand() {
    assert_eq!(sieve_of_eratosthenes(100_000), 9592);
}

#[test]
fn test_sieve_agrees_with_trial_division() {
    let mut count = 0;
    for n in 0..300usize {
        let mut prime = n >= 2;
        let mut d = 2;
        while d < n {
            if n % d == 0 {
                prime = false;
            }
            d += 1;
        }
        if prime {
            count += 1;
        }
        assert_eq!(sieve_of_eratosthenes(n), count);
    }
}
