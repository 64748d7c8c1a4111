use num_bigint::BigUint;
use shamir_sharing::primality::{
    generate_large_prime, is_probably_prime, is_strong_probable_prime, odd_candidate,
    probable_prime_from, verify_share_primality, CANDIDATE_LIMIT, CANDIDATE_ROUNDS,
};

fn big(n: u64) -> BigUint {
    BigUint::from(n)
}

fn decimal(digits: &str) -> BigUint {
    BigUint::parse_bytes(digits.as_bytes(), 10).unwrap()
}

fn has_divisor(n: u64) -> bool {
    let mut d = 2;
    while d * d <= n {
        if n % d == 0 {
            return true;
        }
        d += 1;
    }
    false
}

fn is_prime_by_trial_division(n: u64) -> bool {
    n >= 2 && !has_divisor(n)
}

#[test]
fn numbers_up_to_one_are_refused() {
    assert!(!is_probably_prime(&big(0), 10));
    assert!(!is_probably_prime(&big(1), 10));
}

#[test]
fn two_and_three_are_accepted() {
    assert!(is_probably_prime(&big(2), 10));
    assert!(is_probably_prime(&big(3), 10));
    assert!(is_probably_prime(&big(2), 0));
    assert!(is_probably_prime(&big(3), 0));
}

#[test]
fn even_numbers_above_two_are_refused() {
    assert!(!is_probably_prime(&big(4), 10));
    assert!(!is_probably_prime(&big(1_000_000), 10));
    assert!(!is_probably_prime(&big(4), 0));
    assert!(!is_probably_prime(&decimal("618970019642690137449562112"), 10));
}

#[test]
fn every_small_prime_is_accepted() {
    for n in 0..3000u64 {
        if is_prime_by_trial_division(n) {
            assert!(is_probably_prime(&big(n), 10), "{} is prime", n);
        }
    }
}

#[test]
fn every_small_composite_is_refused() {
    for n in 0..3000u64 {
        if !is_prime_by_trial_division(n) {
            assert!(!is_probably_prime(&big(n), 20), "{} is not prime", n);
        }
    }
}

#[test]
fn one_round_never_refuses_a_prime() {
    for n in [5u64, 7, 11, 13, 17, 97, 7919, 104_729, 2_147_483_647] {
        for _ in 0..20 {
            assert!(is_probably_prime(&big(n), 1), "{} is prime", n);
        }
    }
}

#[test]
fn without_rounds_every_odd_number_from_five_passes() {
    assert!(is_probably_prime(&big(9), 0));
    assert!(is_probably_prime(&big(15), 0));
    assert!(is_probably_prime(&big(17), 0));
}

#[test]
fn carmichael_numbers_are_refused() {
    for n in [561u64, 1105, 1729, 2465, 2821, 6601, 8911] {
        assert!(!is_probably_prime(&big(n), 20), "{} is not prime", n);
    }
}

#[test]
fn large_primes_are_accepted() {
    // 2^61 - 1, 2^89 - 1 and 2^127 - 1
    assert!(is_probably_prime(&big(2_305_843_009_213_693_951), 10));
    assert!(is_probably_prime(&decimal("618970019642690137449562111"), 10));
    assert!(is_probably_prime(
        &decimal("170141183460469231731687303715884105727"),
        10
    ));
}

#[test]
fn large_composites_are_refused() {
    let product = big(2_305_843_009_213_693_951) * big(2_147_483_647);
    assert!(!is_probably_prime(&product, 20));
    let square = decimal("618970019642690137449562111") * decimal("618970019642690137449562111");
    assert!(!is_probably_prime(&square, 20));
}

#[test]
fn strong_probable_prime_follows_the_witness() {
    // 221 = 13 * 17: 220 = 55 * 2^2. 174^55 = 47 and 174^110 = 220 modulo 221, so 174 passes;
    // 137^55 = 188 and 137^110 = 205 modulo 221, so 137 shows that 221 is composite.
    assert!(is_strong_probable_prime(&big(221), &big(174)));
    assert!(!is_strong_probable_prime(&big(221), &big(137)));
    // 2047 = 23 * 89 is the least strong pseudoprime to the base 2.
    assert!(is_strong_probable_prime(&big(2047), &big(2)));
    assert!(!is_strong_probable_prime(&big(2047), &big(3)));
}

#[test]
fn strong_probable_prime_passes_on_first_residue_one() {
    // 7 - 1 = 3 * 2: 2^3 = 8 = 1 modulo 7.
    assert!(is_strong_probable_prime(&big(7), &big(2)));
    // 3^3 = 27 = 6 = 7 - 1 modulo 7.
    assert!(is_strong_probable_prime(&big(7), &big(3)));
}

#[test]
fn strong_probable_prime_needs_the_later_squarings() {
    // 17 - 1 = 1 * 2^4: 3, 9, 81 = 13, 169 = 16 modulo 17; only the fourth residue is 16.
    assert!(is_strong_probable_prime(&big(17), &big(3)));
    // 97 - 1 = 3 * 2^5: 5^3 = 28, then 8, 64, 22, 96 modulo 97.
    assert!(is_strong_probable_prime(&big(97), &big(5)));
}

#[test]
fn strong_probable_prime_is_false_below_three_and_on_even_numbers() {
    for n in [0u64, 1, 2, 4, 10, 222] {
        assert!(!is_strong_probable_prime(&big(n), &big(2)), "{}", n);
        assert!(!is_strong_probable_prime(&big(n), &big(1)), "{}", n);
    }
}

#[test]
fn every_base_passes_for_a_prime() {
    for n in [3u64, 5, 13, 97, 257, 7919] {
        for a in 1..n {
            assert!(is_strong_probable_prime(&big(n), &big(a)), "{} {}", n, a);
        }
    }
}

#[test]
fn a_multiple_of_the_number_is_no_passing_base() {
    assert!(!is_strong_probable_prime(&big(13), &big(0)));
    assert!(!is_strong_probable_prime(&big(13), &big(26)));
    assert!(is_strong_probable_prime(&big(13), &big(27)));
}

#[test]
fn odd_candidate_sets_the_lowest_bit() {
    assert_eq!(odd_candidate(&big(0)), big(1));
    assert_eq!(odd_candidate(&big(1)), big(1));
    assert_eq!(odd_candidate(&big(10)), big(11));
    assert_eq!(odd_candidate(&big(11)), big(11));
    assert_eq!(
        odd_candidate(&decimal("618970019642690137449562110")),
        decimal("618970019642690137449562111")
    );
}

#[test]
fn no_prime_of_at_most_one_bit_is_searched() {
    assert_eq!(generate_large_prime(0), None);
    assert_eq!(generate_large_prime(1), None);
}

#[test]
fn two_bits_give_three() {
    for _ in 0..20 {
        assert_eq!(generate_large_prime(2), Some(big(3)));
    }
}

#[test]
fn generated_primes_are_odd_primes_below_the_bit_length() {
    for bits in [3usize, 4, 8, 16, 24, 32] {
        for _ in 0..10 {
            let p = generate_large_prime(bits).unwrap();
            let digits = p.to_u64_digits();
            assert_eq!(digits.len(), 1);
            let value = digits[0];
            assert!(value < (1u64 << bits), "{} has more than {} bits", value, bits);
            assert_eq!(value % 2, 1);
            assert!(is_prime_by_trial_division(value), "{} is not prime", value);
        }
    }
}

#[test]
fn a_large_prime_fits_its_bit_length() {
    let p = generate_large_prime(256).unwrap();
    assert!(p.bits() <= 256);
    assert!(p.bit(0));
    assert!(is_probably_prime(&p, 20));
}

#[test]
fn the_constants_are_as_documented() {
    assert_eq!(CANDIDATE_ROUNDS, 10);
    assert_eq!(CANDIDATE_LIMIT, u64::MAX);
}

#[test]
fn share_values_are_inspected_in_order() {
    let shares = vec![(1, big(22)), (2, big(4)), (3, big(9)), (4, big(13)), (5, big(1))];
    assert_eq!(
        verify_share_primality(&shares),
        vec![false, false, false, true, false]
    );
}

#[test]
fn no_shares_give_no_verdicts() {
    let shares: Vec<(usize, BigUint)> = Vec::new();
    assert_eq!(verify_share_primality(&shares), Vec::<bool>::new());
}

#[test]
fn a_draw_with_a_prime_candidate_is_accepted() {
    assert_eq!(probable_prime_from(&big(2)), Some(big(3)));
    assert_eq!(probable_prime_from(&big(12)), Some(big(13)));
    assert_eq!(probable_prime_from(&big(13)), Some(big(13)));
    assert_eq!(
        probable_prime_from(&big(2_305_843_009_213_693_950)),
        Some(big(2_305_843_009_213_693_951))
    );
}

#[test]
fn a_draw_with_the_candidate_one_is_refused() {
    assert_eq!(probable_prime_from(&big(0)), None);
    assert_eq!(probable_prime_from(&big(1)), None);
}

#[test]
fn a_draw_with_a_composite_candidate_is_refused() {
    // 9 and 15 have no base from 2 up to their predecessor that lets them pass
    assert_eq!(probable_prime_from(&big(8)), None);
    assert_eq!(probable_prime_from(&big(9)), None);
    assert_eq!(probable_prime_from(&big(14)), None);
    assert_eq!(probable_prime_from(&big(560)), None);
}
