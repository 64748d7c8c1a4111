//! The Miller-Rabin test and the search for a probable prime.

use vstd::prelude::*;
use vstd::arithmetic::power::*;
use vstd::arithmetic::power2::*;
use vstd::arithmetic::div_mod::*;
use vstd::arithmetic::mul::*;
use num_bigint::BigUint;
use crate::fermat::lemma_fermat_unit_power;
use crate::modular::{divides, is_prime, lemma_euclid, lemma_sub_congruent};
use crate::bignum::{
    big_bitor, big_bits, big_clone, big_div, big_eq, big_from_u64, big_le, big_modpow, big_one,
    big_rem, big_sub, big_zero, entropy_rng, nat_bitor, nat_of, random_bits, random_in_range,
};

verus! {

/// The rounds that the Miller-Rabin test runs on each candidate of
/// [`generate_large_prime`] and on each share of
/// [`verify_share_primality`].
pub const CANDIDATE_ROUNDS: usize = 10;

/// The candidates that [`generate_large_prime`] tries before it gives up.
pub const CANDIDATE_LIMIT: u64 = 0xffff_ffff_ffff_ffff;

/// How often 2 divides `n`; 0 for `n == 0`.
pub open spec fn two_adicity(n: nat) -> nat
    decreases n,
{
    if n == 0 || n % 2 == 1 {
        0
    } else {
        1 + two_adicity(n / 2)
    }
}

/// What is left of `n` once every factor 2 is divided out; 0 for `n == 0`.
pub open spec fn odd_part(n: nat) -> nat
    decreases n,
{
    if n == 0 || n % 2 == 1 {
        n
    } else {
        odd_part(n / 2)
    }
}

/// `a` to the power `d * 2^r`, reduced modulo `n`.
pub open spec fn squaring_residue(n: nat, a: nat, d: nat, r: nat) -> int {
    pow(a as int, d * pow2(r)) % (n as int)
}

/// One round of Miller-Rabin on `n` with the exponent `n - 1` already written
/// as `d * 2^s`: the first residue is 1, or one of the first `s` residues is
/// `n - 1`.
pub open spec fn round_passes(n: nat, d: nat, s: nat, a: nat) -> bool {
    squaring_residue(n, a, d, 0) == 1 || exists|r: nat|
        r < s && #[trigger] squaring_residue(n, a, d, r) == n - 1
}

/// `n` is odd, at least 3, and a strong probable prime to the base `a`: the
/// witness `a` finds no evidence that `n` is composite.
pub open spec fn strong_probable_prime(n: nat, a: nat) -> bool {
    n >= 3 && n % 2 == 1 && round_passes(
        n,
        odd_part((n - 1) as nat),
        two_adicity((n - 1) as nat),
        a,
    )
}

/// The verdicts that the Miller-Rabin test with `rounds` random witnesses
/// from `2` up to, but not including, `n - 1` can reach on `n`.
///
/// Up to 3 and on even numbers the verdict is fixed. Above, `true` needs a
/// witness that passes, unless no round is run, and `false` needs a round
/// and a witness that fails.
pub open spec fn verdict_possible(n: nat, rounds: nat, verdict: bool) -> bool {
    if n <= 1 {
        !verdict
    } else if n <= 3 {
        verdict
    } else if n % 2 == 0 {
        !verdict
    } else if verdict {
        rounds == 0 || exists|a: nat| 2 <= a < n - 1 && #[trigger] strong_probable_prime(n, a)
    } else {
        rounds > 0 && exists|a: nat| 2 <= a < n - 1 && !#[trigger] strong_probable_prime(n, a)
    }
}

/// Writes a positive `m` as `d * 2^s` with `d` odd, by halving `m` while it
/// is even. The bit length of `m` bounds the number of halvings.
fn split_even_part(m: &BigUint) -> (parts: (BigUint, u64))
    requires
        nat_of(*m) > 0,
    ensures
        nat_of(parts.0) == odd_part(nat_of(*m)),
        parts.1 == two_adicity(nat_of(*m)),
{
    let limit = big_bits(m);
    let zero = big_zero();
    let two = big_from_u64(2);
    let mut d = big_clone(m);
    let mut s: u64 = 0;
    let mut low = big_rem(&d, &two);
    proof {
        lemma2_to64();
    }
    while s < limit && big_eq(&low, &zero)
        invariant
            nat_of(two) == 2,
            nat_of(zero) == 0,
            nat_of(d) > 0,
            nat_of(low) == nat_of(d) % 2,
            odd_part(nat_of(d)) == odd_part(nat_of(*m)),
            two_adicity(nat_of(d)) + s == two_adicity(nat_of(*m)),
            nat_of(d) * pow2(s as nat) == nat_of(*m),
            nat_of(*m) < pow2(limit as nat),
        decreases limit - s,
    {
        proof {
            let dv = nat_of(d);
            let sv = s as nat;
            lemma_pow2_unfold(sv + 1);
            assert((dv / 2) * pow2(sv + 1) == dv * pow2(sv)) by (nonlinear_arith)
                requires
                    dv % 2 == 0,
                    pow2(sv + 1) == 2 * pow2(sv),
            ;
        }
        d = big_div(&d, &two);
        s = s + 1;
        low = big_rem(&d, &two);
    }
    proof {
        let dv = nat_of(d);
        let sv = s as nat;
        if s >= limit {
            // two to the power `s` is no greater than `m`, which is below two to the
            // power `limit`
            lemma_pow2_pos(sv);
            assert(dv * pow2(sv) >= pow2(sv)) by (nonlinear_arith)
                requires
                    dv >= 1,
            ;
            if sv > limit as nat {
                lemma_pow2_strictly_increases(limit as nat, sv);
            }
        }
    }
    (d, s)
}

/// A positive number is its odd part times two to the power of its
/// 2-adicity.
pub proof fn lemma_even_part(m: nat)
    requires
        m > 0,
    ensures
        odd_part(m) * pow2(two_adicity(m)) == m,
        odd_part(m) % 2 == 1,
    decreases m,
{
    if m % 2 == 1 {
        lemma2_to64();
        assert(m * 1 == m);
    } else {
        let half = m / 2;
        lemma_even_part(half);
        lemma_pow2_unfold(two_adicity(m));
        assert(odd_part(half) * (2 * pow2(two_adicity(half))) == 2 * (odd_part(half) * pow2(
            two_adicity(half),
        ))) by (nonlinear_arith);
    }
}

/// Squaring the residue of step `r` gives the residue of step `r + 1`.
proof fn lemma_squaring_step(n: nat, a: nat, d: nat, r: nat)
    requires
        n > 0,
    ensures
        pow(squaring_residue(n, a, d, r), 2) % (n as int) == squaring_residue(n, a, d, r + 1),
{
    let e = d * pow2(r);
    lemma_pow_mod_noop(pow(a as int, e), 2, n as int);
    lemma_pow_multiplies(a as int, e, 2);
    lemma_pow2_unfold(r + 1);
    assert(e * 2 == d * pow2(r + 1)) by (nonlinear_arith)
        requires
            e == d * pow2(r),
            pow2(r + 1) == 2 * pow2(r),
    ;
}

/// Modulo a prime, 1 has no square roots but 1 and -1.
pub proof fn lemma_square_root_of_one(p: nat, z: int)
    requires
        is_prime(p),
        0 <= z < p,
        (z * z) % (p as int) == 1,
    ensures
        z == 1 || z == p - 1,
{
    let pi = p as int;
    lemma_small_mod(1, p);
    lemma_sub_congruent(z * z, 1, 1, 1, pi);
    lemma_small_mod(0, p);
    assert(z * z - 1 == (z - 1) * (z + 1)) by (nonlinear_arith);
    lemma_euclid(p, z - 1, z + 1);
    if (z - 1) % pi == 0 {
        if z == 0 {
            assert((z - 1) % pi == pi - 1) by {
                lemma_mod_sub_multiples_vanish(z - 1, pi);
                lemma_small_mod((pi - 1) as nat, p);
                lemma_mod_add_multiples_vanish(z - 1, pi);
            }
        } else {
            lemma_small_mod((z - 1) as nat, p);
        }
    } else {
        if z + 1 < pi {
            lemma_small_mod((z + 1) as nat, p);
        }
    }
}

/// Modulo a prime, a chain of squarings that arrives at 1 started at 1 or
/// went through -1.
pub proof fn lemma_squaring_chain(n: nat, a: nat, d: nat, r: nat)
    requires
        is_prime(n),
        squaring_residue(n, a, d, r) == 1,
    ensures
        round_passes(n, d, r, a),
    decreases r,
{
    if r > 0 {
        let before = squaring_residue(n, a, d, (r - 1) as nat);
        lemma_squaring_step(n, a, d, (r - 1) as nat);
        lemma_square_is_pow2(before);
        lemma_mod_bound(pow(a as int, d * pow2((r - 1) as nat)), n as int);
        lemma_square_root_of_one(n, before);
        if before == 1 {
            lemma_squaring_chain(n, a, d, (r - 1) as nat);
            if squaring_residue(n, a, d, 0) != 1 {
                let j = choose|j: nat|
                    j < r - 1 && #[trigger] squaring_residue(n, a, d, j) == n - 1;
                assert(j < r && squaring_residue(n, a, d, j) == n - 1);
            }
        } else {
            assert(squaring_residue(n, a, d, (r - 1) as nat) == n - 1);
        }
    }
}

/// A prime from 3 on is a strong probable prime to every base that it does
/// not divide: the Miller-Rabin test refuses no prime.
pub proof fn lemma_prime_is_strong_probable_prime(n: nat, a: nat)
    requires
        is_prime(n),
        n >= 3,
        a % n != 0,
    ensures
        strong_probable_prime(n, a),
{
    let even = (n - 1) as nat;
    let d = odd_part(even);
    let s = two_adicity(even);
    assert(n % 2 == 1) by {
        assert(!divides(2, n));
    }
    lemma_even_part(even);
    lemma_fermat_unit_power(n, a);
    lemma_squaring_chain(n, a, d, s);
}

/// The Miller-Rabin test cannot refuse a prime.
pub proof fn lemma_primes_always_pass(n: nat, rounds: nat)
    requires
        is_prime(n),
    ensures
        !verdict_possible(n, rounds, false),
{
    if n > 3 {
        if n % 2 == 0 {
            assert(divides(2, n));
        } else {
            assert forall|a: nat| 2 <= a < n - 1 implies #[trigger] strong_probable_prime(
                n,
                a,
            ) by {
                lemma_small_mod(a, n);
                lemma_prime_is_strong_probable_prime(n, a);
            }
        }
    }
}

/// One round of Miller-Rabin with the witness `a`, for an odd `n` whose
/// predecessor is `d * 2^s`.
fn run_round(n: &BigUint, n_minus_one: &BigUint, d: &BigUint, s: u64, a: &BigUint) -> (passed:
    bool)
    requires
        nat_of(*n) >= 3,
        nat_of(*n_minus_one) == nat_of(*n) - 1,
        s >= 1,
    ensures
        passed == round_passes(nat_of(*n), nat_of(*d), s as nat, nat_of(*a)),
{
    let ghost nv = nat_of(*n);
    let ghost av = nat_of(*a);
    let ghost dv = nat_of(*d);
    let one = big_one();
    let two = big_from_u64(2);
    let mut x = big_modpow(a, d, n);
    proof {
        lemma2_to64();
        assert(dv * pow2(0) == dv) by (nonlinear_arith)
            requires
                pow2(0) == 1,
        ;
    }
    if big_eq(&x, &one) {
        return true;
    }
    if big_eq(&x, n_minus_one) {
        assert(squaring_residue(nv, av, dv, 0) == nv - 1);
        return true;
    }
    let mut r: u64 = 1;
    while r < s
        invariant
            1 <= r <= s,
            nv == nat_of(*n),
            av == nat_of(*a),
            dv == nat_of(*d),
            nv >= 3,
            nat_of(*n_minus_one) == nv - 1,
            nat_of(two) == 2,
            nat_of(x) == squaring_residue(nv, av, dv, (r - 1) as nat),
            squaring_residue(nv, av, dv, 0) != 1,
            forall|j: nat| j < r ==> #[trigger] squaring_residue(nv, av, dv, j) != nv - 1,
        decreases s - r,
    {
        x = big_modpow(&x, &two, n);
        proof {
            lemma_squaring_step(nv, av, dv, (r - 1) as nat);
        }
        if big_eq(&x, n_minus_one) {
            assert(squaring_residue(nv, av, dv, r as nat) == nv - 1);
            return true;
        }
        r = r + 1;
    }
    false
}

/// Whether `n` is a strong probable prime to the base `a`: one round of the
/// Miller-Rabin test with a witness that the caller chooses.
pub fn is_strong_probable_prime(n: &BigUint, a: &BigUint) -> (result: bool)
    ensures
        result == strong_probable_prime(nat_of(*n), nat_of(*a)),
{
    let one = big_one();
    let two = big_from_u64(2);
    if big_le(n, &two) {
        return false;
    }
    let low = big_rem(n, &two);
    if !big_eq(&low, &one) {
        return false;
    }
    let n_minus_one = big_sub(n, &one);
    let (d, s) = split_even_part(&n_minus_one);
    run_round(n, &n_minus_one, &d, s, a)
}

/// The Miller-Rabin test with `k` random witnesses.
///
/// Numbers up to 1 and even numbers above 2 are never accepted; 2 and 3
/// always are. An odd `n` from 5 on is accepted when every one of `k`
/// witnesses, drawn from `2` up to, but not including, `n - 1`, makes it a
/// strong probable prime, and refused at the first witness that does not.
/// No prime is refused. A composite `n` is accepted with probability at most
/// `4^-k`; that bound is not part of the contract.
pub fn is_probably_prime(n: &BigUint, k: usize) -> (result: bool)
    ensures
        verdict_possible(nat_of(*n), k as nat, result),
        is_prime(nat_of(*n)) ==> result,
{
    let ghost nv = nat_of(*n);
    proof {
        if is_prime(nv) {
            lemma_primes_always_pass(nv, k as nat);
        }
    }
    let one = big_one();
    let two = big_from_u64(2);
    if big_le(n, &one) {
        return false;
    }
    if big_eq(n, &two) {
        return true;
    }
    let low = big_rem(n, &two);
    if !big_eq(&low, &one) {
        return false;
    }
    let n_minus_one = big_sub(n, &one);
    if big_le(&n_minus_one, &two) {
        return true;
    }
    let (d, s) = split_even_part(&n_minus_one);
    let mut rng = entropy_rng();
    let mut round: usize = 0;
    let ghost mut passing: nat = 0;
    while round < k
        invariant
            round <= k,
            nv == nat_of(*n),
            nv >= 5,
            nv % 2 == 1,
            nat_of(n_minus_one) == nv - 1,
            nat_of(two) == 2,
            nat_of(d) == odd_part((nv - 1) as nat),
            s == two_adicity((nv - 1) as nat),
            s >= 1,
            round > 0 ==> 2 <= passing < nv - 1 && strong_probable_prime(nv, passing),
        decreases k - round,
    {
        let a = random_in_range(&mut rng, &two, &n_minus_one);
        if !run_round(n, &n_minus_one, &d, s, &a) {
            proof {
                assert(!strong_probable_prime(nv, nat_of(a)));
                if is_prime(nv) {
                    lemma_small_mod(nat_of(a), nv);
                    lemma_prime_is_strong_probable_prime(nv, nat_of(a));
                }
            }
            return false;
        }
        proof {
            passing = nat_of(a);
        }
        round = round + 1;
    }
    true
}

/// `n` with its lowest bit set: the next odd number for an even `n`, and `n`
/// itself for an odd one.
pub open spec fn with_low_bit(n: nat) -> nat {
    if n % 2 == 0 {
        n + 1
    } else {
        n
    }
}

/// Or-ing 1 into a number sets its lowest bit and leaves the rest.
proof fn lemma_bitor_one(n: nat)
    ensures
        nat_bitor(n, 1) == with_low_bit(n),
{
    if n != 0 {
        assert(nat_bitor(n / 2, 0) == n / 2);
    }
}

/// Setting the lowest bit keeps a number below a positive power of two.
proof fn lemma_low_bit_stays_below(n: nat, bits: nat)
    requires
        n < pow2(bits),
        bits >= 1,
    ensures
        with_low_bit(n) < pow2(bits),
{
    lemma_pow2_unfold(bits);
}

/// Turns a random draw into a candidate for a prime by setting its lowest
/// bit, which makes it odd.
pub fn odd_candidate(raw: &BigUint) -> (candidate: BigUint)
    ensures
        nat_of(candidate) == with_low_bit(nat_of(*raw)),
{
    let one = big_one();
    proof {
        lemma_bitor_one(nat_of(*raw));
    }
    big_bitor(raw, &one)
}

/// Searches for a probable prime of at most `bits` bits.
///
/// Each candidate is a random draw below `2^bits` with its lowest bit set;
/// its highest bit is left as drawn, so the result may be shorter. The first
/// draw that [`probable_prime_from`] accepts gives the result. With
/// `bits <= 1` the only candidate is 1, and the search is not started. It
/// gives up after [`CANDIDATE_LIMIT`] draws. Every draw can be 0, which is
/// never accepted, so there is no input on which a prime is owed.
pub fn generate_large_prime(bits: usize) -> (result: Option<BigUint>)
    ensures
        bits <= 1 ==> result is None,
        result matches Some(p) ==> {
            &&& nat_of(p) < pow2(bits as nat)
            &&& nat_of(p) % 2 == 1
            &&& nat_of(p) >= 3
            &&& verdict_possible(nat_of(p), CANDIDATE_ROUNDS as nat, true)
        },
{
    if bits <= 1 {
        return None;
    }
    let mut rng = entropy_rng();
    let mut attempt: u64 = 0;
    while attempt < CANDIDATE_LIMIT
        invariant
            bits > 1,
        decreases CANDIDATE_LIMIT - attempt,
    {
        let raw = random_bits(&mut rng, bits as u64);
        proof {
            lemma_low_bit_stays_below(nat_of(raw), bits as nat);
        }
        let found = probable_prime_from(&raw);
        if found.is_some() {
            return found;
        }
        attempt = attempt + 1;
    }
    None
}

/// Runs the Miller-Rabin test with [`CANDIDATE_ROUNDS`] rounds on the value
/// of every share, in order. The verdicts are for inspection only: a share
/// is a residue like any other and is not expected to be prime.
pub fn verify_share_primality(shares: &[(usize, BigUint)]) -> (verdicts: Vec<bool>)
    ensures
        verdicts.len() == shares.len(),
        forall|i: int|
            0 <= i < shares.len() ==> verdict_possible(
                nat_of(#[trigger] shares[i].1),
                CANDIDATE_ROUNDS as nat,
                verdicts[i],
            ),
        forall|i: int|
            0 <= i < shares.len() && is_prime(nat_of(#[trigger] shares[i].1)) ==> verdicts[i],
{
    let mut verdicts: Vec<bool> = Vec::new();
    let mut i: usize = 0;
    while i < shares.len()
        invariant
            i <= shares.len(),
            verdicts.len() == i,
            forall|j: int|
                0 <= j < i ==> verdict_possible(
                    nat_of(#[trigger] shares[j].1),
                    CANDIDATE_ROUNDS as nat,
                    verdicts[j],
                ),
            forall|j: int| 0 <= j < i && is_prime(nat_of(#[trigger] shares[j].1)) ==> verdicts[j],
        decreases shares.len() - i,
    {
        let verdict = is_probably_prime(&shares[i].1, CANDIDATE_ROUNDS);
        verdicts.push(verdict);
        i = i + 1;
    }
    verdicts
}

/// What the search makes of one random draw: the draw with its lowest bit
/// set, if that candidate passes [`CANDIDATE_ROUNDS`] rounds of Miller-Rabin,
/// and nothing if it does not. A draw whose candidate is prime is always
/// accepted; one whose candidate is 1 never is.
pub fn probable_prime_from(raw: &BigUint) -> (result: Option<BigUint>)
    ensures
        match result {
            Some(p) => nat_of(p) == with_low_bit(nat_of(*raw)) && verdict_possible(
                nat_of(p),
                CANDIDATE_ROUNDS as nat,
                true,
            ),
            None => verdict_possible(
                with_low_bit(nat_of(*raw)),
                CANDIDATE_ROUNDS as nat,
                false,
            ),
        },
        is_prime(with_low_bit(nat_of(*raw))) ==> result is Some,
        with_low_bit(nat_of(*raw)) == 1 ==> result is None,
{
    let candidate = odd_candidate(raw);
    if is_probably_prime(&candidate, CANDIDATE_ROUNDS) {
        Some(candidate)
    } else {
        None
    }
}

} // verus!
