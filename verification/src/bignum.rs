//! The boundary to `num_bigint`, `num_traits`, `rand` and `rand_chacha`.
//!
//! Nothing in this module is proved. Each function holds one call into an
//! outside crate, with a contract that restates what that crate documents.
//! The rest of the library reasons about a `BigUint` only through
//! [`nat_of`], the natural number that it stands for.

use vstd::prelude::*;
use vstd::arithmetic::power::pow;
use vstd::arithmetic::power2::pow2;
use num_bigint::BigUint;
use num_bigint::RandBigInt;
use num_traits::One;
use num_traits::Zero;
use rand::SeedableRng;
use rand_chacha::ChaCha20Rng;

verus! {

/// `num_bigint::BigUint`, an unsigned integer of any size. Its contents are
/// hidden; [`digits_of`] names its digits and [`nat_of`] the number they write.
#[verifier::external_type_specification]
#[verifier::external_body]
pub struct ExBigUint(num_bigint::BigUint);

/// `rand_chacha::ChaCha20Rng`, a cryptographically secure random number
/// generator. Nothing is said of its state.
#[verifier::external_type_specification]
#[verifier::external_body]
pub struct ExChaCha20Rng(rand_chacha::ChaCha20Rng);

/// The base-2^32 digits of a `BigUint`, least significant first, as
/// `BigUint::to_u32_digits` returns them.
pub uninterp spec fn digits_of(n: BigUint) -> Seq<u32>;

/// The number that a sequence of base-2^32 digits, least significant first,
/// writes.
pub open spec fn number(digits: Seq<u32>) -> nat
    decreases digits.len(),
{
    if digits.len() == 0 {
        0
    } else {
        digits[0] as nat + 0x1_0000_0000 * number(digits.drop_first())
    }
}

/// The natural number that a `BigUint` stands for.
pub open spec fn nat_of(n: BigUint) -> nat {
    number(digits_of(n))
}

/// Bitwise or of two natural numbers.
pub open spec fn nat_bitor(a: nat, b: nat) -> nat
    decreases a + b,
{
    if a == 0 {
        b
    } else if b == 0 {
        a
    } else {
        2 * nat_bitor(a / 2, b / 2) + if a % 2 == 1 || b % 2 == 1 { 1nat } else { 0nat }
    }
}

/// `BigUint::from(u64)`: the number `x`.
#[verifier::external_body]
pub(crate) fn big_from_u64(x: u64) -> (r: BigUint)
    ensures
        number(digits_of(r)) == x,
{
    BigUint::from(x)
}

/// `<BigUint as Zero>::zero`: the number 0.
#[verifier::external_body]
pub(crate) fn big_zero() -> (r: BigUint)
    ensures
        number(digits_of(r)) == 0,
{
    BigUint::zero()
}

/// `<BigUint as One>::one`: the number 1.
#[verifier::external_body]
pub(crate) fn big_one() -> (r: BigUint)
    ensures
        number(digits_of(r)) == 1,
{
    BigUint::one()
}

/// `<BigUint as Clone>::clone`: a copy that stands for the same number.
#[verifier::external_body]
pub(crate) fn big_clone(a: &BigUint) -> (r: BigUint)
    ensures
        number(digits_of(r)) == number(digits_of(*a)),
{
    a.clone()
}

/// `<BigUint as PartialEq>::eq`: whether two values stand for the same number.
#[verifier::external_body]
pub(crate) fn big_eq(a: &BigUint, b: &BigUint) -> (r: bool)
    ensures
        r == (number(digits_of(*a)) == number(digits_of(*b))),
{
    a == b
}

/// `<BigUint as PartialOrd>::le`: the order of the numbers.
#[verifier::external_body]
pub(crate) fn big_le(a: &BigUint, b: &BigUint) -> (r: bool)
    ensures
        r == (number(digits_of(*a)) <= number(digits_of(*b))),
{
    a <= b
}

/// `&BigUint + &BigUint`: the sum.
#[verifier::external_body]
pub(crate) fn big_add(a: &BigUint, b: &BigUint) -> (r: BigUint)
    ensures
        number(digits_of(r)) == number(digits_of(*a)) + number(digits_of(*b)),
{
    a + b
}

/// `&BigUint - &BigUint`: the difference. The outside subtraction panics when
/// the result would be negative, so that case is left out.
#[verifier::external_body]
pub(crate) fn big_sub(a: &BigUint, b: &BigUint) -> (r: BigUint)
    requires
        number(digits_of(*a)) >= number(digits_of(*b)),
    ensures
        number(digits_of(r)) == number(digits_of(*a)) - number(digits_of(*b)),
{
    a - b
}

/// `&BigUint * &BigUint`: the product.
#[verifier::external_body]
pub(crate) fn big_mul(a: &BigUint, b: &BigUint) -> (r: BigUint)
    ensures
        number(digits_of(r)) == number(digits_of(*a)) * number(digits_of(*b)),
{
    a * b
}

/// `&BigUint / &BigUint`: the quotient, rounded down. The outside division
/// panics on a zero divisor, so that case is left out.
#[verifier::external_body]
pub(crate) fn big_div(a: &BigUint, b: &BigUint) -> (r: BigUint)
    requires
        number(digits_of(*b)) > 0,
    ensures
        number(digits_of(r)) == number(digits_of(*a)) / number(digits_of(*b)),
{
    a / b
}

/// `&BigUint % &BigUint`: the remainder. The outside operator panics on a
/// zero divisor, so that case is left out.
#[verifier::external_body]
pub(crate) fn big_rem(a: &BigUint, b: &BigUint) -> (r: BigUint)
    requires
        number(digits_of(*b)) > 0,
    ensures
        number(digits_of(r)) == number(digits_of(*a)) % number(digits_of(*b)),
{
    a % b
}

/// `&BigUint | &BigUint`: the bitwise or.
#[verifier::external_body]
pub(crate) fn big_bitor(a: &BigUint, b: &BigUint) -> (r: BigUint)
    ensures
        number(digits_of(r)) == nat_bitor(number(digits_of(*a)), number(digits_of(*b))),
{
    a | b
}

/// `BigUint::modpow`: `base` to the power `exponent`, reduced modulo
/// `modulus`. The outside function panics on a zero modulus, so that case is
/// left out.
#[verifier::external_body]
pub(crate) fn big_modpow(base: &BigUint, exponent: &BigUint, modulus: &BigUint) -> (r: BigUint)
    requires
        number(digits_of(*modulus)) > 0,
    ensures
        number(digits_of(r)) == pow(
            number(digits_of(*base)) as int,
            number(digits_of(*exponent)),
        ) % (number(digits_of(*modulus)) as int),
{
    base.modpow(exponent, modulus)
}

/// `BigUint::bits`: the fewest bits that write the number, so the number is
/// below two to that power.
#[verifier::external_body]
pub(crate) fn big_bits(a: &BigUint) -> (r: u64)
    ensures
        number(digits_of(*a)) < pow2(r as nat),
{
    a.bits()
}

/// `ChaCha20Rng::from_entropy`: a generator seeded by the operating system.
/// Nothing is promised of it. The outside function panics when the system
/// cannot supply entropy.
#[verifier::external_body]
pub(crate) fn entropy_rng() -> ChaCha20Rng {
    ChaCha20Rng::from_entropy()
}

/// `RandBigInt::gen_biguint`: a random number of at most `bits` bits. Which
/// one is not said.
#[verifier::external_body]
pub(crate) fn random_bits(rng: &mut ChaCha20Rng, bits: u64) -> (r: BigUint)
    ensures
        number(digits_of(r)) < pow2(bits as nat),
{
    rng.gen_biguint(bits)
}

/// `RandBigInt::gen_biguint_below`: a random number below `bound`. Which one
/// is not said. The outside function panics on a zero bound, so that case is
/// left out.
#[verifier::external_body]
pub(crate) fn random_below(rng: &mut ChaCha20Rng, bound: &BigUint) -> (r: BigUint)
    requires
        number(digits_of(*bound)) > 0,
    ensures
        number(digits_of(r)) < number(digits_of(*bound)),
{
    rng.gen_biguint_below(bound)
}

/// `RandBigInt::gen_biguint_range`: a random number from `low` up to, but not
/// including, `high`. Which one is not said. The outside function panics on
/// an empty range, so that case is left out.
#[verifier::external_body]
pub(crate) fn random_in_range(rng: &mut ChaCha20Rng, low: &BigUint, high: &BigUint) -> (r: BigUint)
    requires
        number(digits_of(*low)) < number(digits_of(*high)),
    ensures
        number(digits_of(*low)) <= number(digits_of(r)) < number(digits_of(*high)),
{
    rng.gen_biguint_range(low, high)
}

} // verus!
