//! Polynomials with integer coefficients, as sequences of coefficients with
//! the constant term first.

use vstd::prelude::*;
use vstd::arithmetic::power::{pow, lemma_pow0, lemma_pow_adds, lemma_pow1};

verus! {

/// The value of the polynomial `c[0] + c[1] * x + c[2] * x^2 + ...` at `x`.
pub open spec fn poly_eval(c: Seq<int>, x: int) -> int
    decreases c.len(),
{
    if c.len() == 0 {
        0
    } else {
        c[0] + x * poly_eval(c.drop_first(), x)
    }
}

/// A further coefficient adds its monomial to the value.
pub proof fn lemma_eval_push(c: Seq<int>, v: int, x: int)
    ensures
        poly_eval(c.push(v), x) == poly_eval(c, x) + v * pow(x, c.len()),
    decreases c.len(),
{
    if c.len() == 0 {
        assert(c.push(v).drop_first() =~= Seq::<int>::empty());
        assert(poly_eval(c.push(v).drop_first(), x) == 0);
        lemma_pow0(x);
    } else {
        let rest = c.drop_first();
        assert(c.push(v).drop_first() =~= rest.push(v));
        lemma_eval_push(rest, v, x);
        let k = rest.len();
        lemma_pow_adds(x, 1, k);
        lemma_pow1(x);
        let below = poly_eval(rest, x);
        let top = pow(x, k);
        assert(x * (below + v * top) == x * below + v * (x * top)) by (nonlinear_arith);
    }
}

/// The quotient of `c` by `x - a`: the polynomial `q` with
/// `c(x) == c(a) + (x - a) * q(x)`. It has one coefficient less than `c`.
pub open spec fn poly_quotient(c: Seq<int>, a: int) -> Seq<int>
    decreases c.len(),
{
    if c.len() <= 1 {
        Seq::empty()
    } else {
        seq![poly_eval(c.drop_first(), a)] + poly_quotient(c.drop_first(), a)
    }
}

/// The quotient is one coefficient shorter.
pub proof fn lemma_quotient_len(c: Seq<int>, a: int)
    ensures
        poly_quotient(c, a).len() == if c.len() == 0 {
            0
        } else {
            c.len() - 1
        },
    decreases c.len(),
{
    if c.len() > 1 {
        lemma_quotient_len(c.drop_first(), a);
    }
}

/// Division of a polynomial by `x - a` with the remainder `c(a)`.
pub proof fn lemma_division(c: Seq<int>, a: int, x: int)
    ensures
        poly_eval(c, x) == poly_eval(c, a) + (x - a) * poly_eval(poly_quotient(c, a), x),
    decreases c.len(),
{
    if c.len() == 0 {
    } else if c.len() == 1 {
        assert(poly_eval(c.drop_first(), x) == 0);
        assert(poly_eval(c.drop_first(), a) == 0);
        assert(poly_eval(poly_quotient(c, a), x) == 0);
    } else {
        let rest = c.drop_first();
        let q = poly_quotient(c, a);
        lemma_division(rest, a, x);
        assert(q.drop_first() =~= poly_quotient(rest, a));
        let at_x = poly_eval(rest, x);
        let at_a = poly_eval(rest, a);
        let lower = poly_eval(poly_quotient(rest, a), x);
        assert(poly_eval(q, x) == at_a + x * lower);
        assert(c[0] + x * at_x == c[0] + a * at_a + (x - a) * (at_a + x * lower))
            by (nonlinear_arith)
            requires
                at_x == at_a + (x - a) * lower,
        ;
    }
}

/// The polynomial `c` with every coefficient multiplied by `k`.
pub open spec fn poly_scale(c: Seq<int>, k: int) -> Seq<int> {
    Seq::new(c.len(), |i: int| k * c[i])
}

/// Scaling a polynomial scales its values.
pub proof fn lemma_eval_scale(c: Seq<int>, k: int, x: int)
    ensures
        poly_eval(poly_scale(c, k), x) == k * poly_eval(c, x),
    decreases c.len(),
{
    if c.len() > 0 {
        let rest = c.drop_first();
        lemma_eval_scale(rest, k, x);
        assert(poly_scale(c, k).drop_first() =~= poly_scale(rest, k));
        let below = poly_eval(rest, x);
        assert(k * c[0] + x * (k * below) == k * (c[0] + x * below)) by (nonlinear_arith);
    }
}

/// The coefficient of `x^i` in `c`: zero beyond its end.
pub open spec fn coefficient(c: Seq<int>, i: int) -> int {
    if 0 <= i < c.len() {
        c[i]
    } else {
        0
    }
}

/// The sum of two polynomials, as long as the longer one.
pub open spec fn poly_add(a: Seq<int>, b: Seq<int>) -> Seq<int> {
    Seq::new(
        if a.len() >= b.len() {
            a.len()
        } else {
            b.len()
        },
        |i: int| coefficient(a, i) + coefficient(b, i),
    )
}

/// The value of a sum of polynomials is the sum of their values.
pub proof fn lemma_eval_add(a: Seq<int>, b: Seq<int>, x: int)
    ensures
        poly_eval(poly_add(a, b), x) == poly_eval(a, x) + poly_eval(b, x),
    decreases a.len() + b.len(),
{
    if a.len() == 0 {
        assert(poly_add(a, b) =~= b);
    } else if b.len() == 0 {
        assert(poly_add(a, b) =~= a);
    } else {
        lemma_eval_add(a.drop_first(), b.drop_first(), x);
        assert(poly_add(a, b).drop_first() =~= poly_add(a.drop_first(), b.drop_first()));
        let above = poly_eval(a.drop_first(), x);
        let below = poly_eval(b.drop_first(), x);
        assert(x * (above + below) == x * above + x * below) by (nonlinear_arith);
    }
}

/// The product of `c` and the linear polynomial `a + b * x`.
pub open spec fn poly_mul_linear(c: Seq<int>, a: int, b: int) -> Seq<int> {
    poly_add(poly_scale(c, a), seq![0int] + poly_scale(c, b))
}

/// The value of a product with a linear polynomial is the product of the
/// values.
pub proof fn lemma_eval_mul_linear(c: Seq<int>, a: int, b: int, x: int)
    ensures
        poly_eval(poly_mul_linear(c, a, b), x) == (a + b * x) * poly_eval(c, x),
{
    let shifted = seq![0int] + poly_scale(c, b);
    lemma_eval_add(poly_scale(c, a), shifted, x);
    lemma_eval_scale(c, a, x);
    lemma_eval_scale(c, b, x);
    assert(shifted.drop_first() =~= poly_scale(c, b));
    let value = poly_eval(c, x);
    assert(a * value + x * (b * value) == (a + b * x) * value) by (nonlinear_arith);
}

} // verus!
