//! Best rational approximation with a bounded denominator.
//!
//! Given a target fraction `num/den` in the unit interval and a bound
//! `max_den`, the library computes the tightest pair of fractions that
//! bracket the target from below and above while keeping both denominators
//! at most `max_den`. The search walks the Stern-Brocot tree by repeated
//! mediant steps rather than expanding a continued fraction.

pub mod arithmetics;
pub mod number_theory;

use vstd::prelude::*;

use crate::arithmetics::{bounded, cross_det, squeeze_right_first, Farey, DEN_LIMIT};

verus! {

/// Inputs the library accepts: a target `num/den` in the unit interval with
/// a positive denominator, a positive bound, and both denominators small
/// enough that every cross product fits in a `u64`.
pub open spec fn valid_input(num: u64, den: u64, max_den: u64) -> bool {
    &&& 1 <= den
    &&& num <= den
    &&& 1 <= max_den
    &&& den <= DEN_LIMIT
    &&& max_den <= DEN_LIMIT
}

/// What [`get_closest_fraction`] promises of its result pair `(f1, f2)`:
/// both are reduced fractions with denominators at most `max_den` that
/// bracket the target, `f1 <= num/den <= f2` by cross multiplication;
/// when they differ they are Farey neighbors at order `max_den` (their
/// determinant is 1 and their denominators sum past the bound, so nothing
/// representable lies strictly between them); and when the reduced target
/// itself fits the bound, both equal it exactly.
pub open spec fn closest_pair(num: u64, den: u64, max_den: u64, f1: Farey, f2: Farey) -> bool {
    let g = number_theory::gcd(num as nat, den as nat) as int;
    let a = num as int / g;
    let b = den as int / g;
    &&& bounded(f1, max_den)
    &&& bounded(f2, max_den)
    &&& f1.num * den <= num * f1.den
    &&& num * f2.den <= f2.num * den
    &&& number_theory::gcd(f1.num as nat, f1.den as nat) == 1
    &&& number_theory::gcd(f2.num as nat, f2.den as nat) == 1
    &&& f1 != f2 ==> cross_det(f1, f2) == 1 && f1.den + f2.den > max_den
    &&& b <= max_den ==> f1.num == a && f1.den == b && f2 == f1
}

/// Greatest common divisor by Euclid's algorithm.
fn gcd(x: u64, y: u64) -> (g: u64)
    ensures
        g == number_theory::gcd(x as nat, y as nat),
{
    let mut a: u64 = x;
    let mut b: u64 = y;
    while b != 0
        invariant
            number_theory::gcd(a as nat, b as nat) == number_theory::gcd(x as nat, y as nat),
        decreases b,
    {
        let t: u64 = b;
        b = a % b;
        a = t;
    }
    a
}

/// Reduce the target to lowest terms, then squeeze the root bracket
/// `(0/1, 1/1)` around it: the result is the largest bounded fraction at
/// most the target and the smallest bounded fraction at least the target,
/// as [`closest_pair`] states.
pub fn get_closest_fraction(num: u64, den: u64, max_den: u64) -> (r: (Farey, Farey))
    requires
        valid_input(num, den, max_den),
    ensures
        closest_pair(num, den, max_den, r.0, r.1),
{
    proof {
        number_theory::lemma_gcd_reduce(num as nat, den as nat);
    }
    let g: u64 = gcd(num, den);
    let x: u64 = num / g;
    let y: u64 = den / g;
    proof {
        assert(x <= y) by (nonlinear_arith)
            requires
                num as int == g * x,
                den as int == g * y,
                g >= 1,
                num <= den,
        ;
    }
    if y <= max_den {
        let t = Farey { num: x, den: y };
        proof {
            assert(t.num * den == num * t.den) by (nonlinear_arith)
                requires
                    num as int == g * x,
                    den as int == g * y,
                    t.num == x,
                    t.den == y,
            ;
        }
        (t, t)
    } else {
        let mut f1 = Farey { num: 0, den: 1 };
        let mut f2 = Farey { num: 1, den: 1 };
        let f = Farey { num: x, den: y };
        squeeze_right_first(&mut f1, &f, &mut f2, max_den);
        proof {
            number_theory::lemma_unimodular_coprime(
                f1.num as int,
                f1.den as int,
                f2.num as int,
                f2.den as int,
            );
            assert(f1.num * den <= num * f1.den) by (nonlinear_arith)
                requires
                    f1.num * y <= x * f1.den,
                    num as int == g * x,
                    den as int == g * y,
                    g >= 1,
            ;
            assert(num * f2.den <= f2.num * den) by (nonlinear_arith)
                requires
                    x * f2.den <= f2.num * y,
                    num as int == g * x,
                    den as int == g * y,
                    g >= 1,
            ;
        }
        (f1, f2)
    }
}

/// Idempotence of the search: when a call collapses to a single fraction
/// `f1 == f2`, feeding that fraction back in with the same bound returns it
/// unchanged, because the result of a call is already in lowest terms and
/// within the bound.
pub proof fn lemma_closest_pair_idempotent(
    num: u64,
    den: u64,
    max_den: u64,
    f1: Farey,
    f2: Farey,
    r1: Farey,
    r2: Farey,
)
    requires
        valid_input(num, den, max_den),
        closest_pair(num, den, max_den, f1, f2),
        f1 == f2,
        closest_pair(f1.num, f1.den, max_den, r1, r2),
    ensures
        r1 == f1,
        r2 == f1,
{
    assert(number_theory::gcd(f1.num as nat, f1.den as nat) == 1);
    assert(f1.num as int / 1int == f1.num as int);
    assert(f1.den as int / 1int == f1.den as int);
    assert(r1.num == f1.num && r1.den == f1.den && r2 == r1);
}

/// No fraction with denominator at most `max_den` lies strictly between the
/// two halves of a result pair: every such `p/q` is at most `f1` or at
/// least `f2` in value. Together with the bracket `f1 <= num/den <= f2`,
/// this makes `f1` the best bounded approximation from below and `f2` the
/// best from above.
pub proof fn lemma_no_fraction_between(
    num: u64,
    den: u64,
    max_den: u64,
    f1: Farey,
    f2: Farey,
    p: u64,
    q: u64,
)
    requires
        valid_input(num, den, max_den),
        closest_pair(num, den, max_den, f1, f2),
        1 <= q <= max_den,
    ensures
        p * f1.den <= f1.num * q || f2.num * q <= p * f2.den,
{
    if f1 != f2 {
        if f1.num * q < p * f1.den && p * f2.den < f2.num * q {
            number_theory::lemma_farey_gap(
                f1.num as int,
                f1.den as int,
                f2.num as int,
                f2.den as int,
                p as int,
                q as int,
            );
        }
    }
}

/// Optimality of the result pair: among all fractions `p/q` with
/// `1 <= q <= max_den`, `f1` is the largest whose value is at most the
/// target `num/den`, and `f2` the smallest whose value is at least it
/// (cross-multiplication order throughout).
pub proof fn lemma_closest_pair_optimal(
    num: u64,
    den: u64,
    max_den: u64,
    f1: Farey,
    f2: Farey,
    p: u64,
    q: u64,
)
    requires
        valid_input(num, den, max_den),
        closest_pair(num, den, max_den, f1, f2),
        1 <= q <= max_den,
    ensures
        p * den <= num * q ==> p * f1.den <= f1.num * q,
        num * q <= p * den ==> f2.num * q <= p * f2.den,
{
    number_theory::lemma_gcd_reduce(num as nat, den as nat);
    let g = number_theory::gcd(num as nat, den as nat) as int;
    let a = num as int / g;
    let b = den as int / g;
    lemma_no_fraction_between(num, den, max_den, f1, f2, p, q);
    if p * den <= num * q && f1.num * q < p * f1.den {
        // p/q lies at most at the target but above f1, so by the gap it is
        // at least f2; squeezed between target and f2 it equals both, which
        // forces the target to be representable and the pair to collapse.
        number_theory::lemma_frac_le_trans(
            p as int,
            q as int,
            num as int,
            den as int,
            f2.num as int,
            f2.den as int,
        );
        number_theory::lemma_frac_le_trans(
            f2.num as int,
            f2.den as int,
            p as int,
            q as int,
            num as int,
            den as int,
        );
        assert(a * f2.den == f2.num * b) by (nonlinear_arith)
            requires
                num as int == g * a,
                den as int == g * b,
                g >= 1,
                num as int * f2.den == f2.num * (den as int),
        ;
        number_theory::lemma_coprime_value_equal(
            a as nat,
            b as nat,
            f2.num as int,
            f2.den as int,
        );
        assert(false);
    }
    if num * q <= p * den && p * f2.den < f2.num * q {
        number_theory::lemma_frac_le_trans(
            f1.num as int,
            f1.den as int,
            num as int,
            den as int,
            p as int,
            q as int,
        );
        number_theory::lemma_frac_le_trans(
            num as int,
            den as int,
            p as int,
            q as int,
            f1.num as int,
            f1.den as int,
        );
        assert(a * f1.den == f1.num * b) by (nonlinear_arith)
            requires
                num as int == g * a,
                den as int == g * b,
                g >= 1,
                num as int * f1.den == f1.num * (den as int),
        ;
        number_theory::lemma_coprime_value_equal(
            a as nat,
            b as nat,
            f1.num as int,
            f1.den as int,
        );
        assert(false);
    }
}

} // verus!
