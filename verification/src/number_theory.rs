//! Divisibility, the greatest common divisor, and the Farey gap lemma.

use vstd::prelude::*;
use vstd::arithmetic::div_mod::{lemma_fundamental_div_mod, lemma_fundamental_div_mod_converse};

verus! {

/// `d` divides `a`.
pub open spec fn divides(d: int, a: int) -> bool {
    exists|k: int| a == #[trigger] (d * k)
}

/// Euclid's greatest common divisor.
pub open spec fn gcd(a: nat, b: nat) -> nat
    decreases b,
{
    if b == 0 {
        a
    } else {
        gcd(b, a % b)
    }
}

/// The greatest common divisor divides both of its arguments.
pub proof fn lemma_gcd_divides(a: nat, b: nat)
    ensures
        divides(gcd(a, b) as int, a as int),
        divides(gcd(a, b) as int, b as int),
    decreases b,
{
    if b == 0 {
        assert(a as int == gcd(a, b) as int * 1);
        assert(b as int == gcd(a, b) as int * 0);
    } else {
        lemma_gcd_divides(b, a % b);
        let g = gcd(b, a % b) as int;
        let k1 = choose|k: int| b as int == #[trigger] (g * k);
        let k2 = choose|k: int| (a % b) as int == #[trigger] (g * k);
        lemma_fundamental_div_mod(a as int, b as int);
        let q = a as int / b as int;
        assert(a as int == g * (k1 * q + k2)) by (nonlinear_arith)
            requires
                a as int == b as int * q + (a % b) as int,
                b as int == g * k1,
                (a % b) as int == g * k2,
        ;
        assert(divides(g, a as int));
    }
}

/// The greatest common divisor of two numbers, at least one positive,
/// is positive.
pub proof fn lemma_gcd_pos(a: nat, b: nat)
    requires
        a > 0 || b > 0,
    ensures
        gcd(a, b) >= 1,
    decreases b,
{
    if b != 0 {
        lemma_gcd_pos(b, a % b);
    }
}

/// A common divisor of `x` and `y` divides every integer combination of them.
pub proof fn lemma_divides_linear(d: int, x: int, y: int, s: int, t: int)
    requires
        divides(d, x),
        divides(d, y),
    ensures
        divides(d, s * x + t * y),
{
    let k1 = choose|k: int| x == #[trigger] (d * k);
    let k2 = choose|k: int| y == #[trigger] (d * k);
    assert(s * x + t * y == d * (s * k1 + t * k2)) by (nonlinear_arith)
        requires
            x == d * k1,
            y == d * k2,
    ;
    assert(divides(d, s * x + t * y));
}

/// The greatest common divisor scales: `gcd(k*a, k*b) == k * gcd(a, b)`.
pub proof fn lemma_gcd_scale(k: nat, a: nat, b: nat)
    requires
        k >= 1,
    ensures
        gcd(k * a, k * b) == k * gcd(a, b),
    decreases b,
{
    if b == 0 {
        assert(k * b == 0) by (nonlinear_arith)
            requires
                b == 0,
        ;
    } else {
        let q = a as int / b as int;
        let r = (a % b) as int;
        lemma_fundamental_div_mod(a as int, b as int);
        assert(k * a == (k * b) * q + k * r && 0 <= k * r && k * r < k * b) by (nonlinear_arith)
            requires
                a as int == b as int * q + r,
                0 <= r < b as int,
                k >= 1,
        ;
        lemma_fundamental_div_mod_converse((k * a) as int, (k * b) as int, q, k as int * r);
        assert((k * a) % (k * b) == k * (a % b));
        lemma_gcd_scale(k, b, a % b);
    }
}

/// Reducing a pair by its greatest common divisor yields a coprime pair,
/// and the division is exact.
pub proof fn lemma_gcd_reduce(x: nat, y: nat)
    requires
        y >= 1,
    ensures
        gcd(x, y) >= 1,
        x as int == gcd(x, y) * (x as int / gcd(x, y) as int),
        y as int == gcd(x, y) * (y as int / gcd(x, y) as int),
        gcd((x as int / gcd(x, y) as int) as nat, (y as int / gcd(x, y) as int) as nat) == 1,
        1 <= y as int / gcd(x, y) as int,
        x as int / gcd(x, y) as int <= x as int,
        y as int / gcd(x, y) as int <= y as int,
{
    lemma_gcd_pos(x, y);
    lemma_gcd_divides(x, y);
    let g = gcd(x, y) as int;
    let k1 = choose|k: int| x as int == #[trigger] (g * k);
    let k2 = choose|k: int| y as int == #[trigger] (g * k);
    assert(k1 >= 0 && 0 <= k1 <= x as int && k1 * g == x as int) by (nonlinear_arith)
        requires
            x as int == g * k1,
            g >= 1,
            x as int >= 0,
    ;
    assert(1 <= k2 <= y as int && k2 * g == y as int) by (nonlinear_arith)
        requires
            y as int == g * k2,
            g >= 1,
            y as int >= 1,
    ;
    lemma_fundamental_div_mod_converse(x as int, g, k1, 0);
    lemma_fundamental_div_mod_converse(y as int, g, k2, 0);
    assert(x as int / g == k1);
    assert(y as int / g == k2);
    lemma_gcd_scale(g as nat, k1 as nat, k2 as nat);
    assert(g as nat * k1 as nat == x && g as nat * k2 as nat == y) by (nonlinear_arith)
        requires
            x as int == g * k1,
            y as int == g * k2,
            g >= 1,
            k1 >= 0,
            k2 >= 1,
    ;
    assert(gcd(x, y) == gcd(x, y) * gcd(k1 as nat, k2 as nat));
    assert(gcd(k1 as nat, k2 as nat) == 1) by (nonlinear_arith)
        requires
            gcd(x, y) == gcd(x, y) * gcd(k1 as nat, k2 as nat),
            gcd(x, y) >= 1,
    ;
}

/// A common divisor of `a` and `b` divides their greatest common divisor.
pub proof fn lemma_divides_gcd(d: int, a: nat, b: nat)
    requires
        divides(d, a as int),
        divides(d, b as int),
    ensures
        divides(d, gcd(a, b) as int),
    decreases b,
{
    if b == 0 {
    } else {
        let q = a as int / b as int;
        lemma_fundamental_div_mod(a as int, b as int);
        lemma_divides_linear(d, a as int, b as int, 1, -q);
        assert(1 * (a as int) + -q * (b as int) == (a % b) as int) by (nonlinear_arith)
            requires
                a as int == (b as int) * q + (a % b) as int,
        ;
        assert(divides(d, (a % b) as int));
        lemma_divides_gcd(d, b, a % b);
    }
}

/// A fraction equal in value to a reduced fraction `a/b` has a denominator
/// that is a multiple of `b`, hence at least `b`.
pub proof fn lemma_coprime_value_equal(a: nat, b: nat, p: int, q: int)
    requires
        gcd(a, b) == 1,
        1 <= b,
        1 <= q,
        0 <= p,
        a as int * q == p * b as int,
    ensures
        divides(b as int, q),
        b <= q,
{
    let qa = (a * q as nat) as nat;
    let qb = (b * q as nat) as nat;
    assert(divides(b as int, qa as int)) by {
        assert(a * q as nat == b as nat * p) by (nonlinear_arith)
            requires
                a as int * q == p * b as int,
                1 <= q,
                0 <= p,
        ;
    }
    assert(divides(b as int, qb as int)) by {
        assert(b * q as nat == b as nat * q) by (nonlinear_arith)
            requires
                1 <= q,
        ;
    }
    lemma_gcd_scale(q as nat, a, b);
    assert(q as nat * a == qa && q as nat * b == qb) by (nonlinear_arith)
        requires
            qa == a * q as nat,
            qb == b * q as nat,
    ;
    assert(gcd(qa, qb) == q as nat * gcd(a, b));
    assert(q as nat * gcd(a, b) == q) by (nonlinear_arith)
        requires
            gcd(a, b) == 1,
            1 <= q,
    ;
    lemma_divides_gcd(b as int, qa, qb);
    let k = choose|kk: int| q == #[trigger] (b as int * kk);
    assert(b <= q) by (nonlinear_arith)
        requires
            q == b as int * k,
            1 <= b,
            1 <= q,
    ;
}

/// Transitivity of the cross-multiplication order: from `a/b <= c/d` and
/// `c/d <= e/f` (positive denominators) follows `a/b <= e/f`.
pub proof fn lemma_frac_le_trans(a: int, b: int, c: int, d: int, e: int, f: int)
    requires
        1 <= b,
        1 <= d,
        1 <= f,
        a * d <= c * b,
        c * f <= e * d,
    ensures
        a * f <= e * b,
{
    assert((a * d) * f <= (c * b) * f) by (nonlinear_arith)
        requires
            a * d <= c * b,
            1 <= f,
    ;
    assert((c * f) * b <= (e * d) * b) by (nonlinear_arith)
        requires
            c * f <= e * d,
            1 <= b,
    ;
    assert(a * f <= e * b) by (nonlinear_arith)
        requires
            (a * d) * f <= (c * b) * f,
            (c * f) * b <= (e * d) * b,
            1 <= d,
    ;
}

/// Two fractions `a/b` and `c/d` whose determinant `c*b - a*d` is 1 are
/// both in lowest terms: a common divisor of numerator and denominator
/// would divide the determinant.
pub proof fn lemma_unimodular_coprime(a: int, b: int, c: int, d: int)
    requires
        0 <= a,
        1 <= b,
        0 <= c,
        1 <= d,
        c * b - a * d == 1,
    ensures
        gcd(a as nat, b as nat) == 1,
        gcd(c as nat, d as nat) == 1,
{
    let g1 = gcd(a as nat, b as nat) as int;
    lemma_gcd_pos(a as nat, b as nat);
    lemma_gcd_divides(a as nat, b as nat);
    lemma_divides_linear(g1, a, b, -d, c);
    assert(-d * a + c * b == 1) by (nonlinear_arith)
        requires
            c * b - a * d == 1,
    ;
    let k1 = choose|k: int| 1 == #[trigger] (g1 * k);
    assert(g1 == 1) by (nonlinear_arith)
        requires
            1 == g1 * k1,
            g1 >= 1,
    ;
    let g2 = gcd(c as nat, d as nat) as int;
    lemma_gcd_pos(c as nat, d as nat);
    lemma_gcd_divides(c as nat, d as nat);
    lemma_divides_linear(g2, c, d, b, -a);
    assert(b * c + -a * d == 1) by (nonlinear_arith)
        requires
            c * b - a * d == 1,
    ;
    let k2 = choose|k: int| 1 == #[trigger] (g2 * k);
    assert(g2 == 1) by (nonlinear_arith)
        requires
            1 == g2 * k2,
            g2 >= 1,
    ;
}

/// The Farey gap lemma: a fraction `p/q` strictly between two fractions
/// `a/b < c/d` whose determinant `c*b - a*d` is 1 has denominator at least
/// `b + d`.
pub proof fn lemma_farey_gap(a: int, b: int, c: int, d: int, p: int, q: int)
    requires
        1 <= b,
        1 <= d,
        1 <= q,
        c * b - a * d == 1,
        a * q < p * b,
        p * d < c * q,
    ensures
        q >= b + d,
{
    let x = p * b - a * q;
    let y = c * q - p * d;
    assert(q == b * y + d * x) by (nonlinear_arith)
        requires
            c * b - a * d == 1,
            x == p * b - a * q,
            y == c * q - p * d,
    ;
    assert(b * y >= b) by (nonlinear_arith)
        requires
            y >= 1,
            b >= 1,
    ;
    assert(d * x >= d) by (nonlinear_arith)
        requires
            x >= 1,
            d >= 1,
    ;
}

} // verus!
