//! The rational pair and the Stern-Brocot search primitives.

use vstd::prelude::*;

verus! {

/// Largest denominator (and target denominator) the library accepts.
///
/// Every value that occurs during a search is at most this bound, so every
/// cross product of two such values fits in a `u64` without wraparound.
pub const DEN_LIMIT: u64 = 0xFFFF_FFFF;

/// A fraction `num / den`, compared by cross multiplication.
///
/// `==` on this type is field equality: `1/2` and `2/4` are different values
/// of `Farey` even though they denote the same rational. Value order and
/// value equality are expressed by [`le_val`] and [`lt_val`].
#[derive(Clone, Copy, PartialEq, Eq, Structural, Debug)]
pub struct Farey {
    pub num: u64,
    pub den: u64,
}

impl Farey {
    /// Strict value order: `self < other` as fractions, by cross
    /// multiplication. This is the order the search compares with; it is
    /// deliberately separate from `==`, which compares fields.
    pub fn value_lt(&self, other: &Farey) -> (r: bool)
        requires
            self.num * other.den <= u64::MAX,
            other.num * self.den <= u64::MAX,
        ensures
            r == lt_val(*self, *other),
    {
        self.num * other.den < other.num * self.den
    }
}

/// Value order `a <= b` on fractions with positive denominators,
/// by cross multiplication.
pub open spec fn le_val(a: Farey, b: Farey) -> bool {
    a.num * b.den <= b.num * a.den
}

/// Strict value order `a < b` on fractions with positive denominators.
pub open spec fn lt_val(a: Farey, b: Farey) -> bool {
    a.num * b.den < b.num * a.den
}

/// The determinant of the bracket `(f1, f2)`.
///
/// Two fractions with this determinant equal to 1 are adjacent in some
/// Farey sequence; the bracket maintained by the search keeps it at 1.
pub open spec fn cross_det(f1: Farey, f2: Farey) -> int {
    f2.num * f1.den - f1.num * f2.den
}

/// A fraction of the unit interval: positive denominator, value at most 1.
pub open spec fn in_unit(f: Farey) -> bool {
    1 <= f.den && f.num <= f.den
}

/// A unit-interval fraction whose denominator respects the bound `m`.
pub open spec fn bounded(f: Farey, m: u64) -> bool {
    in_unit(f) && f.den <= m
}

/// The mediant stepper: jump `by` Stern-Brocot levels from `from` toward `to`
/// in one operation. With `by == 1` this is the ordinary mediant.
pub fn push(from: &Farey, to: &Farey, by: u64) -> (r: Farey)
    requires
        from.num + to.num * by <= u64::MAX,
        from.den + to.den * by <= u64::MAX,
    ensures
        r.num == step_num(*from, *to, by as int),
        r.den == step_den(*from, *to, by as int),
{
    Farey { num: from.num + to.num * by, den: from.den + to.den * by }
}

/// Numerator of the fraction reached from `from` by `k` mediant steps
/// toward `to`.
pub open spec fn step_num(from: Farey, to: Farey, k: int) -> int {
    from.num + to.num * k
}

/// Denominator of the fraction reached from `from` by `k` mediant steps
/// toward `to`.
pub open spec fn step_den(from: Farey, to: Farey, k: int) -> int {
    from.den + to.den * k
}

/// The boundary guard: true when even a single mediant step between `f1` and
/// `f2` would already exceed the denominator bound `m`.
pub fn is_beyond(f1: &Farey, f2: &Farey, m: u64) -> (r: bool)
    requires
        f1.den + f2.den <= u64::MAX,
    ensures
        r == (f1.den + f2.den > m),
{
    f1.den + f2.den > m
}

/// Right approximator: the tightest fraction on the high side of the target
/// `f`, reachable from `f2` by mediant steps toward `f1` while keeping the
/// denominator at most `m`.
///
/// With `allow_equal` the search treats a step that lands exactly on `f` as
/// still improvable, so the result may meet `f` in value; without it the
/// result stays strictly above `f`. When even one step is infeasible, or no
/// step improves, `f2` itself comes back; in that case, if a mediant step
/// were feasible, it would land strictly on the far side of the target,
/// which is what the squeeze loop's fixed point rests on.
fn approx_right(f1: &Farey, f: &Farey, f2: &Farey, m: u64, allow_equal: bool) -> (res: Farey)
    requires
        m <= DEN_LIMIT,
        in_unit(*f),
        f.den <= DEN_LIMIT,
        bounded(*f1, m),
        bounded(*f2, m),
        allow_equal ==> le_val(*f, *f2),
        !allow_equal ==> lt_val(*f, *f2),
    ensures
        bounded(res, m),
        allow_equal ==> le_val(*f, res),
        !allow_equal ==> lt_val(*f, res),
        cross_det(*f1, res) == cross_det(*f1, *f2),
        res == *f2 || res.den > f2.den,
        (res == *f2 && f1.den + f2.den <= m && allow_equal) ==> step_num(*f2, *f1, 1) * f.den
            < f.num * step_den(*f2, *f1, 1),
        (res == *f2 && f1.den + f2.den <= m && !allow_equal) ==> step_num(*f2, *f1, 1) * f.den
            <= f.num * step_den(*f2, *f1, 1),
{
    if is_beyond(f1, f2, m) {
        return *f2;
    }
    let mut l: u64 = 0;
    let mut r: u64 = (m - f2.den + f1.den) / f1.den;
    let ghost r0: int = r as int;
    proof {
        vstd::arithmetic::div_mod::lemma_fundamental_div_mod(
            (m - f2.den + f1.den) as int,
            f1.den as int,
        );
        assert(2 <= r0 && f1.den * r0 <= m - f2.den + f1.den) by (nonlinear_arith)
            requires
                (m - f2.den + f1.den) as int == (f1.den as int) * r0 + ((m - f2.den
                    + f1.den) as int) % (f1.den as int),
                0 <= ((m - f2.den + f1.den) as int) % (f1.den as int),
                ((m - f2.den + f1.den) as int) % (f1.den as int) < f1.den as int,
                f1.den + f2.den <= m,
                1 <= f1.den,
                1 <= f2.den,
        ;
    }
    while l + 1 < r
        invariant
            l < r <= r0,
            2 <= r0,
            m <= DEN_LIMIT,
            in_unit(*f),
            f.den <= DEN_LIMIT,
            bounded(*f1, m),
            bounded(*f2, m),
            f1.den + f2.den <= m,
            f1.den * r0 <= m - f2.den + f1.den,
            allow_equal ==> f.num * step_den(*f2, *f1, l as int) <= step_num(*f2, *f1, l as int)
                * f.den,
            !allow_equal ==> f.num * step_den(*f2, *f1, l as int) < step_num(*f2, *f1, l as int)
                * f.den,
            r == r0 || (allow_equal ==> step_num(*f2, *f1, r as int) * f.den < f.num * step_den(
                *f2,
                *f1,
                r as int,
            )),
            r == r0 || (!allow_equal ==> step_num(*f2, *f1, r as int) * f.den <= f.num * step_den(
                *f2,
                *f1,
                r as int,
            )),
        decreases r - l,
    {
        let c: u64 = l + (r - l) / 2;
        proof {
            assert(f2.den + f1.den * c <= m && f2.num + f1.num * c <= f2.den + f1.den * c)
                by (nonlinear_arith)
                requires
                    c as int <= r0 - 1,
                    f1.den * r0 <= m - f2.den + f1.den,
                    f1.num <= f1.den,
                    f2.num <= f2.den,
                    1 <= f1.den,
                    f2.den <= m,
            ;
        }
        let cand = push(f2, f1, c);
        proof {
            assert(f.num * cand.den <= u64::MAX && cand.num * f.den <= u64::MAX)
                by (nonlinear_arith)
                requires
                    f.num <= 0xFFFF_FFFFu64,
                    f.den <= 0xFFFF_FFFFu64,
                    cand.num <= cand.den <= 0xFFFF_FFFFu64,
            ;
        }
        if f.value_lt(&cand) {
            l = c;
        } else if cand.value_lt(f) {
            r = c;
        } else {
            if allow_equal {
                l = c;
            } else {
                r = c;
            }
        }
    }
    proof {
        assert(f2.den + f1.den * l <= m && f2.num + f1.num * l <= f2.den + f1.den * l)
            by (nonlinear_arith)
            requires
                l as int <= r0 - 1,
                f1.den * r0 <= m - f2.den + f1.den,
                f1.num <= f1.den,
                f2.num <= f2.den,
                1 <= f1.den,
                f2.den <= m,
        ;
    }
    let res = push(f2, f1, l);
    proof {
        assert(res.num * f1.den - f1.num * res.den == f2.num * f1.den - f1.num * f2.den)
            by (nonlinear_arith)
            requires
                res.num == f2.num + f1.num * l,
                res.den == f2.den + f1.den * l,
        ;
        if l == 0 {
            assert(res == *f2);
        } else {
            assert(res.den > f2.den) by (nonlinear_arith)
                requires
                    res.den == f2.den + f1.den * l,
                    l >= 1,
                    f1.den >= 1,
            ;
        }
    }
    res
}

/// Left approximator, the mirror image of [`approx_right`]: the tightest
/// fraction on the low side of the target `f`, reachable from `f1` by
/// mediant steps toward `f2` while keeping the denominator at most `m`.
fn approx_left(f1: &Farey, f: &Farey, f2: &Farey, m: u64, allow_equal: bool) -> (res: Farey)
    requires
        m <= DEN_LIMIT,
        in_unit(*f),
        f.den <= DEN_LIMIT,
        bounded(*f1, m),
        bounded(*f2, m),
        allow_equal ==> le_val(*f1, *f),
        !allow_equal ==> lt_val(*f1, *f),
    ensures
        bounded(res, m),
        allow_equal ==> le_val(res, *f),
        !allow_equal ==> lt_val(res, *f),
        cross_det(res, *f2) == cross_det(*f1, *f2),
        res == *f1 || res.den > f1.den,
        (res == *f1 && f1.den + f2.den <= m && allow_equal) ==> f.num * step_den(*f1, *f2, 1)
            < step_num(*f1, *f2, 1) * f.den,
        (res == *f1 && f1.den + f2.den <= m && !allow_equal) ==> f.num * step_den(*f1, *f2, 1)
            <= step_num(*f1, *f2, 1) * f.den,
{
    if is_beyond(f1, f2, m) {
        return *f1;
    }
    let mut l: u64 = 0;
    let mut r: u64 = (m - f1.den + f2.den) / f2.den;
    let ghost r0: int = r as int;
    proof {
        vstd::arithmetic::div_mod::lemma_fundamental_div_mod(
            (m - f1.den + f2.den) as int,
            f2.den as int,
        );
        assert(2 <= r0 && f2.den * r0 <= m - f1.den + f2.den) by (nonlinear_arith)
            requires
                (m - f1.den + f2.den) as int == (f2.den as int) * r0 + ((m - f1.den
                    + f2.den) as int) % (f2.den as int),
                0 <= ((m - f1.den + f2.den) as int) % (f2.den as int),
                ((m - f1.den + f2.den) as int) % (f2.den as int) < f2.den as int,
                f1.den + f2.den <= m,
                1 <= f1.den,
                1 <= f2.den,
        ;
    }
    while l + 1 < r
        invariant
            l < r <= r0,
            2 <= r0,
            m <= DEN_LIMIT,
            in_unit(*f),
            f.den <= DEN_LIMIT,
            bounded(*f1, m),
            bounded(*f2, m),
            f1.den + f2.den <= m,
            f2.den * r0 <= m - f1.den + f2.den,
            allow_equal ==> step_num(*f1, *f2, l as int) * f.den <= f.num * step_den(
                *f1,
                *f2,
                l as int,
            ),
            !allow_equal ==> step_num(*f1, *f2, l as int) * f.den < f.num * step_den(
                *f1,
                *f2,
                l as int,
            ),
            r == r0 || (allow_equal ==> f.num * step_den(*f1, *f2, r as int) < step_num(
                *f1,
                *f2,
                r as int,
            ) * f.den),
            r == r0 || (!allow_equal ==> f.num * step_den(*f1, *f2, r as int) <= step_num(
                *f1,
                *f2,
                r as int,
            ) * f.den),
        decreases r - l,
    {
        let c: u64 = l + (r - l) / 2;
        proof {
            assert(f1.den + f2.den * c <= m && f1.num + f2.num * c <= f1.den + f2.den * c)
                by (nonlinear_arith)
                requires
                    c as int <= r0 - 1,
                    f2.den * r0 <= m - f1.den + f2.den,
                    f1.num <= f1.den,
                    f2.num <= f2.den,
                    1 <= f2.den,
                    f1.den <= m,
            ;
        }
        let cand = push(f1, f2, c);
        proof {
            assert(f.num * cand.den <= u64::MAX && cand.num * f.den <= u64::MAX)
                by (nonlinear_arith)
                requires
                    f.num <= 0xFFFF_FFFFu64,
                    f.den <= 0xFFFF_FFFFu64,
                    cand.num <= cand.den <= 0xFFFF_FFFFu64,
            ;
        }
        if f.value_lt(&cand) {
            r = c;
        } else if cand.value_lt(f) {
            l = c;
        } else {
            if allow_equal {
                l = c;
            } else {
                r = c;
            }
        }
    }
    proof {
        assert(f1.den + f2.den * l <= m && f1.num + f2.num * l <= f1.den + f2.den * l)
            by (nonlinear_arith)
            requires
                l as int <= r0 - 1,
                f2.den * r0 <= m - f1.den + f2.den,
                f1.num <= f1.den,
                f2.num <= f2.den,
                1 <= f2.den,
                f1.den <= m,
        ;
    }
    let res = push(f1, f2, l);
    proof {
        assert(f2.num * res.den - res.num * f2.den == f2.num * f1.den - f1.num * f2.den)
            by (nonlinear_arith)
            requires
                res.num == f1.num + f2.num * l,
                res.den == f1.den + f2.den * l,
        ;
        if l == 0 {
            assert(res == *f1);
        } else {
            assert(res.den > f1.den) by (nonlinear_arith)
                requires
                    res.den == f1.den + f2.den * l,
                    l >= 1,
                    f2.den >= 1,
            ;
        }
    }
    res
}

/// The squeeze loop: alternate right- and left-approximation, treating exact
/// matches as still improvable, until neither endpoint moves.
///
/// Starting from a bracket `f1 <= f <= f2` whose determinant is 1, it
/// terminates in a bracket with the same properties whose denominators sum
/// to more than `m`: the two endpoints are Farey neighbors at order `m`, so
/// no fraction with denominator at most `m` lies strictly between them.
pub fn squeeze_right_first(f1: &mut Farey, f: &Farey, f2: &mut Farey, m: u64)
    requires
        m <= DEN_LIMIT,
        in_unit(*f),
        f.den <= DEN_LIMIT,
        bounded(*old(f1), m),
        bounded(*old(f2), m),
        le_val(*old(f1), *f),
        le_val(*f, *old(f2)),
        cross_det(*old(f1), *old(f2)) == 1,
    ensures
        bounded(*final(f1), m),
        bounded(*final(f2), m),
        le_val(*final(f1), *f),
        le_val(*f, *final(f2)),
        cross_det(*final(f1), *final(f2)) == 1,
        final(f1).den + final(f2).den > m,
{
    let mut lo = *f1;
    let mut hi = *f2;
    loop
        invariant
            m <= DEN_LIMIT,
            in_unit(*f),
            f.den <= DEN_LIMIT,
            bounded(lo, m),
            bounded(hi, m),
            le_val(lo, *f),
            le_val(*f, hi),
            cross_det(lo, hi) == 1,
        ensures
            bounded(lo, m),
            bounded(hi, m),
            le_val(lo, *f),
            le_val(*f, hi),
            cross_det(lo, hi) == 1,
            lo.den + hi.den > m,
        decreases 2 * m - lo.den - hi.den,
    {
        let nf2 = approx_right(&lo, f, &hi, m, true);
        let nf1 = approx_left(&lo, f, &nf2, m, true);
        if lo == nf1 && hi == nf2 {
            proof {
                if lo.den + hi.den <= m {
                    assert(false) by (nonlinear_arith)
                        requires
                            (hi.num + lo.num * 1) * f.den < f.num * (hi.den + lo.den * 1),
                            f.num * (lo.den + hi.den * 1) < (lo.num + hi.num * 1) * f.den,
                    ;
                }
            }
            break;
        }
        lo = nf1;
        hi = nf2;
    }
    *f1 = lo;
    *f2 = hi;
}

} // verus!
