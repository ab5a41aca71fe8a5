use farey::arithmetics::{is_beyond, push, squeeze_right_first, Farey};
use farey::get_closest_fraction;

#[test]
fn one_third_order_two() {
    let (f1, f2) = get_closest_fraction(1, 3, 2);
    assert_eq!(f1, Farey { num: 0, den: 1 });
    assert_eq!(f2, Farey { num: 1, den: 2 });
}

#[test]
fn two_thirds_order_two() {
    let (f1, f2) = get_closest_fraction(2, 3, 2);
    assert_eq!(f1, Farey { num: 1, den: 2 });
    assert_eq!(f2, Farey { num: 1, den: 1 });
}

#[test]
fn half_is_exact_at_order_ten() {
    let (f1, f2) = get_closest_fraction(1, 2, 10);
    assert_eq!(f1, Farey { num: 1, den: 2 });
    assert_eq!(f2, Farey { num: 1, den: 2 });
}

#[test]
fn input_reduces_before_search() {
    let (f1, f2) = get_closest_fraction(4, 6, 10);
    assert_eq!(f1, Farey { num: 2, den: 3 });
    assert_eq!(f2, Farey { num: 2, den: 3 });
}

#[test]
fn one_seventh_order_five() {
    let (f1, f2) = get_closest_fraction(1, 7, 5);
    assert_eq!(f1, Farey { num: 0, den: 1 });
    assert_eq!(f2, Farey { num: 1, den: 5 });
    // Farey-neighbor determinant
    assert_eq!(f2.num * f1.den - f1.num * f2.den, 1);
}

#[test]
fn two_sevenths_order_four() {
    let (f1, f2) = get_closest_fraction(2, 7, 4);
    assert_eq!(f1, Farey { num: 1, den: 4 });
    assert_eq!(f2, Farey { num: 1, den: 3 });
}

#[test]
fn three_eighths_order_five() {
    let (f1, f2) = get_closest_fraction(3, 8, 5);
    assert_eq!(f1, Farey { num: 1, den: 3 });
    assert_eq!(f2, Farey { num: 2, den: 5 });
}

#[test]
fn zero_target() {
    let (f1, f2) = get_closest_fraction(0, 5, 3);
    assert_eq!(f1, Farey { num: 0, den: 1 });
    assert_eq!(f2, Farey { num: 0, den: 1 });
}

#[test]
fn one_target() {
    let (f1, f2) = get_closest_fraction(7, 7, 3);
    assert_eq!(f1, Farey { num: 1, den: 1 });
    assert_eq!(f2, Farey { num: 1, den: 1 });
}

#[test]
fn bound_of_one_keeps_root_bracket() {
    let (f1, f2) = get_closest_fraction(1, 3, 1);
    assert_eq!(f1, Farey { num: 0, den: 1 });
    assert_eq!(f2, Farey { num: 1, den: 1 });
}

#[test]
fn largest_denominators() {
    let (f1, f2) = get_closest_fraction(1, 0xFFFF_FFFF, 0xFFFF_FFFE);
    assert_eq!(f1, Farey { num: 0, den: 1 });
    assert_eq!(f2, Farey { num: 1, den: 0xFFFF_FFFE });
}

#[test]
fn bracket_and_bound_hold() {
    let (num, den, max_den) = (16u64, 113u64, 50u64);
    let (f1, f2) = get_closest_fraction(num, den, max_den);
    assert!(f1.den >= 1 && f1.den <= max_den);
    assert!(f2.den >= 1 && f2.den <= max_den);
    assert!(f1.num * den <= num * f1.den);
    assert!(num * f2.den <= f2.num * den);
    if f1 != f2 {
        assert_eq!(f2.num * f1.den - f1.num * f2.den, 1);
        assert!(f1.den + f2.den > max_den);
    }
}

#[test]
fn exact_result_is_a_fixed_point() {
    let (f1, f2) = get_closest_fraction(6, 16, 9);
    assert_eq!(f1, Farey { num: 3, den: 8 });
    assert_eq!(f2, f1);
    let (r1, r2) = get_closest_fraction(f1.num, f1.den, 9);
    assert_eq!(r1, f1);
    assert_eq!(r2, f1);
}

#[test]
fn push_steps_toward_the_other_end() {
    let from = Farey { num: 0, den: 1 };
    let to = Farey { num: 1, den: 1 };
    assert_eq!(push(&from, &to, 3), Farey { num: 3, den: 4 });
    let mediant = push(&Farey { num: 1, den: 3 }, &Farey { num: 1, den: 2 }, 1);
    assert_eq!(mediant, Farey { num: 2, den: 5 });
}

#[test]
fn is_beyond_compares_denominator_sum() {
    let f1 = Farey { num: 1, den: 3 };
    let f2 = Farey { num: 1, den: 2 };
    assert!(is_beyond(&f1, &f2, 4));
    assert!(!is_beyond(&f1, &f2, 5));
}

#[test]
fn matches_brute_force_over_all_bounded_fractions() {
    let (num, den, max_den) = (47u64, 61u64, 17u64);
    let (f1, f2) = get_closest_fraction(num, den, max_den);
    let mut best_lo = (0u64, 1u64);
    let mut best_hi = (1u64, 1u64);
    for q in 1..=max_den {
        for p in 0..=q {
            if p * den <= num * q && p * best_lo.1 > best_lo.0 * q {
                best_lo = (p, q);
            }
            if num * q <= p * den && p * best_hi.1 < best_hi.0 * q {
                best_hi = (p, q);
            }
        }
    }
    // equal in value to the exhaustively found optima
    assert_eq!(f1.num * best_lo.1, best_lo.0 * f1.den);
    assert_eq!(f2.num * best_hi.1, best_hi.0 * f2.den);
}

#[test]
fn value_order_and_field_equality_differ() {
    let half = Farey { num: 1, den: 2 };
    let two_quarters = Farey { num: 2, den: 4 };
    assert!(!half.value_lt(&two_quarters));
    assert!(!two_quarters.value_lt(&half));
    assert_ne!(half, two_quarters);
    let third = Farey { num: 1, den: 3 };
    assert!(third.value_lt(&half));
    assert!(!half.value_lt(&third));
}

#[test]
fn squeeze_tightens_the_root_bracket() {
    let mut f1 = Farey { num: 0, den: 1 };
    let mut f2 = Farey { num: 1, den: 1 };
    let f = Farey { num: 1, den: 7 };
    squeeze_right_first(&mut f1, &f, &mut f2, 5);
    assert_eq!(f1, Farey { num: 0, den: 1 });
    assert_eq!(f2, Farey { num: 1, den: 5 });
    assert!(f1.den + f2.den > 5);
}
