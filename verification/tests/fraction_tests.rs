use fractions::euclid::{gcd, lcm};
use fractions::fraction::Fraction;
use fractions::search::contains;

#[test]
fn add_one_denominator_change() {
    let frac1 = Fraction::new(3, 4);
    let frac2 = Fraction::new(5, 8);
    assert_eq!(frac1.add(frac2), Fraction::new(11, 8))
}

#[test]
fn add_denominators_multiply() {
    let frac1 = Fraction::new(3, 4);
    let frac2 = Fraction::new(4, 5);
    assert_eq!(frac1.add(frac2), Fraction::new(31, 20))
}

#[test]
fn add_lcm() {
    let frac1 = Fraction::new(5, 6);
    let frac2 = Fraction::new(3, 4);
    assert_eq!(frac1.add(frac2), Fraction::new(19, 12))
}

#[test]
fn add_simplify() {
    let frac1 = Fraction::new(4, 3);
    let frac2 = Fraction::new(2, 3);
    assert_eq!(frac1.add(frac2), Fraction::new(2, 1))
}

#[test]
fn add_assign_one_denominator_change() {
    let mut fraction = Fraction::new(3, 4);
    fraction.add_assign(Fraction::new(5, 8));
    assert_eq!(fraction, Fraction::new(11, 8))
}

#[test]
fn add_assign_denominators_multiply() {
    let mut fraction = Fraction::new(3, 4);
    fraction.add_assign(Fraction::new(4, 5));
    assert_eq!(fraction, Fraction::new(31, 20))
}

#[test]
fn add_assign_lcm() {
    let mut fraction = Fraction::new(5, 6);
    fraction.add_assign(Fraction::new(3, 4));
    assert_eq!(fraction, Fraction::new(19, 12))
}

#[test]
fn add_assign_simplify() {
    let mut fraction = Fraction::new(4, 3);
    fraction.add_assign(Fraction::new(2, 3));
    assert_eq!(fraction, Fraction::new(2, 1))
}

#[test]
fn sub_one_denominator_change() {
    let frac1 = Fraction::new(3, 4);
    let frac2 = Fraction::new(5, 8);
    assert_eq!(frac1.sub(frac2), Fraction::new(1, 8))
}

#[test]
fn sub_denominators_multiply() {
    let frac1 = Fraction::new(4, 5);
    let frac2 = Fraction::new(3, 4);
    assert_eq!(frac1.sub(frac2), Fraction::new(1, 20))
}

#[test]
fn sub_lcm() {
    let frac1 = Fraction::new(5, 6);
    let frac2 = Fraction::new(3, 4);
    assert_eq!(frac1.sub(frac2), Fraction::new(1, 12))
}

#[test]
fn sub_simplify() {
    let frac1 = Fraction::new(4, 3);
    let frac2 = Fraction::new(1, 3);
    assert_eq!(frac1.sub(frac2), Fraction::new(1, 1))
}

#[test]
fn new_reduces_to_lowest_terms() {
    let f = Fraction::new(6, 4);
    assert_eq!(f, Fraction::new(3, 2));
    assert_eq!(f.top, 3);
    assert_eq!(f.bottom, 2);
}

#[test]
fn new_of_zero_numerator() {
    let f = Fraction::new(0, 7);
    assert_eq!(f.top, 0);
    assert_eq!(f.bottom, 1);
}

#[test]
fn simplify_is_idempotent() {
    let f = Fraction { top: 12, bottom: 8 };
    let once = f.simplify();
    let twice = once.simplify();
    assert_eq!(once, twice);
    assert_eq!(once, Fraction::new(3, 2));
}

#[test]
fn simplify_mut_reduces_in_place() {
    let mut f = Fraction { top: 10, bottom: 4 };
    f.simplify_mut();
    assert_eq!(f, Fraction::new(5, 2));
}

#[test]
fn add_then_sub_round_trip() {
    let a = Fraction::new(3, 4);
    let b = Fraction::new(5, 8);
    assert_eq!(a.add(b).sub(b), a);
    assert_eq!(a.sub(b).add(b), a);
}

#[test]
fn mul_then_div_round_trip() {
    let a = Fraction::new(7, 6);
    let b = Fraction::new(2, 3);
    assert_eq!(a.mul(b).div(b), a);
}

#[test]
fn mul_reduces() {
    let a = Fraction::new(2, 3);
    let b = Fraction::new(3, 4);
    assert_eq!(a.mul(b), Fraction::new(1, 2));
}

#[test]
fn div_reduces() {
    let a = Fraction::new(1, 2);
    let b = Fraction::new(3, 4);
    assert_eq!(a.div(b), Fraction::new(2, 3));
}

#[test]
fn div_assign_matches_div() {
    let mut a = Fraction::new(9, 4);
    a.div_assign(Fraction::new(3, 2));
    assert_eq!(a, Fraction::new(3, 2));
}

#[test]
fn powi_zero_is_one() {
    let a = Fraction::new(3, 2);
    assert_eq!(a.powi(0), Fraction::new(1, 1));
}

#[test]
fn powi_one_is_self() {
    let a = Fraction::new(3, 2);
    assert_eq!(a.powi(1), a);
}

#[test]
fn powi_squares() {
    let a = Fraction::new(3, 2);
    assert_eq!(a.powi(2), Fraction::new(9, 4));
}

#[test]
fn powi_adds_exponents() {
    let a = Fraction::new(3, 2);
    assert_eq!(a.powi(5), a.powi(2).mul(a.powi(3)));
}

#[test]
fn multiply_by_integer_cancels_denominator() {
    let a = Fraction::new(3, 4);
    assert_eq!(a.multiply_by_integer(2), Fraction::new(3, 2));
    assert_eq!(a.multiply_by_integer(0), Fraction::new(0, 1));
    assert_eq!(a.multiply_by_integer(5), Fraction::new(15, 4));
}

#[test]
fn divide_by_integer_exact_numerator() {
    let mut a = Fraction::new(4, 3);
    a.divide_by_integer(2);
    assert_eq!(a, Fraction::new(2, 3));
}

#[test]
fn divide_by_integer_scales_denominator() {
    let mut a = Fraction::new(3, 4);
    a.divide_by_integer(2);
    assert_eq!(a, Fraction::new(3, 8));
}

#[test]
fn divide_by_integer_restores_lowest_terms() {
    let mut a = Fraction::new(4, 1);
    a.divide_by_integer(6);
    assert_eq!(a, Fraction::new(2, 3));
}

#[test]
fn subtract_integer_in_place() {
    let mut a = Fraction::new(7, 2);
    a.subtract_integer(3);
    assert_eq!(a, Fraction::new(1, 2));
}

#[test]
fn compare_orders_by_value() {
    let small = Fraction::new(1, 3);
    let big = Fraction::new(1, 2);
    assert!(small < big);
    assert!(big > small);
    assert!(Fraction::new(2, 4) == Fraction::new(1, 2));
}

#[test]
fn compare_is_a_total_order_on_samples() {
    let values = [
        Fraction::new(1, 3),
        Fraction::new(1, 2),
        Fraction::new(2, 3),
        Fraction::new(1, 1),
        Fraction::new(3, 2),
    ];
    for (i, a) in values.iter().enumerate() {
        for (j, b) in values.iter().enumerate() {
            let holds: usize =
                [a < b, a == b, a > b].iter().filter(|&&h| h).count();
            assert_eq!(holds, 1);
            assert_eq!(a < b, i < j);
        }
    }
}

#[test]
fn compare_close_values_exactly() {
    // one part in 2^100: far below what a 64-bit float could separate
    let tiny_more = Fraction::new((1u128 << 100) + 1, 1u128 << 100);
    let one = Fraction::new(1, 1);
    assert!(one < tiny_more);
    assert!(tiny_more > one);
}

#[test]
fn display_renders_reduced_fields() {
    assert_eq!(Fraction::new(11, 8).display(), "11/8");
    assert_eq!(Fraction::new(6, 4).display(), "3/2");
    assert_eq!(Fraction::new(0, 5).display(), "0/1");
}

#[test]
fn display_round_trip_through_new() {
    let original = Fraction::new(19, 12);
    let shown = original.display();
    let mut parts = shown.split('/');
    let top: u128 = parts.next().unwrap().parse().unwrap();
    let bottom: u128 = parts.next().unwrap().parse().unwrap();
    assert_eq!(Fraction::new(top, bottom), original);
}

#[test]
fn gcd_of_known_pairs() {
    assert_eq!(gcd(12, 18), 6);
    assert_eq!(gcd(18, 12), 6);
    assert_eq!(gcd(5, 0), 5);
    assert_eq!(gcd(0, 5), 5);
    assert_eq!(gcd(7, 13), 1);
}

#[test]
fn lcm_of_known_pairs() {
    assert_eq!(lcm(4, 6), 12);
    assert_eq!(lcm(6, 4), 12);
    assert_eq!(lcm(5, 7), 35);
}

#[test]
fn contains_finds_first_match() {
    let nums = vec![
        Fraction::new(3, 2),
        Fraction::new(9, 8),
        Fraction::new(3, 2),
    ];
    assert_eq!(contains(&nums, Fraction::new(3, 2)), Some(0));
    assert_eq!(contains(&nums, Fraction::new(9, 8)), Some(1));
    assert_eq!(contains(&nums, Fraction::new(2, 1)), None);
}

#[test]
fn power_loop_scenario() {
    // base 3/2 squared is 9/4; halving once brings it into [1, 2)
    let base = Fraction::new(3, 2);
    let mut value = base.powi(2);
    assert_eq!(value, Fraction::new(9, 4));
    let two = Fraction::new(2, 1);
    while value >= two {
        value.divide_by_integer(2);
    }
    assert_eq!(value, Fraction::new(9, 8));
    assert!(value != base);
}

#[test]
fn large_values_stay_exact() {
    assert_eq!(Fraction::new(u128::MAX, u128::MAX), Fraction::new(1, 1));
    let two = Fraction::new(2, 1);
    let big = two.powi(127);
    assert_eq!(big, Fraction::new(1u128 << 127, 1));
}

#[test]
fn subtract_integer_to_zero() {
    let mut a = Fraction::new(3, 1);
    a.subtract_integer(3);
    assert_eq!(a, Fraction::new(0, 1));
}
