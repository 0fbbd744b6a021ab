use vec_score_drawer::frac::{Fraction, FRAC_BOUND};
use vec_score_drawer::grouping::{decompose, get_note_durations};

#[test]
fn new_reduces_to_lowest_terms() {
    let f = Fraction::new(6, 8).unwrap();
    assert_eq!(f, Fraction { num: 3, den: 4 });
}

#[test]
fn new_normalizes_signs() {
    assert_eq!(Fraction::new(-4, 8).unwrap(), Fraction { num: -1, den: 2 });
    assert_eq!(Fraction::new(4, -8).unwrap(), Fraction { num: -1, den: 2 });
    assert_eq!(Fraction::new(-4, -8).unwrap(), Fraction { num: 1, den: 2 });
}

#[test]
fn new_rejects_zero_denominator() {
    assert!(Fraction::new(1, 0).is_none());
}

#[test]
fn new_rejects_unrepresentable() {
    assert!(Fraction::new(1, FRAC_BOUND + 1).is_none());
    assert!(Fraction::new(FRAC_BOUND + 1, 1).is_none());
    // Reducible values above the bound still fit once reduced.
    assert_eq!(
        Fraction::new(2 * FRAC_BOUND, 4).unwrap(),
        Fraction { num: FRAC_BOUND / 2, den: 1 }
    );
}

#[test]
fn add_is_exact_and_reduced() {
    let a = Fraction::new(1, 6).unwrap();
    let b = Fraction::new(1, 6).unwrap();
    // Requires a genuine gcd: 2/6 must come out as 1/3.
    assert_eq!(a.add(b).unwrap(), Fraction { num: 1, den: 3 });
    let c = Fraction::new(1, 2).unwrap();
    let d = Fraction::new(1, 3).unwrap();
    assert_eq!(c.add(d).unwrap(), Fraction { num: 5, den: 6 });
}

#[test]
fn add_handles_negatives() {
    let a = Fraction::new(1, 2).unwrap();
    let b = Fraction::new(-1, 2).unwrap();
    assert_eq!(a.add(b).unwrap(), Fraction { num: 0, den: 1 });
}

#[test]
fn div_count_divides_exactly() {
    let a = Fraction::new(1, 2).unwrap();
    assert_eq!(a.div_count(3).unwrap(), Fraction { num: 1, den: 6 });
    assert!(a.div_count(0).is_none());
    // 2/3 divided by 2 reduces to 1/3, again through the gcd.
    let b = Fraction::new(2, 3).unwrap();
    assert_eq!(b.div_count(2).unwrap(), Fraction { num: 1, den: 3 });
}

#[test]
fn mul_count_multiplies_exactly() {
    let a = Fraction::new(1, 2).unwrap();
    assert_eq!(a.mul_count(6).unwrap(), Fraction { num: 3, den: 1 });
    assert_eq!(a.mul_count(0).unwrap(), Fraction { num: 0, den: 1 });
}

#[test]
fn le_orders_by_value() {
    let a = Fraction::new(1, 3).unwrap();
    let b = Fraction::new(1, 2).unwrap();
    assert!(a.le(b));
    assert!(!b.le(a));
    assert!(a.le(a));
}

#[test]
fn same_value_ignores_representation() {
    let a = Fraction::new(1, 2).unwrap();
    let b = Fraction::new(2, 4).unwrap();
    assert!(a.same_value(b));
}

#[test]
fn canonical_list_is_descending() {
    let d = get_note_durations();
    assert_eq!(d.len(), 8);
    assert_eq!(d[0], Fraction { num: 4, den: 1 });
    assert_eq!(d[1], Fraction { num: 3, den: 1 });
    assert_eq!(d[2], Fraction { num: 2, den: 1 });
    assert_eq!(d[3], Fraction { num: 3, den: 2 });
    assert_eq!(d[4], Fraction { num: 1, den: 1 });
    assert_eq!(d[5], Fraction { num: 3, den: 4 });
    assert_eq!(d[6], Fraction { num: 1, den: 2 });
    assert_eq!(d[7], Fraction { num: 1, den: 4 });
}

#[test]
fn decompose_three_and_a_half() {
    // Greedy: 3.5 -> dotted half (3) -> eighth (1/2).
    let r = decompose(Fraction { num: 7, den: 2 });
    assert_eq!(r, vec![Fraction { num: 3, den: 1 }, Fraction { num: 1, den: 2 }]);
}

#[test]
fn decompose_exact_values() {
    assert_eq!(decompose(Fraction { num: 4, den: 1 }), vec![Fraction { num: 4, den: 1 }]);
    assert_eq!(decompose(Fraction { num: 2, den: 1 }), vec![Fraction { num: 2, den: 1 }]);
    assert_eq!(
        decompose(Fraction { num: 5, den: 1 }),
        vec![Fraction { num: 4, den: 1 }, Fraction { num: 1, den: 1 }]
    );
    assert_eq!(
        decompose(Fraction { num: 7, den: 4 }),
        vec![Fraction { num: 3, den: 2 }, Fraction { num: 1, den: 4 }]
    );
}

#[test]
fn decompose_truncates_inexpressible_remainder() {
    // 1/3 quarter: only a sixteenth fits nothing; remainder is dropped.
    let r = decompose(Fraction { num: 1, den: 3 });
    assert_eq!(r, vec![Fraction { num: 1, den: 4 }]);
    // Sum of the pieces (1/4) is strictly below 1/3.
}

#[test]
fn decompose_zero_and_negative() {
    assert_eq!(decompose(Fraction { num: 0, den: 1 }), vec![]);
    assert_eq!(decompose(Fraction { num: -1, den: 1 }), vec![]);
}
