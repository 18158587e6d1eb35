use recipe_graph::rate::Rate;

fn rate(numer: i64, denom: i64) -> Rate {
    Rate::new(numer, denom).unwrap()
}

fn parts(rate: Rate) -> (i64, i64) {
    (rate.numer(), rate.denom())
}

#[test]
fn new_reduces_to_lowest_terms() {
    assert_eq!(parts(rate(5, 60)), (1, 12));
    assert_eq!(parts(rate(0, 7)), (0, 1));
    assert_eq!(parts(rate(9, 9)), (1, 1));
    assert_eq!(parts(rate(7, 3)), (7, 3));
}

#[test]
fn new_rejects_what_is_no_rate() {
    assert!(Rate::new(1, 0).is_none());
    assert!(Rate::new(-1, 2).is_none());
    assert!(Rate::new(1, -2).is_none());
    assert!(Rate::new(-1, -2).is_none());
}

#[test]
fn from_integer_has_denominator_one() {
    assert_eq!(parts(Rate::from_integer(12).unwrap()), (12, 1));
    assert_eq!(parts(Rate::from_integer(0).unwrap()), (0, 1));
    assert!(Rate::from_integer(u64::MAX).is_none());
    assert!(Rate::from_integer(i64::MAX as u64).is_some());
}

#[test]
fn checked_div_gives_the_quotient_in_lowest_terms() {
    let q = rate(1, 2).checked_div(&rate(1, 4)).unwrap();
    assert_eq!(parts(q), (2, 1));
    let q = rate(3, 4).checked_div(&rate(9, 8)).unwrap();
    assert_eq!(parts(q), (2, 3));
    let q = rate(0, 1).checked_div(&rate(9, 8)).unwrap();
    assert_eq!(parts(q), (0, 1));
    let q = rate(5, 7).checked_div(&rate(5, 7)).unwrap();
    assert_eq!(parts(q), (1, 1));
}

#[test]
fn checked_div_by_zero_is_none() {
    assert!(rate(1, 2).checked_div(&rate(0, 1)).is_none());
}

#[test]
fn checked_div_out_of_range_is_none() {
    let big = rate(i64::MAX, 1);
    let small = rate(1, i64::MAX);
    assert!(big.checked_div(&small).is_none());
    assert_eq!(parts(big.checked_div(&big).unwrap()), (1, 1));
    assert_eq!(parts(big.checked_div(&rate(1, 1)).unwrap()), (i64::MAX, 1));
}

#[test]
fn fract_is_the_part_behind_the_point() {
    assert_eq!(parts(rate(7, 3).fract()), (1, 3));
    assert_eq!(parts(rate(6, 3).fract()), (0, 1));
    assert_eq!(parts(rate(1, 3).fract()), (1, 3));
}

#[test]
fn ceil_rounds_up() {
    assert_eq!(rate(7, 3).ceil(), Some(3));
    assert_eq!(rate(6, 3).ceil(), Some(2));
    assert_eq!(rate(0, 3).ceil(), Some(0));
    assert_eq!(rate(1, 1000).ceil(), Some(1));
    assert_eq!(rate(i64::MAX, 1).ceil(), None);
    assert_eq!(rate(i64::MAX - 1, 1).ceil(), Some(i64::MAX as u64 - 1));
}

#[test]
fn less_than_compares_the_numbers() {
    assert!(rate(1, 3).less_than(&rate(1, 2)));
    assert!(!rate(1, 2).less_than(&rate(1, 3)));
    assert!(!rate(2, 4).less_than(&rate(1, 2)));
    assert!(rate(0, 1).less_than(&rate(1, i64::MAX)));
    assert!(rate(i64::MAX - 1, i64::MAX).less_than(&rate(1, 1)));
}
