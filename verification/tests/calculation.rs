use nums::game::calculation::{ilog10, Calculation};

fn leaf(i: usize, v: u64) -> Box<Calculation> {
    Box::new(Calculation::Cube(i, v))
}

fn add(a: Box<Calculation>, b: Box<Calculation>) -> Box<Calculation> {
    Box::new(Calculation::Add(a, b))
}

fn sub(a: Box<Calculation>, b: Box<Calculation>) -> Box<Calculation> {
    Box::new(Calculation::Sub(a, b))
}

fn mul(a: Box<Calculation>, b: Box<Calculation>) -> Box<Calculation> {
    Box::new(Calculation::Mul(a, b))
}

fn div(a: Box<Calculation>, b: Box<Calculation>) -> Box<Calculation> {
    Box::new(Calculation::Div(a, b))
}

#[test]
fn sums_built_in_either_order_are_equal() {
    let one = add(leaf(0, 1), mul(leaf(1, 2), leaf(2, 3)));
    let other = add(mul(leaf(1, 2), leaf(2, 3)), leaf(0, 1));
    assert!(one == other);
    assert!(other == one);
    assert!(one.is_same(&other));
}

#[test]
fn products_built_in_either_order_are_equal() {
    let one = mul(leaf(0, 10), add(leaf(1, 2), leaf(2, 3)));
    let other = mul(add(leaf(2, 3), leaf(1, 2)), leaf(0, 10));
    assert!(one == other);
    assert!(other == one);
}

#[test]
fn differences_keep_the_order_of_their_operands() {
    let one = sub(leaf(0, 5), leaf(1, 2));
    let other = sub(leaf(1, 2), leaf(0, 5));
    assert!(one != other);
    assert!(!one.is_same(&other));
    assert!(one == sub(leaf(0, 5), leaf(1, 2)));
}

#[test]
fn a_difference_of_equal_operands_equals_its_reverse() {
    let one = sub(leaf(0, 4), leaf(1, 4));
    let other = sub(leaf(1, 4), leaf(0, 4));
    assert!(one == other);
}

#[test]
fn quotients_keep_the_order_of_their_operands() {
    let one = div(leaf(0, 6), leaf(1, 2));
    let other = div(leaf(1, 2), leaf(0, 6));
    assert!(one != other);
    assert!(one == div(leaf(0, 6), leaf(1, 2)));
}

#[test]
fn leaves_are_equal_by_value_not_by_die() {
    assert!(leaf(0, 30) == leaf(3, 30));
    assert!(leaf(0, 30) != leaf(0, 3));
}

#[test]
fn different_operations_are_not_equal() {
    assert!(add(leaf(0, 2), leaf(1, 2)) != mul(leaf(0, 2), leaf(1, 2)));
    assert!(sub(leaf(0, 2), leaf(1, 2)) != div(leaf(0, 2), leaf(1, 2)));
    assert!(*leaf(0, 4) != *add(leaf(0, 2), leaf(1, 2)));
}

#[test]
fn equality_looks_into_nested_operands() {
    let one = add(add(leaf(0, 1), leaf(1, 2)), leaf(2, 3));
    let other = add(leaf(2, 3), add(leaf(1, 2), leaf(0, 1)));
    let third = add(leaf(2, 3), add(leaf(1, 2), leaf(0, 10)));
    assert!(one == other);
    assert!(one != third);
}

#[test]
fn a_clone_is_the_same_tree() {
    let one = div(mul(leaf(0, 60), leaf(1, 2)), sub(leaf(2, 5), leaf(3, 1)));
    let copy = one.clone();
    assert!(one == copy);
    assert_eq!(format!("{:?}", one), format!("{:?}", copy));
}

#[test]
fn the_score_of_a_leaf_grows_with_its_digits() {
    assert_eq!(Calculation::Cube(0, 1).score(), 10);
    assert_eq!(Calculation::Cube(0, 9).score(), 10);
    assert_eq!(Calculation::Cube(0, 10).score(), 12);
    assert_eq!(Calculation::Cube(0, 600).score(), 14);
    assert_eq!(Calculation::Cube(0, 60_000_000).score(), 24);
}

#[test]
fn the_score_adds_a_fixed_amount_for_each_operation() {
    assert_eq!(add(leaf(0, 1), leaf(1, 2)).score(), 40);
    assert_eq!(sub(leaf(0, 1), leaf(1, 2)).score(), 41);
    assert_eq!(mul(leaf(0, 1), leaf(1, 2)).score(), 50);
    assert_eq!(div(leaf(0, 1), leaf(1, 2)).score(), 54);
    let nested = mul(add(leaf(0, 10), leaf(1, 2)), div(leaf(2, 300), leaf(3, 4)));
    assert_eq!(nested.score(), 30 + (20 + 12 + 10) + (34 + 14 + 10));
}

#[test]
fn the_simple_score_counts_leaves_and_operations() {
    assert_eq!(Calculation::Cube(0, 12345).simple_score(), 1);
    assert_eq!(add(leaf(0, 1), leaf(1, 2)).simple_score(), 4);
    assert_eq!(sub(leaf(0, 1), leaf(1, 2)).simple_score(), 4);
    assert_eq!(mul(leaf(0, 1), leaf(1, 2)).simple_score(), 5);
    assert_eq!(div(leaf(0, 1), leaf(1, 2)).simple_score(), 5);
    let nested = mul(add(leaf(0, 10), leaf(1, 2)), div(leaf(2, 300), leaf(3, 4)));
    assert_eq!(nested.simple_score(), 3 + 4 + 5);
}

#[test]
fn the_logarithm_counts_digits_after_the_first() {
    assert_eq!(ilog10(0), 0);
    assert_eq!(ilog10(1), 0);
    assert_eq!(ilog10(9), 0);
    assert_eq!(ilog10(10), 1);
    assert_eq!(ilog10(99), 1);
    assert_eq!(ilog10(100), 2);
    assert_eq!(ilog10(u64::MAX), 19);
    for v in 1..5000u64 {
        assert_eq!(ilog10(v), v.ilog10());
    }
}
