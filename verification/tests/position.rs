use hyperchess::position::Position;

#[test]
fn zero_has_one_zero_per_axis() {
    let p = Position::zero(3);
    assert_eq!(p.0, vec![0, 0, 0]);
    assert_eq!(p.len(), 3);
    assert_eq!(Position::zero(0).0, Vec::<i8>::new());
}

#[test]
fn is_valid_accepts_exactly_the_board() {
    assert!(Position(vec![0, 7, 3]).is_valid());
    assert!(!Position(vec![0, 8, 3]).is_valid());
    assert!(!Position(vec![-1, 2]).is_valid());
    assert!(Position(vec![]).is_valid());
}

#[test]
fn inc_and_dec_move_one_coordinate() {
    assert_eq!(Position(vec![1, 2]).inc(1).0, vec![1, 3]);
    assert_eq!(Position(vec![1, 2]).dec(0).0, vec![0, 2]);
    assert_eq!(Position(vec![0, 0]).dec(0).0, vec![-1, 0]);
    assert_eq!(Position(vec![7]).inc(0).0, vec![8]);
    let mut p = Position(vec![4, 4, 4]);
    p.inc_in_place(2);
    p.dec_in_place(0);
    assert_eq!(p.0, vec![3, 4, 5]);
}

#[test]
fn inc_and_dec_ignore_a_missing_axis() {
    assert_eq!(Position(vec![1, 2]).inc(2).0, vec![1, 2]);
    assert_eq!(Position(vec![1, 2]).dec(9).0, vec![1, 2]);
    let mut p = Position(vec![]);
    p.inc_in_place(0);
    p.dec_in_place(0);
    assert_eq!(p.0, Vec::<i8>::new());
}

#[test]
fn add_sums_over_the_shorter_length() {
    let mut p = Position(vec![1, 2, 3]);
    p.add(&Position(vec![10, 20]));
    assert_eq!(p.0, vec![11, 22, 3]);
    let mut q = Position(vec![1]);
    q.add(&Position(vec![-4, 5, 6]));
    assert_eq!(q.0, vec![-3]);
}

#[test]
fn inc_all_and_dec_all_move_every_coordinate() {
    assert_eq!(Position(vec![0, 3, 7]).dec_all().0, vec![-1, 2, 6]);
    assert_eq!(Position(vec![0, 3, 7]).inc_all().0, vec![1, 4, 8]);
    assert_eq!(Position(vec![]).inc_all().0, Vec::<i8>::new());
}

#[test]
fn all_and_all_but_compare_every_coordinate() {
    assert!(Position(vec![4, 4, 4]).all(4));
    assert!(!Position(vec![4, 3, 4]).all(4));
    assert!(Position(vec![]).all(1));
    assert!(Position(vec![0, 4, 4]).all_but(0, 4));
    assert!(!Position(vec![0, 4, 3]).all_but(0, 4));
    assert!(Position(vec![0]).all_but(0, 4));
    assert!(!Position(vec![0, 4]).all_but(5, 4));
}

#[test]
fn if_is_tests_one_coordinate() {
    assert!(Position(vec![0, 7]).if_is(1, 7));
    assert!(!Position(vec![0, 7]).if_is(1, 0));
    assert!(!Position(vec![0, 7]).if_is(2, 7));
}

#[test]
fn last_is_the_highest_axis_or_eight() {
    assert_eq!(Position(vec![1, 2, 3]).last(), 3);
    assert_eq!(Position(vec![]).last(), 8);
}

#[test]
fn get_reads_one_coordinate() {
    assert_eq!(Position(vec![5, 6]).get(1), Some(6));
    assert_eq!(Position(vec![5, 6]).get(2), None);
}

#[test]
fn sum_adds_the_coordinates() {
    assert_eq!(Position(vec![1, 2, 3]).sum(), 6);
    assert_eq!(Position(vec![]).sum(), 0);
}

#[test]
fn add_dimension_overwrites_one_coordinate() {
    let mut p = Position(vec![0, 0, 0]);
    p.add_dimension(1, -2);
    assert_eq!(p.0, vec![0, -2, 0]);
}

#[test]
fn is_visible_below_seven_axes() {
    let p = Position(vec![0]);
    assert!(p.is_visible(6));
    assert!(!p.is_visible(7));
}

#[test]
fn offset_from_gives_the_cell_on_the_board() {
    let base = Position(vec![3, 3]);
    assert_eq!(Position(vec![1, -2]).offset_from(&base).map(|p| p.0), Some(vec![4, 1]));
    assert_eq!(Position(vec![5, 0]).offset_from(&base).map(|p| p.0), None);
    assert_eq!(Position(vec![0, -4]).offset_from(&base).map(|p| p.0), None);
    let far = Position(vec![127]);
    assert_eq!(Position(vec![127]).offset_from(&far).map(|p| p.0), None);
    let low = Position(vec![-128]);
    assert_eq!(Position(vec![-128]).offset_from(&low).map(|p| p.0), None);
}

#[test]
fn equality_and_clone_go_by_the_coordinates() {
    let p = Position(vec![1, 2]);
    let q = p.clone();
    assert!(p == q);
    assert!(p != Position(vec![2, 1]));
    assert!(p != Position(vec![1, 2, 0]));
    assert!(Position::default() == Position(vec![]));
}

#[test]
fn plus_adds_the_right_position_to_the_left() {
    let sum = Position(vec![1, 2, 3]) + Position(vec![10, 20]);
    assert_eq!(sum.0, vec![11, 22, 3]);
    let short = Position(vec![1]) + Position(vec![-4, 5, 6]);
    assert_eq!(short.0, vec![-3]);
}
