use hyperchess::board::{BoardState, Dimensions};
use hyperchess::position::Position;

#[test]
fn new_board_is_empty() {
    let mut board = BoardState::new();
    assert_eq!(board.get(&Position(vec![0, 0])), None);
    assert_eq!(board.take_captured(), None);
}

#[test]
fn set_inserts_and_overwrites() {
    let mut board = BoardState::new();
    board.set(Position(vec![1, 2]), 10);
    assert_eq!(board.get(&Position(vec![1, 2])), Some(10));
    assert_eq!(board.get(&Position(vec![2, 1])), None);
    board.set(Position(vec![1, 2]), 11);
    assert_eq!(board.get(&Position(vec![1, 2])), Some(11));
    assert_eq!(board.take_captured(), None);
}

#[test]
fn move_to_an_empty_cell() {
    let mut board = BoardState::new();
    board.set(Position(vec![1, 2]), 10);
    board.move_piece(&Position(vec![1, 2]), &Position(vec![3, 2]));
    assert_eq!(board.get(&Position(vec![1, 2])), None);
    assert_eq!(board.get(&Position(vec![3, 2])), Some(10));
    assert_eq!(board.take_captured(), None);
}

#[test]
fn move_onto_an_occupied_cell_reports_one_capture() {
    let mut board = BoardState::new();
    let from = Position(vec![1, 2]);
    let to = Position(vec![5, 2]);
    board.set(from.clone(), 10);
    board.set(to.clone(), 20);
    board.move_piece(&from, &to);
    assert_eq!(board.get(&to), Some(10));
    assert_eq!(board.get(&from), None);
    assert_eq!(board.take_captured(), Some(20));
    assert_eq!(board.take_captured(), None);
    assert_eq!(board.get(&to), Some(10));
}

#[test]
fn move_from_an_empty_cell_changes_nothing() {
    let mut board = BoardState::new();
    board.set(Position(vec![5, 2]), 20);
    board.move_piece(&Position(vec![1, 2]), &Position(vec![5, 2]));
    assert_eq!(board.get(&Position(vec![5, 2])), Some(20));
    assert_eq!(board.get(&Position(vec![1, 2])), None);
    assert_eq!(board.take_captured(), None);
}

#[test]
fn move_onto_the_own_cell_keeps_the_occupant() {
    let mut board = BoardState::new();
    let at = Position(vec![4]);
    board.set(at.clone(), 7);
    board.move_piece(&at, &at);
    assert_eq!(board.get(&at), Some(7));
    assert_eq!(board.take_captured(), None);
}

#[test]
fn a_later_capture_replaces_one_that_was_not_collected() {
    let mut board = BoardState::new();
    board.set(Position(vec![0]), 1);
    board.set(Position(vec![1]), 2);
    board.set(Position(vec![2]), 3);
    board.move_piece(&Position(vec![0]), &Position(vec![1]));
    board.move_piece(&Position(vec![1]), &Position(vec![2]));
    assert_eq!(board.take_captured(), Some(3));
    assert_eq!(board.take_captured(), None);
}

#[test]
fn a_capture_stays_pending_over_a_quiet_move() {
    let mut board = BoardState::new();
    board.set(Position(vec![0]), 1);
    board.set(Position(vec![1]), 2);
    board.move_piece(&Position(vec![0]), &Position(vec![1]));
    board.move_piece(&Position(vec![1]), &Position(vec![5]));
    assert_eq!(board.get(&Position(vec![5])), Some(1));
    assert_eq!(board.take_captured(), Some(2));
}

#[test]
fn positions_are_keys_by_their_coordinates() {
    let mut board = BoardState::new();
    board.set(Position(vec![1, 2, 3]), 9);
    assert_eq!(board.get(&Position(vec![1, 2, 3])), Some(9));
    assert_eq!(board.get(&Position(vec![3, 2, 1])), None);
    assert_eq!(board.get(&Position(vec![1, 2])), None);
}

#[test]
fn dimensions_hold_the_number_of_axes() {
    assert_eq!(Dimensions::new(5).get(), 5);
}
