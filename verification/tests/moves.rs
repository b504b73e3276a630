use hyperchess::board::BoardState;
use hyperchess::pieces::{ChessPiece, Team, TeamTable};
use hyperchess::position::Position;

fn cells(moves: Vec<Position>) -> Vec<Vec<i8>> {
    moves.into_iter().map(|p| p.0).collect()
}

fn place(board: &mut BoardState, teams: &mut TeamTable, at: Vec<i8>, occupant: u64, team: Team) {
    board.set(Position(at), occupant);
    teams.insert(occupant, team);
}

#[test]
fn team_opposite_flips() {
    assert!(Team::White.opposite() == Team::Black);
    assert!(Team::Black.opposite() == Team::White);
    assert!(Team::default() == Team::White);
}

#[test]
fn team_table_looks_up_what_was_inserted() {
    let mut teams = TeamTable::new();
    assert!(teams.get(4).is_none());
    teams.insert(4, Team::Black);
    assert!(teams.get(4) == Some(Team::Black));
    teams.insert(4, Team::White);
    assert!(teams.get(4) == Some(Team::White));
    assert!(teams.get(5).is_none());
}

#[test]
fn pawn_on_its_starting_rank_may_advance_twice() {
    let mut board = BoardState::new();
    let mut teams = TeamTable::new();
    place(&mut board, &mut teams, vec![1, 4], 1, Team::White);
    let at = Position(vec![1, 4]);
    let moves = cells(ChessPiece::Pawn.all_possible_moves(&at, Team::White, &board, &teams));
    assert_eq!(moves, vec![vec![2, 4], vec![3, 4]]);
    place(&mut board, &mut teams, vec![2, 3], 2, Team::Black);
    let moves = cells(ChessPiece::Pawn.all_possible_moves(&at, Team::White, &board, &teams));
    assert_eq!(moves, vec![vec![2, 4], vec![3, 4], vec![2, 3]]);
}

#[test]
fn pawn_does_not_capture_its_own_team_or_an_empty_cell() {
    let mut board = BoardState::new();
    let mut teams = TeamTable::new();
    place(&mut board, &mut teams, vec![3, 4], 1, Team::White);
    place(&mut board, &mut teams, vec![4, 5], 2, Team::White);
    board.set(Position(vec![4, 3]), 3);
    let at = Position(vec![3, 4]);
    let moves = cells(ChessPiece::Pawn.all_possible_moves(&at, Team::White, &board, &teams));
    assert_eq!(moves, vec![vec![4, 4]]);
}

#[test]
fn pawn_is_blocked_by_any_occupant_ahead() {
    let mut board = BoardState::new();
    let mut teams = TeamTable::new();
    place(&mut board, &mut teams, vec![1, 4], 1, Team::White);
    place(&mut board, &mut teams, vec![2, 4], 2, Team::Black);
    let at = Position(vec![1, 4]);
    assert!(ChessPiece::Pawn.all_possible_moves(&at, Team::White, &board, &teams).is_empty());
    let mut board = BoardState::new();
    place(&mut board, &mut teams, vec![1, 4], 1, Team::White);
    place(&mut board, &mut teams, vec![3, 4], 2, Team::Black);
    let moves = cells(ChessPiece::Pawn.all_possible_moves(&at, Team::White, &board, &teams));
    assert_eq!(moves, vec![vec![2, 4]]);
}

#[test]
fn black_pawn_advances_towards_rank_zero() {
    let mut board = BoardState::new();
    let mut teams = TeamTable::new();
    place(&mut board, &mut teams, vec![6, 2, 2], 1, Team::Black);
    place(&mut board, &mut teams, vec![5, 2, 1], 2, Team::White);
    place(&mut board, &mut teams, vec![5, 3, 2], 3, Team::White);
    place(&mut board, &mut teams, vec![5, 1, 2], 4, Team::Black);
    let at = Position(vec![6, 2, 2]);
    let moves = cells(ChessPiece::Pawn.all_possible_moves(&at, Team::Black, &board, &teams));
    assert_eq!(moves, vec![vec![5, 2, 2], vec![4, 2, 2], vec![5, 3, 2], vec![5, 2, 1]]);
}

#[test]
fn pawn_on_the_last_rank_has_no_advance() {
    let board = BoardState::new();
    let teams = TeamTable::new();
    let at = Position(vec![7, 0]);
    assert!(ChessPiece::Pawn.all_possible_moves(&at, Team::White, &board, &teams).is_empty());
    let at = Position(vec![0]);
    assert!(ChessPiece::Pawn.all_possible_moves(&at, Team::Black, &board, &teams).is_empty());
}

#[test]
fn rook_on_an_empty_board_reaches_every_cell_of_its_lines() {
    let board = BoardState::new();
    let teams = TeamTable::new();
    let at = Position(vec![3, 4]);
    let moves = cells(ChessPiece::Rook.all_possible_moves(&at, Team::White, &board, &teams));
    assert_eq!(
        moves,
        vec![
            vec![4, 4],
            vec![5, 4],
            vec![6, 4],
            vec![7, 4],
            vec![2, 4],
            vec![1, 4],
            vec![0, 4],
            vec![3, 5],
            vec![3, 6],
            vec![3, 7],
            vec![3, 3],
            vec![3, 2],
            vec![3, 1],
            vec![3, 0],
        ]
    );
}

#[test]
fn rook_ray_stops_at_the_first_occupied_cell() {
    let mut board = BoardState::new();
    let mut teams = TeamTable::new();
    place(&mut board, &mut teams, vec![3, 4], 1, Team::White);
    place(&mut board, &mut teams, vec![6, 4], 2, Team::Black);
    place(&mut board, &mut teams, vec![7, 4], 3, Team::Black);
    place(&mut board, &mut teams, vec![3, 2], 4, Team::White);
    let at = Position(vec![3, 4]);
    let moves = cells(ChessPiece::Rook.all_possible_moves(&at, Team::White, &board, &teams));
    assert_eq!(
        moves,
        vec![
            vec![4, 4],
            vec![5, 4],
            vec![6, 4],
            vec![2, 4],
            vec![1, 4],
            vec![0, 4],
            vec![3, 5],
            vec![3, 6],
            vec![3, 7],
            vec![3, 3],
        ]
    );
}

#[test]
fn rook_passes_an_occupant_without_a_team() {
    let mut board = BoardState::new();
    let teams = TeamTable::new();
    board.set(Position(vec![2]), 9);
    let at = Position(vec![0]);
    let moves = cells(ChessPiece::Rook.all_possible_moves(&at, Team::Black, &board, &teams));
    assert_eq!(moves.len(), 7);
    assert_eq!(moves[1], vec![2]);
}

#[test]
fn bishop_slides_along_the_diagonals() {
    let mut board = BoardState::new();
    let mut teams = TeamTable::new();
    place(&mut board, &mut teams, vec![2, 2], 1, Team::White);
    place(&mut board, &mut teams, vec![4, 4], 2, Team::Black);
    place(&mut board, &mut teams, vec![1, 3], 3, Team::White);
    let at = Position(vec![2, 2]);
    let moves = cells(ChessPiece::Bishop.all_possible_moves(&at, Team::White, &board, &teams));
    assert_eq!(
        moves,
        vec![vec![1, 1], vec![0, 0], vec![3, 1], vec![4, 0], vec![3, 3], vec![4, 4]]
    );
}

#[test]
fn queen_moves_like_rook_then_bishop() {
    let board = BoardState::new();
    let teams = TeamTable::new();
    let at = Position(vec![0, 0]);
    let rook = cells(ChessPiece::Rook.all_possible_moves(&at, Team::White, &board, &teams));
    let bishop = cells(ChessPiece::Bishop.all_possible_moves(&at, Team::White, &board, &teams));
    let queen = cells(ChessPiece::Queen.all_possible_moves(&at, Team::White, &board, &teams));
    assert_eq!(rook.len(), 14);
    assert_eq!(bishop.len(), 7);
    let mut both = rook.clone();
    both.extend(bishop.clone());
    assert_eq!(queen, both);
}

#[test]
fn king_steps_to_every_neighbour_but_its_own_team() {
    let mut board = BoardState::new();
    let mut teams = TeamTable::new();
    place(&mut board, &mut teams, vec![4, 4], 1, Team::White);
    place(&mut board, &mut teams, vec![5, 5], 2, Team::White);
    place(&mut board, &mut teams, vec![3, 3], 3, Team::Black);
    let at = Position(vec![4, 4]);
    let moves = cells(ChessPiece::King.all_possible_moves(&at, Team::White, &board, &teams));
    assert_eq!(
        moves,
        vec![
            vec![3, 3],
            vec![4, 3],
            vec![5, 3],
            vec![3, 4],
            vec![5, 4],
            vec![3, 5],
            vec![4, 5],
        ]
    );
}

#[test]
fn king_in_a_corner_stays_on_the_board() {
    let board = BoardState::new();
    let teams = TeamTable::new();
    let at = Position(vec![0, 7]);
    let moves = cells(ChessPiece::King.all_possible_moves(&at, Team::Black, &board, &teams));
    assert_eq!(moves, vec![vec![0, 6], vec![1, 6], vec![1, 7]]);
}

#[test]
fn knight_leaps_over_occupants() {
    let mut board = BoardState::new();
    let mut teams = TeamTable::new();
    place(&mut board, &mut teams, vec![0, 1], 1, Team::White);
    place(&mut board, &mut teams, vec![1, 1], 2, Team::White);
    place(&mut board, &mut teams, vec![2, 2], 3, Team::White);
    place(&mut board, &mut teams, vec![2, 0], 4, Team::Black);
    let at = Position(vec![0, 1]);
    let moves = cells(ChessPiece::Knight.all_possible_moves(&at, Team::White, &board, &teams));
    assert_eq!(moves, vec![vec![2, 0], vec![1, 3]]);
}

#[test]
fn generation_is_repeatable() {
    let mut board = BoardState::new();
    let mut teams = TeamTable::new();
    place(&mut board, &mut teams, vec![3, 3, 3], 1, Team::White);
    place(&mut board, &mut teams, vec![3, 5, 3], 2, Team::Black);
    place(&mut board, &mut teams, vec![4, 4, 4], 3, Team::White);
    let at = Position(vec![3, 3, 3]);
    for piece in [
        ChessPiece::Pawn,
        ChessPiece::Rook,
        ChessPiece::Knight,
        ChessPiece::Bishop,
        ChessPiece::Queen,
        ChessPiece::King,
    ] {
        let first = cells(piece.all_possible_moves(&at, Team::White, &board, &teams));
        let second = cells(piece.all_possible_moves(&at, Team::White, &board, &teams));
        assert_eq!(first, second);
    }
}

#[test]
fn no_destination_lies_off_the_board() {
    let board = BoardState::new();
    let teams = TeamTable::new();
    for dimensions in 1..=7usize {
        for corner in [0i8, 7] {
            let at = Position(vec![corner; dimensions]);
            for piece in [
                ChessPiece::Pawn,
                ChessPiece::Rook,
                ChessPiece::Knight,
                ChessPiece::Bishop,
                ChessPiece::Queen,
                ChessPiece::King,
            ] {
                for team in [Team::White, Team::Black] {
                    for destination in piece.all_possible_moves(&at, team, &board, &teams) {
                        assert_eq!(destination.len(), dimensions);
                        assert!(destination.is_valid());
                        assert!(destination.0.iter().all(|c| (0..=7).contains(c)));
                    }
                }
            }
        }
    }
}

#[test]
fn a_piece_off_the_board_is_handled_without_wrapping() {
    let board = BoardState::new();
    let teams = TeamTable::new();
    let at = Position(vec![127, -128]);
    for piece in [ChessPiece::Pawn, ChessPiece::Rook, ChessPiece::Knight, ChessPiece::King] {
        assert!(piece.all_possible_moves(&at, Team::White, &board, &teams).is_empty());
    }
    let near = Position(vec![-1, 3]);
    let moves = cells(ChessPiece::Rook.all_possible_moves(&near, Team::White, &board, &teams));
    assert_eq!(moves.len(), 7);
    assert_eq!(moves[0], vec![0, 3]);
    assert_eq!(moves[6], vec![6, 3]);
}

#[test]
fn a_board_without_axes_has_no_destinations() {
    let board = BoardState::new();
    let teams = TeamTable::new();
    let at = Position(vec![]);
    for piece in [
        ChessPiece::Pawn,
        ChessPiece::Rook,
        ChessPiece::Knight,
        ChessPiece::Bishop,
        ChessPiece::Queen,
        ChessPiece::King,
    ] {
        assert!(piece.all_possible_moves(&at, Team::White, &board, &teams).is_empty());
    }
}

#[test]
fn queen_on_a_single_axis_lists_each_destination_once() {
    let board = BoardState::new();
    let teams = TeamTable::new();
    let at = Position(vec![2]);
    let moves = cells(ChessPiece::Queen.all_possible_moves(&at, Team::White, &board, &teams));
    assert_eq!(moves, vec![vec![3], vec![4], vec![5], vec![6], vec![7], vec![1], vec![0]]);
    let bishop = cells(ChessPiece::Bishop.all_possible_moves(&at, Team::White, &board, &teams));
    assert_eq!(bishop, vec![vec![1], vec![0], vec![3], vec![4], vec![5], vec![6], vec![7]]);
}

#[test]
fn queen_destinations_are_distinct() {
    let mut board = BoardState::new();
    let mut teams = TeamTable::new();
    place(&mut board, &mut teams, vec![3, 3, 3], 1, Team::White);
    place(&mut board, &mut teams, vec![5, 5, 5], 2, Team::Black);
    let at = Position(vec![3, 3, 3]);
    let mut moves = cells(ChessPiece::Queen.all_possible_moves(&at, Team::White, &board, &teams));
    let count = moves.len();
    moves.sort();
    moves.dedup();
    assert_eq!(moves.len(), count);
}
