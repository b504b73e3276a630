use hyperchess::board::BoardState;
use hyperchess::pieces::{ChessPiece, Team, TeamTable};
use hyperchess::position::Position;
use std::collections::BTreeMap;

struct Lcg(u64);

impl Lcg {
    fn below(&mut self, bound: u64) -> u64 {
        self.0 = self.0.wrapping_mul(6364136223846793005).wrapping_add(1442695040888963407);
        (self.0 >> 33) % bound
    }
}

type Cells = BTreeMap<Vec<i8>, Option<Team>>;

fn on_board(cell: &[i8]) -> bool {
    cell.iter().all(|c| (0..=7).contains(c))
}

fn shifted(at: &[i8], delta: &[i8]) -> Vec<i8> {
    at.iter().zip(delta).map(|(a, d)| a + d).collect()
}

fn walk(at: &[i8], step: &[i8], team: Team, cells: &Cells, out: &mut Vec<Vec<i8>>) {
    let mut here = at.to_vec();
    true_walk(&mut here, step, team, cells, out);
}

fn true_walk(here: &mut Vec<i8>, step: &[i8], team: Team, cells: &Cells, out: &mut Vec<Vec<i8>>) {
    for _ in 0..7 {
        *here = shifted(here, step);
        if !on_board(here) {
            return;
        }
        match cells.get(here) {
            Some(Some(other)) => {
                if *other != team {
                    out.push(here.clone());
                }
                return;
            }
            _ => out.push(here.clone()),
        }
    }
}

fn expected(piece: ChessPiece, at: &[i8], team: Team, cells: &Cells) -> Vec<Vec<i8>> {
    let n = at.len();
    let mut out = Vec::new();
    let rook = |out: &mut Vec<Vec<i8>>| {
        for axis in 0..n {
            for sign in [1i8, -1] {
                let mut step = vec![0i8; n];
                step[axis] = sign;
                walk(at, &step, team, cells, out);
            }
        }
    };
    let bishop = |out: &mut Vec<Vec<i8>>| {
        for mask in 0..(1u32 << n) {
            let step: Vec<i8> = (0..n).map(|i| if mask >> i & 1 == 1 { 1 } else { -1 }).collect();
            walk(at, &step, team, cells, out);
        }
    };
    match piece {
        ChessPiece::Rook => rook(&mut out),
        ChessPiece::Bishop => bishop(&mut out),
        ChessPiece::Queen => {
            rook(&mut out);
            if n > 1 {
                bishop(&mut out);
            }
        }
        ChessPiece::King => {
            for number in 0..3usize.pow(n as u32) {
                let mut rest = number;
                let mut delta = Vec::new();
                for _ in 0..n {
                    delta.push((rest % 3) as i8 - 1);
                    rest /= 3;
                }
                let to = shifted(at, &delta);
                if delta.iter().all(|d| *d == 0) || !on_board(&to) {
                    continue;
                }
                if cells.get(&to) == Some(&Some(team)) {
                    continue;
                }
                out.push(to);
            }
        }
        ChessPiece::Knight => {
            let mut found = Vec::new();
            for long in 0..n {
                for short in 0..n {
                    if long == short {
                        continue;
                    }
                    for one in [-1i8, 1] {
                        for two in [-2i8, 2] {
                            let mut delta = vec![0i8; n];
                            delta[short] = one;
                            delta[long] = two;
                            let to = shifted(at, &delta);
                            if on_board(&to) && cells.get(&to) != Some(&Some(team)) {
                                found.push(to);
                            }
                        }
                    }
                }
            }
            found.sort();
            out = found;
        }
        ChessPiece::Pawn => {
            let forward: i8 = if team == Team::White { 1 } else { -1 };
            let rank: i8 = if team == Team::White { 1 } else { 6 };
            let mut one = at.to_vec();
            one[0] += forward;
            if on_board(&one) && !cells.contains_key(&one) {
                out.push(one.clone());
                let mut two = one.clone();
                two[0] += forward;
                if at[0] == rank && on_board(&two) && !cells.contains_key(&two) {
                    out.push(two);
                }
            }
            for axis in 1..n {
                for side in [1i8, -1] {
                    let mut to = one.clone();
                    to[axis] += side;
                    if on_board(&to) && cells.get(&to) == Some(&Some(team.opposite())) {
                        out.push(to);
                    }
                }
            }
        }
    }
    out
}

fn compare_on_random_boards(dimensions: usize, boards: usize, seed: u64) {
    let mut random = Lcg(seed);
    for _ in 0..boards {
        let mut board = BoardState::new();
        let mut teams = TeamTable::new();
        let mut cells: Cells = BTreeMap::new();
        let occupants = 3 + random.below(20);
        for occupant in 0..occupants {
            let cell: Vec<i8> = (0..dimensions).map(|_| random.below(8) as i8).collect();
            let team = match random.below(5) {
                0 | 1 => Some(Team::White),
                2 | 3 => Some(Team::Black),
                _ => None,
            };
            board.set(Position(cell.clone()), occupant);
            if let Some(team) = team {
                teams.insert(occupant, team);
            }
            cells.insert(cell, team);
        }
        let at: Vec<i8> = (0..dimensions).map(|_| random.below(8) as i8).collect();
        for piece in [
            ChessPiece::Pawn,
            ChessPiece::Rook,
            ChessPiece::Knight,
            ChessPiece::Bishop,
            ChessPiece::Queen,
            ChessPiece::King,
        ] {
            for team in [Team::White, Team::Black] {
                let mut got: Vec<Vec<i8>> = piece
                    .all_possible_moves(&Position(at.clone()), team, &board, &teams)
                    .into_iter()
                    .map(|p| p.0)
                    .collect();
                if piece == ChessPiece::Knight {
                    got.sort();
                }
                assert_eq!(got, expected(piece, &at, team, &cells), "{piece:?} at {at:?}");
            }
        }
    }
}

#[test]
fn moves_agree_with_a_plain_search_on_a_line() {
    compare_on_random_boards(1, 200, 1);
}

#[test]
fn moves_agree_with_a_plain_search_in_two_dimensions() {
    compare_on_random_boards(2, 300, 2);
}

#[test]
fn moves_agree_with_a_plain_search_in_three_dimensions() {
    compare_on_random_boards(3, 200, 3);
}

#[test]
fn moves_agree_with_a_plain_search_in_four_dimensions() {
    compare_on_random_boards(4, 60, 4);
}
