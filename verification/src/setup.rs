//! Setting up the game: the cells of the board in the order in which they
//! are visited, the piece that starts on each, and how the board is built
//! axis by axis.

use vstd::prelude::*;
use crate::enumerate::Enumerator;
use crate::odometer::{grid, NewPositionIter};
use crate::pieces::{ChessPiece, Team};
use crate::position::{coordinate_sum, Position};

verus! {

/// The tuples, each read backwards.
pub open spec fn reversed_each(tuples: Seq<Seq<i8>>) -> Seq<Seq<i8>> {
    Seq::new(tuples.len(), |k: int| tuples[k].reverse())
}

/// Every cell of a board with `axes` axes, in the order in which the last
/// axis changes fastest. A board without axes has no cell to visit.
pub open spec fn board_cells(axes: nat) -> Seq<Seq<i8>> {
    if axes == 0 {
        Seq::empty()
    } else {
        reversed_each(grid(axes, 8))
    }
}

/// Visits every cell of the board.
pub struct PieceIter {
    count: NewPositionIter<7>,
}

impl PieceIter {
    /// The cells of a board with `dimensions` axes.
    pub fn new(dimensions: usize) -> (cells: PieceIter)
        ensures
            cells.wf(),
            cells.remaining() == board_cells(dimensions as nat),
    {
        let cells = PieceIter { count: NewPositionIter::new(dimensions) };
        assert(cells.remaining() =~= board_cells(dimensions as nat));
        cells
    }
}

impl Enumerator for PieceIter {
    closed spec fn wf(&self) -> bool {
        self.count.wf()
    }

    closed spec fn remaining(&self) -> Seq<Seq<i8>> {
        reversed_each(self.count.remaining())
    }

    fn next(&mut self) -> (item: Option<Position>) {
        match self.count.next() {
            None => None,
            Some(tuple) => {
                let n = tuple.len();
                let mut coords: Vec<i8> = Vec::new();
                let mut i: usize = 0;
                while i < n
                    invariant
                        n == tuple@.len(),
                        i <= n,
                        coords@.len() == i,
                        forall|j: int| 0 <= j < i ==> coords@[j] == tuple@[n - 1 - j],
                    decreases n - i,
                {
                    coords.push(tuple.0[n - 1 - i]);
                    i += 1;
                }
                assert(coords@ =~= tuple@.reverse());
                assert(self.remaining() =~= old(self).remaining().drop_first());
                Some(Position(coords))
            },
        }
    }
}

/// The piece that starts on a cell of the back rank: the king where every
/// further coordinate is `4`; else, by the second coordinate, a rook on `0`
/// and `7`, a knight on `1` and `6`, a bishop on `2` and `5` and the queen on
/// `3`; on the other cells none.
pub open spec fn back_rank_piece(cell: Seq<i8>) -> Option<ChessPiece> {
    if forall|i: int| 0 <= i < cell.len() && i != 0 ==> cell[i] == 4 {
        Some(ChessPiece::King)
    } else if cell.len() < 2 {
        None
    } else if cell[1] == 0 || cell[1] == 7 {
        Some(ChessPiece::Rook)
    } else if cell[1] == 2 || cell[1] == 5 {
        Some(ChessPiece::Bishop)
    } else if cell[1] == 1 || cell[1] == 6 {
        Some(ChessPiece::Knight)
    } else if cell[1] == 3 {
        Some(ChessPiece::Queen)
    } else {
        None
    }
}

/// The piece that starts on a cell, by its first coordinate, the rank: white
/// pawns on rank `1`, black pawns on rank `6`, the white back rank on `0` and
/// the black one on `7`. Other cells start empty.
pub open spec fn piece_on_start(cell: Seq<i8>) -> Option<(ChessPiece, Team)> {
    if cell.len() == 0 {
        None
    } else if cell[0] == 1 {
        Some((ChessPiece::Pawn, Team::White))
    } else if cell[0] == 6 {
        Some((ChessPiece::Pawn, Team::Black))
    } else if cell[0] != 0 && cell[0] != 7 {
        None
    } else {
        match back_rank_piece(cell) {
            Some(piece) => Some(
                (
                    piece,
                    if cell[0] == 0 {
                        Team::White
                    } else {
                        Team::Black
                    },
                ),
            ),
            None => None,
        }
    }
}

/// The piece that starts on the cell, with its team.
pub fn starting_piece(position: &Position) -> (start: Option<(ChessPiece, Team)>)
    ensures
        start == piece_on_start(position@),
{
    let rank = match position.get(0) {
        Some(rank) => rank,
        None => {
            return None;
        },
    };
    if rank == 1 {
        return Some((ChessPiece::Pawn, Team::White));
    } else if rank == 6 {
        return Some((ChessPiece::Pawn, Team::Black));
    }
    if rank != 0 && rank != 7 {
        return None;
    }
    let team = if rank == 0 {
        Team::White
    } else {
        Team::Black
    };
    if position.all_but(0, 4) {
        return Some((ChessPiece::King, team));
    }
    if position.if_is(1, 0) || position.if_is(1, 7) {
        return Some((ChessPiece::Rook, team));
    }
    if position.if_is(1, 2) || position.if_is(1, 5) {
        return Some((ChessPiece::Bishop, team));
    }
    if position.if_is(1, 1) || position.if_is(1, 6) {
        return Some((ChessPiece::Knight, team));
    }
    if position.if_is(1, 3) {
        return Some((ChessPiece::Queen, team));
    }
    None
}

/// What is built for one axis of the board.
#[derive(Debug, Clone, Copy, PartialEq, Eq, Structural)]
pub enum SpawnStep {
    /// The eight cells of a strip.
    Cells,
    /// One strip of cells.
    Strip,
    /// Eight copies of the board with one axis less.
    Layers,
    /// A stand-in for an axis that cannot be shown.
    Placeholder,
}

/// What is built for the axis with the given number: cells for `0`, a strip
/// for `1`, layers for `2` to `7` and a stand-in beyond.
pub open spec fn step_for(dimension: nat) -> SpawnStep {
    if dimension == 0 {
        SpawnStep::Cells
    } else if dimension == 1 {
        SpawnStep::Strip
    } else if dimension <= 7 {
        SpawnStep::Layers
    } else {
        SpawnStep::Placeholder
    }
}

/// What is built for the axis with the given number.
pub fn spawn_step(dimension: usize) -> (step: SpawnStep)
    ensures
        step == step_for(dimension as nat),
{
    if dimension == 0 {
        SpawnStep::Cells
    } else if dimension == 1 {
        SpawnStep::Strip
    } else if dimension <= 7 {
        SpawnStep::Layers
    } else {
        SpawnStep::Placeholder
    }
}

/// Whether the strip at the position starts with a black cell: it does where
/// the coordinates add up to an even number.
pub fn strip_is_black(position: &Position) -> (black: bool)
    requires
        forall|i: int| 0 <= i < position@.len() ==> position@[i] >= 0,
        position@.len() * 127 <= usize::MAX,
    ensures
        black == (coordinate_sum(position@) % 2 == 0),
{
    position.sum() % 2 == 0
}

} // verus!
