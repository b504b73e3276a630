//! The pieces and where each of them may go.
//!
//! Move generation reads the board and never changes it: the destinations of
//! a piece are a function of its kind, its position, its team, the occupancy
//! of the board and the teams of the occupants.

use vstd::prelude::*;
use std::collections::HashMap;
use crate::board::BoardState;
use crate::enumerate::{axis_arms, axis_ray, DimensionIter, Enumerator, PositionIter};
use crate::move_iterators::bishop::{sign_vector, BishopMoveIterator, MAX_BISHOP_AXES};
use crate::move_iterators::primitive::{diagonal_ray, LMoveIter};
use crate::odometer::NewPositionIter;
use crate::position::{cells_of, landing, Position};
use crate::rules::{
    all_on_board, bishop_moves, can_enumerate, hop, legal_moves, lemma_grid_entries,
    lemma_moves_stay_on_board, lowered, may_step, pawn_advances, pawn_captures, pawn_moves,
    queen_moves, rook_moves, slide, team_on,
};

verus! {

broadcast use vstd::std_specs::hash::group_hash_axioms;

/// The two sides of the game.
#[derive(Debug, Clone, Copy, PartialEq, Eq, Default, Structural)]
pub enum Team {
    #[default]
    White,
    Black,
}

impl Team {
    /// The other side.
    pub open spec fn other(self) -> Team {
        match self {
            Team::White => Team::Black,
            Team::Black => Team::White,
        }
    }

    /// The other side.
    pub fn opposite(&self) -> (other: Team)
        ensures
            other == self.other(),
    {
        match self {
            Team::White => Team::Black,
            Team::Black => Team::White,
        }
    }

    /// The direction in which the pawns of the side advance along the first
    /// axis.
    pub open spec fn forward(self) -> int {
        match self {
            Team::White => 1,
            Team::Black => -1,
        }
    }

    /// The rank on which the pawns of the side start.
    pub open spec fn pawn_rank(self) -> int {
        match self {
            Team::White => 1,
            Team::Black => 6,
        }
    }
}

/// The kinds of pieces.
#[derive(Debug, Clone, Copy, PartialEq, Eq, Structural)]
pub enum ChessPiece {
    Pawn,
    Rook,
    Knight,
    Bishop,
    Queen,
    King,
}

/// The team of each occupant that has one.
pub struct TeamTable {
    teams: HashMap<u64, Team>,
}

impl View for TeamTable {
    type V = Map<u64, Team>;

    closed spec fn view(&self) -> Map<u64, Team> {
        self.teams@
    }
}

impl TeamTable {
    /// A table without occupants.
    pub fn new() -> (table: TeamTable)
        ensures
            (table@ == Map::<u64, Team>::empty()),
    {
        TeamTable { teams: HashMap::new() }
    }

    /// Records the team of an occupant, in place of an earlier record.
    pub fn insert(&mut self, occupant: u64, team: Team)
        ensures
            final(self)@ == old(self)@.insert(occupant, team),
    {
        self.teams.insert(occupant, team);
    }

    /// The team of the occupant, if the table has it.
    pub fn get(&self, occupant: u64) -> (team: Option<Team>)
        ensures
            team == (if self@.contains_key(occupant) {
                Some(self@[occupant])
            } else {
                None
            }),
    {
        match self.teams.get(&occupant) {
            Some(team) => Some(*team),
            None => None,
        }
    }
}

/// The team that holds the cell.
fn holder(board: &BoardState, pieces: &TeamTable, cell: &Position) -> (team: Option<Team>)
    ensures
        team == team_on(board.occupancy(), pieces@, cell@),
{
    match board.get(cell) {
        Some(occupant) => pieces.get(occupant),
        None => None,
    }
}

/// Adds `cell` to the moves.
fn push_cell(moves: &mut Vec<Position>, cell: Position)
    ensures
        cells_of(final(moves)@) == cells_of(old(moves)@) + seq![cell@],
{
    moves.push(cell);
    assert(cells_of(moves@) =~= cells_of(old(moves)@) + seq![cell@]);
}

/// Walks one ray and adds its destinations to the moves.
fn slide_along<E: Enumerator>(
    ray: E,
    position: &Position,
    team: Team,
    board: &BoardState,
    pieces: &TeamTable,
    moves: &mut Vec<Position>,
)
    requires
        ray.wf(),
    ensures
        cells_of(final(moves)@) == cells_of(old(moves)@) + slide(
            position@,
            ray.remaining(),
            team,
            board.occupancy(),
            pieces@,
        ),
{
    let mut ray = ray;
    let ghost whole = ray.remaining();
    loop
        invariant_except_break
            cells_of(moves@) + slide(position@, ray.remaining(), team, board.occupancy(), pieces@)
                == cells_of(old(moves)@) + slide(
                position@,
                whole,
                team,
                board.occupancy(),
                pieces@,
            ),
        invariant
            ray.wf(),
        ensures
            cells_of(moves@) == cells_of(old(moves)@) + slide(
                position@,
                whole,
                team,
                board.occupancy(),
                pieces@,
            ),
        decreases ray.remaining().len(),
    {
        let ghost ahead = ray.remaining();
        let ghost so_far = cells_of(moves@);
        match ray.next() {
            None => {
                assert(so_far + Seq::<Seq<i8>>::empty() =~= so_far);
                break ;
            },
            Some(delta) => {
                match delta.offset_from(position) {
                    None => {
                        assert(so_far + Seq::<Seq<i8>>::empty() =~= so_far);
                        break ;
                    },
                    Some(cell) => {
                        match holder(board, pieces, &cell) {
                            Some(other) => {
                                if other != team {
                                    push_cell(moves, cell);
                                } else {
                                    assert(so_far + Seq::<Seq<i8>>::empty() =~= so_far);
                                }
                                break ;
                            },
                            None => {
                                let ghost here = cell@;
                                push_cell(moves, cell);
                                assert((so_far + seq![here]) + slide(
                                    position@,
                                    ray.remaining(),
                                    team,
                                    board.occupancy(),
                                    pieces@,
                                ) =~= so_far + slide(
                                    position@,
                                    ahead,
                                    team,
                                    board.occupancy(),
                                    pieces@,
                                ));
                            },
                        }
                    },
                }
            },
        }
    }
}

/// Adds the cell that `delta` leads to, where the piece may step onto it.
fn step_by(
    delta: &Position,
    position: &Position,
    team: Team,
    board: &BoardState,
    pieces: &TeamTable,
    moves: &mut Vec<Position>,
)
    ensures
        cells_of(final(moves)@) == cells_of(old(moves)@) + hop(
            position@,
            seq![delta@],
            team,
            board.occupancy(),
            pieces@,
        ),
{
    let ghost so_far = cells_of(moves@);
    let ghost one = seq![delta@];
    proof {
        assert(one.drop_first() =~= Seq::<Seq<i8>>::empty());
        assert(one.first() == delta@);
        assert(hop(position@, one.drop_first(), team, board.occupancy(), pieces@)
            =~= Seq::<Seq<i8>>::empty());
        assert(so_far + Seq::<Seq<i8>>::empty() =~= so_far);
    }
    if let Some(cell) = delta.offset_from(position) {
        if cell != *position {
            let own = match holder(board, pieces, &cell) {
                Some(held) => held == team,
                None => false,
            };
            if !own {
                let ghost here = cell@;
                assert(may_step(position@, delta@, team, board.occupancy(), pieces@));
                push_cell(moves, cell);
                assert(hop(position@, one, team, board.occupancy(), pieces@) =~= seq![here]);
                return ;
            }
        }
    }
    assert(!may_step(position@, delta@, team, board.occupancy(), pieces@));
}

/// The destinations among the offsets are those of the first offset, then
/// those of the others.
proof fn lemma_hop_first(
    base: Seq<i8>,
    deltas: Seq<Seq<i8>>,
    team: Team,
    occupancy: Map<Seq<i8>, u64>,
    teams: Map<u64, Team>,
)
    requires
        deltas.len() > 0,
    ensures
        hop(base, deltas, team, occupancy, teams) == hop(
            base,
            seq![deltas.first()],
            team,
            occupancy,
            teams,
        ) + hop(base, deltas.drop_first(), team, occupancy, teams),
{
    let one = seq![deltas.first()];
    assert(one.drop_first() =~= Seq::<Seq<i8>>::empty());
    assert(one.first() == deltas.first());
    let rest = hop(base, deltas.drop_first(), team, occupancy, teams);
    assert(hop(base, one.drop_first(), team, occupancy, teams) =~= Seq::<Seq<i8>>::empty());
    if may_step(base, deltas.first(), team, occupancy, teams) {
        assert(hop(base, one, team, occupancy, teams) =~= seq![landing(base, deltas.first())]);
    } else {
        assert(hop(base, one, team, occupancy, teams) =~= Seq::<Seq<i8>>::empty());
        assert(Seq::<Seq<i8>>::empty() + rest =~= rest);
    }
}

/// Adds the destinations among the offsets of the enumerator. With `lower`
/// every entry of an offset is lowered by one before it is applied.
fn hop_over<E: Enumerator>(
    deltas: E,
    lower: bool,
    position: &Position,
    team: Team,
    board: &BoardState,
    pieces: &TeamTable,
    moves: &mut Vec<Position>,
)
    requires
        deltas.wf(),
        lower ==> forall|k: int, i: int|
            0 <= k < deltas.remaining().len() && 0 <= i < deltas.remaining()[k].len()
                ==> #[trigger] deltas.remaining()[k][i] > i8::MIN,
    ensures
        cells_of(final(moves)@) == cells_of(old(moves)@) + hop(
            position@,
            if lower {
                lowered(deltas.remaining())
            } else {
                deltas.remaining()
            },
            team,
            board.occupancy(),
            pieces@,
        ),
{
    let mut deltas = deltas;
    let ghost whole = deltas.remaining();
    let ghost goal = cells_of(moves@) + hop(
        position@,
        if lower {
            lowered(whole)
        } else {
            whole
        },
        team,
        board.occupancy(),
        pieces@,
    );
    loop
        invariant_except_break
            cells_of(moves@) + hop(
                position@,
                if lower {
                    lowered(deltas.remaining())
                } else {
                    deltas.remaining()
                },
                team,
                board.occupancy(),
                pieces@,
            ) == goal,
        invariant
            deltas.wf(),
            lower ==> forall|k: int, i: int|
                0 <= k < deltas.remaining().len() && 0 <= i < deltas.remaining()[k].len()
                    ==> #[trigger] deltas.remaining()[k][i] > i8::MIN,
        ensures
            cells_of(moves@) == goal,
        decreases deltas.remaining().len(),
    {
        let ghost ahead = deltas.remaining();
        let ghost so_far = cells_of(moves@);
        match deltas.next() {
            None => {
                assert(lowered(ahead) =~= Seq::<Seq<i8>>::empty());
                assert(so_far + Seq::<Seq<i8>>::empty() =~= so_far);
                break ;
            },
            Some(tuple) => {
                let ghost shown = if lower {
                    lowered(ahead)
                } else {
                    ahead
                };
                let ghost rest = if lower {
                    lowered(deltas.remaining())
                } else {
                    deltas.remaining()
                };
                assert(ahead[0] == tuple@);
                let delta = if lower {
                    assert(forall|i: int| 0 <= i < tuple@.len() ==> ahead[0][i] > i8::MIN);
                    tuple.dec_all()
                } else {
                    tuple
                };
                proof {
                    assert(shown.len() > 0);
                    assert(shown.first() == delta@);
                    assert(shown.drop_first() =~= rest);
                    lemma_hop_first(position@, shown, team, board.occupancy(), pieces@);
                }
                step_by(&delta, position, team, board, pieces, moves);
                assert(cells_of(moves@) + hop(position@, rest, team, board.occupancy(), pieces@)
                    =~= so_far + hop(position@, shown, team, board.occupancy(), pieces@));
            },
        }
    }
}

impl ChessPiece {
    /// The destinations of the piece: where a piece of this kind and of the
    /// given team may go from `position`, on the given board and with the
    /// given teams of its occupants.
    pub fn all_possible_moves(
        &self,
        position: &Position,
        team: Team,
        board: &BoardState,
        pieces: &TeamTable,
    ) -> (moves: Vec<Position>)
        requires
            can_enumerate(*self, position@.len()),
        ensures
            cells_of(moves@) == legal_moves(*self, position@, team, board.occupancy(), pieces@),
            all_on_board(cells_of(moves@)),
    {
        proof {
            lemma_moves_stay_on_board(*self, position@, team, board.occupancy(), pieces@);
        }
        let dimensions = position.len();
        let mut moves: Vec<Position> = Vec::new();
        assert(cells_of(moves@) =~= Seq::<Seq<i8>>::empty());
        if dimensions == 0 {
            return moves;
        }
        match self {
            ChessPiece::Pawn => {
                pawn_into(position, team, board, pieces, &mut moves);
            },
            ChessPiece::King => {
                let tuples = NewPositionIter::<2>::new(dimensions);
                proof {
                    lemma_grid_entries(dimensions as nat, 3);
                }
                hop_over(tuples, true, position, team, board, pieces, &mut moves);
            },
            ChessPiece::Knight => {
                let leaps = LMoveIter::new(dimensions, 2);
                hop_over(leaps, false, position, team, board, pieces, &mut moves);
            },
            ChessPiece::Rook => {
                rook_into(position, team, board, pieces, &mut moves);
            },
            ChessPiece::Bishop => {
                bishop_into(position, team, board, pieces, &mut moves);
            },
            ChessPiece::Queen => {
                rook_into(position, team, board, pieces, &mut moves);
                if dimensions > 1 {
                    bishop_into(position, team, board, pieces, &mut moves);
                }
            },
        }
        assert(Seq::<Seq<i8>>::empty() + legal_moves(
            *self,
            position@,
            team,
            board.occupancy(),
            pieces@,
        ) =~= legal_moves(*self, position@, team, board.occupancy(), pieces@));
        moves
    }
}

/// Applies a chosen move: the occupant of `position` goes to `move_to` on
/// the board, displacing whoever stood there, and the piece's own position
/// becomes `move_to`.
pub fn make_move(board: &mut BoardState, position: &mut Position, move_to: &Position)
    ensures
        final(board).occupancy() == crate::board::occupancy_after_move(
            old(board).occupancy(),
            old(position)@,
            move_to@,
        ),
        final(board).pending_capture() == crate::board::capture_after_move(
            old(board).occupancy(),
            old(board).pending_capture(),
            old(position)@,
            move_to@,
        ),
        final(position)@ == move_to@,
{
    board.move_piece(position, move_to);
    *position = move_to.clone();
}

/// Adds the rook's destinations to the moves.
fn rook_into(
    position: &Position,
    team: Team,
    board: &BoardState,
    pieces: &TeamTable,
    moves: &mut Vec<Position>,
)
    ensures
        cells_of(final(moves)@) == cells_of(old(moves)@) + rook_moves(
            position@,
            0,
            team,
            board.occupancy(),
            pieces@,
        ),
{
    let dimensions = position.len();
    let ghost goal = cells_of(moves@) + rook_moves(position@, 0, team, board.occupancy(), pieces@);
    let mut axis: usize = 0;
    while axis < dimensions
        invariant
            axis <= dimensions,
            dimensions == position@.len(),
            cells_of(moves@) + rook_moves(position@, axis as int, team, board.occupancy(), pieces@)
                == goal,
        decreases dimensions - axis,
    {
        let ghost so_far = cells_of(moves@);
        let mut up = DimensionIter::<7>::new(dimensions, axis, true);
        let _ = up.next();
        slide_along(up, position, team, board, pieces, moves);
        let mut down = DimensionIter::<7>::new(dimensions, axis, false);
        let _ = down.next();
        slide_along(down, position, team, board, pieces, moves);
        proof {
            let ups = slide(
                position@,
                axis_ray(dimensions as nat, axis as int, true, 7).drop_first(),
                team,
                board.occupancy(),
                pieces@,
            );
            let downs = slide(
                position@,
                axis_ray(dimensions as nat, axis as int, false, 7).drop_first(),
                team,
                board.occupancy(),
                pieces@,
            );
            let later = rook_moves(position@, axis + 1, team, board.occupancy(), pieces@);
            assert(((so_far + ups) + downs) + later =~= so_far + (ups + downs + later));
        }
        axis += 1;
    }
    assert(cells_of(moves@) + Seq::<Seq<i8>>::empty() =~= cells_of(moves@));
}

/// Adds the bishop's destinations to the moves.
fn bishop_into(
    position: &Position,
    team: Team,
    board: &BoardState,
    pieces: &TeamTable,
    moves: &mut Vec<Position>,
)
    requires
        position@.len() <= MAX_BISHOP_AXES,
    ensures
        cells_of(final(moves)@) == cells_of(old(moves)@) + bishop_moves(
            position@,
            0,
            team,
            board.occupancy(),
            pieces@,
        ),
{
    let ghost goal = cells_of(moves@) + bishop_moves(
        position@,
        0,
        team,
        board.occupancy(),
        pieces@,
    );
    let mut rays = BishopMoveIterator::new(position.len());
    loop
        invariant_except_break
            cells_of(moves@) + bishop_moves(
                position@,
                rays.mask(),
                team,
                board.occupancy(),
                pieces@,
            ) == goal,
        invariant
            rays.wf(),
            rays.axes() == position@.len(),
            position@.len() <= MAX_BISHOP_AXES,
        ensures
            cells_of(moves@) == goal,
        decreases rays.upcoming().len(),
    {
        let ghost so_far = cells_of(moves@);
        let ghost mask = rays.mask();
        match rays.next() {
            None => {
                assert(so_far + Seq::<Seq<i8>>::empty() =~= so_far);
                break ;
            },
            Some(ray) => {
                let mut ray = ray;
                let _ = ray.next();
                slide_along(ray, position, team, board, pieces, moves);
                proof {
                    let along = slide(
                        position@,
                        diagonal_ray(sign_vector(mask, position@.len()), 7).drop_first(),
                        team,
                        board.occupancy(),
                        pieces@,
                    );
                    let later = bishop_moves(
                        position@,
                        (mask + 1) as u64,
                        team,
                        board.occupancy(),
                        pieces@,
                    );
                    assert((so_far + along) + later =~= so_far + (along + later));
                }
            },
        }
    }
}

/// Adds the pawn's destinations to the moves.
fn pawn_into(
    position: &Position,
    team: Team,
    board: &BoardState,
    pieces: &TeamTable,
    moves: &mut Vec<Position>,
)
    requires
        position@.len() > 0,
        old(moves)@.len() == 0,
    ensures
        cells_of(final(moves)@) == pawn_moves(position@, team, board.occupancy(), pieces@),
{
    let dimensions = position.len();
    let (forward, rank): (i8, i8) = match team {
        Team::White => (1, 1),
        Team::Black => (-1, 6),
    };
    assert(cells_of(moves@) =~= Seq::<Seq<i8>>::empty());
    let mut one = Position::zero(dimensions);
    one.add_dimension(0, forward);
    if let Some(next) = one.offset_from(position) {
        if board.get(&next).is_none() {
            push_cell(moves, next);
            if position.if_is(0, rank) {
                let mut two = Position::zero(dimensions);
                two.add_dimension(0, 2 * forward);
                if let Some(far) = two.offset_from(position) {
                    if board.get(&far).is_none() {
                        push_cell(moves, far);
                    }
                }
            }
        }
    }
    assert(cells_of(moves@) =~= pawn_advances(position@, team, board.occupancy()));
    let ghost advances = cells_of(moves@);
    let mut sides = PositionIter::<1>::start_at(dimensions, 1);
    let _ = sides.next();
    let ghost arms = axis_arms(dimensions as nat, 1, 1);
    proof {
        crate::enumerate::lemma_axis_arms_shape(dimensions as nat, 1, 1);
        assert(sides.remaining() =~= arms);
    }
    loop
        invariant_except_break
            cells_of(moves@) + pawn_captures(
                position@,
                sides.remaining(),
                team,
                board.occupancy(),
                pieces@,
            ) == advances + pawn_captures(position@, arms, team, board.occupancy(), pieces@),
        invariant
            sides.wf(),
            dimensions == position@.len(),
            dimensions > 0,
            forward == team.forward(),
            forall|k: int| 0 <= k < sides.remaining().len() ==> #[trigger] sides.remaining()[k].len() == dimensions,
        ensures
            cells_of(moves@) == advances + pawn_captures(
                position@,
                arms,
                team,
                board.occupancy(),
                pieces@,
            ),
        decreases sides.remaining().len(),
    {
        let ghost so_far = cells_of(moves@);
        let ghost ahead = sides.remaining();
        match sides.next() {
            None => {
                assert(so_far + Seq::<Seq<i8>>::empty() =~= so_far);
                break ;
            },
            Some(side) => {
                assert(ahead[0].len() == dimensions);
                let mut delta = side;
                delta.add_dimension(0, forward);
                let ghost rest = pawn_captures(
                    position@,
                    sides.remaining(),
                    team,
                    board.occupancy(),
                    pieces@,
                );
                let mut taken = false;
                if let Some(cell) = delta.offset_from(position) {
                    if holder(board, pieces, &cell) == Some(team.opposite()) {
                        let ghost here = cell@;
                        push_cell(moves, cell);
                        taken = true;
                        assert((so_far + seq![here]) + rest =~= so_far + (seq![here] + rest));
                    }
                }
                assert forall|k: int| 0 <= k < sides.remaining().len() implies #[trigger] sides.remaining()[k].len()
                    == dimensions by {
                    assert(sides.remaining()[k] == ahead[k + 1]);
                }
            },
        }
    }
}

} // verus!
