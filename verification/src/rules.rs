//! The rules of movement, as functions from a position, the board and the
//! teams to the list of destinations, and what follows from them.
//!
//! The destinations are listed in the order in which they are generated.
//! A cell counts as held by a team where it is occupied and its occupant has a
//! team; an occupant without a team blocks a pawn's advance and nothing else.

use vstd::prelude::*;
use crate::enumerate::{axis_arms, axis_ray};
use crate::move_iterators::bishop::{sign_vector, MAX_BISHOP_AXES};
use crate::move_iterators::primitive::{diagonal_ray, leaps};
use crate::odometer::grid;
use crate::pieces::{ChessPiece, Team};
use crate::position::{cells_of, landing, lands, on_board, origin, shifted_all, Position};

verus! {

/// The team that holds `cell`: that of its occupant, where the cell is
/// occupied and the occupant has a team.
pub open spec fn team_on(
    occupancy: Map<Seq<i8>, u64>,
    teams: Map<u64, Team>,
    cell: Seq<i8>,
) -> Option<Team> {
    if occupancy.contains_key(cell) && teams.contains_key(occupancy[cell]) {
        Some(teams[occupancy[cell]])
    } else {
        None
    }
}

/// The destinations along one ray. The offsets are walked from the nearest
/// on: an offset that leaves the board ends the ray; a cell that no team
/// holds is a destination and the ray goes on; a cell that the other team
/// holds is a destination and ends the ray; a cell that the own team holds
/// ends the ray and is no destination.
pub open spec fn slide(
    base: Seq<i8>,
    deltas: Seq<Seq<i8>>,
    team: Team,
    occupancy: Map<Seq<i8>, u64>,
    teams: Map<u64, Team>,
) -> Seq<Seq<i8>>
    decreases deltas.len(),
{
    if deltas.len() == 0 || !lands(base, deltas.first()) {
        Seq::empty()
    } else {
        let cell = landing(base, deltas.first());
        match team_on(occupancy, teams, cell) {
            Some(holder) => if holder != team {
                seq![cell]
            } else {
                Seq::empty()
            },
            None => seq![cell] + slide(base, deltas.drop_first(), team, occupancy, teams),
        }
    }
}

/// A ray stops exactly at the first cell that a team holds: where the first
/// `k` offsets lead to cells on the board that no team holds and the next one
/// leads to a cell on the board that a team holds, the destinations are those
/// `k` cells in order, followed by the held cell if and only if it is the
/// other team that holds it.
pub proof fn lemma_ray_stops_at_first_held_cell(
    base: Seq<i8>,
    deltas: Seq<Seq<i8>>,
    team: Team,
    occupancy: Map<Seq<i8>, u64>,
    teams: Map<u64, Team>,
    k: int,
)
    requires
        0 <= k < deltas.len(),
        forall|j: int| 0 <= j <= k ==> lands(base, #[trigger] deltas[j]),
        forall|j: int|
            0 <= j < k ==> team_on(occupancy, teams, landing(base, #[trigger] deltas[j])) is None,
        team_on(occupancy, teams, landing(base, deltas[k])) is Some,
    ensures
        slide(base, deltas, team, occupancy, teams) == Seq::new(
            k as nat,
            |j: int| landing(base, deltas[j]),
        ) + (if team_on(occupancy, teams, landing(base, deltas[k])) != Some(team) {
            seq![landing(base, deltas[k])]
        } else {
            Seq::empty()
        }),
    decreases k,
{
    let last = if team_on(occupancy, teams, landing(base, deltas[k])) != Some(team) {
        seq![landing(base, deltas[k])]
    } else {
        Seq::empty()
    };
    assert(lands(base, deltas[0]));
    if k == 0 {
        assert(slide(base, deltas, team, occupancy, teams) =~= Seq::new(
            0,
            |j: int| landing(base, deltas[j]),
        ) + last);
    } else {
        let rest = deltas.drop_first();
        assert forall|j: int| 0 <= j <= k - 1 implies lands(base, #[trigger] rest[j]) by {
            assert(rest[j] == deltas[j + 1]);
        }
        assert forall|j: int| 0 <= j < k - 1 implies team_on(
            occupancy,
            teams,
            landing(base, #[trigger] rest[j]),
        ) is None by {
            assert(rest[j] == deltas[j + 1]);
        }
        assert(rest[k - 1] == deltas[k]);
        lemma_ray_stops_at_first_held_cell(base, rest, team, occupancy, teams, k - 1);
        assert(team_on(occupancy, teams, landing(base, deltas[0])) is None);
        assert(slide(base, deltas, team, occupancy, teams) == seq![landing(base, deltas[0])]
            + slide(base, rest, team, occupancy, teams));
        assert(seq![landing(base, deltas[0])] + (Seq::new(
            (k - 1) as nat,
            |j: int| landing(base, rest[j]),
        ) + last) =~= Seq::new(k as nat, |j: int| landing(base, deltas[j])) + last);
    }
}

/// A ray that reaches a cell off the board ends there: where the first `k`
/// offsets lead to cells on the board that no team holds and the next one
/// leaves the board, the destinations are exactly those `k` cells.
pub proof fn lemma_ray_stops_at_the_edge(
    base: Seq<i8>,
    deltas: Seq<Seq<i8>>,
    team: Team,
    occupancy: Map<Seq<i8>, u64>,
    teams: Map<u64, Team>,
    k: int,
)
    requires
        0 <= k <= deltas.len(),
        forall|j: int| 0 <= j < k ==> lands(base, #[trigger] deltas[j]),
        forall|j: int|
            0 <= j < k ==> team_on(occupancy, teams, landing(base, #[trigger] deltas[j])) is None,
        k < deltas.len() ==> !lands(base, deltas[k]),
    ensures
        slide(base, deltas, team, occupancy, teams) == Seq::new(
            k as nat,
            |j: int| landing(base, deltas[j]),
        ),
    decreases k,
{
    if k == 0 {
        assert(slide(base, deltas, team, occupancy, teams) =~= Seq::new(
            0,
            |j: int| landing(base, deltas[j]),
        ));
    } else {
        let rest = deltas.drop_first();
        assert forall|j: int| 0 <= j < k - 1 implies lands(base, #[trigger] rest[j]) by {
            assert(rest[j] == deltas[j + 1]);
        }
        assert forall|j: int| 0 <= j < k - 1 implies team_on(
            occupancy,
            teams,
            landing(base, #[trigger] rest[j]),
        ) is None by {
            assert(rest[j] == deltas[j + 1]);
        }
        if k < deltas.len() {
            assert(rest[k - 1] == deltas[k]);
        }
        lemma_ray_stops_at_the_edge(base, rest, team, occupancy, teams, k - 1);
        assert(lands(base, deltas[0]));
        assert(team_on(occupancy, teams, landing(base, deltas[0])) is None);
        assert(seq![landing(base, deltas[0])] + Seq::new(
            (k - 1) as nat,
            |j: int| landing(base, rest[j]),
        ) =~= Seq::new(k as nat, |j: int| landing(base, deltas[j])));
    }
}

/// Whether a piece of `team` that stands on `base` may step onto the cell
/// that `delta` leads to: the cell is on the board, is not `base` itself and
/// is not held by the own team.
pub open spec fn may_step(
    base: Seq<i8>,
    delta: Seq<i8>,
    team: Team,
    occupancy: Map<Seq<i8>, u64>,
    teams: Map<u64, Team>,
) -> bool {
    &&& lands(base, delta)
    &&& landing(base, delta) != base
    &&& team_on(occupancy, teams, landing(base, delta)) != Some(team)
}

/// The destinations among independent offsets: each offset that the piece
/// may step by gives one, in the order of the offsets.
pub open spec fn hop(
    base: Seq<i8>,
    deltas: Seq<Seq<i8>>,
    team: Team,
    occupancy: Map<Seq<i8>, u64>,
    teams: Map<u64, Team>,
) -> Seq<Seq<i8>>
    decreases deltas.len(),
{
    if deltas.len() == 0 {
        Seq::empty()
    } else if may_step(base, deltas.first(), team, occupancy, teams) {
        seq![landing(base, deltas.first())] + hop(
            base,
            deltas.drop_first(),
            team,
            occupancy,
            teams,
        )
    } else {
        hop(base, deltas.drop_first(), team, occupancy, teams)
    }
}

/// The rook's destinations along `axis` and every later axis: for each axis
/// the ray towards growing coordinates and then the ray towards falling
/// ones, each seven cells long.
pub open spec fn rook_moves(
    base: Seq<i8>,
    axis: int,
    team: Team,
    occupancy: Map<Seq<i8>, u64>,
    teams: Map<u64, Team>,
) -> Seq<Seq<i8>>
    decreases base.len() - axis,
{
    if 0 <= axis < base.len() {
        slide(base, axis_ray(base.len(), axis, true, 7).drop_first(), team, occupancy, teams)
            + slide(base, axis_ray(base.len(), axis, false, 7).drop_first(), team, occupancy, teams)
            + rook_moves(base, axis + 1, team, occupancy, teams)
    } else {
        Seq::empty()
    }
}

/// The bishop's destinations along the diagonal rays from the one with the
/// given mask on: one ray for every way of giving each axis a direction,
/// seven cells long.
pub open spec fn bishop_moves(
    base: Seq<i8>,
    mask: u64,
    team: Team,
    occupancy: Map<Seq<i8>, u64>,
    teams: Map<u64, Team>,
) -> Seq<Seq<i8>>
    decreases (1u64 << (base.len() as u64)) - mask,
{
    if base.len() <= MAX_BISHOP_AXES && mask < (1u64 << (base.len() as u64)) {
        slide(
            base,
            diagonal_ray(sign_vector(mask, base.len()), 7).drop_first(),
            team,
            occupancy,
            teams,
        ) + bishop_moves(base, (mask + 1) as u64, team, occupancy, teams)
    } else {
        Seq::empty()
    }
}

/// The king's offsets on a board with `axes` axes: every vector over
/// `-1..=1`, the first axis changing fastest. The all-zero vector is among
/// them; it leads nowhere.
pub open spec fn king_offsets(axes: nat) -> Seq<Seq<i8>> {
    lowered(grid(axes, 3))
}

/// The tuples, each with every entry lowered by one.
pub open spec fn lowered(tuples: Seq<Seq<i8>>) -> Seq<Seq<i8>> {
    Seq::new(tuples.len(), |k: int| shifted_all(tuples[k], -1))
}

/// The offset of a pawn's advance by `steps` cells.
pub open spec fn pawn_advance(axes: nat, team: Team, steps: int) -> Seq<i8> {
    origin(axes).update(0, (steps * team.forward()) as i8)
}

/// The pawn's destinations straight ahead: the next cell where it is free,
/// and from the rank on which the pawn starts the cell after it where that
/// is free too.
pub open spec fn pawn_advances(base: Seq<i8>, team: Team, occupancy: Map<Seq<i8>, u64>) -> Seq<
    Seq<i8>,
> {
    let one = pawn_advance(base.len(), team, 1);
    let two = pawn_advance(base.len(), team, 2);
    if lands(base, one) && !occupancy.contains_key(landing(base, one)) {
        if base[0] == team.pawn_rank() && lands(base, two) && !occupancy.contains_key(
            landing(base, two),
        ) {
            seq![landing(base, one), landing(base, two)]
        } else {
            seq![landing(base, one)]
        }
    } else {
        Seq::empty()
    }
}

/// The offset of a pawn's capture: one cell ahead and `side` to the side.
pub open spec fn pawn_capture(side: Seq<i8>, team: Team) -> Seq<i8> {
    side.update(0, team.forward() as i8)
}

/// The pawn's captures: for each step to the side, the cell one ahead and
/// that step aside, where the other team holds it.
pub open spec fn pawn_captures(
    base: Seq<i8>,
    sides: Seq<Seq<i8>>,
    team: Team,
    occupancy: Map<Seq<i8>, u64>,
    teams: Map<u64, Team>,
) -> Seq<Seq<i8>>
    decreases sides.len(),
{
    if sides.len() == 0 {
        Seq::empty()
    } else {
        let delta = pawn_capture(sides.first(), team);
        let rest = pawn_captures(base, sides.drop_first(), team, occupancy, teams);
        if lands(base, delta) && team_on(occupancy, teams, landing(base, delta)) == Some(
            team.other(),
        ) {
            seq![landing(base, delta)] + rest
        } else {
            rest
        }
    }
}

/// The pawn's destinations: the advances, then the captures, one step aside
/// along each axis but the first, towards growing coordinates first.
pub open spec fn pawn_moves(
    base: Seq<i8>,
    team: Team,
    occupancy: Map<Seq<i8>, u64>,
    teams: Map<u64, Team>,
) -> Seq<Seq<i8>> {
    pawn_advances(base, team, occupancy) + pawn_captures(
        base,
        axis_arms(base.len(), 1, 1),
        team,
        occupancy,
        teams,
    )
}

/// The queen's destinations: the rook's, then the bishop's. On a board with
/// a single axis the bishop's rays are the rook's, and their destinations are
/// listed once.
pub open spec fn queen_moves(
    base: Seq<i8>,
    team: Team,
    occupancy: Map<Seq<i8>, u64>,
    teams: Map<u64, Team>,
) -> Seq<Seq<i8>> {
    if base.len() == 1 {
        rook_moves(base, 0, team, occupancy, teams)
    } else {
        rook_moves(base, 0, team, occupancy, teams) + bishop_moves(
            base,
            0,
            team,
            occupancy,
            teams,
        )
    }
}

/// The destinations of a piece of the given kind and team that stands on
/// `base`, in the order in which they are generated. On a board without axes
/// no piece has a destination.
pub open spec fn legal_moves(
    piece: ChessPiece,
    base: Seq<i8>,
    team: Team,
    occupancy: Map<Seq<i8>, u64>,
    teams: Map<u64, Team>,
) -> Seq<Seq<i8>> {
    if base.len() == 0 {
        Seq::empty()
    } else {
        match piece {
            ChessPiece::Pawn => pawn_moves(base, team, occupancy, teams),
            ChessPiece::Rook => rook_moves(base, 0, team, occupancy, teams),
            ChessPiece::Knight => hop(base, leaps(base.len(), 2), team, occupancy, teams),
            ChessPiece::Bishop => bishop_moves(base, 0, team, occupancy, teams),
            ChessPiece::Queen => queen_moves(base, team, occupancy, teams),
            ChessPiece::King => hop(base, king_offsets(base.len()), team, occupancy, teams),
        }
    }
}

/// Whether the moves of the kind can be enumerated on a board with that many
/// axes: the bishop's rays need a bit per axis in a `u64`, the knight's legs
/// a number per axis and direction in a `usize`.
pub open spec fn can_enumerate(piece: ChessPiece, axes: nat) -> bool {
    match piece {
        ChessPiece::Bishop | ChessPiece::Queen => axes <= MAX_BISHOP_AXES,
        ChessPiece::Knight => 2 * axes <= usize::MAX,
        _ => true,
    }
}

/// Whether every cell of the list is on the board.
pub open spec fn all_on_board(cells: Seq<Seq<i8>>) -> bool {
    forall|i: int| 0 <= i < cells.len() ==> on_board(#[trigger] cells[i])
}

/// A cell that an offset lands on is on the board.
pub proof fn lemma_landing_is_on_board(base: Seq<i8>, delta: Seq<i8>)
    requires
        lands(base, delta),
    ensures
        on_board(landing(base, delta)),
{
    assert forall|i: int| 0 <= i < landing(base, delta).len() implies 0 <= #[trigger] landing(
        base,
        delta,
    )[i] <= 7 by {
        assert(0 <= crate::position::added(delta, base)[i] <= 7);
    }
}

/// Two lists of cells on the board make one such list.
proof fn lemma_on_board_joins(first: Seq<Seq<i8>>, second: Seq<Seq<i8>>)
    requires
        all_on_board(first),
        all_on_board(second),
    ensures
        all_on_board(first + second),
{
    assert forall|i: int| 0 <= i < (first + second).len() implies on_board(
        #[trigger] (first + second)[i],
    ) by {
        if i < first.len() {
            assert((first + second)[i] == first[i]);
        } else {
            assert((first + second)[i] == second[i - first.len()]);
        }
    }
}

/// The destinations along a ray are on the board.
pub proof fn lemma_slide_stays_on_board(
    base: Seq<i8>,
    deltas: Seq<Seq<i8>>,
    team: Team,
    occupancy: Map<Seq<i8>, u64>,
    teams: Map<u64, Team>,
)
    ensures
        all_on_board(slide(base, deltas, team, occupancy, teams)),
    decreases deltas.len(),
{
    if deltas.len() > 0 && lands(base, deltas.first()) {
        lemma_landing_is_on_board(base, deltas.first());
        let cell = landing(base, deltas.first());
        assert(all_on_board(seq![cell])) by {
            assert(seq![cell][0] == cell);
        }
        lemma_slide_stays_on_board(base, deltas.drop_first(), team, occupancy, teams);
        lemma_on_board_joins(
            seq![cell],
            slide(base, deltas.drop_first(), team, occupancy, teams),
        );
    }
}

/// The destinations among independent offsets are on the board.
pub proof fn lemma_hop_stays_on_board(
    base: Seq<i8>,
    deltas: Seq<Seq<i8>>,
    team: Team,
    occupancy: Map<Seq<i8>, u64>,
    teams: Map<u64, Team>,
)
    ensures
        all_on_board(hop(base, deltas, team, occupancy, teams)),
    decreases deltas.len(),
{
    if deltas.len() > 0 {
        lemma_hop_stays_on_board(base, deltas.drop_first(), team, occupancy, teams);
        if may_step(base, deltas.first(), team, occupancy, teams) {
            lemma_landing_is_on_board(base, deltas.first());
            let cell = landing(base, deltas.first());
            assert(all_on_board(seq![cell])) by {
                assert(seq![cell][0] == cell);
            }
            lemma_on_board_joins(
                seq![cell],
                hop(base, deltas.drop_first(), team, occupancy, teams),
            );
        }
    }
}

/// The rook's destinations are on the board.
proof fn lemma_rook_stays_on_board(
    base: Seq<i8>,
    axis: int,
    team: Team,
    occupancy: Map<Seq<i8>, u64>,
    teams: Map<u64, Team>,
)
    ensures
        all_on_board(rook_moves(base, axis, team, occupancy, teams)),
    decreases base.len() - axis,
{
    if 0 <= axis < base.len() {
        let up = axis_ray(base.len(), axis, true, 7).drop_first();
        let down = axis_ray(base.len(), axis, false, 7).drop_first();
        lemma_slide_stays_on_board(base, up, team, occupancy, teams);
        lemma_slide_stays_on_board(base, down, team, occupancy, teams);
        lemma_rook_stays_on_board(base, axis + 1, team, occupancy, teams);
        lemma_on_board_joins(
            slide(base, up, team, occupancy, teams),
            slide(base, down, team, occupancy, teams),
        );
        lemma_on_board_joins(
            slide(base, up, team, occupancy, teams) + slide(base, down, team, occupancy, teams),
            rook_moves(base, axis + 1, team, occupancy, teams),
        );
    }
}

/// The bishop's destinations are on the board.
proof fn lemma_bishop_stays_on_board(
    base: Seq<i8>,
    mask: u64,
    team: Team,
    occupancy: Map<Seq<i8>, u64>,
    teams: Map<u64, Team>,
)
    ensures
        all_on_board(bishop_moves(base, mask, team, occupancy, teams)),
    decreases (1u64 << (base.len() as u64)) - mask,
{
    if base.len() <= MAX_BISHOP_AXES && mask < (1u64 << (base.len() as u64)) {
        let ray = diagonal_ray(sign_vector(mask, base.len()), 7).drop_first();
        lemma_slide_stays_on_board(base, ray, team, occupancy, teams);
        lemma_bishop_stays_on_board(base, (mask + 1) as u64, team, occupancy, teams);
        lemma_on_board_joins(
            slide(base, ray, team, occupancy, teams),
            bishop_moves(base, (mask + 1) as u64, team, occupancy, teams),
        );
    }
}

/// The pawn's captures are on the board.
proof fn lemma_pawn_captures_stay_on_board(
    base: Seq<i8>,
    sides: Seq<Seq<i8>>,
    team: Team,
    occupancy: Map<Seq<i8>, u64>,
    teams: Map<u64, Team>,
)
    ensures
        all_on_board(pawn_captures(base, sides, team, occupancy, teams)),
    decreases sides.len(),
{
    if sides.len() > 0 {
        let delta = pawn_capture(sides.first(), team);
        lemma_pawn_captures_stay_on_board(base, sides.drop_first(), team, occupancy, teams);
        if lands(base, delta) {
            lemma_landing_is_on_board(base, delta);
            assert(all_on_board(seq![landing(base, delta)])) by {
                assert(seq![landing(base, delta)][0] == landing(base, delta));
            }
            lemma_on_board_joins(
                seq![landing(base, delta)],
                pawn_captures(base, sides.drop_first(), team, occupancy, teams),
            );
        }
    }
}

/// No destination lies off the board: whatever the kind of the piece, its
/// position, the board and the teams, every generated destination has all
/// its coordinates in `0..=7`.
pub proof fn lemma_moves_stay_on_board(
    piece: ChessPiece,
    base: Seq<i8>,
    team: Team,
    occupancy: Map<Seq<i8>, u64>,
    teams: Map<u64, Team>,
)
    ensures
        all_on_board(legal_moves(piece, base, team, occupancy, teams)),
{
    if base.len() > 0 {
        lemma_rook_stays_on_board(base, 0, team, occupancy, teams);
        lemma_bishop_stays_on_board(base, 0, team, occupancy, teams);
        lemma_on_board_joins(
            rook_moves(base, 0, team, occupancy, teams),
            bishop_moves(base, 0, team, occupancy, teams),
        );
        lemma_hop_stays_on_board(base, leaps(base.len(), 2), team, occupancy, teams);
        lemma_hop_stays_on_board(base, king_offsets(base.len()), team, occupancy, teams);
        lemma_pawn_captures_stay_on_board(base, axis_arms(base.len(), 1, 1), team, occupancy, teams);
        let one = pawn_advance(base.len(), team, 1);
        let two = pawn_advance(base.len(), team, 2);
        let advances = pawn_advances(base, team, occupancy);
        assert(all_on_board(advances)) by {
            if lands(base, one) {
                lemma_landing_is_on_board(base, one);
            }
            if lands(base, two) {
                lemma_landing_is_on_board(base, two);
            }
            assert forall|i: int| 0 <= i < advances.len() implies on_board(
                #[trigger] advances[i],
            ) by {
                if i == 0 {
                    assert(advances[0] == landing(base, one));
                } else {
                    assert(advances[1] == landing(base, two));
                }
            }
        }
        lemma_on_board_joins(
            advances,
            pawn_captures(base, axis_arms(base.len(), 1, 1), team, occupancy, teams),
        );
    }
}

/// Every destination along a ray is the cell that one of the offsets of the
/// ray lands on.
pub proof fn lemma_slide_members(
    base: Seq<i8>,
    deltas: Seq<Seq<i8>>,
    team: Team,
    occupancy: Map<Seq<i8>, u64>,
    teams: Map<u64, Team>,
    i: int,
)
    requires
        0 <= i < slide(base, deltas, team, occupancy, teams).len(),
    ensures
        exists|j: int|
            0 <= j < deltas.len() && lands(base, #[trigger] deltas[j]) && slide(
                base,
                deltas,
                team,
                occupancy,
                teams,
            )[i] == landing(base, deltas[j]),
    decreases deltas.len(),
{
    let cells = slide(base, deltas, team, occupancy, teams);
    assert(deltas.len() > 0 && lands(base, deltas.first()));
    if i == 0 {
        assert(cells[0] == landing(base, deltas[0]));
    } else {
        let rest = deltas.drop_first();
        assert(cells == seq![landing(base, deltas.first())] + slide(
            base,
            rest,
            team,
            occupancy,
            teams,
        ));
        assert(cells[i] == slide(base, rest, team, occupancy, teams)[i - 1]);
        lemma_slide_members(base, rest, team, occupancy, teams, i - 1);
        let j = choose|j: int|
            0 <= j < rest.len() && lands(base, #[trigger] rest[j]) && slide(
                base,
                rest,
                team,
                occupancy,
                teams,
            )[i - 1] == landing(base, rest[j]);
        assert(rest[j] == deltas[j + 1]);
    }
}

/// Whether `cell` is `base` moved along the single axis `axis`.
pub open spec fn along_axis(base: Seq<i8>, cell: Seq<i8>, axis: int) -> bool {
    &&& cell.len() == base.len()
    &&& forall|k: int| 0 <= k < base.len() && k != axis ==> cell[k] == base[k]
}

/// Whether `cell` is `base` moved along every axis at once.
pub open spec fn along_diagonal(base: Seq<i8>, cell: Seq<i8>) -> bool {
    &&& cell.len() == base.len()
    &&& forall|k: int| 0 <= k < base.len() ==> cell[k] != base[k]
}

/// Every destination of the rook lies along a single axis from where it
/// stands.
pub proof fn lemma_rook_moves_along_an_axis(
    base: Seq<i8>,
    axis: int,
    team: Team,
    occupancy: Map<Seq<i8>, u64>,
    teams: Map<u64, Team>,
    i: int,
)
    requires
        0 <= i < rook_moves(base, axis, team, occupancy, teams).len(),
    ensures
        exists|a: int| along_axis(base, rook_moves(base, axis, team, occupancy, teams)[i], a),
    decreases base.len() - axis,
{
    let cells = rook_moves(base, axis, team, occupancy, teams);
    assert(0 <= axis < base.len());
    let up = axis_ray(base.len(), axis, true, 7).drop_first();
    let down = axis_ray(base.len(), axis, false, 7).drop_first();
    let ups = slide(base, up, team, occupancy, teams);
    let downs = slide(base, down, team, occupancy, teams);
    let later = rook_moves(base, axis + 1, team, occupancy, teams);
    assert(cells == ups + downs + later);
    if i < ups.len() {
        assert(cells[i] == ups[i]);
        lemma_slide_members(base, up, team, occupancy, teams, i);
        let j = choose|j: int|
            0 <= j < up.len() && lands(base, #[trigger] up[j]) && ups[i] == landing(base, up[j]);
        assert(up[j] == axis_ray(base.len(), axis, true, 7)[j + 1]);
        lemma_step_along_axis(base, up[j], axis);
    } else if i < ups.len() + downs.len() {
        assert(cells[i] == downs[i - ups.len()]);
        lemma_slide_members(base, down, team, occupancy, teams, i - ups.len());
        let j = choose|j: int|
            0 <= j < down.len() && lands(base, #[trigger] down[j]) && downs[i - ups.len()]
                == landing(base, down[j]);
        assert(down[j] == axis_ray(base.len(), axis, false, 7)[j + 1]);
        lemma_step_along_axis(base, down[j], axis);
    } else {
        assert(cells[i] == later[i - ups.len() - downs.len()]);
        lemma_rook_moves_along_an_axis(
            base,
            axis + 1,
            team,
            occupancy,
            teams,
            i - ups.len() - downs.len(),
        );
    }
}

/// An offset that is zero but along one axis leads to a cell along that axis.
proof fn lemma_step_along_axis(base: Seq<i8>, delta: Seq<i8>, axis: int)
    requires
        lands(base, delta),
        delta.len() == base.len(),
        forall|k: int| 0 <= k < delta.len() && k != axis ==> delta[k] == 0,
    ensures
        along_axis(base, landing(base, delta), axis),
{
    assert forall|k: int| 0 <= k < base.len() && k != axis implies landing(base, delta)[k]
        == base[k] by {
        assert(0 <= crate::position::added(delta, base)[k] <= 7);
    }
}

/// Every destination of the bishop lies along every axis at once from where
/// it stands.
pub proof fn lemma_bishop_moves_along_a_diagonal(
    base: Seq<i8>,
    mask: u64,
    team: Team,
    occupancy: Map<Seq<i8>, u64>,
    teams: Map<u64, Team>,
    i: int,
)
    requires
        0 <= i < bishop_moves(base, mask, team, occupancy, teams).len(),
    ensures
        along_diagonal(base, bishop_moves(base, mask, team, occupancy, teams)[i]),
    decreases (1u64 << (base.len() as u64)) - mask,
{
    let cells = bishop_moves(base, mask, team, occupancy, teams);
    assert(base.len() <= MAX_BISHOP_AXES && mask < (1u64 << (base.len() as u64)));
    let whole = diagonal_ray(sign_vector(mask, base.len()), 7);
    let ray = whole.drop_first();
    let along = slide(base, ray, team, occupancy, teams);
    let later = bishop_moves(base, (mask + 1) as u64, team, occupancy, teams);
    assert(cells == along + later);
    if i < along.len() {
        assert(cells[i] == along[i]);
        lemma_slide_members(base, ray, team, occupancy, teams, i);
        let j = choose|j: int|
            0 <= j < ray.len() && lands(base, #[trigger] ray[j]) && along[i] == landing(
                base,
                ray[j],
            );
        let delta = ray[j];
        assert(delta == whole[j + 1]);
        assert forall|k: int| 0 <= k < base.len() implies landing(base, delta)[k] != base[k] by {
            assert(0 <= crate::position::added(delta, base)[k] <= 7);
            assert(delta[k] == j + 1 || delta[k] == -(j + 1));
        }
    } else {
        assert(cells[i] == later[i - along.len()]);
        lemma_bishop_moves_along_a_diagonal(
            base,
            (mask + 1) as u64,
            team,
            occupancy,
            teams,
            i - along.len(),
        );
    }
}

/// On a board with at least two axes the rook and the bishop share no
/// destination, so that the queen's destinations, the rook's and then the
/// bishop's, hold no cell of the one among those of the other.
pub proof fn lemma_rook_and_bishop_never_meet(
    base: Seq<i8>,
    team: Team,
    occupancy: Map<Seq<i8>, u64>,
    teams: Map<u64, Team>,
    i: int,
    j: int,
)
    requires
        base.len() >= 2,
        0 <= i < rook_moves(base, 0, team, occupancy, teams).len(),
        0 <= j < bishop_moves(base, 0, team, occupancy, teams).len(),
    ensures
        rook_moves(base, 0, team, occupancy, teams)[i] != bishop_moves(
            base,
            0,
            team,
            occupancy,
            teams,
        )[j],
{
    let straight = rook_moves(base, 0, team, occupancy, teams)[i];
    let slanted = bishop_moves(base, 0, team, occupancy, teams)[j];
    lemma_rook_moves_along_an_axis(base, 0, team, occupancy, teams, i);
    lemma_bishop_moves_along_a_diagonal(base, 0, team, occupancy, teams, j);
    let axis = choose|a: int| along_axis(base, straight, a);
    let other = if axis == 0 {
        1int
    } else {
        0int
    };
    assert(straight[other] == base[other]);
    assert(slanted[other] != base[other]);
}

/// Generating the moves again, with the board and the teams unchanged, gives
/// the same destinations in the same order.
pub proof fn lemma_generation_is_repeatable(
    piece: ChessPiece,
    base: Seq<i8>,
    team: Team,
    occupancy: Map<Seq<i8>, u64>,
    teams: Map<u64, Team>,
    first: Seq<Position>,
    second: Seq<Position>,
)
    requires
        cells_of(first) == legal_moves(piece, base, team, occupancy, teams),
        cells_of(second) == legal_moves(piece, base, team, occupancy, teams),
    ensures
        first.len() == second.len(),
        forall|i: int| 0 <= i < first.len() ==> first[i]@ == second[i]@,
{
    assert(cells_of(first).len() == first.len());
    assert(cells_of(second).len() == second.len());
    assert forall|i: int| 0 <= i < first.len() implies first[i]@ == second[i]@ by {
        assert(cells_of(first)[i] == first[i]@);
        assert(cells_of(second)[i] == second[i]@);
    }
}

/// The king's offsets are the single steps: there are `3` to the power of
/// the number of axes of them, the all-zero one counted, and every entry of
/// each is `-1`, `0` or `1`.
pub proof fn lemma_king_offsets_are_single_steps(axes: nat)
    ensures
        king_offsets(axes).len() == crate::odometer::tuple_count(3, axes),
        forall|k: int|
            0 <= k < king_offsets(axes).len() ==> (#[trigger] king_offsets(axes)[k]).len() == axes,
        forall|k: int, i: int|
            0 <= k < king_offsets(axes).len() && 0 <= i < axes ==> -1 <= #[trigger] king_offsets(
                axes,
            )[k][i] <= 1,
{
    lemma_grid_entries(axes, 3);
    assert forall|k: int| 0 <= k < king_offsets(axes).len() implies (#[trigger] king_offsets(
        axes,
    )[k]).len() == axes by {
        crate::odometer::lemma_digits_are_digits(k as nat, 3, axes);
    }
    assert forall|k: int, i: int|
        0 <= k < king_offsets(axes).len() && 0 <= i < axes implies -1 <= #[trigger] king_offsets(
        axes,
    )[k][i] <= 1 by {
        crate::odometer::lemma_digits_are_digits(k as nat, 3, axes);
        assert(grid(axes, 3)[k].len() == axes);
        assert(0 <= grid(axes, 3)[k][i] < 3);
    }
}

/// No two of the king's offsets are the same.
pub proof fn lemma_king_offsets_are_distinct(axes: nat, m: int, n: int)
    requires
        0 <= m < n < king_offsets(axes).len(),
    ensures
        king_offsets(axes)[m] != king_offsets(axes)[n],
{
    crate::odometer::lemma_grid_has_no_repeats(axes, 3, m, n);
    lemma_grid_entries(axes, 3);
    let first = grid(axes, 3)[m];
    let second = grid(axes, 3)[n];
    crate::odometer::lemma_digits_are_digits(m as nat, 3, axes);
    crate::odometer::lemma_digits_are_digits(n as nat, 3, axes);
    if king_offsets(axes)[m] == king_offsets(axes)[n] {
        assert forall|i: int| 0 <= i < axes implies first[i] == second[i] by {
            assert(king_offsets(axes)[m][i] == first[i] - 1);
            assert(king_offsets(axes)[n][i] == second[i] - 1);
        }
        assert(first =~= second);
    }
}

/// Every vector over `-1..=1` with one entry per axis is among the king's
/// offsets.
pub proof fn lemma_every_single_step_is_listed(axes: nat, step: Seq<i8>)
    requires
        axes >= 1,
        step.len() == axes,
        forall|i: int| 0 <= i < axes ==> -1 <= #[trigger] step[i] <= 1,
    ensures
        exists|k: int| 0 <= k < king_offsets(axes).len() && #[trigger] king_offsets(axes)[k] == step,
{
    let tuple = Seq::new(axes, |i: int| step[i] + 1);
    assert(crate::odometer::all_digits(tuple, 3));
    crate::odometer::lemma_digits_of_rank(tuple, 3);
    let k = crate::odometer::rank(tuple, 3);
    assert(crate::odometer::digits(k as nat, 3, axes) == tuple);
    assert(king_offsets(axes)[k] =~= step);
}

/// Every entry of every tuple of the grid is a digit.
pub proof fn lemma_grid_entries(places: nat, base: nat)
    requires
        1 <= base <= 127,
    ensures
        forall|k: int, i: int|
            0 <= k < grid(places, base).len() && 0 <= i < grid(places, base)[k].len() ==> 0
                <= #[trigger] grid(places, base)[k][i] < base,
{
    assert forall|k: int, i: int|
        0 <= k < grid(places, base).len() && 0 <= i < grid(places, base)[k].len() implies 0
        <= #[trigger] grid(places, base)[k][i] < base by {
        crate::odometer::lemma_digits_are_digits(k as nat, base, places);
        let tuple = crate::odometer::digits(k as nat, base, places);
        assert(0 <= tuple[i] < base);
    }
}

} // verus!
