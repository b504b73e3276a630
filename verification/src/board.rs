//! Board occupancy: which occupant stands on which cell, and the occupant
//! that the last capture displaced.
//!
//! An occupant is an opaque `u64` handle. What kind of piece it is and which
//! team it plays for is kept by the caller.

use vstd::prelude::*;
use bevy::platform::collections::HashMap;
use bevy::platform::hash::FixedHasher;
use crate::position::Position;

verus! {

/// `HashMap` of `bevy::platform::collections`, declared so that it can stand
/// in fields and signatures. Nothing is known of what a value of it holds but
/// what `cells` names.
#[verifier::external_type_specification]
#[verifier::external_body]
#[verifier::reject_recursive_types(K)]
#[verifier::reject_recursive_types(V)]
#[verifier::reject_recursive_types(S)]
pub struct ExHashMap<K, V, S>(HashMap<K, V, S>);

/// `FixedHasher` of `bevy::platform::hash`, the hasher that the store is made
/// with. It is declared because it is a parameter of the store's type;
/// nothing is stated of it.
#[verifier::external_type_specification]
#[verifier::external_body]
pub struct ExFixedHasher(FixedHasher);

/// The occupancy store: occupants keyed by the cell they stand on.
pub type CellStore = HashMap<Position, u64>;

/// The cells that an occupancy store holds, each with its occupant. Two
/// positions are the same key when their coordinates are the same.
pub uninterp spec fn cells(store: CellStore) -> Map<Seq<i8>, u64>;

/// `HashMap::default` of `bevy::platform::collections`: a store that holds no
/// cell.
#[verifier::external_body]
fn store_new() -> (store: CellStore)
    ensures
        (cells(store) == Map::<Seq<i8>, u64>::empty()),
{
    HashMap::default()
}

/// `HashMap::get` of `bevy::platform::collections`: the occupant stored under
/// the position, if the store holds that cell.
#[verifier::external_body]
fn store_get(store: &CellStore, position: &Position) -> (occupant: Option<u64>)
    ensures
        occupant == occupant_at(cells(*store), position@),
{
    store.get(position).copied()
}

/// `HashMap::insert` of `bevy::platform::collections`: afterwards the store
/// holds the occupant under the position and is otherwise unchanged; the
/// result is the occupant that the cell held before, if it held one.
#[verifier::external_body]
fn store_insert(store: &mut CellStore, position: Position, occupant: u64) -> (previous: Option<u64>)
    ensures
        cells(*final(store)) == cells(*old(store)).insert(position@, occupant),
        previous == occupant_at(cells(*old(store)), position@),
{
    store.insert(position, occupant)
}

/// `HashMap::remove` of `bevy::platform::collections`: afterwards the store
/// does not hold the cell and is otherwise unchanged; the result is the
/// occupant that the cell held before, if it held one.
#[verifier::external_body]
fn store_remove(store: &mut CellStore, position: &Position) -> (previous: Option<u64>)
    ensures
        cells(*final(store)) == cells(*old(store)).remove(position@),
        previous == occupant_at(cells(*old(store)), position@),
{
    store.remove(position)
}

/// The occupant of `cell`, if the cell is occupied.
pub open spec fn occupant_at(occupancy: Map<Seq<i8>, u64>, cell: Seq<i8>) -> Option<u64> {
    if occupancy.contains_key(cell) {
        Some(occupancy[cell])
    } else {
        None
    }
}

/// The occupancy after the occupant of `from` has been moved to `to`. Where
/// `from` is empty nothing moves.
pub open spec fn occupancy_after_move(
    occupancy: Map<Seq<i8>, u64>,
    from: Seq<i8>,
    to: Seq<i8>,
) -> Map<Seq<i8>, u64> {
    if occupancy.contains_key(from) {
        occupancy.remove(from).insert(to, occupancy[from])
    } else {
        occupancy
    }
}

/// The pending capture after the occupant of `from` has been moved to `to`:
/// the occupant that the move displaced from `to`, or else what was pending
/// before.
pub open spec fn capture_after_move(
    occupancy: Map<Seq<i8>, u64>,
    pending: Option<u64>,
    from: Seq<i8>,
    to: Seq<i8>,
) -> Option<u64> {
    if occupancy.contains_key(from) && from != to && occupancy.contains_key(to) {
        Some(occupancy[to])
    } else {
        pending
    }
}

/// Sparse occupancy of the board, with one slot for the occupant that the
/// last capture displaced and that has not been collected yet.
pub struct BoardState {
    captured: Option<u64>,
    board: CellStore,
}

impl BoardState {
    /// The occupied cells, each with its occupant.
    pub closed spec fn occupancy(&self) -> Map<Seq<i8>, u64> {
        cells(self.board)
    }

    /// The displaced occupant that waits to be collected, if there is one.
    pub closed spec fn pending_capture(&self) -> Option<u64> {
        self.captured
    }

    /// An empty board with nothing pending.
    pub fn new() -> (state: BoardState)
        ensures
            (state.occupancy() == Map::<Seq<i8>, u64>::empty()),
            state.pending_capture() is None,
    {
        BoardState { captured: None, board: store_new() }
    }

    /// The occupant of the cell, if it is occupied.
    pub fn get(&self, position: &Position) -> (occupant: Option<u64>)
        ensures
            occupant == occupant_at(self.occupancy(), position@),
    {
        store_get(&self.board, position)
    }

    /// Puts the occupant on the cell, in place of whoever stood there.
    pub fn set(&mut self, position: Position, occupant: u64)
        ensures
            final(self).occupancy() == old(self).occupancy().insert(position@, occupant),
            final(self).pending_capture() == old(self).pending_capture(),
    {
        let _ = store_insert(&mut self.board, position, occupant);
    }

    /// Moves the occupant of `from` to `to`. An occupant that stood on `to`
    /// is displaced and becomes the pending capture, in place of an earlier
    /// one that was not collected. Where `from` is empty nothing changes.
    pub fn move_piece(&mut self, from: &Position, to: &Position)
        ensures
            final(self).occupancy() == occupancy_after_move(old(self).occupancy(), from@, to@),
            final(self).pending_capture() == capture_after_move(
                old(self).occupancy(),
                old(self).pending_capture(),
                from@,
                to@,
            ),
    {
        if let Some(occupant) = store_remove(&mut self.board, from) {
            let displaced = store_insert(&mut self.board, to.clone(), occupant);
            if displaced.is_some() {
                self.captured = displaced;
            }
        }
    }

    /// Hands out the pending capture and empties the slot. With nothing
    /// pending it returns `None` and changes nothing.
    pub fn take_captured(&mut self) -> (captured: Option<u64>)
        ensures
            captured == old(self).pending_capture(),
            final(self).pending_capture() is None,
            final(self).occupancy() == old(self).occupancy(),
    {
        let captured = self.captured;
        self.captured = None;
        captured
    }
}

/// A move onto an occupied cell is a capture: after the move the destination
/// holds the mover, the origin is empty, every other cell is as it was, and
/// the one pending capture is the occupant that the move displaced, whatever
/// was pending before.
pub proof fn lemma_capture_is_reported_once(
    occupancy: Map<Seq<i8>, u64>,
    pending: Option<u64>,
    from: Seq<i8>,
    to: Seq<i8>,
)
    requires
        occupancy.contains_key(from),
        occupancy.contains_key(to),
        from != to,
    ensures
        occupant_at(occupancy_after_move(occupancy, from, to), to) == Some(occupancy[from]),
        occupant_at(occupancy_after_move(occupancy, from, to), from) is None,
        capture_after_move(occupancy, pending, from, to) == Some(occupancy[to]),
        forall|cell: Seq<i8>|
            cell != from && cell != to ==> occupant_at(
                occupancy_after_move(occupancy, from, to),
                cell,
            ) == occupant_at(occupancy, cell),
{
}

/// The number of axes of the board.
pub struct Dimensions(usize);

impl Dimensions {
    /// A board with `count` axes.
    pub fn new(count: usize) -> (dimensions: Dimensions)
        ensures
            dimensions.count() == count,
    {
        Dimensions(count)
    }

    /// The number of axes.
    pub closed spec fn count(&self) -> usize {
        self.0
    }

    /// The number of axes.
    #[verifier::when_used_as_spec(count)]
    pub fn get(&self) -> (count: usize)
        ensures
            count == self.count(),
    {
        self.0
    }
}

} // verus!
