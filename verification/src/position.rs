//! Positions on the board: one signed coordinate per axis.
//!
//! Coordinates are `i8`, so that a position can leave the board for a moment
//! while an offset is being applied. Arithmetic never wraps: every operation
//! that changes a coordinate states the bound it needs.

use vstd::prelude::*;
use vstd::std_specs::cmp::PartialEqSpecImpl;
use vstd::std_specs::ops::AddSpecImpl;

verus! {

/// A coordinate vector, one entry per axis of the board.
///
/// A placed piece has every coordinate in `0..=7`; a position that is used as
/// an offset may lie outside the board until it is validated.
#[derive(Debug, Default, Hash, Eq)]
pub struct Position(pub Vec<i8>);

impl View for Position {
    type V = Seq<i8>;

    open spec fn view(&self) -> Seq<i8> {
        self.0@
    }
}

/// Whether every coordinate of `p` is a cell index of the board.
pub open spec fn on_board(p: Seq<i8>) -> bool {
    forall|i: int| 0 <= i < p.len() ==> 0 <= #[trigger] p[i] <= 7
}

/// The all-zero vector with `n` axes.
pub open spec fn origin(n: nat) -> Seq<i8> {
    Seq::new(n, |i: int| 0i8)
}

/// `p` with `by` added to the coordinate at `dim`; `p` itself where it has no
/// such axis.
pub open spec fn shifted(p: Seq<i8>, dim: int, by: int) -> Seq<i8> {
    if 0 <= dim < p.len() {
        p.update(dim, (p[dim] + by) as i8)
    } else {
        p
    }
}

/// Whether the coordinate of `p` at `dim`, if there is one, stays an `i8`
/// after `by` is added to it.
pub open spec fn shift_fits(p: Seq<i8>, dim: int, by: int) -> bool {
    0 <= dim < p.len() ==> i8::MIN <= p[dim] + by <= i8::MAX
}

/// The coordinates of `p` after `q` is added to it, axis by axis over the axes
/// that both have; the axes of `p` beyond the length of `q` are kept.
pub open spec fn added(p: Seq<i8>, q: Seq<i8>) -> Seq<int> {
    Seq::new(p.len(), |i: int| if i < q.len() { p[i] + q[i] } else { p[i] as int })
}

/// Whether every coordinate of `added(p, q)` is an `i8`.
pub open spec fn sum_fits(p: Seq<i8>, q: Seq<i8>) -> bool {
    forall|i: int| 0 <= i < p.len() ==> i8::MIN <= #[trigger] added(p, q)[i] <= i8::MAX
}

/// Whether `delta`, applied to `base`, ends on the board.
pub open spec fn lands(base: Seq<i8>, delta: Seq<i8>) -> bool {
    forall|i: int| 0 <= i < delta.len() ==> 0 <= #[trigger] added(delta, base)[i] <= 7
}

/// The cell that `delta` leads to from `base`. It is meaningful where
/// `lands(base, delta)` holds.
pub open spec fn landing(base: Seq<i8>, delta: Seq<i8>) -> Seq<i8> {
    Seq::new(delta.len(), |i: int| added(delta, base)[i] as i8)
}

/// Every coordinate of `p` moved by `by`.
pub open spec fn shifted_all(p: Seq<i8>, by: int) -> Seq<i8> {
    Seq::new(p.len(), |i: int| (p[i] + by) as i8)
}

/// The sum of the coordinates of `p`.
pub open spec fn coordinate_sum(p: Seq<i8>) -> int
    decreases p.len(),
{
    if p.len() == 0 {
        0
    } else {
        coordinate_sum(p.drop_last()) + p.last()
    }
}

/// The cells of a list of positions.
pub open spec fn cells_of(positions: Seq<Position>) -> Seq<Seq<i8>> {
    Seq::new(positions.len(), |i: int| positions[i]@)
}

impl Clone for Position {
    fn clone(&self) -> (copy: Self)
        ensures
            copy@ == self@,
    {
        Position(self.0.clone())
    }
}

impl PartialEq for Position {
    fn eq(&self, other: &Position) -> (same: bool) {
        if self.0.len() != other.0.len() {
            return false;
        }
        let mut i: usize = 0;
        while i < self.0.len()
            invariant
                i <= self.0.len(),
                self.0.len() == other.0.len(),
                forall|j: int| 0 <= j < i ==> self@[j] == other@[j],
            decreases self.0.len() - i,
        {
            if self.0[i] != other.0[i] {
                return false;
            }
            i += 1;
        }
        assert(self@ =~= other@);
        true
    }
}

impl PartialEqSpecImpl for Position {
    open spec fn obeys_eq_spec() -> bool {
        true
    }

    open spec fn eq_spec(&self, other: &Position) -> bool {
        self@ == other@
    }
}

impl core::ops::Add for Position {
    type Output = Position;

    /// The sum of two positions: the left one with the right one added to
    /// it, axis by axis over the axes that both have.
    fn add(self, rhs: Position) -> (sum: Position)
        ensures
            sum@.len() == self@.len(),
            forall|i: int| 0 <= i < self@.len() ==> #[trigger] sum@[i] == added(self@, rhs@)[i],
    {
        let mut sum = self;
        Position::add(&mut sum, &rhs);
        sum
    }
}

/// What `+` computes is stated on `add` itself. The sum is not named as a
/// value of its own: two vectors with the same coordinates need not be the
/// same value.
impl AddSpecImpl for Position {
    open spec fn obeys_add_spec() -> bool {
        false
    }

    open spec fn add_req(self, rhs: Position) -> bool {
        sum_fits(self@, rhs@)
    }

    open spec fn add_spec(self, rhs: Position) -> Position {
        self
    }
}

impl Position {
    /// The all-zero position with the given number of axes.
    pub fn zero(dimensions: usize) -> (zero: Position)
        ensures
            zero@ == origin(dimensions as nat),
    {
        let mut coords: Vec<i8> = Vec::new();
        let mut i: usize = 0;
        while i < dimensions
            invariant
                i <= dimensions,
                coords@.len() == i,
                forall|j: int| 0 <= j < i ==> coords@[j] == 0,
            decreases dimensions - i,
        {
            coords.push(0);
            i += 1;
        }
        assert(coords@ =~= origin(dimensions as nat));
        Position(coords)
    }

    /// The number of axes.
    pub fn len(&self) -> (n: usize)
        ensures
            n == self@.len(),
    {
        self.0.len()
    }

    /// The coordinate at `dim`, if the position has that axis.
    pub fn get(&self, dim: usize) -> (coordinate: Option<i8>)
        ensures
            coordinate == (if dim < self@.len() {
                Some(self@[dim as int])
            } else {
                None
            }),
    {
        if dim < self.0.len() {
            Some(self.0[dim])
        } else {
            None
        }
    }

    /// The sum of the coordinates of a position that has no negative one.
    pub fn sum(&self) -> (total: usize)
        requires
            forall|i: int| 0 <= i < self@.len() ==> self@[i] >= 0,
            self@.len() * 127 <= usize::MAX,
        ensures
            total == coordinate_sum(self@),
    {
        let mut total: usize = 0;
        let mut i: usize = 0;
        while i < self.0.len()
            invariant
                i <= self.0.len(),
                forall|j: int| 0 <= j < self@.len() ==> self@[j] >= 0,
                self@.len() * 127 <= usize::MAX,
                total == coordinate_sum(self@.take(i as int)),
                total <= i * 127,
            decreases self.0.len() - i,
        {
            let c: i8 = self.0[i];
            assert(self@.take(i + 1).drop_last() =~= self@.take(i as int));
            total = total + c as usize;
            i += 1;
        }
        assert(self@.take(i as int) =~= self@);
        total
    }

    /// Overwrites the coordinate at `dimension`, an axis of the position.
    pub fn add_dimension(&mut self, dimension: usize, index: i8)
        requires
            dimension < old(self)@.len(),
        ensures
            final(self)@ == old(self)@.update(dimension as int, index),
    {
        self.0[dimension] = index;
    }

    /// The position with the coordinate at `dimension` raised by one; the
    /// position itself where it has no such axis.
    pub fn inc(self, dimension: usize) -> (moved: Position)
        requires
            shift_fits(self@, dimension as int, 1),
        ensures
            moved@ == shifted(self@, dimension as int, 1),
    {
        let mut moved = self;
        moved.inc_in_place(dimension);
        moved
    }

    /// Raises the coordinate at `dimension` by one; does nothing where the
    /// position has no such axis.
    pub fn inc_in_place(&mut self, dimension: usize)
        requires
            shift_fits(old(self)@, dimension as int, 1),
        ensures
            final(self)@ == shifted(old(self)@, dimension as int, 1),
    {
        if dimension < self.0.len() {
            let c: i8 = self.0[dimension];
            self.0[dimension] = c + 1;
        }
    }

    /// The position with the coordinate at `dimension` lowered by one; the
    /// position itself where it has no such axis.
    pub fn dec(self, dimension: usize) -> (moved: Position)
        requires
            shift_fits(self@, dimension as int, -1),
        ensures
            moved@ == shifted(self@, dimension as int, -1),
    {
        let mut moved = self;
        moved.dec_in_place(dimension);
        moved
    }

    /// Lowers the coordinate at `dimension` by one; does nothing where the
    /// position has no such axis.
    pub fn dec_in_place(&mut self, dimension: usize)
        requires
            shift_fits(old(self)@, dimension as int, -1),
        ensures
            final(self)@ == shifted(old(self)@, dimension as int, -1),
    {
        if dimension < self.0.len() {
            let c: i8 = self.0[dimension];
            self.0[dimension] = c - 1;
        }
    }

    /// The coordinate of the highest axis; `8`, which is off the board, for a
    /// position without axes.
    pub fn last(&self) -> (coordinate: i8)
        ensures
            coordinate == (if self@.len() == 0 {
                8i8
            } else {
                self@.last()
            }),
    {
        let n = self.0.len();
        if n == 0 {
            8
        } else {
            self.0[n - 1]
        }
    }

    /// Whether a piece on a board with that many axes can be shown: boards of
    /// fewer than seven axes are.
    pub fn is_visible(&self, dimensions: usize) -> (visible: bool)
        ensures
            visible == (dimensions < 7),
    {
        dimensions < 7
    }

    /// Whether every coordinate but the one at `dim` equals `val`.
    pub fn all_but(&self, dim: usize, val: i8) -> (uniform: bool)
        ensures
            uniform == (forall|i: int| 0 <= i < self@.len() && i != dim ==> self@[i] == val),
    {
        let mut i: usize = 0;
        while i < self.0.len()
            invariant
                i <= self.0.len(),
                forall|j: int| 0 <= j < i && j != dim ==> self@[j] == val,
            decreases self.0.len() - i,
        {
            if i != dim && self.0[i] != val {
                assert(self@[i as int] != val);
                return false;
            }
            i += 1;
        }
        true
    }

    /// Whether every coordinate equals `val`.
    pub fn all(&self, val: i8) -> (uniform: bool)
        ensures
            uniform == (forall|i: int| 0 <= i < self@.len() ==> self@[i] == val),
    {
        let mut i: usize = 0;
        while i < self.0.len()
            invariant
                i <= self.0.len(),
                forall|j: int| 0 <= j < i ==> self@[j] == val,
            decreases self.0.len() - i,
        {
            if self.0[i] != val {
                assert(self@[i as int] != val);
                return false;
            }
            i += 1;
        }
        true
    }

    /// Adds `other` to the position, axis by axis over the axes that both
    /// have.
    pub fn add(&mut self, other: &Position)
        requires
            sum_fits(old(self)@, other@),
        ensures
            final(self)@.len() == old(self)@.len(),
            forall|i: int|
                0 <= i < old(self)@.len() ==> #[trigger] final(self)@[i] == added(
                    old(self)@,
                    other@,
                )[i],
    {
        let ghost before = self@;
        let mut i: usize = 0;
        while i < self.0.len() && i < other.0.len()
            invariant
                self@.len() == before.len(),
                sum_fits(before, other@),
                forall|j: int| 0 <= j < i && j < before.len() ==> self@[j] == added(before, other@)[j],
                forall|j: int| i <= j < before.len() ==> self@[j] == before[j],
            decreases self.0.len() - i,
        {
            assert(i8::MIN <= added(before, other@)[i as int] <= i8::MAX);
            let c: i8 = self.0[i];
            self.0[i] = c + other.0[i];
            i += 1;
        }
    }

    /// The position with every coordinate lowered by one.
    pub fn dec_all(&self) -> (moved: Position)
        requires
            forall|i: int| 0 <= i < self@.len() ==> self@[i] > i8::MIN,
        ensures
            moved@ == shifted_all(self@, -1),
    {
        let mut moved = self.clone();
        let mut i: usize = 0;
        while i < moved.0.len()
            invariant
                moved@.len() == self@.len(),
                forall|j: int| 0 <= j < self@.len() ==> self@[j] > i8::MIN,
                forall|j: int| 0 <= j < i && j < self@.len() ==> moved@[j] == self@[j] - 1,
                forall|j: int| i <= j < self@.len() ==> moved@[j] == self@[j],
            decreases moved.0.len() - i,
        {
            let c: i8 = moved.0[i];
            moved.0[i] = c - 1;
            i += 1;
        }
        assert(moved@ =~= shifted_all(self@, -1));
        moved
    }

    /// The position with every coordinate raised by one.
    pub fn inc_all(&self) -> (moved: Position)
        requires
            forall|i: int| 0 <= i < self@.len() ==> self@[i] < i8::MAX,
        ensures
            moved@ == shifted_all(self@, 1),
    {
        let mut moved = self.clone();
        let mut i: usize = 0;
        while i < moved.0.len()
            invariant
                moved@.len() == self@.len(),
                forall|j: int| 0 <= j < self@.len() ==> self@[j] < i8::MAX,
                forall|j: int| 0 <= j < i && j < self@.len() ==> moved@[j] == self@[j] + 1,
                forall|j: int| i <= j < self@.len() ==> moved@[j] == self@[j],
            decreases moved.0.len() - i,
        {
            let c: i8 = moved.0[i];
            moved.0[i] = c + 1;
            i += 1;
        }
        assert(moved@ =~= shifted_all(self@, 1));
        moved
    }

    /// Whether every coordinate lies on the board.
    pub fn is_valid(&self) -> (valid: bool)
        ensures
            valid == on_board(self@),
    {
        let mut i: usize = 0;
        while i < self.0.len()
            invariant
                i <= self.0.len(),
                forall|j: int| 0 <= j < i ==> 0 <= #[trigger] self@[j] <= 7,
            decreases self.0.len() - i,
        {
            let c: i8 = self.0[i];
            if c < 0 || c > 7 {
                return false;
            }
            i += 1;
        }
        true
    }

    /// Whether the position has an axis `dim` whose coordinate is `val`.
    pub fn if_is(&self, dim: usize, val: i8) -> (matches: bool)
        ensures
            matches == (dim < self@.len() && self@[dim as int] == val),
    {
        dim < self.0.len() && self.0[dim] == val
    }

    /// The cell reached from `base` by the offset `self`, where that cell is
    /// on the board. The sum is taken over the axes that both have, and never
    /// wraps: a sum outside the board is no cell.
    pub fn offset_from(&self, base: &Position) -> (cell: Option<Position>)
        ensures
            cell is Some == lands(base@, self@),
            cell is Some ==> cell->0@ == landing(base@, self@),
    {
        let mut coords: Vec<i8> = Vec::new();
        let mut i: usize = 0;
        while i < self.0.len()
            invariant
                i <= self.0.len(),
                coords@.len() == i,
                forall|j: int| 0 <= j < i ==> 0 <= #[trigger] added(self@, base@)[j] <= 7,
                forall|j: int| 0 <= j < i ==> coords@[j] == added(self@, base@)[j],
            decreases self.0.len() - i,
        {
            let own: i16 = self.0[i] as i16;
            let sum: i16 = if i < base.0.len() {
                own + base.0[i] as i16
            } else {
                own
            };
            if sum < 0 || sum > 7 {
                assert(added(self@, base@)[i as int] == sum);
                return None;
            }
            coords.push(sum as i8);
            i += 1;
        }
        assert(coords@ =~= landing(base@, self@));
        Some(Position(coords))
    }
}

} // verus!
