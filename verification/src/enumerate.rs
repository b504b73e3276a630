//! Offset enumerators: finite sequences of offsets from an implicit origin,
//! handed out one at a time.
//!
//! An enumerator never looks at the board. What it will still hand out is a
//! function of how it was made and of how often it was asked; making it again
//! starts it again.

use vstd::prelude::*;
use crate::position::{cells_of, landing, lands, origin, Position};

verus! {

/// A cursor over a finite sequence of offsets.
pub trait Enumerator {
    /// Whether the cursor is in a state that its constructors and `next`
    /// produce.
    spec fn wf(&self) -> bool;

    /// The offsets that are still to come, in the order in which they come.
    spec fn remaining(&self) -> Seq<Seq<i8>>;

    /// Hands out the next offset, or `None` once the sequence is used up.
    fn next(&mut self) -> (item: Option<Position>)
        requires
            old(self).wf(),
        ensures
            final(self).wf(),
            old(self).remaining().len() == 0 ==> item is None && final(self).remaining().len() == 0,
            old(self).remaining().len() > 0 ==> item is Some && item->0@ == old(
                self,
            ).remaining().first() && final(self).remaining() == old(self).remaining().drop_first(),
    ;
}

/// Hands out everything that is still to come, in order.
pub fn collect<E: Enumerator>(cursor: E) -> (items: Vec<Position>)
    requires
        cursor.wf(),
    ensures
        cells_of(items@) == cursor.remaining(),
{
    let mut cursor = cursor;
    let mut items: Vec<Position> = Vec::new();
    let ghost whole = cursor.remaining();
    assert(cells_of(items@) + whole =~= whole);
    loop
        invariant_except_break
            cells_of(items@) + cursor.remaining() == whole,
        invariant
            cursor.wf(),
        ensures
            cells_of(items@) == whole,
        decreases cursor.remaining().len(),
    {
        let ghost so_far = cells_of(items@);
        let ghost ahead = cursor.remaining();
        match cursor.next() {
            None => {
                assert(so_far + ahead =~= so_far);
                break ;
            },
            Some(item) => {
                let ghost here = item@;
                items.push(item);
                assert(cells_of(items@) + ahead.drop_first() =~= so_far + ahead) by {
                    assert(cells_of(items@) =~= so_far + seq![here]);
                    assert(ahead =~= seq![here] + ahead.drop_first());
                }
            },
        }
    }
    items
}

/// The largest distance bound of an enumerator: one step beyond it must still
/// be an `i8`.
pub const MAX_DISTANCE: u8 = 126;

/// The straight ray along `axis` on a board with `dimensions` axes: the
/// origin, then one cell further at each step, up to `distance` cells away,
/// towards growing coordinates if `up` and towards falling ones if not. A ray
/// along an axis that the board does not have is empty.
pub open spec fn axis_ray(dimensions: nat, axis: int, up: bool, distance: int) -> Seq<Seq<i8>> {
    if 0 <= axis < dimensions && 0 <= distance {
        Seq::new(
            (distance + 1) as nat,
            |k: int| origin(dimensions).update(axis, (if up { k } else { -k }) as i8),
        )
    } else {
        Seq::empty()
    }
}

/// On a board with at least one axis, the ray along any of its axes towards
/// growing coordinates, seven cells long, is the origin followed by exactly
/// seven offsets; the offset at step `k` is `k` cells from the origin along
/// the axis and differs from the origin nowhere else.
pub proof fn lemma_axis_ray_has_seven_steps(dimensions: nat, axis: int)
    requires
        dimensions >= 1,
        0 <= axis < dimensions,
    ensures
        axis_ray(dimensions, axis, true, 7).len() == 8,
        axis_ray(dimensions, axis, true, 7)[0] == origin(dimensions),
        forall|k: int|
            1 <= k <= 7 ==> {
                let step = #[trigger] axis_ray(dimensions, axis, true, 7)[k];
                &&& step != origin(dimensions)
                &&& step.len() == dimensions
                &&& step[axis] == k
                &&& forall|i: int| 0 <= i < dimensions && i != axis ==> step[i] == 0
            },
{
    let ray = axis_ray(dimensions, axis, true, 7);
    assert(ray[0] =~= origin(dimensions));
    assert forall|k: int| 1 <= k <= 7 implies {
        let step = #[trigger] ray[k];
        &&& step != origin(dimensions)
        &&& step.len() == dimensions
        &&& step[axis] == k
        &&& forall|i: int| 0 <= i < dimensions && i != axis ==> step[i] == 0
    } by {
        let step = ray[k];
        assert(step[axis] == k);
        assert(origin(dimensions)[axis] == 0);
    }
}

/// Enumerates a straight ray along one axis, in one direction.
pub struct DimensionIter<const DISTANCE: u8> {
    current: Position,
    dimension: usize,
    up: bool,
}

impl<const DISTANCE: u8> DimensionIter<DISTANCE> {
    /// The ray from the origin along `dimension`, towards growing coordinates
    /// if `inc` and towards falling ones if not, `DISTANCE` cells long.
    pub fn new(dimensions: usize, dimension: usize, inc: bool) -> (ray: DimensionIter<DISTANCE>)
        requires
            DISTANCE <= MAX_DISTANCE,
        ensures
            ray.wf(),
            ray.remaining() == axis_ray(dimensions as nat, dimension as int, inc, DISTANCE as int),
    {
        let ray = DimensionIter { current: Position::zero(dimensions), dimension, up: inc };
        assert(ray.remaining() =~= axis_ray(
            dimensions as nat,
            dimension as int,
            inc,
            DISTANCE as int,
        ));
        ray
    }
}

impl<const DISTANCE: u8> Enumerator for DimensionIter<DISTANCE> {
    closed spec fn wf(&self) -> bool {
        DISTANCE <= MAX_DISTANCE
    }

    closed spec fn remaining(&self) -> Seq<Seq<i8>> {
        let at = self.current@[self.dimension as int] as int;
        if self.dimension < self.current@.len() && -DISTANCE <= at <= DISTANCE {
            if self.up {
                Seq::new(
                    (DISTANCE - at + 1) as nat,
                    |k: int| self.current@.update(self.dimension as int, (at + k) as i8),
                )
            } else {
                Seq::new(
                    (at + DISTANCE + 1) as nat,
                    |k: int| self.current@.update(self.dimension as int, (at - k) as i8),
                )
            }
        } else {
            Seq::empty()
        }
    }

    fn next(&mut self) -> (item: Option<Position>) {
        if self.dimension >= self.current.len() {
            return None;
        }
        let at: i16 = self.current.0[self.dimension] as i16;
        if at > DISTANCE as i16 || at < -(DISTANCE as i16) {
            return None;
        }
        let out = self.current.clone();
        if self.up {
            self.current.inc_in_place(self.dimension);
        } else {
            self.current.dec_in_place(self.dimension);
        }
        assert(out@ =~= old(self).remaining().first());
        assert(self.remaining() =~~= old(self).remaining().drop_first());
        Some(out)
    }
}

/// The arms of the axis star from `axis` on: for that axis and each later
/// one, the ray towards growing coordinates and then the ray towards falling
/// ones, each without the origin.
pub open spec fn axis_arms(dimensions: nat, axis: int, distance: int) -> Seq<Seq<i8>>
    decreases dimensions - axis,
{
    if 0 <= axis < dimensions && 0 <= distance {
        axis_ray(dimensions, axis, true, distance).drop_first() + axis_ray(
            dimensions,
            axis,
            false,
            distance,
        ).drop_first() + axis_arms(dimensions, axis + 1, distance)
    } else {
        Seq::empty()
    }
}

/// Every offset of the arms has one entry per axis of the board.
pub proof fn lemma_axis_arms_shape(dimensions: nat, axis: int, distance: int)
    ensures
        forall|k: int|
            0 <= k < axis_arms(dimensions, axis, distance).len() ==> #[trigger] axis_arms(
                dimensions,
                axis,
                distance,
            )[k].len() == dimensions,
    decreases dimensions - axis,
{
    if 0 <= axis < dimensions && 0 <= distance {
        lemma_axis_arms_shape(dimensions, axis + 1, distance);
        let up = axis_ray(dimensions, axis, true, distance).drop_first();
        let down = axis_ray(dimensions, axis, false, distance).drop_first();
        let later = axis_arms(dimensions, axis + 1, distance);
        let arms = axis_arms(dimensions, axis, distance);
        assert(arms == up + down + later);
        assert forall|k: int| 0 <= k < arms.len() implies #[trigger] arms[k].len()
            == dimensions by {
            if k < up.len() {
                assert(arms[k] == up[k]);
            } else if k < up.len() + down.len() {
                assert(arms[k] == down[k - up.len()]);
            } else {
                assert(arms[k] == later[k - up.len() - down.len()]);
            }
        }
    }
}

/// The axis star: the origin once, then the arms along `first_axis` and every
/// later axis. It is empty where the board has no axis `first_axis`.
pub open spec fn axis_star(dimensions: nat, first_axis: int, distance: int) -> Seq<Seq<i8>> {
    if 0 <= first_axis < dimensions && 0 <= distance {
        seq![origin(dimensions)] + axis_arms(dimensions, first_axis, distance)
    } else {
        Seq::empty()
    }
}

/// Enumerates the origin and then, axis by axis, the straight rays in both
/// directions.
pub struct PositionIter<const DISTANCE: u8> {
    iter: DimensionIter<DISTANCE>,
    current_dimension: usize,
    dimensions: usize,
    was_inc: bool,
}

impl<const DISTANCE: u8> PositionIter<DISTANCE> {
    /// The axis star over every axis of a board with `dimensions` axes.
    pub fn new(dimensions: usize) -> (star: PositionIter<DISTANCE>)
        requires
            DISTANCE <= MAX_DISTANCE,
        ensures
            star.wf(),
            star.remaining() == axis_star(dimensions as nat, 0, DISTANCE as int),
    {
        PositionIter::start_at(dimensions, 0)
    }

    /// The axis star over the axes from `dimension` on.
    pub fn start_at(dimensions: usize, dimension: usize) -> (star: PositionIter<DISTANCE>)
        requires
            DISTANCE <= MAX_DISTANCE,
        ensures
            star.wf(),
            star.remaining() == axis_star(dimensions as nat, dimension as int, DISTANCE as int),
    {
        let star = PositionIter {
            iter: DimensionIter::new(dimensions, dimension, true),
            current_dimension: dimension,
            dimensions,
            was_inc: true,
        };
        proof {
            if dimension < dimensions {
                let up = axis_ray(dimensions as nat, dimension as int, true, DISTANCE as int);
                assert(up.first() =~= origin(dimensions as nat));
                assert(up =~= seq![origin(dimensions as nat)] + up.drop_first());
            }
            assert(star.remaining() =~= axis_star(
                dimensions as nat,
                dimension as int,
                DISTANCE as int,
            ));
        }
        star
    }

    /// What is still to come after the ray that is being walked.
    closed spec fn later(&self) -> Seq<Seq<i8>> {
        let rest = axis_arms(
            self.dimensions as nat,
            self.current_dimension + 1,
            DISTANCE as int,
        );
        if self.was_inc {
            axis_ray(
                self.dimensions as nat,
                self.current_dimension as int,
                false,
                DISTANCE as int,
            ).drop_first() + rest
        } else {
            rest
        }
    }

    /// How many rays are still to be started, the one being walked counted.
    closed spec fn rays_left(&self) -> int {
        if self.current_dimension < self.dimensions {
            2 * (self.dimensions - self.current_dimension) - (if self.was_inc {
                0int
            } else {
                1int
            })
        } else {
            0
        }
    }
}

impl<const DISTANCE: u8> Enumerator for PositionIter<DISTANCE> {
    closed spec fn wf(&self) -> bool {
        self.iter.wf()
    }

    closed spec fn remaining(&self) -> Seq<Seq<i8>> {
        if self.current_dimension < self.dimensions {
            self.iter.remaining() + self.later()
        } else {
            Seq::empty()
        }
    }

    fn next(&mut self) -> (item: Option<Position>) {
        loop
            invariant
                self.wf(),
                self.remaining() == old(self).remaining(),
            decreases self.rays_left(),
        {
            if self.current_dimension >= self.dimensions {
                return None;
            }
            let ghost before = self.iter.remaining();
            if let Some(next) = self.iter.next() {
                assert(self.remaining() =~= old(self).remaining().drop_first());
                return Some(next);
            }
            assert(before =~= Seq::<Seq<i8>>::empty());
            if self.was_inc {
                self.was_inc = false;
                self.iter = DimensionIter::new(self.dimensions, self.current_dimension, false);
                let _ = self.iter.next();
                assert(self.remaining() =~= old(self).remaining());
            } else if self.current_dimension + 1 != self.dimensions {
                self.current_dimension += 1;
                self.was_inc = true;
                self.iter = DimensionIter::new(self.dimensions, self.current_dimension, true);
                let _ = self.iter.next();
                assert(self.remaining() =~= old(self).remaining());
            } else {
                assert(self.remaining() =~= Seq::<Seq<i8>>::empty());
                return None;
            }
        }
    }
}

/// The cells that the offsets lead to from `base`, in the order of the
/// offsets, without those that lie off the board.
pub open spec fn landings(base: Seq<i8>, deltas: Seq<Seq<i8>>) -> Seq<Seq<i8>>
    decreases deltas.len(),
{
    if deltas.len() == 0 {
        Seq::empty()
    } else if lands(base, deltas.first()) {
        seq![landing(base, deltas.first())] + landings(base, deltas.drop_first())
    } else {
        landings(base, deltas.drop_first())
    }
}

/// Applies the offsets of an enumerator to a base position and hands out the
/// cells that lie on the board.
pub struct OffsetIter<'a, T: Enumerator> {
    base: &'a Position,
    iter: T,
}

impl<'a, T: Enumerator> OffsetIter<'a, T> {
    /// The cells that the offsets of `iter` lead to from `base`.
    pub fn new(base: &'a Position, iter: T) -> (cells: Self)
        requires
            iter.wf(),
        ensures
            cells.wf(),
            cells.remaining() == landings(base@, iter.remaining()),
    {
        Self { base, iter }
    }
}

impl<'a, T: Enumerator> Enumerator for OffsetIter<'a, T> {
    closed spec fn wf(&self) -> bool {
        self.iter.wf()
    }

    closed spec fn remaining(&self) -> Seq<Seq<i8>> {
        landings(self.base@, self.iter.remaining())
    }

    fn next(&mut self) -> (item: Option<Position>) {
        loop
            invariant
                self.wf(),
                self.base == old(self).base,
                self.remaining() == old(self).remaining(),
            decreases self.iter.remaining().len(),
        {
            match self.iter.next() {
                None => {
                    return None;
                },
                Some(delta) => {
                    if let Some(cell) = delta.offset_from(self.base) {
                        return Some(cell);
                    }
                },
            }
        }
    }
}

/// Enumerators can be applied to a base position.
pub trait WithOffset: Enumerator + Sized {
    /// The cells on the board that the offsets lead to from `offset`.
    fn with_offset(self, offset: &Position) -> (cells: OffsetIter<'_, Self>)
        requires
            self.wf(),
        ensures
            cells.wf(),
            cells.remaining() == landings(offset@, self.remaining()),
    {
        OffsetIter::new(offset, self)
    }
}

impl<T: Enumerator> WithOffset for T {
}

} // verus!
