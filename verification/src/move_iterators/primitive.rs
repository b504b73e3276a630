//! Diagonal rays and leaps, the building blocks of the bishop's and the
//! knight's moves.

use vstd::prelude::*;
use crate::enumerate::{Enumerator, MAX_DISTANCE};
use crate::odometer::{
    all_digits, digits, lemma_digits_are_digits, lemma_digits_of_rank, lemma_rank_update, rank,
    tuple_count,
};
use crate::position::{origin, Position};

verus! {

/// The point `step` cells from the origin along a diagonal: every axis is
/// `step` away, towards growing coordinates where its sign is `true` and
/// towards falling ones where it is `false`.
pub open spec fn diagonal_point(signs: Seq<bool>, step: int) -> Seq<i8> {
    Seq::new(signs.len(), |i: int| (if signs[i] { step } else { -step }) as i8)
}

/// The diagonal ray with the given signs: the origin, then one cell further
/// on every axis at each step, up to `distance` steps.
pub open spec fn diagonal_ray(signs: Seq<bool>, distance: int) -> Seq<Seq<i8>> {
    Seq::new((distance + 1) as nat, |step: int| diagonal_point(signs, step))
}

/// Enumerates one diagonal ray: all axes advance together, each in its own
/// direction.
pub struct DiagonalIter<const DISTANCE: u8> {
    current: Position,
    move_set: Vec<bool>,
    step: u8,
}

impl<const DISTANCE: u8> DiagonalIter<DISTANCE> {
    /// The diagonal ray on which every axis falls.
    pub fn new(dimensions: usize) -> (ray: Self)
        requires
            DISTANCE <= MAX_DISTANCE,
        ensures
            ray.wf(),
            ray.remaining() == diagonal_ray(
                Seq::new(dimensions as nat, |i: int| false),
                DISTANCE as int,
            ),
    {
        let mut set: Vec<bool> = Vec::new();
        let mut i: usize = 0;
        while i < dimensions
            invariant
                i <= dimensions,
                set@.len() == i,
                forall|j: int| 0 <= j < i ==> !set@[j],
            decreases dimensions - i,
        {
            set.push(false);
            i += 1;
        }
        assert(set@ =~= Seq::new(dimensions as nat, |i: int| false));
        DiagonalIter::with_move_set(set)
    }

    /// The diagonal ray with one sign per axis: `true` for an axis that
    /// grows, `false` for one that falls.
    pub fn with_move_set(set: Vec<bool>) -> (ray: DiagonalIter<DISTANCE>)
        requires
            DISTANCE <= MAX_DISTANCE,
        ensures
            ray.wf(),
            ray.remaining() == diagonal_ray(set@, DISTANCE as int),
    {
        let ray = DiagonalIter { current: Position::zero(set.len()), move_set: set, step: 0 };
        assert(ray.current@ =~= diagonal_point(ray.move_set@, 0));
        assert(ray.remaining() =~= diagonal_ray(ray.move_set@, DISTANCE as int));
        ray
    }
}

impl<const DISTANCE: u8> Enumerator for DiagonalIter<DISTANCE> {
    closed spec fn wf(&self) -> bool {
        &&& DISTANCE <= MAX_DISTANCE
        &&& self.step <= DISTANCE + 1
        &&& self.current@ == diagonal_point(self.move_set@, self.step as int)
    }

    closed spec fn remaining(&self) -> Seq<Seq<i8>> {
        Seq::new(
            (DISTANCE + 1 - self.step) as nat,
            |k: int| diagonal_point(self.move_set@, self.step + k),
        )
    }

    fn next(&mut self) -> (item: Option<Position>) {
        if self.step > DISTANCE {
            return None;
        }
        let ghost reached = self.step as int;
        self.step += 1;
        let out = self.current.clone();
        let mut dim: usize = 0;
        while dim < self.move_set.len()
            invariant
                dim <= self.move_set@.len(),
                self.move_set == old(self).move_set,
                self.step == reached + 1,
                0 <= reached <= MAX_DISTANCE,
                self.current@.len() == self.move_set@.len(),
                forall|j: int|
                    0 <= j < dim ==> self.current@[j] == diagonal_point(
                        self.move_set@,
                        reached + 1,
                    )[j],
                forall|j: int|
                    dim <= j < self.move_set@.len() ==> self.current@[j] == diagonal_point(
                        self.move_set@,
                        reached,
                    )[j],
            decreases self.move_set@.len() - dim,
        {
            if self.move_set[dim] {
                self.current.inc_in_place(dim);
            } else {
                self.current.dec_in_place(dim);
            }
            dim += 1;
        }
        assert(self.current@ =~= diagonal_point(self.move_set@, reached + 1));
        assert(old(self).remaining().first() =~= out@);
        assert(self.remaining() =~= old(self).remaining().drop_first());
        Some(out)
    }
}

/// The axis that a leg of a leap runs along. A leg is chosen by a number in
/// `0..2 * dimensions`: the lower half stands for the axes taken towards
/// falling coordinates, the highest axis first, the upper half for the axes
/// taken towards growing coordinates, the lowest axis first.
pub open spec fn leg_axis(choice: int, dimensions: int) -> int {
    if choice < dimensions {
        dimensions - 1 - choice
    } else {
        choice - dimensions
    }
}

/// The direction of a leg: `-1` towards falling coordinates, `1` towards
/// growing ones.
pub open spec fn leg_sign(choice: int, dimensions: int) -> int {
    if choice < dimensions {
        -1
    } else {
        1
    }
}

/// Whether no two legs run along the same axis.
pub open spec fn distinct_axes(choices: Seq<int>, dimensions: int) -> bool {
    forall|i: int, j: int|
        0 <= i < j < choices.len() ==> leg_axis(choices[i], dimensions) != leg_axis(
            choices[j],
            dimensions,
        )
}

/// How far a leap goes along `axis`: leg number `i`, counted from zero, is
/// `i + 1` cells long. Where several legs name the axis the last one counts;
/// where none does the leap stays at zero.
pub open spec fn leg_on(choices: Seq<int>, dimensions: int, axis: int) -> int
    decreases choices.len(),
{
    if choices.len() == 0 {
        0
    } else if leg_axis(choices.last(), dimensions) == axis {
        leg_sign(choices.last(), dimensions) * choices.len()
    } else {
        leg_on(choices.drop_last(), dimensions, axis)
    }
}

/// In a leap whose legs run along axes of their own, leg number `i` goes
/// `i + 1` cells along its axis, in its direction.
pub proof fn lemma_each_leg_is_kept(choices: Seq<int>, dimensions: int, leg: int)
    requires
        distinct_axes(choices, dimensions),
        0 <= leg < choices.len(),
    ensures
        leg_on(choices, dimensions, leg_axis(choices[leg], dimensions)) == leg_sign(
            choices[leg],
            dimensions,
        ) * (leg + 1),
    decreases choices.len(),
{
    if leg < choices.len() - 1 {
        let earlier = choices.drop_last();
        assert(leg_axis(choices[leg], dimensions) != leg_axis(choices.last(), dimensions));
        assert(distinct_axes(earlier, dimensions)) by {
            assert forall|i: int, j: int| 0 <= i < j < earlier.len() implies leg_axis(
                earlier[i],
                dimensions,
            ) != leg_axis(earlier[j], dimensions) by {
                assert(earlier[i] == choices[i] && earlier[j] == choices[j]);
            }
        }
        assert(earlier[leg] == choices[leg]);
        lemma_each_leg_is_kept(earlier, dimensions, leg);
    }
}

/// A leap stays at zero along every axis that none of its legs runs along.
pub proof fn lemma_unchosen_axis_is_zero(choices: Seq<int>, dimensions: int, axis: int)
    requires
        forall|i: int| 0 <= i < choices.len() ==> leg_axis(#[trigger] choices[i], dimensions) != axis,
    ensures
        leg_on(choices, dimensions, axis) == 0,
    decreases choices.len(),
{
    if choices.len() > 0 {
        let earlier = choices.drop_last();
        assert(leg_axis(choices[choices.len() - 1], dimensions) != axis);
        assert forall|i: int| 0 <= i < earlier.len() implies leg_axis(
            #[trigger] earlier[i],
            dimensions,
        ) != axis by {
            assert(earlier[i] == choices[i]);
        }
        lemma_unchosen_axis_is_zero(earlier, dimensions, axis);
    }
}

/// The offset of the leap with the given legs.
pub open spec fn leap_offset(choices: Seq<int>, dimensions: nat) -> Seq<i8> {
    Seq::new(dimensions, |axis: int| leg_on(choices, dimensions as int, axis) as i8)
}

/// The leaps with `legs` legs on a board with `dimensions` axes, from the
/// choice of legs with number `from` on: every choice in counting order, the
/// first leg changing fastest, without those in which two legs share an axis.
pub open spec fn leaps_from(dimensions: nat, legs: nat, from: nat) -> Seq<Seq<i8>>
    decreases tuple_count(2 * dimensions, legs) - from,
{
    if from >= tuple_count(2 * dimensions, legs) {
        Seq::empty()
    } else {
        let choices = digits(from, 2 * dimensions, legs);
        if distinct_axes(choices, dimensions as int) {
            seq![leap_offset(choices, dimensions)] + leaps_from(dimensions, legs, from + 1)
        } else {
            leaps_from(dimensions, legs, from + 1)
        }
    }
}

/// Every leap with `legs` legs: leg number `i` runs `i + 1` cells along an
/// axis of its own, in either direction.
pub open spec fn leaps(dimensions: nat, legs: nat) -> Seq<Seq<i8>> {
    leaps_from(dimensions, legs, 0)
}

/// Every listed leap is the offset of a choice of legs that run along axes
/// of their own.
pub proof fn lemma_leaps_members(dimensions: nat, legs: nat, from: nat, i: int)
    requires
        0 <= i < leaps_from(dimensions, legs, from).len(),
    ensures
        exists|n: nat|
            from <= n < tuple_count(2 * dimensions, legs) && distinct_axes(
                #[trigger] digits(n, 2 * dimensions, legs),
                dimensions as int,
            ) && leaps_from(dimensions, legs, from)[i] == leap_offset(
                digits(n, 2 * dimensions, legs),
                dimensions,
            ),
    decreases tuple_count(2 * dimensions, legs) - from,
{
    let choices = digits(from, 2 * dimensions, legs);
    let later = leaps_from(dimensions, legs, from + 1);
    assert(from < tuple_count(2 * dimensions, legs));
    if distinct_axes(choices, dimensions as int) {
        assert(leaps_from(dimensions, legs, from) == seq![leap_offset(choices, dimensions)]
            + later);
        if i > 0 {
            assert(leaps_from(dimensions, legs, from)[i] == later[i - 1]);
            lemma_leaps_members(dimensions, legs, from + 1, i - 1);
        }
    } else {
        lemma_leaps_members(dimensions, legs, from + 1, i);
    }
}

/// The offset of every choice of legs that run along axes of their own is
/// listed.
pub proof fn lemma_leaps_are_complete(dimensions: nat, legs: nat, from: nat, n: nat)
    requires
        from <= n < tuple_count(2 * dimensions, legs),
        distinct_axes(digits(n, 2 * dimensions, legs), dimensions as int),
    ensures
        exists|i: int|
            0 <= i < leaps_from(dimensions, legs, from).len() && #[trigger] leaps_from(
                dimensions,
                legs,
                from,
            )[i] == leap_offset(digits(n, 2 * dimensions, legs), dimensions),
    decreases n - from,
{
    let listed = leaps_from(dimensions, legs, from);
    let choices = digits(from, 2 * dimensions, legs);
    let later = leaps_from(dimensions, legs, from + 1);
    if n == from {
        assert(listed == seq![leap_offset(choices, dimensions)] + later);
        assert(listed[0] == leap_offset(choices, dimensions));
    } else {
        lemma_leaps_are_complete(dimensions, legs, from + 1, n);
        let i = choose|i: int|
            0 <= i < later.len() && #[trigger] later[i] == leap_offset(
                digits(n, 2 * dimensions, legs),
                dimensions,
            );
        if distinct_axes(choices, dimensions as int) {
            assert(listed == seq![leap_offset(choices, dimensions)] + later);
            assert(listed[i + 1] == later[i]);
        } else {
            assert(listed[i] == later[i]);
        }
    }
}

/// Whether `leap` goes `one` along the axis `first`, `two` along the axis
/// `second` and nowhere else.
pub open spec fn two_leg_leap(
    leap: Seq<i8>,
    dimensions: nat,
    first: int,
    one: int,
    second: int,
    two: int,
) -> bool {
    &&& leap.len() == dimensions
    &&& 0 <= first < dimensions
    &&& 0 <= second < dimensions
    &&& first != second
    &&& leap[first] == one
    &&& leap[second] == two
    &&& forall|k: int| 0 <= k < dimensions && k != first && k != second ==> leap[k] == 0
}

/// Every leap with two legs goes one cell along one axis and two cells along
/// another, each in either direction, and nowhere else.
pub proof fn lemma_two_leg_leaps_are_knight_leaps(dimensions: nat, i: int)
    requires
        0 <= i < leaps(dimensions, 2).len(),
    ensures
        exists|first: int, one: int, second: int, two: int|
            (one == 1 || one == -1) && (two == 2 || two == -2) && #[trigger] two_leg_leap(
                leaps(dimensions, 2)[i],
                dimensions,
                first,
                one,
                second,
                two,
            ),
{
    lemma_leaps_members(dimensions, 2, 0, i);
    let n = choose|n: nat|
        0 <= n < tuple_count(2 * dimensions, 2) && distinct_axes(
            #[trigger] digits(n, 2 * dimensions, 2),
            dimensions as int,
        ) && leaps_from(dimensions, 2, 0)[i] == leap_offset(
            digits(n, 2 * dimensions, 2),
            dimensions,
        );
    assert(dimensions >= 1) by {
        if dimensions == 0 {
            assert(tuple_count(0, 2) == 0) by {
                assert(tuple_count(0, 2) == 0 * tuple_count(0, 1));
            }
        }
    }
    let choices = digits(n, 2 * dimensions, 2);
    lemma_digits_are_digits(n, 2 * dimensions, 2);
    let axes = dimensions as int;
    let first = leg_axis(choices[0], axes);
    let second = leg_axis(choices[1], axes);
    let one = leg_sign(choices[0], axes) * 1;
    let two = leg_sign(choices[1], axes) * 2;
    let leap = leap_offset(choices, dimensions);
    lemma_each_leg_is_kept(choices, axes, 0);
    lemma_each_leg_is_kept(choices, axes, 1);
    assert(0 <= choices[0] < 2 * dimensions && 0 <= choices[1] < 2 * dimensions);
    assert forall|k: int| 0 <= k < dimensions && k != first && k != second implies leap[k]
        == 0 by {
        lemma_unchosen_axis_is_zero(choices, axes, k);
    }
    assert(two_leg_leap(leaps(dimensions, 2)[i], dimensions, first, one, second, two));
}

/// Every vector that goes one cell along one axis and two cells along
/// another, each in either direction, and nowhere else is among the leaps
/// with two legs.
pub proof fn lemma_every_knight_leap_is_listed(
    dimensions: nat,
    leap: Seq<i8>,
    first: int,
    one: int,
    second: int,
    two: int,
)
    requires
        one == 1 || one == -1,
        two == 2 || two == -2,
        two_leg_leap(leap, dimensions, first, one, second, two),
    ensures
        exists|i: int| 0 <= i < leaps(dimensions, 2).len() && #[trigger] leaps(dimensions, 2)[i] == leap,
{
    let axes = dimensions as int;
    let base = 2 * dimensions;
    let low = if one < 0 {
        axes - 1 - first
    } else {
        axes + first
    };
    let high = if two < 0 {
        axes - 1 - second
    } else {
        axes + second
    };
    let choices = seq![low, high];
    assert(all_digits(choices, base));
    lemma_digits_of_rank(choices, base);
    let n = rank(choices, base) as nat;
    assert(digits(n, base, 2) == choices);
    assert(leg_axis(low, axes) == first && leg_axis(high, axes) == second);
    assert(distinct_axes(choices, axes));
    lemma_leaps_are_complete(dimensions, 2, 0, n);
    lemma_each_leg_is_kept(choices, axes, 0);
    lemma_each_leg_is_kept(choices, axes, 1);
    let listed = leap_offset(choices, dimensions);
    assert forall|k: int| 0 <= k < dimensions implies listed[k] == leap[k] by {
        if k != first && k != second {
            lemma_unchosen_axis_is_zero(choices, axes, k);
        }
    }
    assert(listed =~= leap);
    let i = choose|i: int|
        0 <= i < leaps_from(dimensions, 2, 0).len() && #[trigger] leaps_from(dimensions, 2, 0)[i]
            == leap_offset(digits(n, 2 * dimensions, 2), dimensions);
    assert(leaps(dimensions, 2)[i] == leap);
}

/// The longest leap that can be enumerated: the length of the last leg must
/// be an `i8`.
pub const MAX_LEGS: usize = 127;

/// The choices of legs as integers.
pub open spec fn as_choices(next: Seq<usize>) -> Seq<int> {
    Seq::new(next.len(), |i: int| next[i] as int)
}

/// Enumerates the leaps with a given number of legs.
pub struct LMoveIter {
    dimensions: usize,
    next: Vec<usize>,
    done: bool,
}

impl LMoveIter {
    /// The leaps with `steps` legs on a board with `dimensions` axes.
    pub fn new(dimensions: usize, steps: usize) -> (cursor: LMoveIter)
        requires
            steps <= MAX_LEGS,
            2 * dimensions <= usize::MAX,
        ensures
            cursor.wf(),
            cursor.remaining() == leaps(dimensions as nat, steps as nat),
    {
        let mut next: Vec<usize> = Vec::new();
        let mut i: usize = 0;
        while i < steps
            invariant
                i <= steps,
                next@.len() == i,
                forall|j: int| 0 <= j < i ==> next@[j] == 0,
            decreases steps - i,
        {
            next.push(0);
            i += 1;
        }
        let cursor = LMoveIter { dimensions, next, done: dimensions == 0 && steps > 0 };
        proof {
            crate::odometer::lemma_rank_of_zeros(
                as_choices(cursor.next@),
                (2 * dimensions) as nat,
            );
            if cursor.done {
                lemma_no_tuples_without_digits(steps as nat);
            }
        }
        cursor
    }

    /// The number of the choice of legs that is tried next.
    pub closed spec fn at(&self) -> int {
        rank(as_choices(self.next@), (2 * self.dimensions) as nat)
    }

    /// The number of choices of legs.
    pub closed spec fn choices(&self) -> int {
        tuple_count((2 * self.dimensions) as nat, self.next@.len()) as int
    }

    /// Whether every choice of legs has been tried.
    pub closed spec fn exhausted(&self) -> bool {
        self.done
    }

    /// Whether every choice of legs has been tried.
    pub fn is_done(&self) -> (done: bool)
        ensures
            done == self.exhausted(),
    {
        self.done
    }

    /// Whether the legs that are tried next run along axes of their own.
    pub closed spec fn next_is_leap(&self) -> bool {
        distinct_axes(as_choices(self.next@), self.dimensions as int)
    }

    /// Whether the state is one that `new` and the methods produce.
    pub closed spec fn well_formed(&self) -> bool {
        &&& self.next@.len() <= MAX_LEGS
        &&& 2 * self.dimensions <= usize::MAX
        &&& self.done || forall|i: int|
            0 <= i < self.next@.len() ==> #[trigger] self.next@[i] < 2 * self.dimensions
    }

    /// Goes on to the next choice of legs: the first leg takes its next
    /// value, and a leg that has had them all starts again and lets the leg
    /// after it go on. After the last choice the enumeration is exhausted.
    pub fn update_next(&mut self)
        requires
            old(self).well_formed(),
            !old(self).exhausted(),
        ensures
            final(self).well_formed(),
            final(self).choices() == old(self).choices(),
            0 <= old(self).at() < old(self).choices(),
            final(self).exhausted() == (old(self).at() + 1 == old(self).choices()),
            !final(self).exhausted() ==> final(self).at() == old(self).at() + 1,
            final(self).same_board(old(self)),
    {
        let base: usize = 2 * self.dimensions;
        let ghost before = as_choices(self.next@);
        let ghost start = self.at();
        proof {
            assert(crate::odometer::all_digits(before, base as nat));
            lemma_digits_of_rank(before, base as nat);
            assert(tuple_count(base as nat, 0) == 1);
        }
        let mut i: usize = 0;
        while i < self.next.len()
            invariant
                i <= self.next@.len(),
                self.next@.len() == before.len(),
                self.dimensions == old(self).dimensions,
                self.done == old(self).done,
                base == 2 * self.dimensions,
                before == as_choices(old(self).next@),
                old(self).well_formed(),
                !self.done,
                forall|j: int| 0 <= j < before.len() ==> 0 <= #[trigger] before[j] < base,
                0 <= start < tuple_count(base as nat, before.len()),
                forall|j: int| 0 <= j < i ==> #[trigger] self.next@[j] == 0 && before[j] == base - 1,
                forall|j: int| i <= j < before.len() ==> #[trigger] self.next@[j] == before[j],
                rank(as_choices(self.next@), base as nat) == start - (tuple_count(
                    base as nat,
                    i as nat,
                ) - 1),
                start == rank(before, base as nat),
            decreases self.next@.len() - i,
        {
            let ghost full = as_choices(self.next@);
            let weight = Ghost(tuple_count(base as nat, i as nat) as int);
            let choice: usize = self.next[i];
            assert(tuple_count(base as nat, (i + 1) as nat) == base * weight@);
            if choice + 1 < base {
                self.next[i] = choice + 1;
                proof {
                    lemma_rank_update(full, base as nat, i as int, choice + 1);
                    assert(as_choices(self.next@) =~= full.update(i as int, choice + 1));
                    assert((choice + 1 - choice) * weight@ == weight@) by (nonlinear_arith);
                    assert(crate::odometer::all_digits(as_choices(self.next@), base as nat)) by {
                        assert forall|j: int| 0 <= j < self.next@.len() implies 0 <= #[trigger] as_choices(
                            self.next@,
                        )[j] < base by {
                            if j < i {
                                assert(self.next@[j] == 0);
                            } else if j > i {
                                assert(self.next@[j] == before[j]);
                            }
                        }
                    }
                    lemma_digits_of_rank(as_choices(self.next@), base as nat);
                }
                return ;
            }
            self.next[i] = 0;
            proof {
                lemma_rank_update(full, base as nat, i as int, 0);
                assert(as_choices(self.next@) =~= full.update(i as int, 0));
                assert((0 - (base - 1)) * weight@ == weight@ - base * weight@) by (nonlinear_arith);
            }
            i += 1;
        }
        proof {
            crate::odometer::lemma_rank_of_zeros(as_choices(self.next@), base as nat);
        }
        self.done = true;
    }

    /// Whether `self` enumerates over the board and the number of legs of
    /// `other`.
    pub closed spec fn same_board(&self, other: &LMoveIter) -> bool {
        self.dimensions == other.dimensions && self.next@.len() == other.next@.len()
    }

    /// Whether the legs that are tried next run along axes of their own.
    pub fn check_valid(&self) -> (valid: bool)
        requires
            self.well_formed(),
            !self.exhausted(),
        ensures
            valid == self.next_is_leap(),
    {
        let n = self.next.len();
        let mut i: usize = 0;
        while i < n
            invariant
                n == self.next@.len(),
                i <= n,
                self.well_formed(),
                !self.done,
                forall|a: int, b: int|
                    0 <= a < b < n && a < i ==> leg_axis(
                        as_choices(self.next@)[a],
                        self.dimensions as int,
                    ) != leg_axis(as_choices(self.next@)[b], self.dimensions as int),
            decreases n - i,
        {
            let first = self.axis_of(i);
            let mut j: usize = i + 1;
            while j < n
                invariant
                    n == self.next@.len(),
                    i < j <= n,
                    self.well_formed(),
                    !self.done,
                    first == leg_axis(as_choices(self.next@)[i as int], self.dimensions as int),
                    forall|b: int|
                        i < b < j ==> leg_axis(
                            as_choices(self.next@)[i as int],
                            self.dimensions as int,
                        ) != leg_axis(as_choices(self.next@)[b], self.dimensions as int),
                decreases n - j,
            {
                if first == self.axis_of(j) {
                    assert(leg_axis(as_choices(self.next@)[i as int], self.dimensions as int)
                        == leg_axis(as_choices(self.next@)[j as int], self.dimensions as int));
                    return false;
                }
                j += 1;
            }
            i += 1;
        }
        true
    }

    /// The axis of leg number `leg`.
    fn axis_of(&self, leg: usize) -> (axis: usize)
        requires
            self.well_formed(),
            !self.done,
            leg < self.next@.len(),
        ensures
            axis == leg_axis(as_choices(self.next@)[leg as int], self.dimensions as int),
            axis < self.dimensions,
    {
        let choice = self.next[leg];
        if choice < self.dimensions {
            self.dimensions - 1 - choice
        } else {
            choice - self.dimensions
        }
    }

    /// The offset of the leap whose legs are tried next.
    fn offset(&self) -> (leap: Position)
        requires
            self.well_formed(),
            !self.done,
        ensures
            leap@ == leap_offset(as_choices(self.next@), self.dimensions as nat),
    {
        let ghost all = as_choices(self.next@);
        let ghost axes = self.dimensions as int;
        let mut leap = Position::zero(self.dimensions);
        let mut by: usize = 0;
        while by < self.next.len()
            invariant
                by <= self.next@.len(),
                self.well_formed(),
                !self.done,
                all == as_choices(self.next@),
                axes == self.dimensions,
                leap@.len() == self.dimensions,
                forall|a: int| 0 <= a < axes ==> #[trigger] leap@[a] == leg_on(all.take(by as int), axes, a),
            decreases self.next@.len() - by,
        {
            let axis = self.axis_of(by);
            let length: i8 = (by + 1) as i8;
            let value: i8 = if self.next[by] < self.dimensions {
                -length
            } else {
                length
            };
            proof {
                let grown = all.take(by + 1);
                assert(grown.drop_last() =~= all.take(by as int));
                assert(grown.last() == all[by as int]);
                assert(leg_sign(all[by as int], axes) * grown.len() == value) by (nonlinear_arith)
                    requires
                        grown.len() == by + 1,
                        value == (if all[by as int] < axes {
                            -(by + 1)
                        } else {
                            by + 1
                        }),
                        leg_sign(all[by as int], axes) == (if all[by as int] < axes {
                            -1int
                        } else {
                            1int
                        }),
                ;
            }
            leap.add_dimension(axis, value);
            by += 1;
        }
        assert(all.take(by as int) =~= all);
        assert(leap@ =~= leap_offset(all, self.dimensions as nat));
        leap
    }

    /// How many choices of legs are still to be tried.
    closed spec fn untried(&self) -> int {
        if self.done {
            0
        } else {
            self.choices() - self.at()
        }
    }
}

/// Over no digits at all there is no tuple that has an entry.
proof fn lemma_no_tuples_without_digits(places: nat)
    requires
        places > 0,
    ensures
        tuple_count(0, places) == 0,
{
}

impl Enumerator for LMoveIter {
    open spec fn wf(&self) -> bool {
        self.well_formed()
    }

    closed spec fn remaining(&self) -> Seq<Seq<i8>> {
        if self.done {
            Seq::empty()
        } else {
            leaps_from(self.dimensions as nat, self.next@.len(), self.at() as nat)
        }
    }

    fn next(&mut self) -> (item: Option<Position>) {
        loop
            invariant
                self.well_formed(),
                self.remaining() == old(self).remaining(),
            decreases self.untried(),
        {
            if self.done {
                return None;
            }
            let ghost axes = self.dimensions as nat;
            let ghost legs = self.next@.len();
            let ghost at = self.at() as nat;
            let ghost tried = self.remaining();
            proof {
                assert(crate::odometer::all_digits(as_choices(self.next@), 2 * axes));
                lemma_digits_of_rank(as_choices(self.next@), 2 * axes);
                if legs == 0 {
                    assert(tuple_count(2 * axes, 0) == 1);
                    assert(digits(0, 2 * axes, 0) =~= as_choices(self.next@));
                }
                assert(digits(at, 2 * axes, legs) == as_choices(self.next@));
                assert(at < tuple_count(2 * axes, legs));
            }
            if self.check_valid() {
                let leap = self.offset();
                self.update_next();
                proof {
                    assert(tried == seq![leap@] + leaps_from(axes, legs, at + 1));
                    assert(self.remaining() =~= leaps_from(axes, legs, at + 1));
                    assert(self.remaining() =~= tried.drop_first());
                }
                return Some(leap);
            }
            self.update_next();
            proof {
                assert(tried == leaps_from(axes, legs, at + 1));
                assert(self.remaining() =~= leaps_from(axes, legs, at + 1));
            }
        }
    }
}

} // verus!
