//! Counting through tuples: every tuple over `0..base` in the order of an
//! odometer whose lowest axis turns fastest.

use vstd::prelude::*;
use crate::enumerate::{Enumerator, MAX_DISTANCE};
use crate::position::Position;

verus! {

/// The number of tuples with `places` entries over `0..base`.
pub open spec fn tuple_count(base: nat, places: nat) -> nat
    decreases places,
{
    if places == 0 {
        1
    } else {
        base * tuple_count(base, (places - 1) as nat)
    }
}

/// The tuple with number `n`: its entries are the digits of `n` to the given
/// base, the lowest first.
pub open spec fn digits(n: nat, base: nat, places: nat) -> Seq<int>
    decreases places,
{
    if places == 0 {
        Seq::empty()
    } else {
        seq![(n % base) as int] + digits(n / base, base, (places - 1) as nat)
    }
}

/// The number of a tuple: the value of its entries read as digits, the lowest
/// first.
pub open spec fn rank(tuple: Seq<int>, base: nat) -> int
    decreases tuple.len(),
{
    if tuple.len() == 0 {
        0
    } else {
        tuple[0] + base * rank(tuple.drop_first(), base)
    }
}

/// Whether every entry of the tuple is a digit to the given base.
pub open spec fn all_digits(tuple: Seq<int>, base: nat) -> bool {
    forall|i: int| 0 <= i < tuple.len() ==> 0 <= #[trigger] tuple[i] < base
}

/// Coordinates as integers.
pub open spec fn as_ints(coords: Seq<i8>) -> Seq<int> {
    Seq::new(coords.len(), |i: int| coords[i] as int)
}

/// Integers as coordinates.
pub open spec fn as_coords(tuple: Seq<int>) -> Seq<i8> {
    Seq::new(tuple.len(), |i: int| tuple[i] as i8)
}

/// Every tuple with `places` entries over `0..base`, in counting order.
pub open spec fn grid(places: nat, base: nat) -> Seq<Seq<i8>> {
    Seq::new(tuple_count(base, places), |n: int| as_coords(digits(n as nat, base, places)))
}

/// The tuple with number `n` has `places` entries, each a digit.
pub proof fn lemma_digits_are_digits(n: nat, base: nat, places: nat)
    requires
        base >= 1,
    ensures
        digits(n, base, places).len() == places,
        all_digits(digits(n, base, places), base),
    decreases places,
{
    if places > 0 {
        lemma_digits_are_digits(n / base, base, (places - 1) as nat);
        let rest = digits(n / base, base, (places - 1) as nat);
        let all = digits(n, base, places);
        assert(0 <= ((n % base) as int) && ((n % base) as int) < base) by (nonlinear_arith)
            requires
                base >= 1,
        ;
        assert forall|i: int| 0 <= i < all.len() implies 0 <= #[trigger] all[i] < base by {
            if i > 0 {
                assert(all[i] == rest[i - 1]);
            }
        }
    }
}

/// Changing one entry of a tuple changes its number by the difference, times
/// the weight of the place.
pub proof fn lemma_rank_update(tuple: Seq<int>, base: nat, place: int, entry: int)
    requires
        0 <= place < tuple.len(),
    ensures
        rank(tuple.update(place, entry), base) == rank(tuple, base) + (entry - tuple[place])
            * tuple_count(base, place as nat),
    decreases place,
{
    let changed = tuple.update(place, entry);
    let rest = tuple.drop_first();
    assert(rank(changed, base) == changed[0] + base * rank(changed.drop_first(), base));
    assert(rank(tuple, base) == tuple[0] + base * rank(rest, base));
    if place == 0 {
        assert(changed.drop_first() =~= rest);
        assert(tuple_count(base, 0) == 1);
        assert((entry - tuple[0]) * 1 == entry - tuple[0]);
    } else {
        assert(changed.drop_first() =~= rest.update(place - 1, entry));
        lemma_rank_update(rest, base, place - 1, entry);
        let weight = tuple_count(base, (place - 1) as nat) as int;
        let diff = entry - tuple[place];
        assert(rest[place - 1] == tuple[place]);
        assert(tuple_count(base, place as nat) == base * weight);
        assert(base * (rank(rest, base) + diff * weight) == base * rank(rest, base) + diff * (base
            * weight)) by (nonlinear_arith);
    }
}

/// A tuple of digits is the tuple with its own number, and that number is
/// below the number of tuples.
pub proof fn lemma_digits_of_rank(tuple: Seq<int>, base: nat)
    requires
        all_digits(tuple, base),
    ensures
        0 <= rank(tuple, base),
        tuple.len() > 0 ==> rank(tuple, base) < tuple_count(base, tuple.len()),
        tuple.len() > 0 ==> digits(rank(tuple, base) as nat, base, tuple.len()) == tuple,
    decreases tuple.len(),
{
    if tuple.len() > 0 {
        let rest = tuple.drop_first();
        assert(all_digits(rest, base)) by {
            assert forall|i: int| 0 <= i < rest.len() implies 0 <= #[trigger] rest[i] < base by {
                assert(rest[i] == tuple[i + 1]);
            }
        }
        lemma_digits_of_rank(rest, base);
        let low = tuple[0];
        let high = rank(rest, base);
        let count = tuple_count(base, rest.len()) as int;
        assert(0 <= low < base);
        assert(rest.len() == 0 ==> high == 0);
        assert(tuple_count(base, 0) == 1);
        assert(0 <= high < count) by {
            if rest.len() == 0 {
                assert(count == 1);
            }
        }
        assert(tuple_count(base, tuple.len()) == base * count);
        assert(low + base * high < base * count) by (nonlinear_arith)
            requires
                0 <= low < base,
                0 <= high < count,
        ;
        assert(0 <= low + base * high) by (nonlinear_arith)
            requires
                0 <= low,
                0 <= high,
                base >= 0,
        ;
        assert((low + base * high) % (base as int) == low && (low + base * high) / (base as int)
            == high) by {
            vstd::arithmetic::div_mod::lemma_fundamental_div_mod_converse(
                low + base * high,
                base as int,
                high,
                low,
            );
        }
        if rest.len() > 0 {
            assert(digits(high as nat, base, rest.len()) == rest);
        } else {
            assert(digits(high as nat, base, 0) =~= rest);
        }
        assert(digits(rank(tuple, base) as nat, base, tuple.len()) =~= tuple);
    }
}

/// The number of the tuple with number `n` is `n`.
pub proof fn lemma_rank_of_digits(n: nat, base: nat, places: nat)
    requires
        base >= 1,
        n < tuple_count(base, places),
    ensures
        rank(digits(n, base, places), base) == n,
    decreases places,
{
    if places > 0 {
        let count = tuple_count(base, (places - 1) as nat);
        let high = n / base;
        let low = n % base;
        assert(tuple_count(base, places) == base * count);
        assert(n == base * high + low && 0 <= low < base) by {
            vstd::arithmetic::div_mod::lemma_fundamental_div_mod(n as int, base as int);
            vstd::arithmetic::div_mod::lemma_mod_bound(n as int, base as int);
        }
        assert(high < count) by (nonlinear_arith)
            requires
                n == base * high + low,
                0 <= low,
                n < base * count,
                base >= 1,
        ;
        lemma_rank_of_digits(high, base, (places - 1) as nat);
        let all = digits(n, base, places);
        assert(all.drop_first() =~= digits(high, base, (places - 1) as nat));
        assert(all[0] == low);
    } else {
        assert(tuple_count(base, 0) == 1);
    }
}

/// Tuples with different numbers are different: the grid holds no tuple
/// twice.
pub proof fn lemma_grid_has_no_repeats(places: nat, base: nat, m: int, n: int)
    requires
        1 <= base <= 128,
        0 <= m < n < tuple_count(base, places),
    ensures
        grid(places, base)[m] != grid(places, base)[n],
{
    lemma_rank_of_digits(m as nat, base, places);
    lemma_rank_of_digits(n as nat, base, places);
    lemma_digits_are_digits(m as nat, base, places);
    lemma_digits_are_digits(n as nat, base, places);
    let first = digits(m as nat, base, places);
    let second = digits(n as nat, base, places);
    if as_coords(first) == as_coords(second) {
        assert forall|i: int| 0 <= i < places implies first[i] == second[i] by {
            assert(as_coords(first)[i] == first[i] as i8);
            assert(as_coords(second)[i] == second[i] as i8);
            assert(0 <= first[i] < base);
            assert(0 <= second[i] < base);
        }
        assert(first =~= second);
    }
}

/// The tuple of `places` zeros has the number zero.
pub proof fn lemma_rank_of_zeros(tuple: Seq<int>, base: nat)
    requires
        forall|i: int| 0 <= i < tuple.len() ==> tuple[i] == 0,
    ensures
        rank(tuple, base) == 0,
    decreases tuple.len(),
{
    if tuple.len() > 0 {
        let rest = tuple.drop_first();
        assert forall|i: int| 0 <= i < rest.len() implies rest[i] == 0 by {
            assert(rest[i] == tuple[i + 1]);
        }
        lemma_rank_of_zeros(rest, base);
        assert(base * 0 == 0);
    }
}

/// Enumerates every tuple over `0..=DISTANCE`, one entry per axis, in
/// counting order: the first axis advances at each step, and an axis that
/// passes the bound starts again at zero and advances the next one.
pub struct NewPositionIter<const DISTANCE: u8> {
    current: Position,
}

impl<const DISTANCE: u8> NewPositionIter<DISTANCE> {
    /// Every tuple over `0..=DISTANCE` on a board with `dimensions` axes,
    /// from the all-zero tuple on. A board without axes has none.
    pub fn new(dimensions: usize) -> (tuples: Self)
        requires
            DISTANCE <= MAX_DISTANCE,
        ensures
            tuples.wf(),
            tuples.remaining() == (if dimensions == 0 {
                Seq::<Seq<i8>>::empty()
            } else {
                grid(dimensions as nat, (DISTANCE + 1) as nat)
            }),
    {
        let tuples = Self { current: Position::zero(dimensions) };
        proof {
            if dimensions > 0 {
                lemma_rank_of_zeros(as_ints(tuples.current@), (DISTANCE + 1) as nat);
                assert(tuples.remaining() =~= grid(dimensions as nat, (DISTANCE + 1) as nat));
            }
        }
        tuples
    }

    /// The number of the tuple that comes next.
    closed spec fn at(&self) -> int {
        rank(as_ints(self.current@), (DISTANCE + 1) as nat)
    }
}

impl<const DISTANCE: u8> Enumerator for NewPositionIter<DISTANCE> {
    closed spec fn wf(&self) -> bool {
        let tuple = self.current@;
        &&& DISTANCE <= MAX_DISTANCE
        &&& forall|i: int| 0 <= i < tuple.len() - 1 ==> 0 <= #[trigger] tuple[i] <= DISTANCE
        &&& tuple.len() > 0 ==> 0 <= tuple.last() <= DISTANCE + 1
        &&& tuple.len() > 0 && tuple.last() == DISTANCE + 1 ==> forall|i: int|
            0 <= i < tuple.len() - 1 ==> #[trigger] tuple[i] == 0
    }

    closed spec fn remaining(&self) -> Seq<Seq<i8>> {
        let base = (DISTANCE + 1) as nat;
        let places = self.current@.len();
        if places == 0 || self.current@.last() > DISTANCE {
            Seq::empty()
        } else {
            Seq::new(
                (tuple_count(base, places) - self.at()) as nat,
                |k: int| as_coords(digits((self.at() + k) as nat, base, places)),
            )
        }
    }

    fn next(&mut self) -> (item: Option<Position>) {
        let places = self.current.len();
        if places == 0 {
            return None;
        }
        if self.current.last() as i16 > DISTANCE as i16 {
            return None;
        }
        let ghost base = (DISTANCE + 1) as nat;
        let ghost before = self.current@;
        let ghost number = self.at();
        proof {
            assert(all_digits(as_ints(before), base));
            lemma_digits_of_rank(as_ints(before), base);
            assert(as_coords(as_ints(before)) =~= before);
        }
        let out = self.current.clone();
        let first: i8 = self.current.0[0];
        self.current.0[0] = first + 1;
        proof {
            lemma_rank_update(as_ints(before), base, 0, first + 1);
            assert(as_ints(self.current@) =~= as_ints(before).update(0, first + 1));
            assert(as_ints(before)[0] == first);
            assert(tuple_count(base, 0) == 1);
            assert((first + 1 - first) * 1 == 1);
        }
        let mut i: usize = 0;
        while i < places - 1
            invariant
                places == before.len(),
                self.current@.len() == places,
                places >= 1,
                DISTANCE <= MAX_DISTANCE,
                base == DISTANCE + 1,
                0 <= i <= places - 1,
                rank(as_ints(self.current@), base) == number + 1,
                forall|j: int| 0 <= j < i ==> 0 <= #[trigger] self.current@[j] <= DISTANCE,
                0 <= self.current@[i as int] <= DISTANCE + 1,
                forall|j: int| i < j < places ==> #[trigger] self.current@[j] == before[j],
                forall|j: int| 0 <= j < places ==> 0 <= #[trigger] before[j] <= DISTANCE,
                self.current@[i as int] == DISTANCE + 1 ==> forall|j: int|
                    0 <= j < i ==> #[trigger] self.current@[j] == 0,
            decreases places - i,
        {
            let here: i8 = self.current.0[i];
            if here as i16 > DISTANCE as i16 {
                let ghost full = as_ints(self.current@);
                let above: i8 = self.current.0[i + 1];
                self.current.0[i] = 0;
                self.current.0[i + 1] = above + 1;
                proof {
                    let cleared = full.update(i as int, 0);
                    lemma_rank_update(full, base, i as int, 0);
                    lemma_rank_update(cleared, base, i + 1, above + 1);
                    assert(as_ints(self.current@) =~= cleared.update(i + 1, above + 1));
                    let weight = tuple_count(base, i as nat) as int;
                    assert(tuple_count(base, (i + 1) as nat) == base * weight);
                    assert((0 - base) * weight + 1 * (base * weight) == 0) by (nonlinear_arith);
                }
            }
            i += 1;
        }
        proof {
            let after = self.current@;
            if after.last() > DISTANCE {
                let zeros = Seq::new(places as nat, |j: int| 0int);
                lemma_rank_of_zeros(zeros, base);
                lemma_rank_update(zeros, base, places - 1, base as int);
                assert(as_ints(after) =~= zeros.update(places - 1, base as int));
                assert(tuple_count(base, places as nat) == base * tuple_count(
                    base,
                    (places - 1) as nat,
                ));
                assert(number + 1 == tuple_count(base, places as nat));
            } else {
                assert(all_digits(as_ints(after), base));
                lemma_digits_of_rank(as_ints(after), base);
            }
            assert(old(self).remaining().first() =~= out@);
            assert(self.remaining() =~= old(self).remaining().drop_first());
        }
        Some(out)
    }
}

} // verus!
