//! The knight's leaps, grouped by the number of their legs.

use vstd::prelude::*;
#[allow(unused_imports)]
use crate::enumerate::Enumerator;
use crate::move_iterators::primitive::{leaps, LMoveIter, MAX_LEGS};

verus! {

/// The leaps of a board, by growing number of legs: first those with two
/// legs, last those with one leg more than the board has axes, of which there
/// are none.
pub struct KnightMoveIterator {
    dimensions: usize,
    next: usize,
}

impl KnightMoveIterator {
    /// The leaps of a board with `dimensions` axes.
    pub fn new(dimensions: usize) -> (groups: KnightMoveIterator)
        requires
            dimensions < MAX_LEGS,
        ensures
            groups.wf(),
            groups.dimensions() == dimensions,
            groups.upcoming_legs() == 2,
    {
        KnightMoveIterator { dimensions, next: 1 }
    }

    /// Whether the state is one that `new` and `next` produce.
    pub closed spec fn wf(&self) -> bool {
        self.dimensions < MAX_LEGS && 1 <= self.next <= self.dimensions + 1
    }

    /// The number of axes of the board.
    pub closed spec fn dimensions(&self) -> nat {
        self.dimensions as nat
    }

    /// The number of legs of the leaps that are handed out next.
    pub closed spec fn upcoming_legs(&self) -> nat {
        (self.next + 1) as nat
    }

    /// Hands out the enumerator of the leaps with the next number of legs,
    /// or `None` after the group with one leg more than the board has axes.
    pub fn next(&mut self) -> (item: Option<LMoveIter>)
        requires
            old(self).wf(),
        ensures
            final(self).wf(),
            final(self).dimensions() == old(self).dimensions(),
            item is Some == (old(self).upcoming_legs() <= old(self).dimensions() + 1),
            item is Some ==> item->0.wf() && item->0.remaining() == leaps(
                old(self).dimensions(),
                old(self).upcoming_legs(),
            ) && final(self).upcoming_legs() == old(self).upcoming_legs() + 1,
            item is None ==> final(self).upcoming_legs() == old(self).upcoming_legs(),
    {
        if self.next > self.dimensions {
            return None;
        }
        self.next += 1;
        Some(LMoveIter::new(self.dimensions, self.next))
    }
}

} // verus!
