//! The bishop's rays: one diagonal ray for every way of giving each axis a
//! direction.

use vstd::prelude::*;
#[allow(unused_imports)]
use crate::enumerate::Enumerator;
use crate::move_iterators::primitive::{diagonal_ray, DiagonalIter};

verus! {

/// The most axes that the bishop's rays can be enumerated for: the
/// directions of a ray are held as the bits of a `u64`.
pub const MAX_BISHOP_AXES: usize = 63;

/// The directions that the bits of `mask` give to the axes: axis `i` grows
/// where bit `i` is set and falls where it is clear.
pub open spec fn sign_vector(mask: u64, axes: nat) -> Seq<bool> {
    Seq::new(axes, |i: int| mask & (1u64 << (i as u64)) != 0)
}

/// The sign vectors of the masks from `from` up to all ones over `axes` axes.
pub open spec fn sign_vectors_from(from: u64, axes: nat) -> Seq<Seq<bool>> {
    Seq::new(((1u64 << (axes as u64)) - from) as nat, |k: int| sign_vector((from + k) as u64, axes))
}

/// Enumerates the diagonal rays of a board, one for every sign vector, in
/// the order of the masks.
pub struct BishopMoveIterator {
    move_set: u64,
    len: usize,
}

impl BishopMoveIterator {
    /// The diagonal rays of a board with `dimensions` axes.
    pub fn new(dimensions: usize) -> (rays: BishopMoveIterator)
        requires
            dimensions <= MAX_BISHOP_AXES,
        ensures
            rays.wf(),
            rays.mask() == 0,
            rays.axes() == dimensions,
    {
        let rays = BishopMoveIterator { move_set: 0, len: dimensions };
        assert(0u64 <= (1u64 << (dimensions as u64))) by (bit_vector);
        rays
    }

    /// Whether the state is one that `new` and `next` produce: the board
    /// has few enough axes, and the mask is at most one past the last.
    pub closed spec fn wf(&self) -> bool {
        &&& self.len <= MAX_BISHOP_AXES
        &&& self.move_set <= (1u64 << (self.len as u64))
    }

    /// The mask of the ray that comes next.
    pub closed spec fn mask(&self) -> u64 {
        self.move_set
    }

    /// The number of axes of the board.
    pub closed spec fn axes(&self) -> nat {
        self.len as nat
    }

    /// The sign vectors of the rays that are still to come.
    pub open spec fn upcoming(&self) -> Seq<Seq<bool>> {
        sign_vectors_from(self.mask(), self.axes())
    }

    /// The sign vector of the ray that comes next.
    pub fn gen_move_set(&self) -> (signs: Vec<bool>)
        requires
            self.wf(),
        ensures
            signs@ == sign_vector(self.mask(), self.axes()),
    {
        let mut out: Vec<bool> = Vec::new();
        let mut i: usize = 0;
        while i < self.len
            invariant
                i <= self.len,
                self.len <= MAX_BISHOP_AXES,
                out@.len() == i,
                forall|j: int|
                    0 <= j < i ==> out@[j] == (self.move_set & (1u64 << (j as u64)) != 0),
            decreases self.len - i,
        {
            out.push((self.move_set & (1u64 << (i as u64))) != 0);
            i += 1;
        }
        assert(out@ =~= sign_vector(self.move_set, self.len as nat));
        out
    }

    /// Hands out the next diagonal ray, seven cells long, or `None` once
    /// every sign vector has had its ray.
    pub fn next(&mut self) -> (item: Option<DiagonalIter<7>>)
        requires
            old(self).wf(),
        ensures
            final(self).wf(),
            final(self).axes() == old(self).axes(),
            item is Some == (old(self).mask() < (1u64 << (old(self).axes() as u64))),
            item is Some ==> item->0.wf() && item->0.remaining() == diagonal_ray(
                sign_vector(old(self).mask(), old(self).axes()),
                7,
            ) && final(self).mask() == old(self).mask() + 1,
            item is None ==> final(self).mask() == old(self).mask(),
    {
        if self.move_set >= 1u64 << (self.len as u64) {
            return None;
        }
        let out = DiagonalIter::with_move_set(self.gen_move_set());
        self.move_set += 1;
        Some(out)
    }
}

} // verus!
