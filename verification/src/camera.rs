//! Where the camera stands: one of nine places around the board on each of
//! three heights.
//!
//! Seen from above, the eight places around the board form a ring. Turning
//! left or right goes one place along the ring; the place right above the
//! centre of the board is not on the ring and does not turn.

use vstd::prelude::*;

verus! {

/// On which side of the board's centre the camera stands along one axis.
#[derive(Debug, Clone, Copy, PartialEq, Eq, Structural)]
pub enum Value {
    Pos,
    Zero,
    Neg,
}

/// The place on the ring with the given number, as its sides along `x` and
/// `z`. The numbers grow in the direction of a left turn and are taken
/// modulo eight.
pub open spec fn ring_place(number: int) -> (Value, Value) {
    let place = number % 8;
    if place == 0 {
        (Value::Pos, Value::Zero)
    } else if place == 1 {
        (Value::Pos, Value::Neg)
    } else if place == 2 {
        (Value::Zero, Value::Neg)
    } else if place == 3 {
        (Value::Neg, Value::Neg)
    } else if place == 4 {
        (Value::Neg, Value::Zero)
    } else if place == 5 {
        (Value::Neg, Value::Pos)
    } else if place == 6 {
        (Value::Zero, Value::Pos)
    } else {
        (Value::Pos, Value::Pos)
    }
}

/// The number of the place on the ring with the given sides; `None` for the
/// place above the centre.
pub open spec fn ring_number(x: Value, z: Value) -> Option<int> {
    match (x, z) {
        (Value::Pos, Value::Zero) => Some(0),
        (Value::Pos, Value::Neg) => Some(1),
        (Value::Zero, Value::Neg) => Some(2),
        (Value::Neg, Value::Neg) => Some(3),
        (Value::Neg, Value::Zero) => Some(4),
        (Value::Neg, Value::Pos) => Some(5),
        (Value::Zero, Value::Pos) => Some(6),
        (Value::Pos, Value::Pos) => Some(7),
        (Value::Zero, Value::Zero) => None,
    }
}

/// The sides after a turn by `by` places along the ring.
pub open spec fn turned(x: Value, z: Value, by: int) -> (Value, Value) {
    match ring_number(x, z) {
        Some(number) => ring_place(number + by),
        None => (x, z),
    }
}

/// The height one above; the highest stays.
pub open spec fn raised(height: Value) -> Value {
    match height {
        Value::Neg => Value::Zero,
        _ => Value::Pos,
    }
}

/// The height one below; the lowest stays.
pub open spec fn lowered(height: Value) -> Value {
    match height {
        Value::Pos => Value::Zero,
        _ => Value::Neg,
    }
}

/// The place of the camera around the board.
#[derive(Debug)]
pub struct BoardCameraView {
    x: Value,
    z: Value,
    y: Value,
}

impl BoardCameraView {
    /// The view from the given sides along `x`, `y` and `z`.
    pub fn new(x: Value, y: Value, z: Value) -> (view: Self)
        ensures
            view.side_x() == x,
            view.height() == y,
            view.side_z() == z,
    {
        Self { x, y, z }
    }

    /// The side along `x`.
    pub closed spec fn side_x(&self) -> Value {
        self.x
    }

    /// The side along `z`.
    pub closed spec fn side_z(&self) -> Value {
        self.z
    }

    /// The height, the side along `y`.
    pub closed spec fn height(&self) -> Value {
        self.y
    }

    /// The side along `x`.
    pub fn x(&self) -> (side: Value)
        ensures
            side == self.side_x(),
    {
        self.x
    }

    /// The height, the side along `y`.
    pub fn y(&self) -> (side: Value)
        ensures
            side == self.height(),
    {
        self.y
    }

    /// The side along `z`.
    pub fn z(&self) -> (side: Value)
        ensures
            side == self.side_z(),
    {
        self.z
    }

    /// Turns one place to the left along the ring.
    pub fn left(&mut self)
        ensures
            (final(self).side_x(), final(self).side_z()) == turned(
                old(self).side_x(),
                old(self).side_z(),
                1,
            ),
            final(self).height() == old(self).height(),
    {
        match (self.x, self.z) {
            (Value::Pos, Value::Zero) => {
                self.z = Value::Neg;
            },
            (Value::Pos, Value::Neg) => {
                self.x = Value::Zero;
            },
            (Value::Zero, Value::Neg) => {
                self.x = Value::Neg;
            },
            (Value::Neg, Value::Neg) => {
                self.z = Value::Zero;
            },
            (Value::Neg, Value::Zero) => {
                self.z = Value::Pos;
            },
            (Value::Neg, Value::Pos) => {
                self.x = Value::Zero;
            },
            (Value::Zero, Value::Pos) => {
                self.x = Value::Pos;
            },
            (Value::Pos, Value::Pos) => {
                self.z = Value::Zero;
            },
            (Value::Zero, Value::Zero) => {},
        }
    }

    /// Turns one place to the right along the ring.
    pub fn right(&mut self)
        ensures
            (final(self).side_x(), final(self).side_z()) == turned(
                old(self).side_x(),
                old(self).side_z(),
                -1,
            ),
            final(self).height() == old(self).height(),
    {
        match (self.x, self.z) {
            (Value::Pos, Value::Zero) => {
                self.z = Value::Pos;
            },
            (Value::Pos, Value::Pos) => {
                self.x = Value::Zero;
            },
            (Value::Zero, Value::Pos) => {
                self.x = Value::Neg;
            },
            (Value::Neg, Value::Pos) => {
                self.z = Value::Zero;
            },
            (Value::Neg, Value::Zero) => {
                self.z = Value::Neg;
            },
            (Value::Neg, Value::Neg) => {
                self.x = Value::Zero;
            },
            (Value::Zero, Value::Neg) => {
                self.x = Value::Pos;
            },
            (Value::Pos, Value::Neg) => {
                self.z = Value::Zero;
            },
            (Value::Zero, Value::Zero) => {},
        }
    }

    /// Goes one height up; at the top nothing changes.
    pub fn up(&mut self)
        ensures
            final(self).height() == raised(old(self).height()),
            final(self).side_x() == old(self).side_x(),
            final(self).side_z() == old(self).side_z(),
    {
        match self.y {
            Value::Zero => {
                self.y = Value::Pos;
            },
            Value::Neg => {
                self.y = Value::Zero;
            },
            Value::Pos => {},
        }
    }

    /// Goes one height down; at the bottom nothing changes.
    pub fn down(&mut self)
        ensures
            final(self).height() == lowered(old(self).height()),
            final(self).side_x() == old(self).side_x(),
            final(self).side_z() == old(self).side_z(),
    {
        match self.y {
            Value::Zero => {
                self.y = Value::Neg;
            },
            Value::Pos => {
                self.y = Value::Zero;
            },
            Value::Neg => {},
        }
    }
}

/// A turn to the right undoes a turn to the left, and a turn to the left
/// undoes one to the right.
pub proof fn lemma_turns_undo_each_other(x: Value, z: Value)
    ensures
        turned(turned(x, z, 1).0, turned(x, z, 1).1, -1) == (x, z),
        turned(turned(x, z, -1).0, turned(x, z, -1).1, 1) == (x, z),
{
}

/// Eight turns to the same side lead back to where they started.
pub proof fn lemma_eight_turns_come_round(x: Value, z: Value)
    ensures
        turned(x, z, 8) == (x, z),
        turned(x, z, -8) == (x, z),
{
}

} // verus!
