//! The pieces of the paddle game that do not depend on the engine.
use vstd::prelude::*;

verus! {

/// The game state.
pub struct Pong;

/// The side of the arena a paddle stands on.
#[derive(Debug, Clone, Copy, PartialEq, Eq, Structural)]
pub enum Side {
    Left,
    Right,
}

/// The system that moves the paddles from player input.
pub struct PaddleSystem;

pub open spec fn axis_of(side: Side) -> Seq<char> {
    match side {
        Side::Left => "left_paddle"@,
        Side::Right => "right_paddle"@,
    }
}

impl Side {
    /// The name of the input axis that moves the paddle on this side.
    pub fn axis_name(&self) -> (r: &'static str)
        ensures
            r@ == axis_of(*self),
    {
        match self {
            Side::Left => "left_paddle",
            Side::Right => "right_paddle",
        }
    }
}

impl PaddleSystem {
    /// The input axis this system reads for a paddle on `side`.
    pub fn axis_for(&self, side: Side) -> (r: &'static str)
        ensures
            r@ == axis_of(side),
    {
        side.axis_name()
    }
}

} // verus!
