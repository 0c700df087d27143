//! The controller state a controlled-agent entity carries: the force the
//! front-end asks for this tick, and whether it asked to drop a voxel body.

use vstd::prelude::*;
use crate::geometry::Vec3;

verus! {

pub const MASS: i64 = 100;

pub const RADIUS: i64 = 200;

pub const CONTROL_FORCE: i64 = 1000;

/// Inputs are written between ticks by the front-end and read once, at the
/// start of the tick; the core never mutates them itself.
#[derive(Clone, Copy, PartialEq, Eq, Structural, Debug)]
pub struct Player {
    pub control_forces: Vec3,
    pub drop_block: bool,
    pub drop_block_fixed: bool,
}

impl Player {
    pub fn new() -> (r: Player)
        ensures
            r.control_forces == (Vec3 { x: 0i64, y: 0i64, z: 0i64 }),
            !r.drop_block,
            !r.drop_block_fixed,
    {
        Player {
            control_forces: Vec3 { x: 0, y: 0, z: 0 },
            drop_block: false,
            drop_block_fixed: false,
        }
    }
}

} // verus!
