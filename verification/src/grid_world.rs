use crate::Color;
use vstd::prelude::*;

verus! {

// Integer-side pieces of the discretized toroidal grid world: directions,
// their unit displacement vectors, and wrap-around index arithmetic.  The
// probability arithmetic of the histogram localizer lives outside the
// library, next to the rest of the floating-point collaborators.

/// A sensor that reports the colour of the cell the robot stands on.
pub trait ColorSensor {
    fn sense(&self) -> Color;
}

/// A displacement on the grid.
#[derive(Clone, Copy, Debug, PartialEq, Eq, Structural)]
pub struct Vec2D {
    pub x: i64,
    pub y: i64,
}

/// A single-cell move on the grid.
#[derive(Clone, Copy, Debug, PartialEq, Eq, Structural)]
pub enum Direction {
    Up,
    Down,
    Left,
    Right,
}

/// The unit displacement of a direction.
pub open spec fn direction_delta(dir: Direction) -> (int, int) {
    match dir {
        Direction::Up => (0, 1),
        Direction::Down => (0, -1),
        Direction::Left => (-1, 0),
        Direction::Right => (1, 0),
    }
}

impl From<Direction> for Vec2D {
    fn from(dir: Direction) -> (r: Vec2D) {
        match dir {
            Direction::Up => Vec2D { x: 0, y: 1 },
            Direction::Down => Vec2D { x: 0, y: -1 },
            Direction::Left => Vec2D { x: -1, y: 0 },
            Direction::Right => Vec2D { x: 1, y: 0 },
        }
    }
}

impl vstd::std_specs::convert::FromSpecImpl<Direction> for Vec2D {
    open spec fn obeys_from_spec() -> bool {
        true
    }

    open spec fn from_spec(dir: Direction) -> Vec2D {
        Vec2D { x: direction_delta(dir).0 as i64, y: direction_delta(dir).1 as i64 }
    }
}

/// Move a grid index one step along a toroidal axis of length `len`:
/// the result is `(x + dx)` wrapped into `0 .. len`.
pub fn torus_step(x: usize, dx: i64, len: usize) -> (r: usize)
    requires
        len > 0,
        x < len,
        -1 <= dx <= 1,
    ensures
        r < len,
        r as int == (x + dx) % (len as int),
{
    if dx == 1 {
        if x + 1 == len {
            proof {
                assert((x + dx) % (len as int) == 0) by (nonlinear_arith)
                    requires
                        dx == 1,
                        x + 1 == len,
                        len >= 1,
                ;
            }
            0
        } else {
            proof {
                assert((x + dx) % (len as int) == x + 1) by (nonlinear_arith)
                    requires
                        dx == 1,
                        0 <= x,
                        x + 1 < len,
                ;
            }
            x + 1
        }
    } else if dx == -1 {
        if x == 0 {
            proof {
                assert((x + dx) % (len as int) == len - 1) by (nonlinear_arith)
                    requires
                        x == 0,
                        dx == -1,
                        len >= 1,
                ;
            }
            len - 1
        } else {
            proof {
                assert((x + dx) % (len as int) == x - 1) by (nonlinear_arith)
                    requires
                        dx == -1,
                        1 <= x < len,
                ;
            }
            x - 1
        }
    } else {
        proof {
            assert((x + dx) % (len as int) == x) by (nonlinear_arith)
                requires
                    dx == 0,
                    0 <= x < len,
            ;
        }
        x
    }
}

} // verus!
