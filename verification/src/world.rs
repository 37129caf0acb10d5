//! World bounds: the wrap-around torus the agents move on.

use vstd::prelude::*;
use crate::vec2::{COORD_LIMIT, SCALE};

verus! {

/// Width and height of the wrap-around world, in subunits.  An agent
/// leaving the world past half an extent reappears at the opposite edge.
#[derive(Clone, Copy, PartialEq, Eq, Structural, Debug)]
pub struct BoidWorld {
    pub width: i64,
    pub height: i64,
}

impl BoidWorld {
    /// Extents are non-negative and small enough that every wrapped
    /// coordinate stays in the simulation's coordinate range.
    pub open spec fn wf(self) -> bool {
        &&& 0 <= self.width <= 2 * COORD_LIMIT
        &&& 0 <= self.height <= 2 * COORD_LIMIT
    }

    /// Half the world width, the wrap threshold on the x axis.
    pub open spec fn spec_half_width(self) -> int {
        self.width as int / 2
    }

    /// Half the world height, the wrap threshold on the y axis.
    pub open spec fn spec_half_height(self) -> int {
        self.height as int / 2
    }

    /// Half the world width, computed.
    pub fn half_width(&self) -> (r: i64)
        requires
            self.width >= 0,
        ensures
            r == self.spec_half_width(),
    {
        ((self.width as u64) / 2) as i64
    }

    /// Half the world height, computed.
    pub fn half_height(&self) -> (r: i64)
        requires
            self.height >= 0,
        ensures
            r == self.spec_half_height(),
    {
        ((self.height as u64) / 2) as i64
    }
}

impl Default for BoidWorld {
    /// A square world a thousand units on each side.
    fn default() -> (r: Self)
        ensures
            r.wf(),
            r.width == 1000 * SCALE,
            r.height == 1000 * SCALE,
    {
        BoidWorld { width: 1000 * SCALE, height: 1000 * SCALE }
    }
}

} // verus!
