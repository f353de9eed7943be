use vstd::prelude::*;
use crate::bits::{bit_vec_bits, WaterBits};
use crate::height::{Height, Pixel};

verus! {

/// The abstract content of a world map.
pub ghost struct MapModel {
    pub width: int,
    pub height: int,
    pub heights: Seq<int>,
    pub water: Seq<bool>,
}

/// The final composited global heightmap plus watermask artifact.
///
/// Both buffers hold exactly `width * height` entries, addressed row by
/// row: the sample for `(x, y)` sits at index `x + y * width`.
pub struct WorldMap {
    pub width: usize,
    pub height: usize,
    pub height_map: Vec<Height>,
    pub is_water: WaterBits,
}

impl WorldMap {
    /// The elevation samples, as plain integers in row-major order.
    pub open spec fn heights(self) -> Seq<int> {
        self.height_map@.map_values(|h: Height| h.0 as int)
    }

    /// The water flags, in row-major order.
    pub open spec fn water(self) -> Seq<bool> {
        bit_vec_bits(self.is_water)
    }

    /// Both buffers cover the full `width * height` grid.
    pub open spec fn well_formed(self) -> bool {
        &&& self.width * self.height <= usize::MAX
        &&& self.height_map@.len() == self.width * self.height
        &&& bit_vec_bits(self.is_water).len() == self.width * self.height
    }

    /// The map's abstract content.
    pub open spec fn model(self) -> MapModel {
        MapModel {
            width: self.width as int,
            height: self.height as int,
            heights: self.heights(),
            water: self.water(),
        }
    }

    /// Reads the pixel at `(x, y)`; coordinates beyond the grid are
    /// clamped to the last valid column and row rather than failing.
    pub fn get(&self, x: u32, y: u32) -> (p: Pixel)
        requires
            self.well_formed(),
            self.width > 0,
            self.height > 0,
        ensures
            ({
                let cx = if x < self.width { x as int } else { self.width - 1 };
                let cy = if y < self.height { y as int } else { self.height - 1 };
                let idx = cx + cy * self.width;
                p.height.0 == self.heights()[idx] && p.is_water == self.water()[idx]
            }),
    {
        let x = usize_min(x as usize, self.width - 1);
        let y = usize_min(y as usize, self.height - 1);

        proof {
            let idx = x + y * self.width;
            assert(idx < self.width * self.height) by (nonlinear_arith)
                requires
                    x < self.width,
                    y < self.height,
                    self.width > 0,
                    idx == x + y * self.width,
            ;
        }

        Pixel {
            height: self.height_map[x + y * self.width],
            is_water: self.is_water.get(x + y * self.width),
        }
    }
}

/// The smaller of two machine-sized integers.
pub fn usize_min(a: usize, b: usize) -> (r: usize)
    ensures
        r == if a < b { a as int } else { b as int },
{
    if a < b {
        a
    } else {
        b
    }
}

} // verus!
