use vstd::prelude::*;
use crate::bits::{bit_vec_bits, WaterBits};

verus! {

/// The per-tile water bitmasks for a full rectangular tile grid.
///
/// Tile `(tx, ty)` owns the mask at index `tx + ty * tiles_x`; inside a
/// mask, pixel `(x, y)` owns bit `x + y * tile_width`.
pub struct WatermaskTable {
    pub tiles_x: u32,
    pub tiles_y: u32,
    pub tile_width: u32,
    pub tile_height: u32,
    pub masks: Vec<WaterBits>,
}

/// The abstract content of a watermask table.
pub ghost struct TableModel {
    pub tiles_x: int,
    pub tiles_y: int,
    pub tile_width: int,
    pub tile_height: int,
    pub masks: Seq<Seq<bool>>,
}

impl WatermaskTable {
    /// The mask bits of the tile at flat index `i`.
    pub open spec fn mask_bits(&self, i: int) -> Seq<bool> {
        bit_vec_bits(self.masks@[i])
    }

    /// One mask per grid tile, each covering the full tile pixel grid.
    pub open spec fn well_formed(&self) -> bool {
        &&& self.masks@.len() == self.tiles_x * self.tiles_y
        &&& self.tiles_x * self.tiles_y <= usize::MAX
        &&& self.tile_width * self.tile_height <= usize::MAX
        &&& forall|i: int|
            0 <= i < self.masks@.len() ==> (#[trigger] bit_vec_bits(self.masks@[i])).len()
                == self.tile_width * self.tile_height
    }

    /// The table's abstract content.
    pub open spec fn model(&self) -> TableModel {
        TableModel {
            tiles_x: self.tiles_x as int,
            tiles_y: self.tiles_y as int,
            tile_width: self.tile_width as int,
            tile_height: self.tile_height as int,
            masks: Seq::new(self.masks@.len(), |i: int| bit_vec_bits(self.masks@[i])),
        }
    }

    /// Reads the water bit of pixel `(x, y)` in tile `(tx, ty)`.
    pub fn get_bit(&self, tx: u32, ty: u32, x: u32, y: u32) -> (r: bool)
        requires
            self.well_formed(),
            tx < self.tiles_x,
            ty < self.tiles_y,
            x < self.tile_width,
            y < self.tile_height,
        ensures
            r == self.mask_bits(tx + ty * self.tiles_x)[x + y * self.tile_width],
    {
        proof {
            crate::raster::lemma_row_major_bound(
                tx as int,
                ty as int,
                self.tiles_x as int,
                self.tiles_y as int,
            );
            crate::raster::lemma_row_major_bound(
                x as int,
                y as int,
                self.tile_width as int,
                self.tile_height as int,
            );
        }
        let mask = &self.masks[(tx as usize) + (ty as usize) * (self.tiles_x as usize)];
        mask.get((x as usize) + (y as usize) * (self.tile_width as usize))
    }
}

} // verus!
