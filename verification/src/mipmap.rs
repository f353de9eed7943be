use vstd::prelude::*;
use crate::height::Height;
use crate::world::WorldMap;

verus! {

/// A half-resolution elevation grid derived from a larger one.
pub struct HeightmapMipMap {
    pub width: usize,
    pub height: usize,
    pub height_map: Vec<Height>,
}

/// The elevations of a mip level, as plain integers in row-major order.
pub open spec fn heights_of(m: HeightmapMipMap) -> Seq<int> {
    m.height_map@.map_values(|h: Height| h.0 as int)
}

impl HeightmapMipMap {
    pub open spec fn well_formed(&self) -> bool {
        &&& self.height_map@.len() == self.width * self.height
        &&& self.width * self.height <= usize::MAX
    }

    /// Reads the elevation at `(x, y)`.
    pub fn get(&self, x: u32, y: u32) -> (r: Height)
        requires
            x + y * self.width < self.height_map@.len(),
        ensures
            r == self.height_map@[x + y * self.width],
    {
        proof {
            vstd::std_specs::vec::axiom_spec_len(&self.height_map);
        }
        self.height_map[(x as usize) + (y as usize) * self.width]
    }
}

/// Integer division by four that rounds towards zero, as `/` does on
/// machine integers.
pub open spec fn div4_towards_zero(v: int) -> int {
    if v >= 0 {
        v / 4
    } else {
        -((-v) / 4)
    }
}

/// The downsampled value at `(x, z)` of a mip level: the average of the
/// two-by-two block it covers in the source grid, rounded towards zero.
pub open spec fn mip_value(orig: Seq<int>, w: int, x: int, z: int) -> int {
    div4_towards_zero(
        orig[2 * x + (2 * z) * w] + orig[(2 * x + 1) + (2 * z) * w] + orig[2 * x + (2 * z + 1) * w]
            + orig[(2 * x + 1) + (2 * z + 1) * w],
    )
}

/// The full downsampled grid of a `w` by `h` source grid.
pub open spec fn mip_grid(orig: Seq<int>, w: int, h: int) -> Seq<int> {
    Seq::new(((w / 2) * (h / 2)) as nat, |i: int| mip_value(orig, w, i % (w / 2), i / (w / 2)))
}

/// Reads the elevation at `(x, y)` of a source grid, widened.
pub fn sample(coords: (usize, usize), width: usize, map: &[Height]) -> (r: i64)
    requires
        coords.0 + coords.1 * width < map@.len(),
    ensures
        r == map@[coords.0 + coords.1 * width].0,
        -32768 <= r <= 32767,
{
    let (x, y) = coords;
    proof {
        vstd::slice::axiom_spec_len(map);
    }
    map[x + y * width].0 as i64
}

/// Downsamples one grid to half its width and height; each target cell
/// is the truncated average of the two-by-two source block it covers.
pub fn generate_mipmap(dims: (usize, usize), orig_map: &[Height]) -> (r: HeightmapMipMap)
    requires
        orig_map@.len() == dims.0 * dims.1,
    ensures
        r.width == dims.0 / 2,
        r.height == dims.1 / 2,
        r.well_formed(),
        heights_of(r) == mip_grid(
            orig_map@.map_values(|h: Height| h.0 as int),
            dims.0 as int,
            dims.1 as int,
        ),
{
    let (orig_width, orig_height) = dims;
    let target_width = orig_width / 2;
    let target_height = orig_height / 2;
    let ghost orig = orig_map@.map_values(|h: Height| h.0 as int);
    let mut mipmap: Vec<Height> = Vec::new();

    proof {
        vstd::slice::axiom_spec_len(orig_map);
        assert((target_width as int) * (target_height as int) <= (orig_width as int) * (
        orig_height as int)) by (nonlinear_arith)
            requires
                target_width <= orig_width,
                target_height <= orig_height,
                orig_width >= 0,
                orig_height >= 0,
                target_width >= 0,
                target_height >= 0,
        ;
    }

    let mut target_z: usize = 0;
    while target_z < target_height
        invariant
            target_width == orig_width / 2,
            target_height == orig_height / 2,
            orig_map@.len() == orig_width * orig_height,
            orig_width * orig_height <= usize::MAX,
            orig == orig_map@.map_values(|h: Height| h.0 as int),
            target_z <= target_height,
            mipmap@.len() == target_z * target_width,
            forall|j: int|
                0 <= j < mipmap@.len() ==> #[trigger] mipmap@[j].0 == mip_value(
                    orig,
                    orig_width as int,
                    j % (target_width as int),
                    j / (target_width as int),
                ),
        decreases target_height - target_z,
    {
        let mut target_x: usize = 0;
        while target_x < target_width
            invariant
                target_width == orig_width / 2,
                target_height == orig_height / 2,
                orig_map@.len() == orig_width * orig_height,
                orig_width * orig_height <= usize::MAX,
                orig == orig_map@.map_values(|h: Height| h.0 as int),
                target_z < target_height,
                target_x <= target_width,
                mipmap@.len() == target_z * target_width + target_x,
                forall|j: int|
                    0 <= j < mipmap@.len() ==> #[trigger] mipmap@[j].0 == mip_value(
                        orig,
                        orig_width as int,
                        j % (target_width as int),
                        j / (target_width as int),
                    ),
            decreases target_width - target_x,
        {
            proof {
                assert(2 * target_x + 1 < orig_width && 2 * target_z + 1 < orig_height);
                crate::raster::lemma_row_major_bound(
                    2 * target_x as int + 1,
                    2 * target_z as int + 1,
                    orig_width as int,
                    orig_height as int,
                );
                crate::raster::lemma_row_major_bound(
                    2 * target_x as int,
                    2 * target_z as int + 1,
                    orig_width as int,
                    orig_height as int,
                );
                crate::raster::lemma_row_major_bound(
                    2 * target_x as int + 1,
                    2 * target_z as int,
                    orig_width as int,
                    orig_height as int,
                );
                crate::raster::lemma_row_major_bound(
                    2 * target_x as int,
                    2 * target_z as int,
                    orig_width as int,
                    orig_height as int,
                );
            }
            let orig_x = target_x * 2;
            let orig_z = target_z * 2;
            let height_sum = sample((orig_x, orig_z), orig_width, orig_map) + sample(
                (orig_x + 1, orig_z),
                orig_width,
                orig_map,
            ) + sample((orig_x, orig_z + 1), orig_width, orig_map) + sample(
                (orig_x + 1, orig_z + 1),
                orig_width,
                orig_map,
            );
            let avg = if height_sum >= 0 {
                height_sum / 4
            } else {
                -((-height_sum) / 4)
            };
            mipmap.push(Height(avg as i16));
            target_x = target_x + 1;
            proof {
                let twi = target_width as int;
                let j = (target_z * target_width + target_x - 1) as int;
                crate::raster::lemma_row_major_coords(target_x as int - 1, target_z as int, twi);
                assert(j % twi == target_x - 1 && j / twi == target_z as int);
                assert(mipmap@[j].0 == mip_value(orig, orig_width as int, target_x - 1, target_z as int));
            }
        }
        target_z = target_z + 1;
        proof {
            assert((target_z as int) * (target_width as int) == (target_z - 1) * (
            target_width as int) + target_width) by (nonlinear_arith);
        }
    }

    let r = HeightmapMipMap { width: target_width, height: target_height, height_map: mipmap };
    proof {
        assert((target_width as int) * (target_height as int) == (target_height as int) * (
        target_width as int)) by (nonlinear_arith);
        assert((target_width as int) * (target_height as int) == r.height_map@.len());
        assert(heights_of(r) =~= mip_grid(orig, orig_width as int, orig_height as int));
    }
    r
}

/// Builds `levels` successive mip levels: the first halves the world
/// map, each further level halves the one before it.
pub fn generate_mipmaps(map: &WorldMap, levels: usize) -> (r: Vec<HeightmapMipMap>)
    requires
        map.well_formed(),
        levels > 0,
    ensures
        r@.len() == levels,
        forall|i: int| 0 <= i < levels ==> (#[trigger] r@[i]).well_formed(),
        heights_of(r@[0]) == mip_grid(map.heights(), map.width as int, map.height as int),
        r@[0].width == map.width as int / 2,
        r@[0].height == map.height as int / 2,
        forall|i: int|
            1 <= i < levels ==> heights_of(#[trigger] r@[i]) == mip_grid(
                heights_of(r@[i - 1]),
                r@[i - 1].width as int,
                r@[i - 1].height as int,
            ) && r@[i].width == r@[i - 1].width as int / 2 && r@[i].height == r@[i - 1].height as int
                / 2,
{
    let mut mipmaps: Vec<HeightmapMipMap> = Vec::new();
    let first = generate_mipmap((map.width, map.height), map.height_map.as_slice());
    mipmaps.push(first);

    let mut done: usize = 1;
    while done < levels
        invariant
            1 <= done <= levels,
            mipmaps@.len() == done,
            forall|i: int| 0 <= i < done ==> (#[trigger] mipmaps@[i]).well_formed(),
            heights_of(mipmaps@[0]) == mip_grid(
                map.heights(),
                map.width as int,
                map.height as int,
            ),
            mipmaps@[0].width == map.width as int / 2,
            mipmaps@[0].height == map.height as int / 2,
            forall|i: int|
                1 <= i < done ==> heights_of(#[trigger] mipmaps@[i]) == mip_grid(
                    heights_of(mipmaps@[i - 1]),
                    mipmaps@[i - 1].width as int,
                    mipmaps@[i - 1].height as int,
                ) && mipmaps@[i].width == mipmaps@[i - 1].width as int / 2 && mipmaps@[i].height
                    == mipmaps@[i - 1].height as int / 2,
        decreases levels - done,
    {
        let last = mipmaps.len() - 1;
        let (w, h) = {
            let m = &mipmaps[last];
            (m.width, m.height)
        };
        let next = {
            let m = &mipmaps[last];
            generate_mipmap((w, h), m.height_map.as_slice())
        };
        mipmaps.push(next);
        done = done + 1;
    }
    mipmaps
}

} // verus!
