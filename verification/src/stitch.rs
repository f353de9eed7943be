use vstd::prelude::*;
use crate::bits::{bit_vec_bits, WaterBits};
use crate::height::Height;
use crate::raster::Raster;
use crate::watermask::WatermaskTable;
use crate::world::WorldMap;

verus! {

/// Some entry of the tile list names the tile `(tx, ty)`.
pub open spec fn covers(tiles: Seq<((u32, u32), Raster)>, tx: int, ty: int) -> bool {
    exists|k: int| 0 <= k < tiles.len() && (#[trigger] tiles[k]).0.0 == tx && tiles[k].0.1 == ty
}

/// The flat output index a tile's local pixel lands on: the tile at
/// `(tx, ty)` owns the rectangle whose top-left corner is
/// `(tx * w, ty * h)` in a map `bw` pixels wide.
pub open spec fn global_index(tx: int, ty: int, w: int, h: int, bw: int, x: int, y: int) -> int {
    (tx * w + x) + (ty * h + y) * bw
}

/// The output buffers hold, at the index entry `(tx, ty)`'s local pixel
/// `(x, y)` lands on, that entry's sample and that tile's water bit.
pub open spec fn entry_stitched(
    entry: ((u32, u32), Raster),
    w: int,
    h: int,
    tiles_x: int,
    bw: int,
    table: WatermaskTable,
    hm: Seq<Height>,
    wb: Seq<bool>,
    x: int,
    y: int,
) -> bool {
    &&& hm[global_index(entry.0.0 as int, entry.0.1 as int, w, h, bw, x, y)].0 == entry.1.values()[
        x + y * w]
    &&& wb[global_index(entry.0.0 as int, entry.0.1 as int, w, h, bw, x, y)] == table.mask_bits(
        entry.0.0 + entry.0.1 * tiles_x,
    )[x + y * w]
}

/// A global pixel of the stitched map belongs to exactly one tile and
/// one local pixel: the decomposition by division and remainder is the
/// only one.
pub proof fn lemma_pixel_source_unique(gx: int, gy: int, w: int, h: int, tiles_x: int, tiles_y: int)
    requires
        0 < w,
        0 < h,
        0 <= gx < tiles_x * w,
        0 <= gy < tiles_y * h,
    ensures
        0 <= gx / w < tiles_x && 0 <= gx % w < w && gx == (gx / w) * w + gx % w,
        0 <= gy / h < tiles_y && 0 <= gy % h < h && gy == (gy / h) * h + gy % h,
        forall|tx: int, x: int|
            0 <= x < w && #[trigger] (tx * w + x) == gx ==> tx == gx / w && x == gx % w,
        forall|ty: int, y: int|
            0 <= y < h && #[trigger] (ty * h + y) == gy ==> ty == gy / h && y == gy % h,
{
    crate::raster::lemma_index_decompose(gx, w, tiles_x);
    crate::raster::lemma_index_decompose(gy, h, tiles_y);
    assert forall|tx: int, x: int| 0 <= x < w && #[trigger] (tx * w + x) == gx implies tx == gx / w
        && x == gx % w by {
        vstd::arithmetic::div_mod::lemma_fundamental_div_mod_converse(gx, w, tx, x);
    }
    assert forall|ty: int, y: int| 0 <= y < h && #[trigger] (ty * h + y) == gy implies ty == gy / h
        && y == gy % h by {
        vstd::arithmetic::div_mod::lemma_fundamental_div_mod_converse(gy, h, ty, y);
    }
}

/// Two distinct (tile, local-pixel) sources land on distinct output
/// indices: tiles write disjoint regions.
proof fn lemma_sources_disjoint(
    tx1: int,
    ty1: int,
    x1: int,
    y1: int,
    tx2: int,
    ty2: int,
    x2: int,
    y2: int,
    w: int,
    h: int,
    tiles_x: int,
    tiles_y: int,
)
    requires
        0 < w,
        0 < h,
        0 <= tx1 < tiles_x && 0 <= tx2 < tiles_x,
        0 <= ty1 < tiles_y && 0 <= ty2 < tiles_y,
        0 <= x1 < w && 0 <= x2 < w,
        0 <= y1 < h && 0 <= y2 < h,
        (tx1, ty1, x1, y1) != (tx2, ty2, x2, y2),
    ensures
        global_index(tx1, ty1, w, h, tiles_x * w, x1, y1) != global_index(
            tx2,
            ty2,
            w,
            h,
            tiles_x * w,
            x2,
            y2,
        ),
{
    let gx1 = tx1 * w + x1;
    let gy1 = ty1 * h + y1;
    let gx2 = tx2 * w + x2;
    let gy2 = ty2 * h + y2;
    let bw = tiles_x * w;
    assert(0 <= gx1 < bw && 0 <= gx2 < bw) by (nonlinear_arith)
        requires
            0 < w,
            0 <= tx1 < tiles_x,
            0 <= tx2 < tiles_x,
            0 <= x1 < w,
            0 <= x2 < w,
            bw == tiles_x * w,
            gx1 == tx1 * w + x1,
            gx2 == tx2 * w + x2,
    ;
    assert(0 <= gy1 && 0 <= gy2) by (nonlinear_arith)
        requires
            0 < h,
            0 <= ty1,
            0 <= ty2,
            0 <= y1,
            0 <= y2,
            gy1 == ty1 * h + y1,
            gy2 == ty2 * h + y2,
    ;
    if gx1 == gx2 && gy1 == gy2 {
        vstd::arithmetic::div_mod::lemma_fundamental_div_mod_converse(gx1, w, tx1, x1);
        vstd::arithmetic::div_mod::lemma_fundamental_div_mod_converse(gx2, w, tx2, x2);
        vstd::arithmetic::div_mod::lemma_fundamental_div_mod_converse(gy1, h, ty1, y1);
        vstd::arithmetic::div_mod::lemma_fundamental_div_mod_converse(gy2, h, ty2, y2);
        assert(false);
    } else {
        crate::filter::lemma_cell_ne(gx1, gy1, gx2, gy2, bw);
    }
}

/// A tile's local pixel lands inside the stitched map's buffers.
proof fn lemma_target_in_range(
    tx: int,
    ty: int,
    x: int,
    y: int,
    w: int,
    h: int,
    tiles_x: int,
    tiles_y: int,
)
    by (nonlinear_arith)
    requires
        0 < w,
        0 < h,
        0 <= tx < tiles_x,
        0 <= ty < tiles_y,
        0 <= x < w,
        0 <= y < h,
    ensures
        0 <= tx * w + x < tiles_x * w,
        0 <= ty * h + y < tiles_y * h,
        0 <= global_index(tx, ty, w, h, tiles_x * w, x, y) < (tiles_x * w) * (tiles_y * h),
{
}

/// Composites one raster and one watermask per grid tile into a single
/// world map. Every raster must share the table's tile dimensions, and
/// the entries must name each grid tile exactly once.
pub fn combine(heightmaps: Vec<((u32, u32), Raster)>, water: &WatermaskTable) -> (r: WorldMap)
    requires
        water.well_formed(),
        water.tiles_x >= 1,
        water.tiles_y >= 1,
        water.tile_width >= 1,
        water.tile_height >= 1,
        water.tiles_x * water.tile_width * (water.tiles_y * water.tile_height) <= usize::MAX,
        forall|k: int|
            0 <= k < heightmaps@.len() ==> {
                let entry = #[trigger] heightmaps@[k];
                &&& entry.1.well_formed()
                &&& entry.1.width == water.tile_width
                &&& entry.1.height == water.tile_height
                &&& entry.0.0 < water.tiles_x
                &&& entry.0.1 < water.tiles_y
            },
        forall|k1: int, k2: int|
            0 <= k1 < k2 < heightmaps@.len() ==> (#[trigger] heightmaps@[k1]).0 != (
            #[trigger] heightmaps@[k2]).0,
        forall|tx: int, ty: int|
            0 <= tx < water.tiles_x && 0 <= ty < water.tiles_y ==> #[trigger] covers(
                heightmaps@,
                tx,
                ty,
            ),
    ensures
        r.width == water.tiles_x * water.tile_width,
        r.height == water.tiles_y * water.tile_height,
        r.well_formed(),
        forall|k: int, x: int, y: int|
            0 <= k < heightmaps@.len() && 0 <= x < water.tile_width && 0 <= y < water.tile_height
                ==> #[trigger] entry_stitched(
                heightmaps@[k],
                water.tile_width as int,
                water.tile_height as int,
                water.tiles_x as int,
                water.tiles_x * water.tile_width,
                *water,
                r.height_map@,
                r.water(),
                x,
                y,
            ),
{
    let w = water.tile_width;
    let h = water.tile_height;
    let tiles_x = water.tiles_x;
    let tiles_y = water.tiles_y;
    proof {
        assert((tiles_x as int) * (w as int) >= 1 && (tiles_y as int) * (h as int) >= 1 && (
        tiles_x as int) * (w as int) <= usize::MAX && (tiles_y as int) * (h as int) <= usize::MAX)
            by (nonlinear_arith)
            requires
                tiles_x >= 1,
                tiles_y >= 1,
                w >= 1,
                h >= 1,
                (tiles_x as int) * (w as int) * ((tiles_y as int) * (h as int)) <= usize::MAX,
        ;
    }
    let big_w: usize = (tiles_x as usize) * (w as usize);
    let big_h: usize = (tiles_y as usize) * (h as usize);
    let cap: usize = big_w * big_h;

    let mut height_map: Vec<Height> = Vec::new();
    let mut i: usize = 0;
    while i < cap
        invariant
            i <= cap,
            height_map@.len() == i,
        decreases cap - i,
    {
        height_map.push(Height(0));
        i = i + 1;
    }
    let mut is_water = WaterBits::new_zeroed(cap);

    let ghost bw = big_w as int;
    let ghost wi = w as int;
    let ghost hi = h as int;
    let ghost txsi = tiles_x as int;
    let mut k: usize = 0;
    while k < heightmaps.len()
        invariant
            water.well_formed(),
            w == water.tile_width && h == water.tile_height,
            tiles_x == water.tiles_x && tiles_y == water.tiles_y,
            w >= 1 && h >= 1 && tiles_x >= 1 && tiles_y >= 1,
            big_w == tiles_x * w,
            big_h == tiles_y * h,
            cap == big_w * big_h,
            bw == big_w && wi == w && hi == h && txsi == tiles_x,
            k <= heightmaps@.len(),
            height_map@.len() == cap,
            bit_vec_bits(is_water).len() == cap,
            forall|kk: int|
                0 <= kk < heightmaps@.len() ==> {
                    let entry = #[trigger] heightmaps@[kk];
                    &&& entry.1.well_formed()
                    &&& entry.1.width == w
                    &&& entry.1.height == h
                    &&& entry.0.0 < tiles_x
                    &&& entry.0.1 < tiles_y
                },
            forall|k1: int, k2: int|
                0 <= k1 < k2 < heightmaps@.len() ==> (#[trigger] heightmaps@[k1]).0 != (
                #[trigger] heightmaps@[k2]).0,
            forall|kk: int, x: int, y: int|
                0 <= kk < k && 0 <= x < w && 0 <= y < h ==> #[trigger] entry_stitched(
                    heightmaps@[kk],
                    wi,
                    hi,
                    txsi,
                    bw,
                    *water,
                    height_map@,
                    bit_vec_bits(is_water),
                    x,
                    y,
                ),
        decreases heightmaps@.len() - k,
    {
        let tx = heightmaps[k].0.0;
        let ty = heightmaps[k].0.1;
        let mut y: u32 = 0;
        while y < h
            invariant
                water.well_formed(),
                w == water.tile_width && h == water.tile_height,
                tiles_x == water.tiles_x && tiles_y == water.tiles_y,
                w >= 1 && h >= 1 && tiles_x >= 1 && tiles_y >= 1,
                big_w == tiles_x * w,
                big_h == tiles_y * h,
                cap == big_w * big_h,
                bw == big_w && wi == w && hi == h && txsi == tiles_x,
                k < heightmaps@.len(),
                tx == heightmaps@[k as int].0.0,
                ty == heightmaps@[k as int].0.1,
                y <= h,
                height_map@.len() == cap,
                bit_vec_bits(is_water).len() == cap,
                forall|kk: int|
                    0 <= kk < heightmaps@.len() ==> {
                        let entry = #[trigger] heightmaps@[kk];
                        &&& entry.1.well_formed()
                        &&& entry.1.width == w
                        &&& entry.1.height == h
                        &&& entry.0.0 < tiles_x
                        &&& entry.0.1 < tiles_y
                    },
                forall|k1: int, k2: int|
                    0 <= k1 < k2 < heightmaps@.len() ==> (#[trigger] heightmaps@[k1]).0 != (
                    #[trigger] heightmaps@[k2]).0,
                forall|kk: int, x2: int, y2: int|
                    0 <= kk < k && 0 <= x2 < w && 0 <= y2 < h ==> #[trigger] entry_stitched(
                        heightmaps@[kk],
                        wi,
                        hi,
                        txsi,
                        bw,
                        *water,
                        height_map@,
                        bit_vec_bits(is_water),
                        x2,
                        y2,
                    ),
                forall|x2: int, y2: int|
                    0 <= x2 < w && 0 <= y2 < y ==> #[trigger] entry_stitched(
                        heightmaps@[k as int],
                        wi,
                        hi,
                        txsi,
                        bw,
                        *water,
                        height_map@,
                        bit_vec_bits(is_water),
                        x2,
                        y2,
                    ),
            decreases h - y,
        {
            let mut x: u32 = 0;
            while x < w
                invariant
                    water.well_formed(),
                    w == water.tile_width && h == water.tile_height,
                    tiles_x == water.tiles_x && tiles_y == water.tiles_y,
                    w >= 1 && h >= 1 && tiles_x >= 1 && tiles_y >= 1,
                    big_w == tiles_x * w,
                    big_h == tiles_y * h,
                    cap == big_w * big_h,
                    bw == big_w && wi == w && hi == h && txsi == tiles_x,
                    k < heightmaps@.len(),
                    tx == heightmaps@[k as int].0.0,
                    ty == heightmaps@[k as int].0.1,
                    y < h,
                    x <= w,
                    height_map@.len() == cap,
                    bit_vec_bits(is_water).len() == cap,
                    forall|kk: int|
                        0 <= kk < heightmaps@.len() ==> {
                            let entry = #[trigger] heightmaps@[kk];
                            &&& entry.1.well_formed()
                            &&& entry.1.width == w
                            &&& entry.1.height == h
                            &&& entry.0.0 < tiles_x
                            &&& entry.0.1 < tiles_y
                        },
                    forall|k1: int, k2: int|
                        0 <= k1 < k2 < heightmaps@.len() ==> (#[trigger] heightmaps@[k1]).0 != (
                        #[trigger] heightmaps@[k2]).0,
                    forall|kk: int, x2: int, y2: int|
                        0 <= kk < k && 0 <= x2 < w && 0 <= y2 < h ==> #[trigger] entry_stitched(
                            heightmaps@[kk],
                            wi,
                            hi,
                            txsi,
                            bw,
                            *water,
                            height_map@,
                            bit_vec_bits(is_water),
                            x2,
                            y2,
                        ),
                    forall|x2: int, y2: int|
                        0 <= x2 < w && 0 <= y2 < y ==> #[trigger] entry_stitched(
                            heightmaps@[k as int],
                            wi,
                            hi,
                            txsi,
                            bw,
                            *water,
                            height_map@,
                            bit_vec_bits(is_water),
                            x2,
                            y2,
                        ),
                    forall|x2: int|
                        0 <= x2 < x ==> #[trigger] entry_stitched(
                            heightmaps@[k as int],
                            wi,
                            hi,
                            txsi,
                            bw,
                            *water,
                            height_map@,
                            bit_vec_bits(is_water),
                            x2,
                            y as int,
                        ),
                decreases w - x,
            {
                proof {
                    lemma_target_in_range(
                        tx as int,
                        ty as int,
                        x as int,
                        y as int,
                        wi,
                        hi,
                        tiles_x as int,
                        tiles_y as int,
                    );
                }
                let raster = &heightmaps[k].1;
                let v = raster.get(x, y);
                let gx: usize = (tx as usize) * (w as usize) + (x as usize);
                let gy: usize = (ty as usize) * (h as usize) + (y as usize);
                let idx: usize = gx + gy * big_w;
                let ghost hm_before = height_map@;
                let ghost wb_before = bit_vec_bits(is_water);
                height_map.set(idx, Height(v as i16));
                let water_bit = water.get_bit(tx, ty, x, y);
                is_water.set(idx, water_bit);
                proof {
                    let xi = x as int;
                    let yi = y as int;
                    let txi = tx as int;
                    let tyi = ty as int;
                    let tysi = tiles_y as int;
                    assert(idx == global_index(txi, tyi, wi, hi, bw, xi, yi));
                    assert(entry_stitched(
                        heightmaps@[k as int],
                        wi,
                        hi,
                        txsi,
                        bw,
                        *water,
                        height_map@,
                        bit_vec_bits(is_water),
                        xi,
                        yi,
                    ));
                    assert forall|kk: int, x2: int, y2: int|
                        0 <= kk < k && 0 <= x2 < w && 0 <= y2 < h implies #[trigger] entry_stitched(
                        heightmaps@[kk],
                        wi,
                        hi,
                        txsi,
                        bw,
                        *water,
                        height_map@,
                        bit_vec_bits(is_water),
                        x2,
                        y2,
                    ) by {
                        let entry = heightmaps@[kk];
                        assert(entry_stitched(
                            entry,
                            wi,
                            hi,
                            txsi,
                            bw,
                            *water,
                            hm_before,
                            wb_before,
                            x2,
                            y2,
                        ));
                        assert(entry.0 != heightmaps@[k as int].0);
                        lemma_sources_disjoint(
                            entry.0.0 as int,
                            entry.0.1 as int,
                            x2,
                            y2,
                            txi,
                            tyi,
                            xi,
                            yi,
                            wi,
                            hi,
                            txsi,
                            tysi,
                        );
                        lemma_target_in_range(
                            entry.0.0 as int,
                            entry.0.1 as int,
                            x2,
                            y2,
                            wi,
                            hi,
                            txsi,
                            tysi,
                        );
                        let idx2 = global_index(entry.0.0 as int, entry.0.1 as int, wi, hi, bw, x2, y2);
                        assert(height_map@[idx2] == hm_before[idx2]);
                        assert(bit_vec_bits(is_water)[idx2] == wb_before[idx2]);
                    }
                    assert forall|x2: int, y2: int|
                        0 <= x2 < w && (0 <= y2 < y || (y2 == yi && 0 <= x2 < x + 1)) implies
                        #[trigger] entry_stitched(
                        heightmaps@[k as int],
                        wi,
                        hi,
                        txsi,
                        bw,
                        *water,
                        height_map@,
                        bit_vec_bits(is_water),
                        x2,
                        y2,
                    ) by {
                        if x2 == xi && y2 == yi {
                        } else {
                            assert(entry_stitched(
                                heightmaps@[k as int],
                                wi,
                                hi,
                                txsi,
                                bw,
                                *water,
                                hm_before,
                                wb_before,
                                x2,
                                y2,
                            ));
                            lemma_sources_disjoint(
                                txi,
                                tyi,
                                x2,
                                y2,
                                txi,
                                tyi,
                                xi,
                                yi,
                                wi,
                                hi,
                                txsi,
                                tysi,
                            );
                            lemma_target_in_range(txi, tyi, x2, y2, wi, hi, txsi, tysi);
                            let idx2 = global_index(txi, tyi, wi, hi, bw, x2, y2);
                            assert(height_map@[idx2] == hm_before[idx2]);
                            assert(bit_vec_bits(is_water)[idx2] == wb_before[idx2]);
                        }
                    }
                }
                x = x + 1;
            }
            y = y + 1;
        }
        k = k + 1;
        proof {
            assert forall|x2: int, y2: int|
                0 <= x2 < w && 0 <= y2 < h implies #[trigger] entry_stitched(
                heightmaps@[k - 1],
                wi,
                hi,
                txsi,
                bw,
                *water,
                height_map@,
                bit_vec_bits(is_water),
                x2,
                y2,
            ) by {
                assert(entry_stitched(
                    heightmaps@[k as int - 1],
                    wi,
                    hi,
                    txsi,
                    bw,
                    *water,
                    height_map@,
                    bit_vec_bits(is_water),
                    x2,
                    y2,
                ));
            }
        }
    }

    let r = WorldMap { width: big_w, height: big_h, height_map, is_water };
    proof {
        assert forall|kq: int, x: int, y: int|
            0 <= kq < heightmaps@.len() && 0 <= x < water.tile_width && 0 <= y
                < water.tile_height implies #[trigger] entry_stitched(
            heightmaps@[kq],
            water.tile_width as int,
            water.tile_height as int,
            water.tiles_x as int,
            water.tiles_x * water.tile_width,
            *water,
            r.height_map@,
            r.water(),
            x,
            y,
        ) by {
            assert(entry_stitched(
                heightmaps@[kq],
                wi,
                hi,
                txsi,
                bw,
                *water,
                height_map@,
                bit_vec_bits(is_water),
                x,
                y,
            ));
        }
    }
    r
}

} // verus!
