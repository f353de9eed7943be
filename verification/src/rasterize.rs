use vstd::prelude::*;
use crate::bits::{bit_vec_bits, WaterBits};
use crate::compress::xz_decompressed;
use crate::geometry::{
    is_candidate, lemma_in_ring_in_span, point_in_limit, spec_candidate, spec_rect_intersects,
    Point, Polygon, Rect,
};
use crate::serializer::{deserialize_table, serialize_table, spec_decode_table};
use crate::watermask::{TableModel, WatermaskTable};

verus! {

/// The longitude, in scaled degrees, of global pixel column `gx`: the
/// full tile grid spans 360 degrees, anchored at the known top-left.
pub open spec fn pixel_lon(gx: int) -> int {
    10_000 * gx - 40_000_000
}

/// The latitude, in scaled degrees, of global pixel row `gy`: latitude
/// falls as the row number grows.
pub open spec fn pixel_lat(gy: int) -> int {
    105_000_000 - 10_000 * gy
}

/// Projects a global pixel to scaled lat/long degrees.
pub fn to_lat_long(x: u32, y: u32) -> (p: Point)
    ensures
        p.x == pixel_lon(x as int),
        p.y == pixel_lat(y as int),
        point_in_limit(p),
{
    Point { x: 10_000 * (x as i64) - 40_000_000, y: 105_000_000 - 10_000 * (y as i64) }
}

/// The lat/long rectangle tile `(tx, ty)` covers: its low corner is the
/// bottom-left pixel corner, its high corner the top-right.
pub open spec fn spec_tile_rect(tx: int, ty: int, w: int, h: int) -> Rect {
    Rect {
        min: Point {
            x: pixel_lon(tx * w) as i64,
            y: pixel_lat(ty * h + h) as i64,
        },
        max: Point {
            x: pixel_lon(tx * w + w) as i64,
            y: pixel_lat(ty * h) as i64,
        },
    }
}

/// Whether the rasterizer marks local pixel `(x, y)` of tile `(tx, ty)`
/// as water: some polygon passes the tile's cheap bounding-rectangle
/// test and contains the pixel's projected lat/long point.
pub open spec fn spec_water_at(
    polys: Seq<Polygon>,
    tx: int,
    ty: int,
    w: int,
    h: int,
    x: int,
    y: int,
) -> bool {
    exists|i: int|
        0 <= i < polys.len() && spec_candidate(
            (#[trigger] polys[i]).bounding_rect,
            spec_tile_rect(tx, ty, w, h),
        ) && polys[i].spec_contains(pixel_lon(tx * w + x), pixel_lat(ty * h + y))
}

/// Some entry of the index list equals `v`.
pub open spec fn in_list(l: Seq<usize>, v: int) -> bool {
    exists|q: int| 0 <= q < l.len() && #[trigger] l[q] == v
}

/// Rasterizes the polygon set into one watermask per tile of the grid
/// from `(0, 0)` to `maxes`, each tile `tile_dim` pixels.
pub fn compute_watermasks(
    polygons: &Vec<Polygon>,
    tile_dim: (u32, u32),
    maxes: (u32, u32),
) -> (r: WatermaskTable)
    requires
        forall|i: int| 0 <= i < polygons@.len() ==> (#[trigger] polygons@[i]).well_formed(),
        tile_dim.0 >= 1,
        tile_dim.1 >= 1,
        (maxes.0 + 1) * tile_dim.0 <= u32::MAX,
        (maxes.1 + 1) * tile_dim.1 <= u32::MAX,
        (maxes.0 + 1) * (maxes.1 + 1) <= usize::MAX,
        tile_dim.0 * tile_dim.1 <= usize::MAX,
    ensures
        r.well_formed(),
        r.tiles_x == maxes.0 + 1,
        r.tiles_y == maxes.1 + 1,
        r.tile_width == tile_dim.0,
        r.tile_height == tile_dim.1,
        forall|tx: int, ty: int, x: int, y: int|
            0 <= tx <= maxes.0 && 0 <= ty <= maxes.1 && 0 <= x < tile_dim.0 && 0 <= y < tile_dim.1
                ==> r.mask_bits(tx + ty * (maxes.0 + 1))[x + y * tile_dim.0]
                == #[trigger] spec_water_at(
                polygons@,
                tx,
                ty,
                tile_dim.0 as int,
                tile_dim.1 as int,
                x,
                y,
            ),
{
    let (w, h) = tile_dim;
    let (max_x, max_y) = maxes;
    proof {
        assert(maxes.0 + 1 <= u32::MAX && maxes.1 + 1 <= u32::MAX) by (nonlinear_arith)
            requires
                (maxes.0 + 1) * tile_dim.0 <= u32::MAX,
                (maxes.1 + 1) * tile_dim.1 <= u32::MAX,
                tile_dim.0 >= 1,
                tile_dim.1 >= 1,
        ;
    }
    let tiles_x = max_x + 1;
    let tiles_y = max_y + 1;
    let tsize = (w as usize) * (h as usize);
    let ghost wi = w as int;
    let ghost hi = h as int;
    let ghost txsi = tiles_x as int;

    let mut masks: Vec<WaterBits> = Vec::new();
    let mut ty: u32 = 0;
    while ty < tiles_y
        invariant
            forall|i: int| 0 <= i < polygons@.len() ==> (#[trigger] polygons@[i]).well_formed(),
            w == tile_dim.0 && h == tile_dim.1 && w >= 1 && h >= 1,
            max_x == maxes.0 && max_y == maxes.1,
            tiles_x == max_x + 1 && tiles_y == max_y + 1,
            (tiles_x as int) * wi <= u32::MAX,
            (tiles_y as int) * hi <= u32::MAX,
            (tiles_x as int) * (tiles_y as int) <= usize::MAX,
            tsize == wi * hi,
            tsize <= usize::MAX,
            wi == w && hi == h && txsi == tiles_x,
            ty <= tiles_y,
            masks@.len() == ty * tiles_x,
            forall|p: int|
                0 <= p < masks@.len() ==> (#[trigger] bit_vec_bits(masks@[p])).len() == wi * hi,
            forall|p: int, x2: int, y2: int|
                0 <= p < masks@.len() && 0 <= x2 < w && 0 <= y2 < h ==> bit_vec_bits(
                    masks@[p],
                )[x2 + y2 * wi] == #[trigger] spec_water_at(
                    polygons@,
                    p % txsi,
                    p / txsi,
                    wi,
                    hi,
                    x2,
                    y2,
                ),
        decreases tiles_y - ty,
    {
        let mut tx: u32 = 0;
        while tx < tiles_x
            invariant
                forall|i: int| 0 <= i < polygons@.len() ==> (#[trigger] polygons@[i]).well_formed(),
                w == tile_dim.0 && h == tile_dim.1 && w >= 1 && h >= 1,
                max_x == maxes.0 && max_y == maxes.1,
                tiles_x == max_x + 1 && tiles_y == max_y + 1,
                (tiles_x as int) * wi <= u32::MAX,
                (tiles_y as int) * hi <= u32::MAX,
                (tiles_x as int) * (tiles_y as int) <= usize::MAX,
                tsize == wi * hi,
                tsize <= usize::MAX,
                wi == w && hi == h && txsi == tiles_x,
                ty < tiles_y,
                tx <= tiles_x,
                masks@.len() == ty * tiles_x + tx,
                forall|p: int|
                    0 <= p < masks@.len() ==> (#[trigger] bit_vec_bits(masks@[p])).len() == wi * hi,
                forall|p: int, x2: int, y2: int|
                    0 <= p < masks@.len() && 0 <= x2 < w && 0 <= y2 < h ==> bit_vec_bits(
                        masks@[p],
                    )[x2 + y2 * wi] == #[trigger] spec_water_at(
                        polygons@,
                        p % txsi,
                        p / txsi,
                        wi,
                        hi,
                        x2,
                        y2,
                    ),
            decreases tiles_x - tx,
        {
            proof {
                assert((tx as int) * wi + wi <= (tiles_x as int) * wi && (ty as int) * hi + hi <= (
                tiles_y as int) * hi && 0 <= (tx as int) * wi && 0 <= (ty as int) * hi)
                    by (nonlinear_arith)
                    requires
                        0 <= tx < tiles_x,
                        0 <= ty < tiles_y,
                        wi >= 1,
                        hi >= 1,
                ;
            }
            let tile_min = to_lat_long(tx * w, ty * h + h);
            let tile_max = to_lat_long(tx * w + w, ty * h);
            let tile_rect = Rect { min: tile_min, max: tile_max };
            proof {
                assert(tile_rect == spec_tile_rect(tx as int, ty as int, wi, hi));
            }

            let mut cands: Vec<usize> = Vec::new();
            let mut pi: usize = 0;
            while pi < polygons.len()
                invariant
                    forall|i: int|
                        0 <= i < polygons@.len() ==> (#[trigger] polygons@[i]).well_formed(),
                    pi <= polygons@.len(),
                    tile_rect == spec_tile_rect(tx as int, ty as int, wi, hi),
                    forall|q: int|
                        0 <= q < cands@.len() ==> #[trigger] cands@[q] < polygons@.len()
                            && spec_candidate(polygons@[cands@[q] as int].bounding_rect, tile_rect),
                    forall|i: int|
                        0 <= i < pi && spec_candidate(
                            (#[trigger] polygons@[i]).bounding_rect,
                            tile_rect,
                        ) ==> in_list(cands@, i),
                decreases polygons@.len() - pi,
            {
                let ghost cands_before = cands@;
                if is_candidate(&polygons[pi].bounding_rect, &tile_rect) {
                    cands.push(pi);
                    proof {
                        assert forall|i: int|
                            0 <= i < pi + 1 && spec_candidate(
                                (#[trigger] polygons@[i]).bounding_rect,
                                tile_rect,
                            ) implies in_list(cands@, i) by {
                            if i < pi {
                                let q0 = choose|q: int|
                                    0 <= q < cands_before.len() && #[trigger] cands_before[q] == i;
                                assert(cands@[q0] == i);
                            } else {
                                assert(cands@[cands@.len() - 1] == pi);
                            }
                        }
                    }
                } else {
                    proof {
                        assert forall|i: int|
                            0 <= i < pi + 1 && spec_candidate(
                                (#[trigger] polygons@[i]).bounding_rect,
                                tile_rect,
                            ) implies in_list(cands@, i) by {}
                    }
                }
                pi = pi + 1;
            }

            let mut mask = WaterBits::new_zeroed(tsize);
            let mut y: u32 = 0;
            while y < h
                invariant
                    forall|i: int|
                        0 <= i < polygons@.len() ==> (#[trigger] polygons@[i]).well_formed(),
                    w >= 1 && h >= 1,
                    tiles_x == max_x + 1 && tiles_y == max_y + 1,
                    (tiles_x as int) * wi <= u32::MAX,
                    (tiles_y as int) * hi <= u32::MAX,
                    tsize == wi * hi,
                    wi == w && hi == h && txsi == tiles_x,
                    tx < tiles_x,
                    ty < tiles_y,
                    y <= h,
                    tile_rect == spec_tile_rect(tx as int, ty as int, wi, hi),
                    bit_vec_bits(mask).len() == wi * hi,
                    forall|q: int|
                        0 <= q < cands@.len() ==> #[trigger] cands@[q] < polygons@.len()
                            && spec_candidate(polygons@[cands@[q] as int].bounding_rect, tile_rect),
                    forall|i: int|
                        0 <= i < polygons@.len() && spec_candidate(
                            (#[trigger] polygons@[i]).bounding_rect,
                            tile_rect,
                        ) ==> in_list(cands@, i),
                    forall|x2: int, y2: int|
                        0 <= x2 < w && 0 <= y2 < y ==> bit_vec_bits(mask)[x2 + y2 * wi]
                            == #[trigger] spec_water_at(
                            polygons@,
                            tx as int,
                            ty as int,
                            wi,
                            hi,
                            x2,
                            y2,
                        ),
                decreases h - y,
            {
                let mut x: u32 = 0;
                while x < w
                    invariant
                        forall|i: int|
                            0 <= i < polygons@.len() ==> (#[trigger] polygons@[i]).well_formed(),
                        w >= 1 && h >= 1,
                        tiles_x == max_x + 1 && tiles_y == max_y + 1,
                        (tiles_x as int) * wi <= u32::MAX,
                        (tiles_y as int) * hi <= u32::MAX,
                        tsize == wi * hi,
                        wi == w && hi == h && txsi == tiles_x,
                        tx < tiles_x,
                        ty < tiles_y,
                        y < h,
                        x <= w,
                        tile_rect == spec_tile_rect(tx as int, ty as int, wi, hi),
                        bit_vec_bits(mask).len() == wi * hi,
                        forall|q: int|
                            0 <= q < cands@.len() ==> #[trigger] cands@[q] < polygons@.len()
                                && spec_candidate(
                                polygons@[cands@[q] as int].bounding_rect,
                                tile_rect,
                            ),
                        forall|i: int|
                            0 <= i < polygons@.len() && spec_candidate(
                                (#[trigger] polygons@[i]).bounding_rect,
                                tile_rect,
                            ) ==> in_list(cands@, i),
                        forall|x2: int, y2: int|
                            0 <= x2 < w && 0 <= y2 < y ==> bit_vec_bits(mask)[x2 + y2 * wi]
                                == #[trigger] spec_water_at(
                                polygons@,
                                tx as int,
                                ty as int,
                                wi,
                                hi,
                                x2,
                                y2,
                            ),
                        forall|x2: int|
                            0 <= x2 < x ==> bit_vec_bits(mask)[x2 + (y as int) * wi]
                                == #[trigger] spec_water_at(
                                polygons@,
                                tx as int,
                                ty as int,
                                wi,
                                hi,
                                x2,
                                y as int,
                            ),
                    decreases w - x,
                {
                    proof {
                        assert((tx as int) * wi + x < (tiles_x as int) * wi && (ty as int) * hi + y
                            < (tiles_y as int) * hi && 0 <= (tx as int) * wi && 0 <= (ty as int)
                            * hi) by (nonlinear_arith)
                            requires
                                0 <= tx < tiles_x,
                                0 <= ty < tiles_y,
                                0 <= x < wi,
                                0 <= y < hi,
                                wi >= 1,
                                hi >= 1,
                        ;
                    }
                    let pt = to_lat_long(tx * w + x, ty * h + y);
                    let mut found = false;
                    let mut ci: usize = 0;
                    while ci < cands.len()
                        invariant
                            forall|i: int|
                                0 <= i < polygons@.len() ==> (#[trigger] polygons@[i]).well_formed(),
                            ci <= cands@.len(),
                            point_in_limit(pt),
                            forall|q: int|
                                0 <= q < cands@.len() ==> #[trigger] cands@[q] < polygons@.len()
                                    && spec_candidate(
                                    polygons@[cands@[q] as int].bounding_rect,
                                    tile_rect,
                                ),
                            found == exists|q: int|
                                0 <= q < ci && polygons@[#[trigger] cands@[q] as int].spec_contains(
                                    pt.x as int,
                                    pt.y as int,
                                ),
                        decreases cands@.len() - ci,
                    {
                        let cand = cands[ci];
                        if !found && polygons[cand].contains(pt) {
                            found = true;
                        }
                        ci = ci + 1;
                    }
                    proof {
                        let txi = tx as int;
                        let tyi = ty as int;
                        let xi = x as int;
                        let yi = y as int;
                        assert(pt.x == pixel_lon(txi * wi + xi) && pt.y == pixel_lat(
                            tyi * hi + yi,
                        ));
                        if found {
                            let q0 = choose|q: int|
                                0 <= q < cands@.len() && polygons@[
                                    #[trigger] cands@[q] as int].spec_contains(
                                    pt.x as int,
                                    pt.y as int,
                                );
                            assert(spec_water_at(polygons@, txi, tyi, wi, hi, xi, yi)) by {
                                assert(spec_candidate(
                                    polygons@[cands@[q0] as int].bounding_rect,
                                    spec_tile_rect(txi, tyi, wi, hi),
                                ));
                            }
                        } else {
                            if spec_water_at(polygons@, txi, tyi, wi, hi, xi, yi) {
                                let i0 = choose|i: int|
                                    0 <= i < polygons@.len() && spec_candidate(
                                        (#[trigger] polygons@[i]).bounding_rect,
                                        spec_tile_rect(txi, tyi, wi, hi),
                                    ) && polygons@[i].spec_contains(
                                        pixel_lon(txi * wi + xi),
                                        pixel_lat(tyi * hi + yi),
                                    );
                                assert(in_list(cands@, i0));
                                let q0 = choose|q: int|
                                    0 <= q < cands@.len() && #[trigger] cands@[q] == i0;
                                assert(polygons@[cands@[q0] as int].spec_contains(
                                    pt.x as int,
                                    pt.y as int,
                                ));
                                assert(false);
                            }
                        }
                    }
                    let ghost mask_before = bit_vec_bits(mask);
                    proof {
                        crate::raster::lemma_row_major_bound(x as int, y as int, wi, hi);
                    }
                    mask.set((x as usize) + (y as usize) * (w as usize), found);
                    proof {
                        let xi = x as int;
                        let yi = y as int;
                        assert(bit_vec_bits(mask) == mask_before.update(xi + yi * wi, found));
                        assert forall|x2: int, y2: int|
                            0 <= x2 < w && (0 <= y2 < y || (y2 == yi && 0 <= x2 < xi + 1)) implies
                            bit_vec_bits(mask)[x2 + y2 * wi] == spec_water_at(
                            polygons@,
                            tx as int,
                            ty as int,
                            wi,
                            hi,
                            x2,
                            y2,
                        ) by {
                            if x2 == xi && y2 == yi {
                            } else {
                                crate::filter::lemma_cell_ne(x2, y2, xi, yi, wi);
                                crate::raster::lemma_row_major_bound(x2, y2, wi, hi);
                                assert(bit_vec_bits(mask)[x2 + y2 * wi] == mask_before[x2 + y2
                                    * wi]);
                            }
                        }
                    }
                    x = x + 1;
                }
                y = y + 1;
            }
            masks.push(mask);
            tx = tx + 1;
            proof {
                let p_new = (ty as int) * txsi + (tx as int) - 1;
                crate::raster::lemma_row_major_coords(tx as int - 1, ty as int, txsi);
                assert(p_new % txsi == tx - 1 && p_new / txsi == ty as int);
                assert forall|p: int, x2: int, y2: int|
                    0 <= p < masks@.len() && 0 <= x2 < w && 0 <= y2 < h implies bit_vec_bits(
                    masks@[p],
                )[x2 + y2 * wi] == #[trigger] spec_water_at(
                    polygons@,
                    p % txsi,
                    p / txsi,
                    wi,
                    hi,
                    x2,
                    y2,
                ) by {
                    if p == p_new {
                        assert(masks@[p] == mask);
                    }
                }
            }
        }
        ty = ty + 1;
        proof {
            assert((ty as int) * txsi == (ty - 1) * txsi + txsi) by (nonlinear_arith);
        }
    }

    let r = WatermaskTable {
        tiles_x,
        tiles_y,
        tile_width: w,
        tile_height: h,
        masks,
    };
    proof {
        assert((tiles_x as int) * (tiles_y as int) == (tiles_y as int) * (tiles_x as int))
            by (nonlinear_arith);
        assert forall|tx: int, ty2: int, x: int, y: int|
            0 <= tx <= maxes.0 && 0 <= ty2 <= maxes.1 && 0 <= x < tile_dim.0 && 0 <= y
                < tile_dim.1 implies r.mask_bits(tx + ty2 * (maxes.0 + 1))[x + y * tile_dim.0]
            == #[trigger] spec_water_at(polygons@, tx, ty2, wi, hi, x, y) by {
            crate::raster::lemma_row_major_coords(tx, ty2, txsi);
            crate::raster::lemma_row_major_bound(tx, ty2, txsi, tiles_y as int);
            let p = tx + ty2 * txsi;
            assert(p % txsi == tx && p / txsi == ty2);
            assert(bit_vec_bits(r.masks@[p])[x + y * wi] == spec_water_at(
                polygons@,
                tx,
                ty2,
                wi,
                hi,
                x,
                y,
            ));
        }
    }
    r
}

/// The cheap bounding-rectangle filter drops no containing polygon:
/// for any pixel of the tile itself, the rasterized water bit is set
/// exactly when some polygon of the set contains the pixel's projected
/// point — a point inside a polygon's outer ring and outside its holes
/// rasterizes to water, a point outside every polygon to land.
pub proof fn lemma_water_at_matches_contains(
    polys: Seq<Polygon>,
    tx: int,
    ty: int,
    w: int,
    h: int,
    x: int,
    y: int,
)
    requires
        forall|i: int| 0 <= i < polys.len() ==> (#[trigger] polys[i]).well_formed(),
        0 <= tx,
        0 <= ty,
        1 <= w,
        1 <= h,
        0 <= x < w,
        0 <= y < h,
        (tx + 1) * w <= 0xFFFFFFFF,
        (ty + 1) * h <= 0xFFFFFFFF,
    ensures
        spec_water_at(polys, tx, ty, w, h, x, y) == exists|i: int|
            0 <= i < polys.len() && (#[trigger] polys[i]).spec_contains(
                pixel_lon(tx * w + x),
                pixel_lat(ty * h + y),
            ),
{
    let plon = pixel_lon(tx * w + x);
    let plat = pixel_lat(ty * h + y);
    let tile = spec_tile_rect(tx, ty, w, h);
    assert(0 <= tx * w && tx * w + w <= 0xFFFFFFFF && 0 <= ty * h && ty * h + h <= 0xFFFFFFFF)
        by (nonlinear_arith)
        requires
            0 <= tx,
            0 <= ty,
            1 <= w,
            1 <= h,
            (tx + 1) * w <= 0xFFFFFFFF,
            (ty + 1) * h <= 0xFFFFFFFF,
    ;
    assert(tile.min.x == pixel_lon(tx * w) && tile.max.x == pixel_lon(tx * w + w) && tile.min.y
        == pixel_lat(ty * h + h) && tile.max.y == pixel_lat(ty * h));
    if spec_water_at(polys, tx, ty, w, h, x, y) {
        let i0 = choose|i: int|
            0 <= i < polys.len() && spec_candidate(
                (#[trigger] polys[i]).bounding_rect,
                spec_tile_rect(tx, ty, w, h),
            ) && polys[i].spec_contains(plon, plat);
        assert(polys[i0].spec_contains(plon, plat));
    }
    if exists|i: int|
        0 <= i < polys.len() && (#[trigger] polys[i]).spec_contains(
            pixel_lon(tx * w + x),
            pixel_lat(ty * h + y),
        ) {
        let i0 = choose|i: int|
            0 <= i < polys.len() && (#[trigger] polys[i]).spec_contains(plon, plat);
        let p = polys[i0];
        assert(p.well_formed());
        lemma_in_ring_in_span(
            plon,
            plat,
            p.outer@,
            p.bounding_rect.min.x as int,
            p.bounding_rect.min.y as int,
            p.bounding_rect.max.x as int,
            p.bounding_rect.max.y as int,
        );
        assert(tile.min.x <= plon <= tile.max.x && tile.min.y <= plat <= tile.max.y);
        assert(spec_rect_intersects(p.bounding_rect, tile));
        assert(spec_candidate(p.bounding_rect, tile));
        assert(spec_water_at(polys, tx, ty, w, h, x, y));
    }
}

/// What a cache artifact holds, if it decompresses and decodes.
pub open spec fn spec_cached_table(bytes: Seq<u8>) -> Option<TableModel> {
    match xz_decompressed(bytes) {
        Option::None => Option::None,
        Option::Some(env) => spec_decode_table(env),
    }
}

/// Produces the watermask table for the full tile grid: a structurally
/// valid cache artifact is used as is; otherwise (no cache, or bytes
/// that fail to decompress or decode) the table is recomputed from the
/// polygons, and fresh cache bytes are handed back for the caller to
/// store. The returned bytes, when present, decode back to exactly the
/// returned table.
pub fn rasterize_polygons(
    cache_bytes: Option<&Vec<u8>>,
    polygons: &Vec<Polygon>,
    tile_dim: (u32, u32),
    maxes: (u32, u32),
    threads: u32,
) -> (r: (WatermaskTable, Option<Vec<u8>>))
    requires
        forall|i: int| 0 <= i < polygons@.len() ==> (#[trigger] polygons@[i]).well_formed(),
        tile_dim.0 >= 1,
        tile_dim.1 >= 1,
        (maxes.0 + 1) * tile_dim.0 <= u32::MAX,
        (maxes.1 + 1) * tile_dim.1 <= u32::MAX,
        (maxes.0 + 1) * (maxes.1 + 1) <= usize::MAX,
        tile_dim.0 * tile_dim.1 <= usize::MAX,
        16 + ((maxes.0 + 1) * (maxes.1 + 1)) * (tile_dim.0 * tile_dim.1) <= usize::MAX,
        threads >= 1,
    ensures
        r.0.well_formed(),
        ({
            let fresh = match cache_bytes {
                Option::Some(b) => spec_cached_table(b@) is None,
                Option::None => true,
            };
            if fresh {
                &&& r.0.tiles_x == maxes.0 + 1
                &&& r.0.tiles_y == maxes.1 + 1
                &&& r.0.tile_width == tile_dim.0
                &&& r.0.tile_height == tile_dim.1
                &&& forall|tx: int, ty: int, x: int, y: int|
                    0 <= tx <= maxes.0 && 0 <= ty <= maxes.1 && 0 <= x < tile_dim.0 && 0 <= y
                        < tile_dim.1 ==> r.0.mask_bits(tx + ty * (maxes.0 + 1))[x + y * tile_dim.0]
                        == #[trigger] spec_water_at(
                        polygons@,
                        tx,
                        ty,
                        tile_dim.0 as int,
                        tile_dim.1 as int,
                        x,
                        y,
                    )
                &&& r.1 matches Some(c) ==> spec_cached_table(c@) == Option::Some(r.0.model())
            } else {
                &&& Option::Some(r.0.model()) == spec_cached_table(cache_bytes.unwrap()@)
                &&& r.1 is None
            }
        }),
{
    if let Option::Some(bytes) = cache_bytes {
        if let Option::Some(table) = deserialize_table(bytes.as_slice()) {
            return (table, Option::None);
        }
    }
    let table = compute_watermasks(polygons, tile_dim, maxes);
    let fresh_bytes = serialize_table(&table, threads);
    (table, fresh_bytes)
}

} // verus!
