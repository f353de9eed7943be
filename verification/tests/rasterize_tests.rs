use rome_map::geometry::{Point, Polygon};
use rome_map::raster::{Raster, RasterFormat};
use rome_map::rasterize::{compute_watermasks, rasterize_polygons, to_lat_long};
use rome_map::stitch::combine;
use rome_map::watermask::WatermaskTable;

fn pt(x: i64, y: i64) -> Point {
    Point { x, y }
}

/// A rectangular ring, counter-clockwise, closed implicitly.
fn rect_ring(x0: i64, y0: i64, x1: i64, y1: i64) -> Vec<Point> {
    vec![pt(x0, y0), pt(x1, y0), pt(x1, y1), pt(x0, y1)]
}

#[test]
fn projection_anchors_the_known_top_left() {
    // The grid's top-left pixel sits at 70 degrees north and -26.66...
    // degrees east, in units of 1/1,500,000 degree.
    let top_left = to_lat_long(0, 0);
    assert_eq!(top_left.x, -40_000_000);
    assert_eq!(top_left.y, 105_000_000);
    // One full wrap of 54,000 pixels spans 360 degrees of longitude.
    let wrapped = to_lat_long(54_000, 27_000);
    assert_eq!(wrapped.x - top_left.x, 360 * 1_500_000);
    assert_eq!(top_left.y - wrapped.y, 180 * 1_500_000);
}

#[test]
fn point_inside_outer_ring_is_contained() {
    let poly = Polygon::new(rect_ring(0, 0, 100, 100), vec![]).expect("valid polygon");
    assert!(poly.contains(pt(50, 50)));
    assert!(poly.contains(pt(1, 99)));
    assert!(!poly.contains(pt(150, 50)));
    assert!(!poly.contains(pt(-1, 50)));
    assert!(!poly.contains(pt(50, 150)));
}

#[test]
fn point_inside_hole_is_not_contained() {
    let poly = Polygon::new(
        rect_ring(0, 0, 100, 100),
        vec![rect_ring(40, 40, 60, 60)],
    )
    .expect("valid polygon");
    assert!(poly.contains(pt(20, 20)));
    assert!(poly.contains(pt(70, 50)));
    assert!(!poly.contains(pt(50, 50)), "inside the hole");
    assert!(!poly.contains(pt(200, 50)), "outside the outer ring");
}

#[test]
fn polygon_new_computes_the_bounding_rect() {
    let poly = Polygon::new(
        vec![pt(5, -7), pt(30, 2), pt(-4, 18), pt(9, 9)],
        vec![],
    )
    .expect("valid polygon");
    assert_eq!(poly.bounding_rect.min.x, -4);
    assert_eq!(poly.bounding_rect.min.y, -7);
    assert_eq!(poly.bounding_rect.max.x, 30);
    assert_eq!(poly.bounding_rect.max.y, 18);
}

#[test]
fn polygon_new_rejects_empty_and_out_of_range() {
    assert!(Polygon::new(vec![], vec![]).is_none());
    assert!(Polygon::new(vec![pt(200_000_000_000_000, 0)], vec![]).is_none());
}

/// A polygon covering the lat/long footprint of pixels (1..=2, 1..=2)
/// of tile (0, 0), given 4x4 pixel tiles.
fn water_square() -> Polygon {
    let a = to_lat_long(1, 1);
    let b = to_lat_long(2, 2);
    // Latitude falls with the row number, so b.y < a.y; pad by half a
    // pixel so the four pixel centres are strictly inside.
    let ring = rect_ring(a.x - 5_000, b.y - 5_000, b.x + 5_000, a.y + 5_000);
    Polygon::new(ring, vec![]).expect("valid polygon")
}

#[test]
fn rasterizer_marks_polygon_pixels_as_water() {
    let polygons = vec![water_square()];
    let table = compute_watermasks(&polygons, (4, 4), (0, 0));
    assert_eq!(table.tiles_x, 1);
    assert_eq!(table.tiles_y, 1);
    for y in 0..4u32 {
        for x in 0..4u32 {
            let expected = (1..=2).contains(&x) && (1..=2).contains(&y);
            assert_eq!(table.get_bit(0, 0, x, y), expected, "pixel ({}, {})", x, y);
        }
    }
}

#[test]
fn rasterizer_respects_holes() {
    let a = to_lat_long(0, 0);
    let b = to_lat_long(3, 3);
    let outer = rect_ring(a.x - 5_000, b.y - 5_000, b.x + 5_000, a.y + 5_000);
    let ha = to_lat_long(1, 1);
    let hb = to_lat_long(2, 2);
    let hole = rect_ring(ha.x - 5_000, hb.y - 5_000, hb.x + 5_000, ha.y + 5_000);
    let polygons = vec![Polygon::new(outer, vec![hole]).expect("valid polygon")];
    let table = compute_watermasks(&polygons, (4, 4), (0, 0));
    for y in 0..4u32 {
        for x in 0..4u32 {
            let in_outer = x <= 3 && y <= 3;
            let in_hole = (1..=2).contains(&x) && (1..=2).contains(&y);
            assert_eq!(table.get_bit(0, 0, x, y), in_outer && !in_hole, "pixel ({}, {})", x, y);
        }
    }
}

#[test]
fn rasterizer_covers_a_multi_tile_grid() {
    // A polygon around the single global pixel (3, 2) of a 2x2 grid of
    // 2x2 tiles: only tile (1, 1)'s local pixel (1, 0) is water.
    let centre = to_lat_long(3, 2);
    let ring = rect_ring(centre.x - 5_000, centre.y - 5_000, centre.x + 5_000, centre.y + 5_000);
    let polygons = vec![Polygon::new(ring, vec![]).expect("valid polygon")];
    let table = compute_watermasks(&polygons, (2, 2), (1, 1));
    assert_eq!((table.tiles_x, table.tiles_y), (2, 2));
    for ty in 0..2u32 {
        for tx in 0..2u32 {
            for y in 0..2u32 {
                for x in 0..2u32 {
                    let global = (tx * 2 + x, ty * 2 + y);
                    let expected = global == (3, 2);
                    assert_eq!(
                        table.get_bit(tx, ty, x, y),
                        expected,
                        "tile ({}, {}) pixel ({}, {})",
                        tx,
                        ty,
                        x,
                        y
                    );
                }
            }
        }
    }
}

#[test]
fn cache_round_trip_and_corruption_recovery() {
    let polygons = vec![water_square()];

    // No cache: computes and hands back bytes to store.
    let (table1, bytes) = rasterize_polygons(None, &polygons, (4, 4), (0, 0), 2);
    let bytes = bytes.expect("fresh cache bytes are produced");

    // A structurally valid cache is used as is, with no rewrite.
    let (table2, rewrite) = rasterize_polygons(Some(&bytes), &polygons, (4, 4), (0, 0), 2);
    assert!(rewrite.is_none());

    // A corrupted cache is silently ignored and the table recomputed.
    let corrupt: Vec<u8> = bytes[..bytes.len() / 2].to_vec();
    let (table3, rewrite3) = rasterize_polygons(Some(&corrupt), &polygons, (4, 4), (0, 0), 2);
    assert!(rewrite3.is_some(), "a freshly computed table is written back");

    for y in 0..4u32 {
        for x in 0..4u32 {
            let expected = (1..=2).contains(&x) && (1..=2).contains(&y);
            assert_eq!(table1.get_bit(0, 0, x, y), expected);
            assert_eq!(table2.get_bit(0, 0, x, y), expected);
            assert_eq!(table3.get_bit(0, 0, x, y), expected);
        }
    }
}

fn tile_raster(base: i16) -> Raster {
    let values: Vec<i16> = (0..4).map(|i| base + i as i16).collect();
    Raster::new(RasterFormat::Short(values), 2, 2)
}

#[test]
fn combine_stitches_a_complete_grid() {
    // 2x2 grid of 2x2 tiles; each tile's samples are base + local index.
    let heightmaps = vec![
        ((0u32, 0u32), tile_raster(100)),
        ((1, 0), tile_raster(200)),
        ((0, 1), tile_raster(300)),
        ((1, 1), tile_raster(400)),
    ];
    let table = {
        let mut masks = Vec::new();
        for t in 0..4 {
            let mut mask = rome_map::bits::WaterBits::new_zeroed(4);
            // Water exactly on the diagonal pixel of tiles 0 and 3.
            if t == 0 || t == 3 {
                mask.set(0, true);
                mask.set(3, true);
            }
            masks.push(mask);
        }
        WatermaskTable { tiles_x: 2, tiles_y: 2, tile_width: 2, tile_height: 2, masks }
    };
    let map = combine(heightmaps, &table);
    assert_eq!(map.width, 4);
    assert_eq!(map.height, 4);
    // Tile (0, 0) occupies global pixels (0..2, 0..2).
    assert_eq!(map.get(0, 0).height.0, 100);
    assert_eq!(map.get(1, 0).height.0, 101);
    assert_eq!(map.get(0, 1).height.0, 102);
    assert_eq!(map.get(1, 1).height.0, 103);
    // Tile (1, 0) occupies global pixels (2..4, 0..2).
    assert_eq!(map.get(2, 0).height.0, 200);
    assert_eq!(map.get(3, 1).height.0, 203);
    // Tile (0, 1) occupies global pixels (0..2, 2..4).
    assert_eq!(map.get(0, 2).height.0, 300);
    // Tile (1, 1) occupies global pixels (2..4, 2..4).
    assert_eq!(map.get(3, 3).height.0, 403);
    // Water bits follow each tile's own mask.
    assert!(map.get(0, 0).is_water);
    assert!(map.get(1, 1).is_water);
    assert!(!map.get(1, 0).is_water);
    assert!(!map.get(2, 0).is_water);
    assert!(map.get(2, 2).is_water);
    assert!(map.get(3, 3).is_water);
    assert!(!map.get(3, 2).is_water);
}
