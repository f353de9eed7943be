use rome_map::bits::WaterBits;
use rome_map::height::Height;
use rome_map::mipmap::{generate_mipmap, generate_mipmaps, sample, HeightmapMipMap};
use rome_map::world::WorldMap;

fn small_map() -> WorldMap {
    // 2x2 map: heights 10, 20 / 30, 40; water only at (1, 0).
    let mut water = WaterBits::new_zeroed(4);
    water.set(1, true);
    WorldMap {
        width: 2,
        height: 2,
        height_map: vec![Height(10), Height(20), Height(30), Height(40)],
        is_water: water,
    }
}

#[test]
fn map_get_reads_pixels() {
    let map = small_map();
    assert_eq!(map.get(0, 0).height.0, 10);
    assert!(!map.get(0, 0).is_water);
    assert_eq!(map.get(1, 0).height.0, 20);
    assert!(map.get(1, 0).is_water);
    assert_eq!(map.get(0, 1).height.0, 30);
    assert_eq!(map.get(1, 1).height.0, 40);
}

#[test]
fn map_get_clamps_out_of_range_coordinates() {
    let map = small_map();
    // Far out of range on both axes: clamps to the last column and row.
    assert_eq!(map.get(99, 0).height.0, 20);
    assert_eq!(map.get(0, 99).height.0, 30);
    assert_eq!(map.get(99, 99).height.0, 40);
    assert!(map.get(99, 0).is_water);
}

#[test]
fn mipmap_get_indexes_row_major() {
    let mip = HeightmapMipMap {
        width: 2,
        height: 2,
        height_map: vec![Height(1), Height(2), Height(3), Height(4)],
    };
    assert_eq!(mip.get(0, 0).0, 1);
    assert_eq!(mip.get(1, 0).0, 2);
    assert_eq!(mip.get(0, 1).0, 3);
    assert_eq!(mip.get(1, 1).0, 4);
}

#[test]
fn sample_widens_heights() {
    let grid = vec![Height(-32768), Height(32767)];
    assert_eq!(sample((0, 0), 2, &grid), -32768);
    assert_eq!(sample((1, 0), 2, &grid), 32767);
}

#[test]
fn generate_mipmap_averages_blocks_towards_zero() {
    // 4x2 grid downsamples to 2x1; the second block has a negative
    // truncating average: (-1 - 1 - 1 - 2) / 4 = -5 / 4 = -1.
    let grid = vec![
        Height(1),
        Height(2),
        Height(-1),
        Height(-1),
        Height(3),
        Height(6),
        Height(-1),
        Height(-2),
    ];
    let mip = generate_mipmap((4, 2), &grid);
    assert_eq!(mip.width, 2);
    assert_eq!(mip.height, 1);
    assert_eq!(mip.get(0, 0).0, 3); // (1 + 2 + 3 + 6) / 4
    assert_eq!(mip.get(1, 0).0, -1); // (-5) / 4 rounds towards zero
}

#[test]
fn generate_mipmaps_halves_each_level() {
    let mut heights = Vec::new();
    for i in 0..16 {
        heights.push(Height(i as i16));
    }
    let map = WorldMap {
        width: 4,
        height: 4,
        height_map: heights,
        is_water: WaterBits::new_zeroed(16),
    };
    let mips = generate_mipmaps(&map, 2);
    assert_eq!(mips.len(), 2);
    assert_eq!((mips[0].width, mips[0].height), (2, 2));
    assert_eq!((mips[1].width, mips[1].height), (1, 1));
    // First level: block averages of the 4x4 grid.
    assert_eq!(mips[0].get(0, 0).0, (0 + 1 + 4 + 5) / 4);
    assert_eq!(mips[0].get(1, 1).0, (10 + 11 + 14 + 15) / 4);
    // Second level: average of the first level's four cells.
    let l0 = (
        mips[0].get(0, 0).0,
        mips[0].get(1, 0).0,
        mips[0].get(0, 1).0,
        mips[0].get(1, 1).0,
    );
    let expected = ((l0.0 as i64 + l0.1 as i64 + l0.2 as i64 + l0.3 as i64) / 4) as i16;
    assert_eq!(mips[1].get(0, 0).0, expected);
}

#[test]
fn water_bits_round_trip_single_bits() {
    let mut bits = WaterBits::new_zeroed(10);
    assert_eq!(bits.len(), 10);
    for i in 0..10 {
        assert!(!bits.get(i));
    }
    bits.set(3, true);
    bits.set(9, true);
    bits.set(3, false);
    assert!(!bits.get(3));
    assert!(bits.get(9));
    assert!(!bits.get(0));
}
