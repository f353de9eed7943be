use rome_map::bits::WaterBits;
use rome_map::height::Height;
use rome_map::serializer::{
    decode_map, decode_table, deserialize_map, deserialize_table, encode_map, encode_table,
    serialize_map, serialize_table,
};
use rome_map::watermask::WatermaskTable;
use rome_map::world::WorldMap;

fn sample_table() -> WatermaskTable {
    // 2x2 tiles, each 2x2 pixels, with a distinct pattern per tile.
    let mut masks = Vec::new();
    for t in 0..4u32 {
        let mut mask = WaterBits::new_zeroed(4);
        for b in 0..4u32 {
            if (t + b) % 3 == 0 {
                mask.set(b as usize, true);
            }
        }
        masks.push(mask);
    }
    WatermaskTable { tiles_x: 2, tiles_y: 2, tile_width: 2, tile_height: 2, masks }
}

fn tables_equal(a: &WatermaskTable, b: &WatermaskTable) {
    assert_eq!(a.tiles_x, b.tiles_x);
    assert_eq!(a.tiles_y, b.tiles_y);
    assert_eq!(a.tile_width, b.tile_width);
    assert_eq!(a.tile_height, b.tile_height);
    assert_eq!(a.masks.len(), b.masks.len());
    for i in 0..a.masks.len() {
        assert_eq!(a.masks[i].len(), b.masks[i].len());
        for j in 0..a.masks[i].len() {
            assert_eq!(a.masks[i].get(j), b.masks[i].get(j), "mask {} bit {}", i, j);
        }
    }
}

#[test]
fn table_envelope_round_trips() {
    let table = sample_table();
    let envelope = encode_table(&table);
    let decoded = decode_table(&envelope).expect("envelope decodes");
    tables_equal(&table, &decoded);
}

#[test]
fn table_serializes_and_deserializes_bit_for_bit() {
    let table = sample_table();
    let compressed = serialize_table(&table, 2).expect("compression succeeds");
    let restored = deserialize_table(&compressed).expect("deserialization succeeds");
    tables_equal(&table, &restored);
}

#[test]
fn corrupt_table_bytes_fail_to_deserialize() {
    let table = sample_table();
    let compressed = serialize_table(&table, 1).expect("compression succeeds");
    let truncated = &compressed[..compressed.len() / 2];
    assert!(deserialize_table(truncated).is_none());
    assert!(deserialize_table(b"not an xz stream at all").is_none());
}

#[test]
fn table_envelope_rejects_bad_flag_bytes() {
    let table = sample_table();
    let mut envelope = encode_table(&table);
    let last = envelope.len() - 1;
    envelope[last] = 2;
    assert!(decode_table(&envelope).is_none());
}

#[test]
fn table_envelope_rejects_trailing_bytes() {
    let table = sample_table();
    let mut envelope = encode_table(&table);
    envelope.push(0);
    assert!(decode_table(&envelope).is_none());
}

fn sample_map() -> WorldMap {
    let mut water = WaterBits::new_zeroed(6);
    water.set(0, true);
    water.set(5, true);
    WorldMap {
        width: 3,
        height: 2,
        height_map: vec![
            Height(-32768),
            Height(32767),
            Height(0),
            Height(-1),
            Height(4242),
            Height(-4242),
        ],
        is_water: water,
    }
}

fn maps_equal(a: &WorldMap, b: &WorldMap) {
    assert_eq!(a.width, b.width);
    assert_eq!(a.height, b.height);
    for y in 0..a.height as u32 {
        for x in 0..a.width as u32 {
            let pa = a.get(x, y);
            let pb = b.get(x, y);
            assert_eq!(pa.height.0, pb.height.0);
            assert_eq!(pa.is_water, pb.is_water);
        }
    }
}

#[test]
fn map_envelope_round_trips() {
    let map = sample_map();
    let envelope = encode_map(&map);
    let decoded = decode_map(&envelope).expect("envelope decodes");
    maps_equal(&map, &decoded);
}

#[test]
fn map_serializes_and_deserializes() {
    let map = sample_map();
    let compressed = serialize_map(&map).expect("compression succeeds");
    let restored = deserialize_map(&compressed).expect("deserialization succeeds");
    maps_equal(&map, &restored);
}

#[test]
fn corrupt_map_bytes_fail_to_deserialize() {
    let map = sample_map();
    let compressed = serialize_map(&map).expect("compression succeeds");
    let truncated = &compressed[..compressed.len() / 2];
    assert!(deserialize_map(truncated).is_none());
    assert!(deserialize_map(b"garbage").is_none());
}
