use vstd::prelude::*;
use crate::bits::WaterBits;
use crate::codec::{be32, write_be32};
use crate::compress::{
    compress_xz, compress_zstd, decompress_xz, decompress_zstd, xz_decompressed, zstd_decompressed,
};
use crate::height::Height;
use crate::raster::signed16;
use crate::watermask::{TableModel, WatermaskTable};
use crate::world::{MapModel, WorldMap};

verus! {

/// A big-endian 64-bit integer read at `off`.
pub open spec fn be64(s: Seq<u8>, off: int) -> int {
    be32(s, off) * 0x100000000 + be32(s, off + 4)
}

/// A big-endian 64-bit integer appended to `out`.
pub fn write_be64(out: &mut Vec<u8>, v: u64)
    ensures
        final(out)@.len() == old(out)@.len() + 8,
        forall|j: int| 0 <= j < old(out)@.len() ==> final(out)@[j] == old(out)@[j],
        be64(final(out)@, old(out)@.len() as int) == v,
{
    let hi = ((v >> 32) & 0xffffffff) as u32;
    let lo = (v & 0xffffffff) as u32;
    proof {
        assert(hi * 0x100000000 + lo == v) by (bit_vector)
            requires
                hi == ((v >> 32) & 0xffffffff) as u32,
                lo == (v & 0xffffffff) as u32,
        ;
    }
    write_be32(out, hi);
    write_be32(out, lo);
}

/// A big-endian 64-bit integer read at `pos`.
pub fn read_be64(data: &[u8], pos: usize) -> (r: u64)
    requires
        pos + 8 <= data@.len(),
    ensures
        r == be64(data@, pos as int),
{
    proof {
        vstd::slice::axiom_spec_len(data);
    }
    let hi = crate::codec::read_be32(data, pos);
    let lo = crate::codec::read_be32(data, pos + 4);
    proof {
        assert((hi as u64) * 0x100000000 + (lo as u64) <= 0xFFFFFFFFFFFFFFFF) by (bit_vector);
    }
    (hi as u64) * 0x100000000 + (lo as u64)
}

/// What decoding a watermask-table envelope yields: four header fields,
/// then one flag byte (0 or 1) per pixel of every tile, row-major in
/// tiles and in pixels. Anything else is a structural failure.
pub open spec fn spec_decode_table(b: Seq<u8>) -> Option<TableModel> {
    if b.len() < 16 {
        Option::None
    } else {
        let tx = be32(b, 0);
        let ty = be32(b, 4);
        let tw = be32(b, 8);
        let th = be32(b, 12);
        let count = tx * ty;
        let tsize = tw * th;
        if count > usize::MAX || tsize > usize::MAX {
            Option::None
        } else if b.len() != 16 + count * tsize {
            Option::None
        } else if exists|i: int| 0 <= i < count * tsize && #[trigger] b[16 + i] > 1 {
            Option::None
        } else {
            Option::Some(
                TableModel {
                    tiles_x: tx,
                    tiles_y: ty,
                    tile_width: tw,
                    tile_height: th,
                    masks: Seq::new(
                        count as nat,
                        |i: int| Seq::new(tsize as nat, |j: int| b[16 + i * tsize + j] == 1),
                    ),
                },
            )
        }
    }
}

/// Encodes a watermask table as its flat envelope. Decoding the result
/// yields back exactly the table's content.
pub fn encode_table(t: &WatermaskTable) -> (out: Vec<u8>)
    requires
        t.well_formed(),
        16 + (t.tiles_x * t.tiles_y) * (t.tile_width * t.tile_height) <= usize::MAX,
    ensures
        spec_decode_table(out@) == Option::Some(t.model()),
{
    let count = (t.tiles_x as usize) * (t.tiles_y as usize);
    let tsize = (t.tile_width as usize) * (t.tile_height as usize);
    proof {
        assert(count * tsize + 16 <= usize::MAX);
    }
    let mut out: Vec<u8> = Vec::new();
    write_be32(&mut out, t.tiles_x);
    write_be32(&mut out, t.tiles_y);
    write_be32(&mut out, t.tile_width);
    write_be32(&mut out, t.tile_height);
    proof {
        assert(out@.len() == 16);
        assert(be32(out@, 0) == t.tiles_x && be32(out@, 4) == t.tiles_y && be32(out@, 8)
            == t.tile_width && be32(out@, 12) == t.tile_height);
    }
    let ghost header = out@;

    let mut i: usize = 0;
    while i < count
        invariant
            t.well_formed(),
            count == t.tiles_x * t.tiles_y,
            tsize == t.tile_width * t.tile_height,
            count * tsize + 16 <= usize::MAX,
            i <= count,
            header.len() == 16,
            out@.len() == 16 + i * tsize,
            forall|j: int| 0 <= j < 16 ==> #[trigger] out@[j] == header[j],
            forall|p: int, q: int|
                0 <= p < i && 0 <= q < tsize ==> #[trigger] out@[16 + p * tsize + q] == (if t.mask_bits(
                    p,
                )[q] {
                    1u8
                } else {
                    0u8
                }),
        decreases count - i,
    {
        proof {
            assert(i * tsize + tsize <= count * tsize) by (nonlinear_arith)
                requires
                    0 <= i < count,
                    tsize >= 0,
            ;
        }
        let mask = &t.masks[i];
        let mut q: usize = 0;
        while q < tsize
            invariant
                t.well_formed(),
                count == t.tiles_x * t.tiles_y,
                tsize == t.tile_width * t.tile_height,
                count * tsize + 16 <= usize::MAX,
                i < count,
                i * tsize + tsize <= count * tsize,
                q <= tsize,
                mask == &t.masks@[i as int],
                header.len() == 16,
                out@.len() == 16 + i * tsize + q,
                forall|j: int| 0 <= j < 16 ==> #[trigger] out@[j] == header[j],
                forall|p: int, j: int|
                    0 <= p < i && 0 <= j < tsize ==> #[trigger] out@[16 + p * tsize + j] == (if t.mask_bits(
                        p,
                    )[j] {
                        1u8
                    } else {
                        0u8
                    }),
                forall|j: int|
                    0 <= j < q ==> #[trigger] out@[16 + i * tsize + j] == (if t.mask_bits(
                        i as int,
                    )[j] {
                        1u8
                    } else {
                        0u8
                    }),
            decreases tsize - q,
        {
            let bit = mask.get(q);
            let ghost prev = out@;
            out.push(if bit {
                1u8
            } else {
                0u8
            });
            q = q + 1;
            proof {
                assert forall|p: int, j: int|
                    0 <= p < i && 0 <= j < tsize implies #[trigger] out@[16 + p * tsize + j] == (
                if t.mask_bits(p)[j] {
                    1u8
                } else {
                    0u8
                }) by {
                    assert(16 + p * tsize + j < 16 + i * tsize + q - 1) by (nonlinear_arith)
                        requires
                            0 <= p < i,
                            0 <= j < tsize,
                            0 <= q - 1,
                    ;
                    assert(out@[16 + p * tsize + j] == prev[16 + p * tsize + j]);
                }
            }
        }
        i = i + 1;
        proof {
            assert((i as int) * tsize == (i - 1) * tsize + tsize) by (nonlinear_arith);
        }
    }

    proof {
        let b = out@;
        let counti = count as int;
        let tsizei = tsize as int;
        assert(b.len() == 16 + counti * tsizei);
        assert(be32(b, 0) == t.tiles_x && be32(b, 4) == t.tiles_y && be32(b, 8) == t.tile_width
            && be32(b, 12) == t.tile_height);
        assert forall|ix: int| 0 <= ix < counti * tsizei implies !(#[trigger] b[16 + ix] > 1) by {
            let p = ix / tsizei;
            let q2 = ix % tsizei;
            assert(tsizei > 0 && counti > 0) by (nonlinear_arith)
                requires
                    0 <= ix < counti * tsizei,
                    counti >= 0,
                    tsizei >= 0,
            ;
            crate::raster::lemma_index_decompose(ix, tsizei, counti);
            assert(ix == p * tsizei + q2);
            assert(b[16 + p * tsizei + q2] == (if t.mask_bits(p)[q2] {
                1u8
            } else {
                0u8
            }));
        }
        let m = spec_decode_table(b);
        assert(m is Some);
        let model = m.unwrap();
        assert forall|p: int| 0 <= p < counti implies model.masks[p] =~= t.model().masks[p] by {
            assert forall|q2: int| 0 <= q2 < tsizei implies model.masks[p][q2] == t.mask_bits(
                p,
            )[q2] by {
                assert(b[16 + p * tsizei + q2] == (if t.mask_bits(p)[q2] {
                    1u8
                } else {
                    0u8
                }));
            }
        }
        assert(model.masks =~= t.model().masks);
        assert(model == t.model());
    }
    out
}

/// Decodes a watermask-table envelope; yields nothing exactly when the
/// bytes are not a well-formed envelope.
pub fn decode_table(bytes: &[u8]) -> (r: Option<WatermaskTable>)
    ensures
        match r {
            Option::Some(t) => t.well_formed() && spec_decode_table(bytes@) == Option::Some(
                t.model(),
            ),
            Option::None => spec_decode_table(bytes@) is None,
        },
{
    let n = bytes.len();
    if n < 16 {
        return Option::None;
    }
    let tx = crate::codec::read_be32(bytes, 0);
    let ty = crate::codec::read_be32(bytes, 4);
    let tw = crate::codec::read_be32(bytes, 8);
    let th = crate::codec::read_be32(bytes, 12);
    proof {
        assert((tx as int) * (ty as int) <= 0xFFFFFFFF * 0xFFFFFFFF && (tx as int) * (ty as int)
            >= 0) by (nonlinear_arith)
            requires
                tx <= 0xFFFFFFFFu32,
                ty <= 0xFFFFFFFFu32,
        ;
        assert((tw as int) * (th as int) <= 0xFFFFFFFF * 0xFFFFFFFF && (tw as int) * (th as int)
            >= 0) by (nonlinear_arith)
            requires
                tw <= 0xFFFFFFFFu32,
                th <= 0xFFFFFFFFu32,
        ;
    }
    if (tx as u128) * (ty as u128) > usize::MAX as u128 {
        return Option::None;
    }
    if (tw as u128) * (th as u128) > usize::MAX as u128 {
        return Option::None;
    }
    let count = (tx as usize) * (ty as usize);
    let tsize = (tw as usize) * (th as usize);
    proof {
        assert((count as int) * (tsize as int) >= 0) by (nonlinear_arith)
            requires
                count >= 0,
                tsize >= 0,
        ;
        vstd::slice::axiom_spec_len(bytes);
        assert((count as int) * (tsize as int) <= 0xFFFFFFFFFFFFFFFF * 0xFFFFFFFFFFFFFFFF)
            by (nonlinear_arith)
            requires
                count <= 0xFFFFFFFFFFFFFFFFu64,
                tsize <= 0xFFFFFFFFFFFFFFFFu64,
                count >= 0,
                tsize >= 0,
        ;
    }
    if (n as u128) < 16 || ((n - 16) as u128) != (count as u128) * (tsize as u128) {
        return Option::None;
    }
    let mut masks: Vec<WaterBits> = Vec::new();
    let mut i: usize = 0;
    while i < count
        invariant
            n == bytes@.len(),
            n == 16 + count * tsize,
            count == tx * ty,
            tsize == tw * th,
            i <= count,
            masks@.len() == i,
            forall|p: int|
                0 <= p < i ==> #[trigger] crate::bits::bit_vec_bits(masks@[p]) =~= Seq::new(
                    tsize as nat,
                    |j: int| bytes@[16 + p * (tsize as int) + j] == 1,
                ),
            forall|p: int, j: int|
                0 <= p < i && 0 <= j < tsize ==> !(#[trigger] bytes@[16 + p * (tsize as int) + j]
                    > 1),
        decreases count - i,
    {
        proof {
            assert(i * tsize + tsize <= count * tsize) by (nonlinear_arith)
                requires
                    0 <= i < count,
                    tsize >= 0,
            ;
        }
        let base = 16 + i * tsize;
        let mut mask = WaterBits::new_zeroed(tsize);
        let mut j: usize = 0;
        while j < tsize
            invariant
                n == bytes@.len(),
                n == 16 + count * tsize,
                i < count,
                base == 16 + i * tsize,
                i * tsize + tsize <= count * tsize,
                j <= tsize,
                crate::bits::bit_vec_bits(mask).len() == tsize,
                forall|j2: int|
                    0 <= j2 < j ==> #[trigger] crate::bits::bit_vec_bits(mask)[j2] == (bytes@[16 + i
                        * (tsize as int) + j2] == 1),
                forall|j2: int|
                    j <= j2 < tsize ==> #[trigger] crate::bits::bit_vec_bits(mask)[j2] == false,
                forall|j2: int|
                    0 <= j2 < j ==> !(#[trigger] bytes@[16 + i * (tsize as int) + j2] > 1),
            decreases tsize - j,
        {
            let byte = bytes[base + j];
            if byte > 1 {
                proof {
                    let counti = count as int;
                    let tsizei = tsize as int;
                    let witness = (i as int) * tsizei + j;
                    assert(0 <= witness < counti * tsizei) by (nonlinear_arith)
                        requires
                            0 <= i < counti,
                            0 <= j < tsizei,
                            (i as int) * tsizei + tsizei <= counti * tsizei,
                            witness == (i as int) * tsizei + j,
                    ;
                    assert(bytes@[16 + witness] > 1);
                }
                return Option::None;
            }
            if byte == 1 {
                mask.set(j, true);
            }
            j = j + 1;
        }
        masks.push(mask);
        i = i + 1;
        proof {
            assert((i as int) * (tsize as int) == (i - 1) * (tsize as int) + tsize)
                by (nonlinear_arith);
            assert(crate::bits::bit_vec_bits(masks@[i - 1]) =~= Seq::new(
                tsize as nat,
                |j2: int| bytes@[16 + (i - 1) * (tsize as int) + j2] == 1,
            ));
        }
    }
    let table = WatermaskTable { tiles_x: tx, tiles_y: ty, tile_width: tw, tile_height: th, masks };
    proof {
        let b = bytes@;
        let counti = count as int;
        let tsizei = tsize as int;
        assert forall|ix: int| 0 <= ix < counti * tsizei implies !(#[trigger] b[16 + ix] > 1) by {
            assert(tsizei > 0 && counti > 0) by (nonlinear_arith)
                requires
                    0 <= ix < counti * tsizei,
                    counti >= 0,
                    tsizei >= 0,
            ;
            crate::raster::lemma_index_decompose(ix, tsizei, counti);
            let p = ix / tsizei;
            let j = ix % tsizei;
            assert(ix == p * tsizei + j);
            assert(!(b[16 + p * tsizei + j] > 1));
        }
        let m = spec_decode_table(b);
        assert(m is Some);
        let model = m.unwrap();
        assert forall|p: int| 0 <= p < counti implies model.masks[p] == table.model().masks[p] by {
            assert(crate::bits::bit_vec_bits(table.masks@[p]) =~= Seq::new(
                tsizei as nat,
                |j: int| b[16 + p * tsizei + j] == 1,
            ));
            assert(model.masks[p] =~= Seq::new(tsizei as nat, |j: int| b[16 + p * tsizei + j] == 1));
        }
        assert(model.masks =~= table.model().masks);
        assert(model == table.model());
        assert(table.well_formed());
    }
    Option::Some(table)
}

/// Compresses a watermask-table envelope for the cache file, using the
/// multi-threaded xz encoder. Returns nothing only if the compressor
/// fails; the produced bytes always decompress and decode back to
/// exactly the given table.
pub fn serialize_table(t: &WatermaskTable, threads: u32) -> (r: Option<Vec<u8>>)
    requires
        t.well_formed(),
        threads >= 1,
        16 + (t.tiles_x * t.tiles_y) * (t.tile_width * t.tile_height) <= usize::MAX,
    ensures
        r matches Some(c) ==> (xz_decompressed(c@) matches Some(env) && spec_decode_table(env)
            == Option::Some(t.model())),
{
    let envelope = encode_table(t);
    compress_xz(envelope.as_slice(), threads)
}

/// Reads a watermask table back from a compressed cache artifact.
/// Yields nothing exactly when the bytes do not decompress or the
/// decompressed envelope does not decode.
pub fn deserialize_table(bytes: &[u8]) -> (r: Option<WatermaskTable>)
    ensures
        match r {
            Option::Some(t) => t.well_formed() && (xz_decompressed(bytes@) matches Some(env)
                && spec_decode_table(env) == Option::Some(t.model())),
            Option::None => xz_decompressed(bytes@) is None || (xz_decompressed(
                bytes@,
            ) matches Some(env) && spec_decode_table(env) is None),
        },
{
    let envelope = match decompress_xz(bytes) {
        Some(v) => v,
        None => {
            return Option::None;
        },
    };
    decode_table(envelope.as_slice())
}

/// What decoding a world-map envelope yields: width and height, then
/// two big-endian bytes per elevation sample, then one flag byte (0 or
/// 1) per water bit. Anything else is a structural failure.
pub open spec fn spec_decode_map(b: Seq<u8>) -> Option<MapModel> {
    if b.len() < 16 {
        Option::None
    } else {
        let w = be64(b, 0);
        let h = be64(b, 8);
        if w > usize::MAX || h > usize::MAX || w * h > usize::MAX {
            Option::None
        } else if b.len() != 16 + 3 * (w * h) {
            Option::None
        } else if exists|i: int| 0 <= i < w * h && #[trigger] b[16 + 2 * (w * h) + i] > 1 {
            Option::None
        } else {
            Option::Some(
                MapModel {
                    width: w,
                    height: h,
                    heights: Seq::new(
                        (w * h) as nat,
                        |i: int| signed16(b[16 + 2 * i] * 256 + b[16 + 2 * i + 1]),
                    ),
                    water: Seq::new((w * h) as nat, |i: int| b[16 + 2 * (w * h) + i] == 1),
                },
            )
        }
    }
}

/// Encodes a world map as its flat envelope. Decoding the result yields
/// back exactly the map's content.
pub fn encode_map(m: &WorldMap) -> (out: Vec<u8>)
    requires
        m.well_formed(),
        16 + 3 * (m.width * m.height) <= usize::MAX,
    ensures
        spec_decode_map(out@) == Option::Some(m.model()),
{
    let size = m.width * m.height;
    let mut out: Vec<u8> = Vec::new();
    write_be64(&mut out, m.width as u64);
    write_be64(&mut out, m.height as u64);
    proof {
        assert(out@.len() == 16);
        assert(be64(out@, 0) == m.width && be64(out@, 8) == m.height);
        vstd::std_specs::vec::axiom_spec_len(&m.height_map);
    }
    let ghost header = out@;

    let mut i: usize = 0;
    while i < size
        invariant
            m.well_formed(),
            size == m.width * m.height,
            16 + 3 * size <= usize::MAX,
            i <= size,
            header.len() == 16,
            out@.len() == 16 + 2 * i,
            forall|j: int| 0 <= j < 16 ==> #[trigger] out@[j] == header[j],
            forall|j: int|
                0 <= j < i ==> signed16(
                    #[trigger] (out@[16 + 2 * j] * 256 + out@[16 + 2 * j + 1]),
                ) == m.heights()[j],
        decreases size - i,
    {
        let s = m.height_map[i].0;
        let u: u32 = if s >= 0 {
            s as u32
        } else {
            ((s as i32) + 65536) as u32
        };
        let hi = (u / 256) as u8;
        let lo = (u % 256) as u8;
        let ghost prev = out@;
        out.push(hi);
        out.push(lo);
        i = i + 1;
        proof {
            assert(u < 65536);
            assert(hi * 256 + lo == u);
            assert(signed16(u as int) == s);
            assert forall|j: int|
                0 <= j < i implies signed16(
                #[trigger] (out@[16 + 2 * j] * 256 + out@[16 + 2 * j + 1]),
            ) == m.heights()[j] by {
                if j < i - 1 {
                    assert(out@[16 + 2 * j] == prev[16 + 2 * j]);
                    assert(out@[16 + 2 * j + 1] == prev[16 + 2 * j + 1]);
                }
            }
        }
    }
    let ghost heights_part = out@;

    let mut i2: usize = 0;
    while i2 < size
        invariant
            m.well_formed(),
            size == m.width * m.height,
            16 + 3 * size <= usize::MAX,
            i2 <= size,
            heights_part.len() == 16 + 2 * size,
            out@.len() == 16 + 2 * size + i2,
            forall|j: int| 0 <= j < 16 + 2 * size ==> #[trigger] out@[j] == heights_part[j],
            forall|j: int|
                0 <= j < i2 ==> #[trigger] out@[16 + 2 * (size as int) + j] == (if m.water()[j] {
                    1u8
                } else {
                    0u8
                }),
        decreases size - i2,
    {
        let bit = m.is_water.get(i2);
        out.push(if bit {
            1u8
        } else {
            0u8
        });
        i2 = i2 + 1;
    }

    proof {
        let b = out@;
        let wh = (m.width * m.height) as int;
        assert(b.len() == 16 + 3 * wh);
        assert(be64(b, 0) == m.width && be64(b, 8) == m.height);
        assert(forall|j: int| 0 <= j < 16 + 2 * size ==> #[trigger] b[j] == heights_part[j]);
        assert forall|ix: int| 0 <= ix < wh implies !(#[trigger] b[16 + 2 * wh + ix] > 1) by {
            assert(b[16 + 2 * wh + ix] == (if m.water()[ix] {
                1u8
            } else {
                0u8
            }));
        }
        let dm = spec_decode_map(b);
        assert(dm is Some);
        let model = dm.unwrap();
        assert forall|j: int| 0 <= j < wh implies model.heights[j] == m.heights()[j] by {
            assert(b[16 + 2 * j] == heights_part[16 + 2 * j]);
            assert(b[16 + 2 * j + 1] == heights_part[16 + 2 * j + 1]);
            assert(signed16(heights_part[16 + 2 * j] * 256 + heights_part[16 + 2 * j + 1])
                == m.heights()[j]);
        }
        assert(model.heights =~= m.heights());
        assert forall|j: int| 0 <= j < wh implies model.water[j] == m.water()[j] by {
            assert(b[16 + 2 * wh + j] == (if m.water()[j] {
                1u8
            } else {
                0u8
            }));
        }
        assert(model.water =~= m.water());
        assert(model == m.model());
    }
    out
}

/// Decodes a world-map envelope; yields nothing exactly when the bytes
/// are not a well-formed envelope.
pub fn decode_map(bytes: &[u8]) -> (r: Option<WorldMap>)
    ensures
        match r {
            Option::Some(m) => m.well_formed() && spec_decode_map(bytes@) == Option::Some(
                m.model(),
            ),
            Option::None => spec_decode_map(bytes@) is None,
        },
{
    let n = bytes.len();
    if n < 16 {
        return Option::None;
    }
    let w64 = read_be64(bytes, 0);
    let h64 = read_be64(bytes, 8);
    if (w64 as u128) > usize::MAX as u128 || (h64 as u128) > usize::MAX as u128 {
        return Option::None;
    }
    proof {
        assert((w64 as int) * (h64 as int) >= 0 && (w64 as int) * (h64 as int)
            <= 0xFFFFFFFFFFFFFFFF * 0xFFFFFFFFFFFFFFFF) by (nonlinear_arith)
            requires
                w64 <= 0xFFFFFFFFFFFFFFFFu64,
                h64 <= 0xFFFFFFFFFFFFFFFFu64,
        ;
        vstd::slice::axiom_spec_len(bytes);
    }
    if (w64 as u128) * (h64 as u128) > usize::MAX as u128 {
        return Option::None;
    }
    let width = w64 as usize;
    let height = h64 as usize;
    let size = width * height;
    if ((n - 16) as u128) != 3 * (size as u128) {
        return Option::None;
    }
    let mut height_map: Vec<Height> = Vec::new();
    let mut i: usize = 0;
    while i < size
        invariant
            n == bytes@.len(),
            n == 16 + 3 * size,
            size == width * height,
            i <= size,
            height_map@.len() == i,
            forall|j: int|
                0 <= j < i ==> #[trigger] height_map@[j].0 == signed16(
                    bytes@[16 + 2 * j] * 256 + bytes@[16 + 2 * j + 1],
                ),
        decreases size - i,
    {
        let hi = bytes[16 + 2 * i];
        let lo = bytes[16 + 2 * i + 1];
        let u: u32 = (hi as u32) * 256 + (lo as u32);
        let s: i16 = if u < 32768 {
            u as i16
        } else {
            ((u as i32) - 65536) as i16
        };
        height_map.push(Height(s));
        i = i + 1;
    }
    let mut is_water = WaterBits::new_zeroed(size);
    let mut i2: usize = 0;
    while i2 < size
        invariant
            n == bytes@.len(),
            n == 16 + 3 * size,
            size == width * height,
            i2 <= size,
            crate::bits::bit_vec_bits(is_water).len() == size,
            forall|j: int|
                0 <= j < i2 ==> #[trigger] crate::bits::bit_vec_bits(is_water)[j] == (bytes@[16 + 2
                    * (size as int) + j] == 1),
            forall|j: int|
                i2 <= j < size ==> #[trigger] crate::bits::bit_vec_bits(is_water)[j] == false,
            forall|j: int| 0 <= j < i2 ==> !(#[trigger] bytes@[16 + 2 * (size as int) + j] > 1),
        decreases size - i2,
    {
        let byte = bytes[16 + 2 * size + i2];
        if byte > 1 {
            return Option::None;
        }
        if byte == 1 {
            is_water.set(i2, true);
        }
        i2 = i2 + 1;
    }
    let map = WorldMap { width, height, height_map, is_water };
    proof {
        let b = bytes@;
        let wh = (width * height) as int;
        let dm = spec_decode_map(b);
        assert(dm is Some);
        let model = dm.unwrap();
        assert(map.heights() =~= model.heights);
        assert(map.water() =~= model.water);
        assert(map.model() == model);
    }
    Option::Some(map)
}

/// Compresses a world-map envelope for the output artifact, using zstd
/// at the fixed level. Returns nothing only if the compressor fails;
/// the produced bytes always decompress and decode back to exactly the
/// given map.
pub fn serialize_map(m: &WorldMap) -> (r: Option<Vec<u8>>)
    requires
        m.well_formed(),
        16 + 3 * (m.width * m.height) <= usize::MAX,
    ensures
        r matches Some(c) ==> (zstd_decompressed(c@) matches Some(env) && spec_decode_map(env)
            == Option::Some(m.model())),
{
    let envelope = encode_map(m);
    compress_zstd(envelope.as_slice(), 6)
}

/// Reads a world map back from a compressed artifact. Yields nothing
/// exactly when the bytes do not decompress or the decompressed
/// envelope does not decode.
pub fn deserialize_map(bytes: &[u8]) -> (r: Option<WorldMap>)
    ensures
        match r {
            Option::Some(m) => m.well_formed() && (zstd_decompressed(bytes@) matches Some(env)
                && spec_decode_map(env) == Option::Some(m.model())),
            Option::None => zstd_decompressed(bytes@) is None || (zstd_decompressed(
                bytes@,
            ) matches Some(env) && spec_decode_map(env) is None),
        },
{
    let envelope = match decompress_zstd(bytes) {
        Some(v) => v,
        None => {
            return Option::None;
        },
    };
    decode_map(envelope.as_slice())
}

} // verus!
