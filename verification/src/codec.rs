use vstd::prelude::*;
use vstd::slice::slice_subrange;
use crate::compress::{decompress_xz, xz_decompressed};
use crate::filter::{recon_xy, RasterFilter};
use crate::raster::{
    overlay, parse_samples, signed16, signed8, DataView, Raster, RasterFormat, SampleKind,
};

verus! {

/// Why decoding a raster stream failed.
#[derive(Debug)]
pub enum RasterDecodeError {
    /// The stream ended early or a chunk payload would not decompress.
    IoError,
    /// The stream does not begin with the raster signature; carries the
    /// sixteen bytes found instead.
    InvalidSignature([u8; 16]),
    /// The format version is not the supported one.
    UnknownVersion(u8),
    /// The sample-kind selector is not one of the three known kinds.
    UnknownRasterFormat(u8),
}

/// The abstract outcome of decoding: a raster described mathematically.
pub ghost struct RasterModel {
    pub kind: SampleKind,
    pub width: int,
    pub height: int,
    pub samples: Seq<int>,
}

/// The abstract failure cases of decoding.
pub ghost enum SpecDecodeError {
    Truncated,
    BadPayload,
    BadSignature,
    BadVersion(u8),
    BadFormat(u8),
}

/// The sixteen signature bytes that open every raster stream
/// (the ASCII text `TERRARIUM/RASTER`).
pub open spec fn sig_seq() -> Seq<u8> {
    seq![84u8, 69u8, 82u8, 82u8, 65u8, 82u8, 73u8, 85u8, 77u8, 47u8, 82u8, 65u8, 83u8, 84u8, 69u8, 82u8]
}

/// A big-endian 32-bit integer read at `off`.
pub open spec fn be32(s: Seq<u8>, off: int) -> int {
    s[off] * 0x1000000 + s[off + 1] * 0x10000 + s[off + 2] * 0x100 + s[off + 3]
}

/// The sample kind a selector byte denotes (defined for bytes 0 to 2).
pub open spec fn kind_of_byte(b: u8) -> SampleKind {
    if b == 0 {
        SampleKind::UByte
    } else if b == 1 {
        SampleKind::Byte
    } else {
        SampleKind::Short
    }
}

/// The filter a filter-id byte denotes; unknown ids mean no filtering.
pub open spec fn filter_of_byte(b: u8) -> RasterFilter {
    if b == 1 {
        RasterFilter::Left
    } else if b == 2 {
        RasterFilter::Up
    } else if b == 3 {
        RasterFilter::Average
    } else if b == 4 {
        RasterFilter::Paeth
    } else {
        RasterFilter::Plain
    }
}

/// The fully reconstructed grid of a chunk: every pixel of the raw
/// filtered sample grid run through the filter, row-major.
pub open spec fn recon_grid(f: RasterFilter, k: SampleKind, inp: Seq<int>, w: int, h: int) -> Seq<
    int,
> {
    Seq::new((w * h) as nat, |i: int| recon_xy(f, k, inp, w, i % w, i / w))
}

/// One step of chunk decoding: reads the next length-prefixed chunk from
/// `rest`, reconstructs it, lays it over the raster accumulated so far,
/// and continues with the remaining bytes.
pub open spec fn spec_read_chunks(
    k: SampleKind,
    w: int,
    h: int,
    cur: Seq<int>,
    rest: Seq<u8>,
) -> Result<RasterModel, SpecDecodeError>
    decreases rest.len(),
{
    if rest.len() == 0 {
        Ok(RasterModel { kind: k, width: w, height: h, samples: cur })
    } else if rest.len() < 4 {
        Err(SpecDecodeError::Truncated)
    } else {
        let clen = be32(rest, 0);
        if rest.len() - 4 < clen {
            Err(SpecDecodeError::Truncated)
        } else if clen < 17 {
            Err(SpecDecodeError::Truncated)
        } else {
            let chunk = rest.subrange(4, 4 + clen);
            let cx = be32(chunk, 0);
            let cy = be32(chunk, 4);
            let cw = be32(chunk, 8);
            let ch = be32(chunk, 12);
            let f = filter_of_byte(chunk[16]);
            match xz_decompressed(chunk.skip(17)) {
                Option::None => Err(SpecDecodeError::BadPayload),
                Option::Some(raw) => {
                    if raw.len() < cw * ch * k.byte_size() {
                        Err(SpecDecodeError::Truncated)
                    } else {
                        let samples = parse_samples(k, raw, cw * ch);
                        let grid = recon_grid(f, k, samples, cw, ch);
                        let cur2 = overlay(cur, w, grid, cw, ch, cx, cy);
                        spec_read_chunks(k, w, h, cur2, rest.skip(4 + clen))
                    }
                },
            }
        }
    }
}

/// What decoding a raster byte stream yields: the decoded raster, or
/// the first failure the stream runs into.
pub open spec fn spec_read(data: Seq<u8>) -> Result<RasterModel, SpecDecodeError> {
    if data.len() < 16 {
        Err(SpecDecodeError::Truncated)
    } else if data.subrange(0, 16) != sig_seq() {
        Err(SpecDecodeError::BadSignature)
    } else if data.len() < 17 {
        Err(SpecDecodeError::Truncated)
    } else if data[16] != 0 {
        Err(SpecDecodeError::BadVersion(data[16]))
    } else if data.len() < 26 {
        Err(SpecDecodeError::Truncated)
    } else {
        let w = be32(data, 17);
        let h = be32(data, 21);
        let kb = data[25];
        if kb > 2 {
            Err(SpecDecodeError::BadFormat(kb))
        } else {
            let k = kind_of_byte(kb);
            if w * h > usize::MAX {
                Err(SpecDecodeError::Truncated)
            } else {
                spec_read_chunks(k, w, h, Seq::new((w * h) as nat, |i: int| 0int), data.skip(26))
            }
        }
    }
}

/// The error value the decoder returns for each abstract failure.
pub open spec fn error_matches(data: Seq<u8>, s: SpecDecodeError, e: RasterDecodeError) -> bool {
    match s {
        SpecDecodeError::Truncated => e is IoError,
        SpecDecodeError::BadPayload => e is IoError,
        SpecDecodeError::BadSignature => e matches RasterDecodeError::InvalidSignature(sig)
            && sig@ == data.subrange(0, 16),
        SpecDecodeError::BadVersion(v) => e == RasterDecodeError::UnknownVersion(v),
        SpecDecodeError::BadFormat(b) => e == RasterDecodeError::UnknownRasterFormat(b),
    }
}

/// Decoding returned exactly what the abstract decoder prescribes.
pub open spec fn read_matches(data: Seq<u8>, r: Result<Raster, RasterDecodeError>) -> bool {
    match spec_read(data) {
        Ok(m) => r matches Ok(ra) && ra.kind() == m.kind && ra.width == m.width && ra.height
            == m.height && ra.values() == m.samples && ra.well_formed(),
        Err(s) => r matches Err(e) && error_matches(data, s, e),
    }
}

/// A big-endian 32-bit integer read at `pos`.
pub fn read_be32(data: &[u8], pos: usize) -> (r: u32)
    requires
        pos + 4 <= data@.len(),
    ensures
        r == be32(data@, pos as int),
{
    let b0 = data[pos];
    let b1 = data[pos + 1];
    let b2 = data[pos + 2];
    let b3 = data[pos + 3];
    (b0 as u32) * 0x1000000 + (b1 as u32) * 0x10000 + (b2 as u32) * 0x100 + (b3 as u32)
}

/// The signature bytes as a runtime vector.
pub fn signature() -> (r: Vec<u8>)
    ensures
        r@ == sig_seq(),
{
    let mut v: Vec<u8> = Vec::new();
    v.push(84);
    v.push(69);
    v.push(82);
    v.push(82);
    v.push(65);
    v.push(82);
    v.push(73);
    v.push(85);
    v.push(77);
    v.push(47);
    v.push(82);
    v.push(65);
    v.push(83);
    v.push(84);
    v.push(69);
    v.push(82);
    proof {
        assert(v@ =~= sig_seq());
    }
    v
}

/// Decodes one elevation tile from its binary stream: checks the
/// signature, version and sample kind, then applies every chunk to an
/// initially zeroed full-size raster.
pub fn read(data: &[u8]) -> (r: Result<Raster, RasterDecodeError>)
    ensures
        read_matches(data@, r),
{
    let n = data.len();
    if n < 16 {
        return Err(RasterDecodeError::IoError);
    }
    let sig = signature();
    let mut i: usize = 0;
    let mut matches_sig = true;
    while i < 16
        invariant
            i <= 16,
            n == data@.len(),
            16 <= n,
            sig@ == sig_seq(),
            matches_sig <==> data@.subrange(0, i as int) =~= sig_seq().subrange(0, i as int),
        decreases 16 - i,
    {
        let ghost pre = matches_sig;
        if data[i] != sig[i] {
            matches_sig = false;
        }
        proof {
            let j = i as int;
            if pre && data@[j] == sig_seq()[j] {
                assert(data@.subrange(0, j + 1) =~= data@.subrange(0, j).push(data@[j]));
                assert(sig_seq().subrange(0, j + 1) =~= sig_seq().subrange(0, j).push(
                    sig_seq()[j],
                ));
            } else {
                assert(data@.subrange(0, j + 1)[j] == data@[j]);
                assert(sig_seq().subrange(0, j + 1)[j] == sig_seq()[j]);
                if !pre {
                    let witness = choose|q: int|
                        0 <= q < j && data@.subrange(0, j)[q] != sig_seq().subrange(0, j)[q];
                    assert(data@.subrange(0, j)[witness] != sig_seq().subrange(0, j)[witness]);
                    assert(data@.subrange(0, j + 1)[witness]
                        != sig_seq().subrange(0, j + 1)[witness]);
                }
            }
        }
        i = i + 1;
    }
    if !matches_sig {
        proof {
            assert(sig_seq().subrange(0, 16) =~= sig_seq());
            assert(data@.subrange(0, 16) != sig_seq());
        }
        let sig_found: [u8; 16] = [
            data[0],
            data[1],
            data[2],
            data[3],
            data[4],
            data[5],
            data[6],
            data[7],
            data[8],
            data[9],
            data[10],
            data[11],
            data[12],
            data[13],
            data[14],
            data[15],
        ];
        proof {
            assert(sig_found@ =~= data@.subrange(0, 16));
        }
        return Err(RasterDecodeError::InvalidSignature(sig_found));
    }
    proof {
        assert(sig_seq().subrange(0, 16) =~= sig_seq());
        assert(data@.subrange(0, 16) == sig_seq());
    }
    if n < 17 {
        return Err(RasterDecodeError::IoError);
    }
    let version = data[16];
    if version != 0 {
        return Err(RasterDecodeError::UnknownVersion(version));
    }
    if n < 26 {
        return Err(RasterDecodeError::IoError);
    }
    let rw = read_be32(data, 17);
    let rh = read_be32(data, 21);
    let kb = data[25];
    if kb > 2 {
        return Err(RasterDecodeError::UnknownRasterFormat(kb));
    }
    let kind = if kb == 0 {
        SampleKind::UByte
    } else if kb == 1 {
        SampleKind::Byte
    } else {
        SampleKind::Short
    };
    proof {
        assert((rw as int) * (rh as int) <= 0xFFFFFFFF * 0xFFFFFFFF) by (nonlinear_arith)
            requires
                rw <= 0xFFFFFFFFu32,
                rh <= 0xFFFFFFFFu32,
        ;
    }
    if (rw as u128) * (rh as u128) > usize::MAX as u128 {
        return Err(RasterDecodeError::IoError);
    }
    let mut raster = Raster::new(RasterFormat::empty(kind), rw, rh);
    raster.zero();
    proof {
        assert(rw as int == be32(data@, 17) && rh as int == be32(data@, 21));
        assert(raster.values() =~= Seq::new((be32(data@, 17) * be32(data@, 21)) as nat, |i: int| 0int));
        assert(spec_read(data@) == spec_read_chunks(
            kind,
            rw as int,
            rh as int,
            raster.values(),
            data@.skip(26),
        ));
    }

    let mut pos: usize = 26;
    while pos < n
        invariant
            26 <= pos <= n,
            n == data@.len(),
            raster.width == rw,
            raster.height == rh,
            raster.kind() == kind,
            kind == kind_of_byte(kb),
            raster.well_formed(),
            spec_read(data@) == spec_read_chunks(
                kind,
                rw as int,
                rh as int,
                raster.values(),
                data@.skip(pos as int),
            ),
        decreases n - pos,
    {
        let ghost rest = data@.skip(pos as int);
        proof {
            assert(rest.len() == n - pos);
        }
        if n - pos < 4 {
            return Err(RasterDecodeError::IoError);
        }
        let clen32 = read_be32(data, pos);
        let clen = clen32 as usize;
        proof {
            assert(rest[0] == data@[pos as int]);
            assert(rest[1] == data@[pos as int + 1]);
            assert(rest[2] == data@[pos as int + 2]);
            assert(rest[3] == data@[pos as int + 3]);
            assert(be32(rest, 0) == clen32);
        }
        if n - pos - 4 < clen {
            return Err(RasterDecodeError::IoError);
        }
        if clen < 17 {
            return Err(RasterDecodeError::IoError);
        }
        let chunk = slice_subrange(data, pos + 4, pos + 4 + clen);
        proof {
            assert(chunk@ =~= rest.subrange(4, 4 + clen as int));
        }
        let cx = read_be32(chunk, 0);
        let cy = read_be32(chunk, 4);
        let cw = read_be32(chunk, 8);
        let ch = read_be32(chunk, 12);
        let fid = chunk[16];
        let filter = if fid == 1 {
            RasterFilter::Left
        } else if fid == 2 {
            RasterFilter::Up
        } else if fid == 3 {
            RasterFilter::Average
        } else if fid == 4 {
            RasterFilter::Paeth
        } else {
            RasterFilter::Plain
        };
        let payload = slice_subrange(chunk, 17, clen);
        proof {
            assert(payload@ =~= chunk@.skip(17));
        }
        let raw = match decompress_xz(payload) {
            Some(v) => v,
            None => {
                return Err(RasterDecodeError::IoError);
            },
        };
        let sz: u64 = match kind {
            SampleKind::UByte => 1,
            SampleKind::Byte => 1,
            SampleKind::Short => 2,
        };
        proof {
            assert((cw as int) * (ch as int) <= 0xFFFFFFFF * 0xFFFFFFFF && (cw as int) * (
            ch as int) >= 0) by (nonlinear_arith)
                requires
                    cw <= 0xFFFFFFFFu32,
                    ch <= 0xFFFFFFFFu32,
            ;
        }
        let total: u128 = (cw as u128) * (ch as u128) * (sz as u128);
        if (raw.len() as u128) < total {
            return Err(RasterDecodeError::IoError);
        }
        proof {
            vstd::std_specs::vec::axiom_spec_len(&raw);
            assert((cw as int) * (ch as int) * kind.byte_size() == total);
            assert((cw as int) * (ch as int) <= total) by (nonlinear_arith)
                requires
                    total == (cw as int) * (ch as int) * kind.byte_size(),
                    kind.byte_size() >= 1,
                    cw >= 0,
                    ch >= 0,
            ;
        }
        let chunk_raster = Raster::read(kind, cw, ch, &raw);
        let mut filtered = Raster::new(RasterFormat::empty(kind), cw, ch);
        filtered.zero();
        filter.apply_to_raster(&chunk_raster, &mut filtered);
        proof {
            let cwi = cw as int;
            let chi = ch as int;
            let samples = parse_samples(kind, raw@, cwi * chi);
            let grid = recon_grid(filter, kind, samples, cwi, chi);
            assert forall|ix: int| 0 <= ix < cwi * chi implies filtered.values()[ix] == grid[ix] by {
                assert(cwi > 0 && chi > 0) by (nonlinear_arith)
                    requires
                        0 <= ix < cwi * chi,
                        cwi >= 0,
                        chi >= 0,
                ;
                let gx = ix % cwi;
                let gy = ix / cwi;
                vstd::arithmetic::div_mod::lemma_fundamental_div_mod(ix, cwi);
                assert(0 <= gx < cwi) by {
                    vstd::arithmetic::div_mod::lemma_mod_division_less_than_divisor(ix, cwi);
                }
                assert(0 <= gy < chi) by (nonlinear_arith)
                    requires
                        0 <= ix < cwi * chi,
                        cwi > 0,
                        ix == cwi * gy + gx,
                        0 <= gx < cwi,
                ;
                assert(filtered.values()[gx + gy * cwi] == recon_xy(
                    filter,
                    kind,
                    samples,
                    cwi,
                    gx,
                    gy,
                ));
                assert(ix == gx + gy * cwi);
                assert(grid[ix] == recon_xy(filter, kind, samples, cwi, gx, gy));
                assert(filtered.values()[ix] == filtered.values()[gx + gy * cwi]);
            }
            assert(filtered.values() =~= grid);
        }
        let src_view = DataView { x: cx, y: cy, width: cw, height: ch };
        let dst_view = DataView { x: 0, y: 0, width: rw, height: rh };
        let ghost prev = raster.values();
        Raster::copy(&filtered, src_view, &mut raster, dst_view);
        proof {
            let cwi = cw as int;
            let chi = ch as int;
            let samples = parse_samples(kind, raw@, cwi * chi);
            let grid = recon_grid(filter, kind, samples, cwi, chi);
            assert(raster.values() == overlay(
                prev,
                rw as int,
                grid,
                cwi,
                chi,
                cx as int,
                cy as int,
            ));
            assert(data@.skip(pos as int + 4 + clen as int) =~= rest.skip(4 + clen as int));
            assert(be32(chunk@, 0) == cx && be32(chunk@, 4) == cy && be32(chunk@, 8) == cw
                && be32(chunk@, 12) == ch);
            assert(chunk@[16] == fid);
            assert(filter == filter_of_byte(fid));
            assert(xz_decompressed(chunk@.skip(17)) == Some(raw@));
            assert(spec_read_chunks(kind, rw as int, rh as int, prev, rest) == spec_read_chunks(
                kind,
                rw as int,
                rh as int,
                raster.values(),
                rest.skip(4 + clen as int),
            ));
        }
        pos = pos + 4 + clen;
    }
    proof {
        assert(data@.skip(pos as int) =~= Seq::<u8>::empty());
        assert(spec_read(data@) == Ok::<RasterModel, SpecDecodeError>(
            RasterModel {
                kind,
                width: rw as int,
                height: rh as int,
                samples: raster.values(),
            },
        ));
    }
    Ok(raster)
}

/// A big-endian 32-bit integer appended to `out`.
pub fn write_be32(out: &mut Vec<u8>, v: u32)
    ensures
        final(out)@.len() == old(out)@.len() + 4,
        forall|j: int| 0 <= j < old(out)@.len() ==> final(out)@[j] == old(out)@[j],
        be32(final(out)@, old(out)@.len() as int) == v,
{
    let b0 = ((v >> 24) & 0xff) as u8;
    let b1 = ((v >> 16) & 0xff) as u8;
    let b2 = ((v >> 8) & 0xff) as u8;
    let b3 = (v & 0xff) as u8;
    proof {
        assert(b0 * 0x1000000 + b1 * 0x10000 + b2 * 0x100 + b3 == v) by (bit_vector)
            requires
                b0 == ((v >> 24) & 0xff) as u8,
                b1 == ((v >> 16) & 0xff) as u8,
                b2 == ((v >> 8) & 0xff) as u8,
                b3 == (v & 0xff) as u8,
        ;
    }
    out.push(b0);
    out.push(b1);
    out.push(b2);
    out.push(b3);
}

/// The selector byte a sample kind is stored as.
pub fn kind_byte(k: SampleKind) -> (r: u8)
    ensures
        r <= 2,
        kind_of_byte(r) == k,
        k.byte_size() == if k is Short { 2int } else { 1int },
{
    match k {
        SampleKind::UByte => 0,
        SampleKind::Byte => 1,
        SampleKind::Short => 2,
    }
}

/// The id byte a filter is stored as.
pub fn filter_byte(f: RasterFilter) -> (r: u8)
    ensures
        filter_of_byte(r) == f,
{
    match f {
        RasterFilter::Plain => 0,
        RasterFilter::Left => 1,
        RasterFilter::Up => 2,
        RasterFilter::Average => 3,
        RasterFilter::Paeth => 4,
    }
}

/// Serialises a raster's samples as the raw byte stream a chunk holds:
/// one byte per 8-bit sample, two big-endian bytes per 16-bit sample.
pub fn samples_to_bytes(r: &Raster) -> (out: Vec<u8>)
    requires
        r.well_formed(),
        r.width * r.height * r.kind().byte_size() <= usize::MAX,
    ensures
        out@.len() == r.width * r.height * r.kind().byte_size(),
        parse_samples(r.kind(), out@, (r.width * r.height) as int) == r.values(),
{
    let count = (r.width as usize) * (r.height as usize);
    match &r.format {
        RasterFormat::UByte(v) => {
            let mut out: Vec<u8> = Vec::new();
            let mut i: usize = 0;
            while i < count
                invariant
                    i <= count,
                    count == v@.len(),
                    out@.len() == i,
                    forall|j: int| 0 <= j < i ==> out@[j] == v@[j],
                decreases count - i,
            {
                out.push(v[i]);
                i = i + 1;
            }
            proof {
                assert(parse_samples(r.kind(), out@, count as int) =~= r.values());
            }
            out
        },
        RasterFormat::Byte(v) => {
            let mut out: Vec<u8> = Vec::new();
            let mut i: usize = 0;
            while i < count
                invariant
                    i <= count,
                    count == v@.len(),
                    out@.len() == i,
                    forall|j: int| 0 <= j < i ==> signed8(#[trigger] out@[j] as int) == v@[j],
                decreases count - i,
            {
                let s = v[i];
                let b: u8 = if s >= 0 {
                    s as u8
                } else {
                    ((s as i32) + 256) as u8
                };
                out.push(b);
                i = i + 1;
            }
            proof {
                assert(parse_samples(r.kind(), out@, count as int) =~= r.values());
            }
            out
        },
        RasterFormat::Short(v) => {
            let mut out: Vec<u8> = Vec::new();
            let mut i: usize = 0;
            while i < count
                invariant
                    i <= count,
                    count == v@.len(),
                    count * 2 <= usize::MAX,
                    out@.len() == 2 * i,
                    forall|j: int|
                        0 <= j < i ==> signed16(
                            #[trigger] (out@[2 * j] * 256 + out@[2 * j + 1]),
                        ) == v@[j],
                decreases count - i,
            {
                let s = v[i];
                let u: u32 = if s >= 0 {
                    s as u32
                } else {
                    ((s as i32) + 65536) as u32
                };
                let hi = (u / 256) as u8;
                let lo = (u % 256) as u8;
                out.push(hi);
                out.push(lo);
                i = i + 1;
                proof {
                    assert(u < 65536);
                    assert(hi * 256 + lo == u);
                    assert(signed16(u as int) == s);
                    assert forall|j: int| 0 <= j < i implies signed16(
                        #[trigger] (out@[2 * j] * 256 + out@[2 * j + 1]),
                    ) == v@[j] by {}
                }
            }
            proof {
                assert(parse_samples(r.kind(), out@, count as int) =~= r.values());
            }
            out
        },
    }
}

/// Encodes a raster as one stream in the tile format: header, then a
/// single chunk covering the whole raster, filtered with `filter` and
/// xz-compressed. Returns nothing only if the compressor fails.
/// Decoding the produced stream yields back exactly the given raster.
#[verifier::rlimit(50)]
pub fn encode(raster: &Raster, filter: RasterFilter) -> (r: Option<Vec<u8>>)
    requires
        raster.well_formed(),
        raster.width * raster.height * raster.kind().byte_size() <= usize::MAX,
    ensures
        r matches Some(bytes) ==> spec_read(bytes@) matches Ok(m) && m.kind == raster.kind()
            && m.width == raster.width && m.height == raster.height && m.samples
            == raster.values(),
{
    let rw = raster.width;
    let rh = raster.height;
    let kind = raster.format.kind_of();
    let mut filtered = Raster::new(RasterFormat::empty(kind), rw, rh);
    filtered.zero();
    filter.unapply_to_raster(raster, &mut filtered);
    let payload_raw = samples_to_bytes(&filtered);
    let comp = match crate::compress::compress_xz_stream(payload_raw.as_slice(), 6) {
        Some(c) => c,
        None => {
            return None;
        },
    };
    if comp.len() > (u32::MAX as usize) - 17 {
        return None;
    }
    let clen: u32 = 17 + (comp.len() as u32);
    let kb = kind_byte(kind);
    let fb = filter_byte(filter);

    let mut out = signature();
    out.push(0);
    write_be32(&mut out, rw);
    write_be32(&mut out, rh);
    out.push(kb);
    write_be32(&mut out, clen);
    write_be32(&mut out, 0);
    write_be32(&mut out, 0);
    write_be32(&mut out, rw);
    write_be32(&mut out, rh);
    out.push(fb);
    let ghost head = out@;
    let mut comp_tail = comp;
    let ghost comp_bytes = comp_tail@;
    out.append(&mut comp_tail);

    proof {
        let d = out@;
        let n = d.len() as int;
        assert(head.len() == 47);
        assert(n == 47 + comp_bytes.len());
        assert(forall|j: int| 0 <= j < 47 ==> #[trigger] d[j] == head[j]);
        assert(forall|j: int| 47 <= j < n ==> #[trigger] d[j] == comp_bytes[j - 47]);
        assert(d.subrange(0, 16) =~= sig_seq());
        assert(d[16] == 0);
        assert(be32(d, 17) == rw && be32(d, 21) == rh);
        assert(d[25] == kb);
        let rest = d.skip(26);
        assert(rest.len() == 21 + comp_bytes.len());
        assert(forall|j: int| 0 <= j < rest.len() ==> #[trigger] rest[j] == d[26 + j]);
        assert(be32(rest, 0) == clen);
        assert(rest.len() - 4 == clen && clen >= 17);
        let chunk = rest.subrange(4, 4 + clen as int);
        assert(forall|j: int| 0 <= j < clen ==> #[trigger] chunk[j] == d[30 + j]);
        assert(be32(chunk, 0) == 0 && be32(chunk, 4) == 0 && be32(chunk, 8) == rw && be32(
            chunk,
            12,
        ) == rh);
        assert(chunk[16] == fb);
        assert(chunk.skip(17) =~= comp_bytes);
        assert(xz_decompressed(chunk.skip(17)) == Some(payload_raw@));
        let rwi = rw as int;
        let rhi = rh as int;
        let raw = payload_raw@;
        assert(raw.len() == rwi * rhi * kind.byte_size());
        let samples = parse_samples(kind, raw, rwi * rhi);
        assert(samples == filtered.values());
        let grid = recon_grid(filter, kind, samples, rwi, rhi);
        raster.format.lemma_values_in_range();
        assert forall|ix: int| 0 <= ix < rwi * rhi implies grid[ix] == raster.values()[ix] by {
            assert(rwi > 0 && rhi > 0) by (nonlinear_arith)
                requires
                    0 <= ix < rwi * rhi,
                    rwi >= 0,
                    rhi >= 0,
            ;
            let gx = ix % rwi;
            let gy = ix / rwi;
            vstd::arithmetic::div_mod::lemma_fundamental_div_mod(ix, rwi);
            assert(0 <= gx < rwi) by {
                vstd::arithmetic::div_mod::lemma_mod_division_less_than_divisor(ix, rwi);
            }
            assert(0 <= gy < rhi) by (nonlinear_arith)
                requires
                    0 <= ix < rwi * rhi,
                    rwi > 0,
                    ix == rwi * gy + gx,
                    0 <= gx < rwi,
            ;
            crate::filter::lemma_filter_round_trip(
                filter,
                kind,
                raster.values(),
                filtered.values(),
                rwi,
                rhi,
                gx,
                gy,
            );
            assert(ix == gx + gy * rwi);
            assert(grid[ix] == recon_xy(filter, kind, samples, rwi, gx, gy));
        }
        let zeros = Seq::new((rwi * rhi) as nat, |i: int| 0int);
        let cur2 = overlay(zeros, rwi, grid, rwi, rhi, 0, 0);
        assert forall|ix: int| 0 <= ix < rwi * rhi implies cur2[ix] == grid[ix] by {
            assert(rwi > 0 && rhi > 0) by (nonlinear_arith)
                requires
                    0 <= ix < rwi * rhi,
                    rwi >= 0,
                    rhi >= 0,
            ;
            let gx = ix % rwi;
            let gy = ix / rwi;
            vstd::arithmetic::div_mod::lemma_fundamental_div_mod(ix, rwi);
            assert(0 <= gx < rwi) by {
                vstd::arithmetic::div_mod::lemma_mod_division_less_than_divisor(ix, rwi);
            }
            assert(0 <= gy < rhi) by (nonlinear_arith)
                requires
                    0 <= ix < rwi * rhi,
                    rwi > 0,
                    ix == rwi * gy + gx,
                    0 <= gx < rwi,
            ;
            assert(ix == gx + gy * rwi);
        }
        assert(cur2 =~= raster.values());
        let tail = rest.skip(4 + clen as int);
        assert(tail =~= Seq::<u8>::empty());
        assert(rwi * rhi <= usize::MAX);
        assert(spec_read_chunks(kind, rwi, rhi, cur2, tail) == Ok::<
            RasterModel,
            SpecDecodeError,
        >(RasterModel { kind, width: rwi, height: rhi, samples: cur2 }));
        assert(spec_read_chunks(kind, rwi, rhi, zeros, rest) == spec_read_chunks(
            kind,
            rwi,
            rhi,
            cur2,
            tail,
        ));
        assert(spec_read(d) == spec_read_chunks(kind, rwi, rhi, zeros, rest));
    }
    Some(out)
}

} // verus!
