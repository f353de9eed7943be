use vstd::prelude::*;
use vstd::arithmetic::div_mod::{
    lemma_add_mod_noop_right, lemma_fundamental_div_mod_converse, lemma_small_mod,
};
use vstd::arithmetic::mul::lemma_mul_inequality;

verus! {

/// The three sample widths a raster can hold.
#[derive(Clone, Copy, PartialEq, Eq, Structural, Debug)]
pub enum SampleKind {
    UByte,
    Byte,
    Short,
}

impl SampleKind {
    /// Number of bytes one stored sample occupies.
    pub open spec fn byte_size(self) -> int {
        match self {
            SampleKind::UByte => 1,
            SampleKind::Byte => 1,
            SampleKind::Short => 2,
        }
    }

    /// Number of distinct values of the kind; samples live modulo this.
    pub open spec fn modulus(self) -> int {
        match self {
            SampleKind::UByte => 256,
            SampleKind::Byte => 256,
            SampleKind::Short => 65536,
        }
    }

    /// Offset from the lowest representable value to zero.
    pub open spec fn half_offset(self) -> int {
        match self {
            SampleKind::UByte => 0,
            SampleKind::Byte => 128,
            SampleKind::Short => 32768,
        }
    }
}

/// Whether `v` is representable as a sample of kind `k`.
pub open spec fn in_kind_range(k: SampleKind, v: int) -> bool {
    -k.half_offset() <= v < k.modulus() - k.half_offset()
}

/// The representable value congruent to `v` modulo the kind's width;
/// this is what storing an overflowing value leaves behind.
pub open spec fn wrap_kind(k: SampleKind, v: int) -> int {
    ((v + k.half_offset()) % k.modulus()) - k.half_offset()
}

pub proof fn lemma_wrap_kind_identity(k: SampleKind, v: int)
    requires
        in_kind_range(k, v),
    ensures
        wrap_kind(k, v) == v,
{
    lemma_small_mod((v + k.half_offset()) as nat, k.modulus() as nat);
}

/// Wrapping distributes over addition: wrapping an already wrapped value
/// shifted by `t` is the same as wrapping the unwrapped sum.
pub proof fn lemma_wrap_kind_add(k: SampleKind, v: int, t: int)
    ensures
        wrap_kind(k, wrap_kind(k, v) + t) == wrap_kind(k, v + t),
{
    let h = k.half_offset();
    let m = k.modulus();
    lemma_add_mod_noop_right(t, v + h, m);
    assert(wrap_kind(k, v) + t + h == t + (v + h) % m);
}

proof fn lemma_mod_bounds(x: int, m: int)
    requires
        m > 0,
    ensures
        0 <= x % m < m,
{
}

/// The sample buffer of a raster: one vector in the raster's fixed kind.
pub enum RasterFormat {
    UByte(Vec<u8>),
    Byte(Vec<i8>),
    Short(Vec<i16>),
}

impl RasterFormat {
    pub open spec fn kind(&self) -> SampleKind {
        match self {
            RasterFormat::UByte(_) => SampleKind::UByte,
            RasterFormat::Byte(_) => SampleKind::Byte,
            RasterFormat::Short(_) => SampleKind::Short,
        }
    }

    /// The stored samples as mathematical integers, in storage order.
    pub open spec fn values(&self) -> Seq<int> {
        match self {
            RasterFormat::UByte(v) => v@.map_values(|s: u8| s as int),
            RasterFormat::Byte(v) => v@.map_values(|s: i8| s as int),
            RasterFormat::Short(v) => v@.map_values(|s: i16| s as int),
        }
    }

    pub proof fn lemma_values_in_range(&self)
        ensures
            forall|i: int|
                0 <= i < self.values().len() ==> in_kind_range(self.kind(), #[trigger] self.values()[i]),
    {
    }

    /// The buffer fits in memory, so its length fits a machine word.
    pub proof fn lemma_len_bound(&self)
        ensures
            self.values().len() <= usize::MAX,
    {
        match self {
            RasterFormat::UByte(v) => vstd::std_specs::vec::axiom_spec_len(v),
            RasterFormat::Byte(v) => vstd::std_specs::vec::axiom_spec_len(v),
            RasterFormat::Short(v) => vstd::std_specs::vec::axiom_spec_len(v),
        }
    }

    /// An empty buffer of the given kind.
    pub fn empty(kind: SampleKind) -> (r: RasterFormat)
        ensures
            r.kind() == kind,
            r.values().len() == 0,
    {
        match kind {
            SampleKind::UByte => RasterFormat::UByte(Vec::new()),
            SampleKind::Byte => RasterFormat::Byte(Vec::new()),
            SampleKind::Short => RasterFormat::Short(Vec::new()),
        }
    }

    /// A buffer of `n` zero samples of the given kind.
    pub fn zeroed(kind: SampleKind, n: usize) -> (r: RasterFormat)
        ensures
            r.kind() == kind,
            r.values() == Seq::new(n as nat, |i: int| 0int),
    {
        match kind {
            SampleKind::UByte => {
                let mut v: Vec<u8> = Vec::new();
                let mut i: usize = 0;
                while i < n
                    invariant
                        i <= n,
                        v@.len() == i,
                        forall|j: int| 0 <= j < i ==> v@[j] == 0u8,
                    decreases n - i,
                {
                    v.push(0u8);
                    i = i + 1;
                }
                let r = RasterFormat::UByte(v);
                proof {
                    assert(r.values() =~= Seq::new(n as nat, |i: int| 0int));
                }
                r
            },
            SampleKind::Byte => {
                let mut v: Vec<i8> = Vec::new();
                let mut i: usize = 0;
                while i < n
                    invariant
                        i <= n,
                        v@.len() == i,
                        forall|j: int| 0 <= j < i ==> v@[j] == 0i8,
                    decreases n - i,
                {
                    v.push(0i8);
                    i = i + 1;
                }
                let r = RasterFormat::Byte(v);
                proof {
                    assert(r.values() =~= Seq::new(n as nat, |i: int| 0int));
                }
                r
            },
            SampleKind::Short => {
                let mut v: Vec<i16> = Vec::new();
                let mut i: usize = 0;
                while i < n
                    invariant
                        i <= n,
                        v@.len() == i,
                        forall|j: int| 0 <= j < i ==> v@[j] == 0i16,
                    decreases n - i,
                {
                    v.push(0i16);
                    i = i + 1;
                }
                let r = RasterFormat::Short(v);
                proof {
                    assert(r.values() =~= Seq::new(n as nat, |i: int| 0int));
                }
                r
            },
        }
    }

    /// The kind of this buffer, as a runtime value.
    pub fn kind_of(&self) -> (k: SampleKind)
        ensures
            k == self.kind(),
    {
        match self {
            RasterFormat::UByte(_) => SampleKind::UByte,
            RasterFormat::Byte(_) => SampleKind::Byte,
            RasterFormat::Short(_) => SampleKind::Short,
        }
    }

    /// Reads the sample at `i`, widened to a machine integer.
    pub fn get_at(&self, i: usize) -> (r: i32)
        requires
            i < self.values().len(),
        ensures
            r == self.values()[i as int],
            in_kind_range(self.kind(), r as int),
    {
        match self {
            RasterFormat::UByte(v) => v[i] as i32,
            RasterFormat::Byte(v) => v[i] as i32,
            RasterFormat::Short(v) => v[i] as i32,
        }
    }

    /// Stores `val` at `i`, wrapping it into the kind's range.
    pub fn set_at(&mut self, i: usize, val: i32)
        requires
            i < old(self).values().len(),
        ensures
            final(self).kind() == old(self).kind(),
            final(self).values() == old(self).values().update(i as int, wrap_kind(old(self).kind(), val as int)),
    {
        match self {
            RasterFormat::UByte(v) => {
                let b = wrap_to_u8(val);
                v.set(i, b);
                proof {
                    assert(self.values() =~= old(self).values().update(
                        i as int,
                        wrap_kind(SampleKind::UByte, val as int),
                    ));
                }
            },
            RasterFormat::Byte(v) => {
                let b = wrap_to_i8(val);
                v.set(i, b);
                proof {
                    assert(self.values() =~= old(self).values().update(
                        i as int,
                        wrap_kind(SampleKind::Byte, val as int),
                    ));
                }
            },
            RasterFormat::Short(v) => {
                let b = wrap_to_i16(val);
                v.set(i, b);
                proof {
                    assert(self.values() =~= old(self).values().update(
                        i as int,
                        wrap_kind(SampleKind::Short, val as int),
                    ));
                }
            },
        }
    }

    /// Copies `len` samples from `src` starting at `src_idx` into `dst`
    /// starting at `dst_idx`. Both buffers must hold the same kind.
    pub fn copy(src: &RasterFormat, src_idx: usize, dst: &mut RasterFormat, dst_idx: usize, len: usize)
        requires
            src.kind() == old(dst).kind(),
            src_idx + len <= src.values().len(),
            dst_idx + len <= old(dst).values().len(),
        ensures
            final(dst).kind() == old(dst).kind(),
            final(dst).values().len() == old(dst).values().len(),
            forall|j: int|
                0 <= j < old(dst).values().len() ==> #[trigger] final(dst).values()[j] == if dst_idx <= j
                    < dst_idx + len {
                    src.values()[j - dst_idx + src_idx]
                } else {
                    old(dst).values()[j]
                },
    {
        let mut i: usize = 0;
        while i < len
            invariant
                src.kind() == dst.kind(),
                dst.kind() == old(dst).kind(),
                i <= len,
                src_idx + len <= src.values().len(),
                dst_idx + len <= old(dst).values().len(),
                dst.values().len() == old(dst).values().len(),
                forall|j: int|
                    0 <= j < old(dst).values().len() ==> #[trigger] dst.values()[j] == if dst_idx <= j
                        < dst_idx + i {
                        src.values()[j - dst_idx + src_idx]
                    } else {
                        old(dst).values()[j]
                    },
            decreases len - i,
        {
            proof {
                src.lemma_len_bound();
                dst.lemma_len_bound();
            }
            let val = src.get_at(src_idx + i);
            proof {
                lemma_wrap_kind_identity(dst.kind(), val as int);
            }
            dst.set_at(dst_idx + i, val);
            i = i + 1;
        }
    }
}

/// A sub-rectangle of a raster: placement and extent in pixels.
#[derive(Clone, Copy, PartialEq, Eq, Structural, Debug)]
pub struct DataView {
    pub x: u32,
    pub y: u32,
    pub width: u32,
    pub height: u32,
}

/// How a byte of the stream reads as a signed 8-bit sample.
pub open spec fn signed8(b: int) -> int {
    if b < 128 {
        b
    } else {
        b - 256
    }
}

/// How a big-endian byte pair reads as a signed 16-bit sample.
pub open spec fn signed16(v: int) -> int {
    if v < 32768 {
        v
    } else {
        v - 65536
    }
}

/// The `i`-th sample of kind `k` in a raw (decompressed) byte stream.
pub open spec fn sample_at(k: SampleKind, bytes: Seq<u8>, i: int) -> int {
    match k {
        SampleKind::UByte => bytes[i] as int,
        SampleKind::Byte => signed8(bytes[i] as int),
        SampleKind::Short => signed16(bytes[2 * i] * 256 + bytes[2 * i + 1]),
    }
}

/// The first `count` samples of kind `k` read from a raw byte stream.
pub open spec fn parse_samples(k: SampleKind, bytes: Seq<u8>, count: int) -> Seq<int> {
    Seq::new(count as nat, |i: int| sample_at(k, bytes, i))
}

/// A decoded elevation tile: a grid of samples at one fixed kind.
pub struct Raster {
    pub format: RasterFormat,
    pub width: u32,
    pub height: u32,
}

/// The values of `dst` (a `dw`-wide row-major grid) after the grid `src`
/// (`sw` wide, `sh` high) is laid over it with its origin at `(cx, cy)`;
/// any part of `src` outside `dst` is discarded.
pub open spec fn overlay(
    dst: Seq<int>,
    dw: int,
    src: Seq<int>,
    sw: int,
    sh: int,
    cx: int,
    cy: int,
) -> Seq<int> {
    Seq::new(
        dst.len(),
        |i: int|
            {
                let gx = i % dw;
                let gy = i / dw;
                if cx <= gx < cx + sw && cy <= gy < cy + sh {
                    src[(gx - cx) + (gy - cy) * sw]
                } else {
                    dst[i]
                }
            },
    )
}

impl Raster {
    pub open spec fn kind(&self) -> SampleKind {
        self.format.kind()
    }

    pub open spec fn values(&self) -> Seq<int> {
        self.format.values()
    }

    /// The sample buffer covers the full `width * height` grid.
    pub open spec fn well_formed(&self) -> bool {
        &&& self.format.values().len() == self.width * self.height
        &&& self.width * self.height <= usize::MAX
    }

    pub fn new(format: RasterFormat, width: u32, height: u32) -> (r: Raster)
        ensures
            r.format == format,
            r.width == width,
            r.height == height,
    {
        Raster { format, width, height }
    }

    /// Reads the sample at `(x, y)`, widened to a machine integer.
    pub fn get(&self, x: u32, y: u32) -> (r: i32)
        requires
            self.well_formed(),
            x < self.width,
            y < self.height,
        ensures
            r == self.values()[x + y * self.width],
            in_kind_range(self.kind(), r as int),
    {
        proof {
            lemma_row_major_bound(x as int, y as int, self.width as int, self.height as int);
        }
        let index = (x as usize) + (y as usize) * (self.width as usize);
        self.format.get_at(index)
    }

    /// Replaces the buffer with `width * height` zero samples of the same kind.
    pub fn zero(&mut self)
        requires
            old(self).width * old(self).height <= usize::MAX,
        ensures
            final(self).width == old(self).width,
            final(self).height == old(self).height,
            final(self).kind() == old(self).kind(),
            final(self).values() == Seq::new(
                (old(self).width * old(self).height) as nat,
                |i: int| 0int,
            ),
            final(self).well_formed(),
    {
        let size = (self.width as usize) * (self.height as usize);
        let kind = self.format.kind_of();
        self.format = RasterFormat::zeroed(kind, size);
    }

    /// Stores `val` at `(x, y)`, wrapping it into the kind's range.
    pub fn set(&mut self, x: u32, y: u32, val: i32)
        requires
            old(self).well_formed(),
            x < old(self).width,
            y < old(self).height,
        ensures
            final(self).width == old(self).width,
            final(self).height == old(self).height,
            final(self).kind() == old(self).kind(),
            final(self).values() == old(self).values().update(
                x + y * old(self).width,
                wrap_kind(old(self).kind(), val as int),
            ),
            final(self).well_formed(),
    {
        proof {
            lemma_row_major_bound(x as int, y as int, self.width as int, self.height as int);
        }
        let index = (x as usize) + (y as usize) * (self.width as usize);
        self.format.set_at(index, val);
    }

    /// Copies the part of `src` that lands inside `dst` when `src` is
    /// placed at `src_view`'s origin relative to `dst_view`'s; everything
    /// outside the bounds is silently discarded.
    pub fn copy(src: &Raster, src_view: DataView, dst: &mut Raster, dst_view: DataView)
        requires
            src.well_formed(),
            old(dst).well_formed(),
            src.kind() == old(dst).kind(),
            src_view.width == src.width,
            src_view.height == src.height,
            dst_view.width == old(dst).width,
            dst_view.height == old(dst).height,
        ensures
            final(dst).width == old(dst).width,
            final(dst).height == old(dst).height,
            final(dst).kind() == old(dst).kind(),
            final(dst).well_formed(),
            final(dst).values() == overlay(
                old(dst).values(),
                old(dst).width as int,
                src.values(),
                src.width as int,
                src.height as int,
                src_view.x - dst_view.x,
                src_view.y - dst_view.y,
            ),
    {
        let sx = src_view.x as i64;
        let sy = src_view.y as i64;
        let dx = dst_view.x as i64;
        let dy = dst_view.y as i64;
        let sw = src.width as i64;
        let sh = src.height as i64;
        let dw = dst.width as i64;
        let dh = dst.height as i64;
        let cx = sx - dx;
        let cy = sy - dy;
        let lo_x: i64 = if dx > sx {
            dx - sx
        } else {
            0
        };
        let lo_y: i64 = if dy > sy {
            dy - sy
        } else {
            0
        };
        let hi_x: i64 = i64_min(sw, dx + dw - sx);
        let hi_y: i64 = i64_min(sh, dy + dh - sy);
        let ghost goal = overlay(
            old(dst).values(),
            dw as int,
            src.values(),
            sw as int,
            sh as int,
            cx as int,
            cy as int,
        );

        if lo_x < hi_x && lo_y < hi_y {
            let mut ly: i64 = lo_y;
            while ly < hi_y
                invariant
                    dst.width == old(dst).width,
                    dst.height == old(dst).height,
                    dst.kind() == old(dst).kind(),
                    dst.well_formed(),
                    src.well_formed(),
                    src.kind() == old(dst).kind(),
                    sw == src.width && sh == src.height && dw == dst.width && dh == dst.height,
                    cx == src_view.x - dst_view.x && cy == src_view.y - dst_view.y,
                    lo_x == if cx < 0 { -cx } else { 0 },
                    lo_y == if cy < 0 { -cy } else { 0 },
                    hi_x == if sw <= dw - cx { sw as int } else { dw - cx },
                    hi_y == if sh <= dh - cy { sh as int } else { dh - cy },
                    0 <= lo_x < hi_x <= sw,
                    0 <= lo_y <= ly <= hi_y <= sh,
                    dst.values().len() == old(dst).values().len(),
                    forall|i: int|
                        0 <= i < old(dst).values().len() ==> #[trigger] dst.values()[i] == ({
                            let gx = i % (dw as int);
                            let gy = i / (dw as int);
                            if cx <= gx < cx + sw && cy <= gy < cy + sh && gy < cy + ly {
                                src.values()[(gx - cx) + (gy - cy) * sw]
                            } else {
                                old(dst).values()[i]
                            }
                        }),
                decreases hi_y - ly,
            {
                let row_len = (hi_x - lo_x) as usize;
                let gy = cy + ly;
                proof {
                    assert(0 <= gy < dh);
                    assert(0 <= cx + lo_x);
                    assert(0 <= ly * sw && lo_x + ly * sw + (hi_x - lo_x) <= sw * sh)
                        by (nonlinear_arith)
                        requires
                            0 <= ly <= sh - 1,
                            0 <= lo_x,
                            hi_x <= sw,
                            0 < sw,
                    ;
                    assert(0 <= gy * dw && cx + lo_x + gy * dw + (hi_x - lo_x) <= dw * dh)
                        by (nonlinear_arith)
                        requires
                            0 <= gy <= dh - 1,
                            0 <= cx + lo_x,
                            cx + hi_x <= dw,
                            lo_x <= hi_x,
                            0 < dw,
                    ;
                    assert(sw * sh == src.values().len());
                    assert(dw * dh == dst.values().len());
                }
                let src_off = (lo_x as usize) + (ly as usize) * (sw as usize);
                let dst_off = ((cx + lo_x) as usize) + (gy as usize) * (dw as usize);
                proof {
                    assert(src_off == lo_x + ly * sw);
                    assert(dst_off == (cx + lo_x) + gy * dw);
                }
                let ghost prev = dst.values();
                RasterFormat::copy(&src.format, src_off, &mut dst.format, dst_off, row_len);
                proof {
                    assert forall|i: int| 0 <= i < old(dst).values().len() implies #[trigger] dst.values()[i]
                        == ({
                        let gxi = i % (dw as int);
                        let gyi = i / (dw as int);
                        if cx <= gxi < cx + sw && cy <= gyi < cy + sh && gyi < cy + (ly + 1) {
                            src.values()[(gxi - cx) + (gyi - cy) * sw]
                        } else {
                            old(dst).values()[i]
                        }
                    }) by {
                        let gxi = i % (dw as int);
                        let gyi = i / (dw as int);
                        vstd::arithmetic::div_mod::lemma_fundamental_div_mod(i, dw as int);
                        lemma_mod_bounds(i, dw as int);
                        assert(0 <= gyi < dh) by (nonlinear_arith)
                            requires
                                0 <= i < dw * dh,
                                dw > 0,
                                i == gyi * dw + gxi,
                                0 <= gxi < dw,
                        ;
                        if dst_off <= i < dst_off + row_len {
                            // the row just written
                            let gx2 = (i - dst_off) + (cx + lo_x);
                            assert(i == gx2 + (gy as int) * (dw as int));
                            lemma_row_major_coords(gx2, gy as int, dw as int);
                            assert(gxi == gx2 && gyi == gy);
                            assert(dst.values()[i] == src.values()[i - dst_off + src_off]);
                            assert(i - dst_off + src_off == (gxi - cx) + (gyi - cy) * sw);
                        } else {
                            assert(dst.values()[i] == prev[i]);
                            // a pixel of the current row is inside the window
                            if gyi == gy && cx <= gxi < cx + sw {
                                assert(cx + lo_x <= gxi < cx + hi_x);
                                assert(i == gyi * dw + gxi);
                                assert(dst_off <= i < dst_off + row_len);
                                assert(false);
                            }
                        }
                    }
                }
                ly = ly + 1;
            }
            proof {
                assert forall|i: int| 0 <= i < old(dst).values().len() implies #[trigger] dst.values()[i]
                    == goal[i] by {
                    let gxi = i % (dw as int);
                    let gyi = i / (dw as int);
                    vstd::arithmetic::div_mod::lemma_fundamental_div_mod(i, dw as int);
                    lemma_mod_bounds(i, dw as int);
                    assert(0 <= gyi < dh) by (nonlinear_arith)
                        requires
                            0 <= i < dw * dh,
                            dw > 0,
                            i == gyi * dw + gxi,
                            0 <= gxi < dw,
                    ;
                }
                assert(dst.values() =~= goal);
            }
        } else {
            proof {
                assert forall|i: int| 0 <= i < old(dst).values().len() implies old(dst).values()[i]
                    == goal[i] by {
                    let gxi = i % (dw as int);
                    let gyi = i / (dw as int);
                    vstd::arithmetic::div_mod::lemma_fundamental_div_mod(i, dw as int);
                    lemma_mod_bounds(i, dw as int);
                    assert(0 <= gyi < dh) by (nonlinear_arith)
                        requires
                            0 <= i < dw * dh,
                            dw > 0,
                            i == gyi * dw + gxi,
                            0 <= gxi < dw,
                    ;
                }
                assert(dst.values() =~= goal);
            }
        }
    }

    /// Decodes `width * height` raw samples of kind `kind` from the start
    /// of a decompressed chunk payload.
    pub fn read(kind: SampleKind, width: u32, height: u32, bytes: &Vec<u8>) -> (r: Raster)
        requires
            width * height * kind.byte_size() <= bytes@.len(),
            width * height <= usize::MAX,
        ensures
            r.width == width,
            r.height == height,
            r.kind() == kind,
            r.values() == parse_samples(kind, bytes@, (width * height) as int),
            r.well_formed(),
    {
        let count = (width as usize) * (height as usize);
        let format = match kind {
            SampleKind::UByte => {
                let mut v: Vec<u8> = Vec::new();
                let mut i: usize = 0;
                while i < count
                    invariant
                        i <= count,
                        count <= bytes@.len(),
                        v@.len() == i,
                        forall|j: int| 0 <= j < i ==> v@[j] as int == sample_at(SampleKind::UByte, bytes@, j),
                    decreases count - i,
                {
                    v.push(bytes[i]);
                    i = i + 1;
                }
                RasterFormat::UByte(v)
            },
            SampleKind::Byte => {
                let mut v: Vec<i8> = Vec::new();
                let mut i: usize = 0;
                while i < count
                    invariant
                        i <= count,
                        count <= bytes@.len(),
                        v@.len() == i,
                        forall|j: int| 0 <= j < i ==> v@[j] as int == sample_at(SampleKind::Byte, bytes@, j),
                    decreases count - i,
                {
                    let b = bytes[i];
                    let s: i8 = if b < 128 {
                        b as i8
                    } else {
                        ((b as i32) - 256) as i8
                    };
                    v.push(s);
                    i = i + 1;
                }
                RasterFormat::Byte(v)
            },
            SampleKind::Short => {
                let mut v: Vec<i16> = Vec::new();
                let mut i: usize = 0;
                while i < count
                    invariant
                        i <= count,
                        2 * count <= bytes@.len(),
                        v@.len() == i,
                        forall|j: int| 0 <= j < i ==> v@[j] as int == sample_at(SampleKind::Short, bytes@, j),
                    decreases count - i,
                {
                    proof {
                        vstd::std_specs::vec::axiom_spec_len(bytes);
                    }
                    let hi = bytes[2 * i];
                    let lo = bytes[2 * i + 1];
                    let u: u32 = (hi as u32) * 256 + (lo as u32);
                    let s: i16 = if u < 32768 {
                        u as i16
                    } else {
                        ((u as i32) - 65536) as i16
                    };
                    v.push(s);
                    i = i + 1;
                }
                RasterFormat::Short(v)
            },
        };
        let r = Raster { format, width, height };
        proof {
            assert(r.values() =~= parse_samples(kind, bytes@, (width * height) as int));
        }
        r
    }
}

/// The smaller of two signed machine integers.
pub fn i64_min(a: i64, b: i64) -> (r: i64)
    ensures
        r == if a < b { a as int } else { b as int },
{
    if a < b {
        a
    } else {
        b
    }
}

/// A row-major index lies within the grid.
pub proof fn lemma_row_major_bound(x: int, y: int, w: int, h: int)
    by (nonlinear_arith)
    requires
        0 <= x < w,
        0 <= y < h,
    ensures
        0 <= x + y * w < w * h,
{
}

/// A flat index of an `h`-by-`w` row-major grid splits into its row and
/// column.
pub proof fn lemma_index_decompose(ix: int, w: int, h: int)
    requires
        0 <= ix < h * w,
        w > 0,
    ensures
        0 <= ix % w < w,
        0 <= ix / w < h,
        ix == (ix / w) * w + (ix % w),
{
    vstd::arithmetic::div_mod::lemma_fundamental_div_mod(ix, w);
    vstd::arithmetic::div_mod::lemma_mod_division_less_than_divisor(ix, w);
    assert((ix / w) * w == w * (ix / w)) by (nonlinear_arith);
    assert(0 <= ix / w < h) by (nonlinear_arith)
        requires
            0 <= ix < h * w,
            w > 0,
            ix == w * (ix / w) + ix % w,
            0 <= ix % w < w,
    ;
}

/// Row-major index arithmetic: the coordinates of `x + y * w` are `(x, y)`.
pub proof fn lemma_row_major_coords(x: int, y: int, w: int)
    requires
        0 <= x < w,
        0 <= y,
    ensures
        (x + y * w) % w == x,
        (x + y * w) / w == y,
{
    lemma_fundamental_div_mod_converse(x + y * w, w, y, x);
}

/// The representable value congruent to `val` modulo 256, as a `u8`.
pub fn wrap_to_u8(val: i32) -> (r: u8)
    ensures
        r == wrap_kind(SampleKind::UByte, val as int),
{
    let r = ((val as u32) & 0xff) as u8;
    proof {
        assert(r == val % 256) by (bit_vector)
            requires
                r == ((val as u32) & 0xff) as u8,
        ;
    }
    r
}

/// The representable value congruent to `val` modulo 256, as an `i8`.
pub fn wrap_to_i8(val: i32) -> (r: i8)
    ensures
        r == wrap_kind(SampleKind::Byte, val as int),
{
    let r = ((val as u32) & 0xff) as u8 as i8;
    proof {
        assert(r == ((val + 128) % 256) - 128) by (bit_vector)
            requires
                r == ((val as u32) & 0xff) as u8 as i8,
        ;
    }
    r
}

/// The representable value congruent to `val` modulo 65536, as an `i16`.
pub fn wrap_to_i16(val: i32) -> (r: i16)
    ensures
        r == wrap_kind(SampleKind::Short, val as int),
{
    let r = ((val as u32) & 0xffff) as u16 as i16;
    proof {
        assert(r == ((val + 32768) % 65536) - 32768) by (bit_vector)
            requires
                r == ((val as u32) & 0xffff) as u16 as i16,
        ;
    }
    r
}

} // verus!
