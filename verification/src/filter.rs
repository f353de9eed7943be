use vstd::prelude::*;
use crate::raster::{
    in_kind_range, lemma_wrap_kind_add, lemma_wrap_kind_identity, wrap_kind, Raster, SampleKind,
};

verus! {

/// The five PNG-style predictive filters a chunk can be stored with.
#[derive(Clone, Copy, PartialEq, Eq, Structural, Debug)]
pub enum RasterFilter {
    Plain,
    Left,
    Up,
    Average,
    Paeth,
}

/// Integer division by two that rounds towards zero, as `/` does on
/// machine integers.
pub open spec fn div2_towards_zero(v: int) -> int {
    if v >= 0 {
        v / 2
    } else {
        -((-v) / 2)
    }
}

pub open spec fn spec_abs(v: int) -> int {
    if v < 0 {
        -v
    } else {
        v
    }
}

/// The Paeth predictor: whichever of `a`, `b`, `c` lies closest to
/// `a + b - c`, preferring `a`, then `b`, then `c` on ties.
pub open spec fn paeth_predictor(a: int, b: int, c: int) -> int {
    let p = a + b - c;
    let delta_a = spec_abs(a - p);
    let delta_b = spec_abs(b - p);
    let delta_c = spec_abs(c - p);
    if delta_a <= delta_b && delta_a <= delta_c {
        a
    } else if delta_b <= delta_c {
        b
    } else {
        c
    }
}

/// What each filter adds to a raw value during reconstruction, given the
/// reconstructed left, up and up-left neighbours.
pub open spec fn spec_predictor(f: RasterFilter, a: int, b: int, c: int) -> int {
    match f {
        RasterFilter::Plain => 0,
        RasterFilter::Left => a,
        RasterFilter::Up => b,
        RasterFilter::Average => div2_towards_zero(a + b),
        RasterFilter::Paeth => paeth_predictor(a, b, c),
    }
}

/// A reconstructed value: the raw filtered value plus the predictor.
pub open spec fn spec_apply(f: RasterFilter, x: int, a: int, b: int, c: int) -> int {
    x + spec_predictor(f, a, b, c)
}

impl RasterFilter {
    /// Reconstructs one value from its raw filtered value `x` and the
    /// already reconstructed neighbours `a` (left), `b` (up), `c` (up-left).
    pub fn apply(&self, x: i32, a: i32, b: i32, c: i32) -> (r: i32)
        requires
            -65536 <= x <= 65536,
            -65536 <= a <= 65536,
            -65536 <= b <= 65536,
            -65536 <= c <= 65536,
        ensures
            r == spec_apply(*self, x as int, a as int, b as int, c as int),
    {
        match self {
            RasterFilter::Plain => x,
            RasterFilter::Left => x + a,
            RasterFilter::Up => x + b,
            RasterFilter::Average => {
                let s = a + b;
                let half = if s >= 0 {
                    s / 2
                } else {
                    -((-s) / 2)
                };
                x + half
            },
            RasterFilter::Paeth => {
                let p = a + b - c;
                let delta_a = abs_i32(a - p);
                let delta_b = abs_i32(b - p);
                let delta_c = abs_i32(c - p);

                if delta_a <= delta_b && delta_a <= delta_c {
                    x + a
                } else if delta_b <= delta_c {
                    x + b
                } else {
                    x + c
                }
            },
        }
    }

    /// Reconstructs every pixel of `input` (the raw filtered chunk) into
    /// `output`, scanning rows top to bottom and left to right.
    pub fn apply_to_raster(&self, input: &Raster, output: &mut Raster)
        requires
            input.well_formed(),
            old(output).well_formed(),
            input.kind() == old(output).kind(),
            input.width == old(output).width,
            input.height == old(output).height,
        ensures
            final(output).width == old(output).width,
            final(output).height == old(output).height,
            final(output).kind() == old(output).kind(),
            final(output).well_formed(),
            forall|x: int, y: int|
                0 <= x < input.width && 0 <= y < input.height
                    ==> #[trigger] final(output).values()[x + y * input.width] == recon_xy(
                    *self,
                    input.kind(),
                    input.values(),
                    input.width as int,
                    x,
                    y,
                ),
    {
        let w = input.width;
        let h = input.height;
        let ghost k = input.kind();
        let ghost inp = input.values();
        let mut y: u32 = 0;
        while y < h
            invariant
                input.well_formed(),
                output.well_formed(),
                input.kind() == output.kind(),
                output.kind() == old(output).kind(),
                output.width == old(output).width,
                output.height == old(output).height,
                w == input.width && h == input.height,
                w == output.width && h == output.height,
                k == input.kind(),
                inp == input.values(),
                y <= h,
                forall|xi: int, yi: int|
                    0 <= xi < w && 0 <= yi < y
                        ==> #[trigger] output.values()[xi + yi * w] == recon_xy(
                        *self,
                        k,
                        inp,
                        w as int,
                        xi,
                        yi,
                    ),
            decreases h - y,
        {
            let mut x: u32 = 0;
            while x < w
                invariant
                    input.well_formed(),
                    output.well_formed(),
                    input.kind() == output.kind(),
                    output.kind() == old(output).kind(),
                    output.width == old(output).width,
                    output.height == old(output).height,
                    w == input.width && h == input.height,
                    w == output.width && h == output.height,
                    k == input.kind(),
                    inp == input.values(),
                    y < h,
                    x <= w,
                    forall|xi: int, yi: int|
                        0 <= xi < w && 0 <= yi < y
                            ==> #[trigger] output.values()[xi + yi * w] == recon_xy(
                            *self,
                            k,
                            inp,
                            w as int,
                            xi,
                            yi,
                        ),
                    forall|xi: int|
                        0 <= xi < x
                            ==> #[trigger] output.values()[xi + y * w] == recon_xy(
                            *self,
                            k,
                            inp,
                            w as int,
                            xi,
                            y as int,
                        ),
                decreases w - x,
            {
                let value = input.get(x, y);
                let a = if x > 0 {
                    output.get(x - 1, y)
                } else {
                    0
                };
                let b = if y > 0 {
                    output.get(x, y - 1)
                } else {
                    0
                };
                let c = if x > 0 && y > 0 {
                    output.get(x - 1, y - 1)
                } else {
                    0
                };
                proof {
                    lemma_kind_range_small(k, value as int);
                    lemma_kind_range_small(k, a as int);
                    lemma_kind_range_small(k, b as int);
                    lemma_kind_range_small(k, c as int);
                }
                let v = self.apply(value, a, b, c);
                let ghost before = output.values();
                output.set(x, y, v);
                proof {
                    let wi = w as int;
                    let xi = x as int;
                    let yi = y as int;
                    crate::raster::lemma_row_major_bound(xi, yi, wi, h as int);
                    assert(output.values() == before.update(
                        xi + yi * wi,
                        wrap_kind(k, v as int),
                    ));
                    if x > 0 {
                        assert(a == before[(xi - 1) + yi * wi]);
                        assert(before[(xi - 1) + yi * wi] == recon_xy(*self, k, inp, wi, xi - 1, yi));
                    }
                    if y > 0 {
                        assert(b == before[xi + (yi - 1) * wi]);
                        assert(before[xi + (yi - 1) * wi] == recon_xy(*self, k, inp, wi, xi, yi - 1));
                    }
                    if x > 0 && y > 0 {
                        assert(c == before[(xi - 1) + (yi - 1) * wi]);
                        assert(before[(xi - 1) + (yi - 1) * wi] == recon_xy(
                            *self,
                            k,
                            inp,
                            wi,
                            xi - 1,
                            yi - 1,
                        ));
                    }
                    assert(v == spec_apply(*self, inp[xi + yi * wi], a as int, b as int, c as int));
                    assert(output.values()[xi + yi * wi] == recon_xy(
                        *self,
                        k,
                        inp,
                        wi,
                        xi,
                        yi,
                    ));
                    assert forall|x2: int, y2: int|
                        0 <= x2 < w && 0 <= y2 < y implies #[trigger] output.values()[x2 + y2 * wi]
                        == recon_xy(*self, k, inp, wi, x2, y2) by {
                        lemma_cell_ne(x2, y2, xi, yi, wi);
                        crate::raster::lemma_row_major_bound(x2, y2, wi, h as int);
                        assert(before[x2 + y2 * wi] == recon_xy(*self, k, inp, wi, x2, y2));
                        assert(output.values()[x2 + y2 * wi] == before[x2 + y2 * wi]);
                    }
                    assert forall|x2: int|
                        0 <= x2 < x + 1 implies #[trigger] output.values()[x2 + yi * wi] == recon_xy(
                        *self,
                        k,
                        inp,
                        wi,
                        x2,
                        yi,
                    ) by {
                        if x2 < x {
                            lemma_cell_ne(x2, yi, xi, yi, wi);
                            crate::raster::lemma_row_major_bound(x2, yi, wi, h as int);
                            assert(before[x2 + yi * wi] == recon_xy(*self, k, inp, wi, x2, yi));
                            assert(output.values()[x2 + yi * wi] == before[x2 + yi * wi]);
                        }
                    }
                }
                x = x + 1;
            }
            y = y + 1;
        }
    }
}

/// The raw filtered value a chunk pixel `(x, y)` is stored as: the
/// original value minus the predictor over the original neighbours,
/// wrapped into the sample kind.
pub open spec fn filtered_at(
    f: RasterFilter,
    k: SampleKind,
    orig: Seq<int>,
    w: int,
    x: int,
    y: int,
) -> int {
    let a = if x > 0 {
        orig[(x - 1) + y * w]
    } else {
        0
    };
    let b = if y > 0 {
        orig[x + (y - 1) * w]
    } else {
        0
    };
    let c = if x > 0 && y > 0 {
        orig[(x - 1) + (y - 1) * w]
    } else {
        0
    };
    wrap_kind(k, orig[x + y * w] - spec_predictor(f, a, b, c))
}

impl RasterFilter {
    /// Filters every pixel of `input` (an original tile) into `output`,
    /// producing the raw values a chunk stores for this filter.
    pub fn unapply_to_raster(&self, input: &Raster, output: &mut Raster)
        requires
            input.well_formed(),
            old(output).well_formed(),
            input.kind() == old(output).kind(),
            input.width == old(output).width,
            input.height == old(output).height,
        ensures
            final(output).width == old(output).width,
            final(output).height == old(output).height,
            final(output).kind() == old(output).kind(),
            final(output).well_formed(),
            forall|x: int, y: int|
                0 <= x < input.width && 0 <= y < input.height
                    ==> #[trigger] final(output).values()[x + y * input.width] == filtered_at(
                    *self,
                    input.kind(),
                    input.values(),
                    input.width as int,
                    x,
                    y,
                ),
    {
        let w = input.width;
        let h = input.height;
        let ghost k = input.kind();
        let ghost inp = input.values();
        let mut y: u32 = 0;
        while y < h
            invariant
                input.well_formed(),
                output.well_formed(),
                input.kind() == output.kind(),
                output.kind() == old(output).kind(),
                output.width == old(output).width,
                output.height == old(output).height,
                w == input.width && h == input.height,
                w == output.width && h == output.height,
                k == input.kind(),
                inp == input.values(),
                y <= h,
                forall|xi: int, yi: int|
                    0 <= xi < w && 0 <= yi < y
                        ==> #[trigger] output.values()[xi + yi * w] == filtered_at(
                        *self,
                        k,
                        inp,
                        w as int,
                        xi,
                        yi,
                    ),
            decreases h - y,
        {
            let mut x: u32 = 0;
            while x < w
                invariant
                    input.well_formed(),
                    output.well_formed(),
                    input.kind() == output.kind(),
                    output.kind() == old(output).kind(),
                    output.width == old(output).width,
                    output.height == old(output).height,
                    w == input.width && h == input.height,
                    w == output.width && h == output.height,
                    k == input.kind(),
                    inp == input.values(),
                    y < h,
                    x <= w,
                    forall|xi: int, yi: int|
                        0 <= xi < w && 0 <= yi < y
                            ==> #[trigger] output.values()[xi + yi * w] == filtered_at(
                            *self,
                            k,
                            inp,
                            w as int,
                            xi,
                            yi,
                        ),
                    forall|xi: int|
                        0 <= xi < x
                            ==> #[trigger] output.values()[xi + y * w] == filtered_at(
                            *self,
                            k,
                            inp,
                            w as int,
                            xi,
                            y as int,
                        ),
                decreases w - x,
            {
                let value = input.get(x, y);
                let a = if x > 0 {
                    input.get(x - 1, y)
                } else {
                    0
                };
                let b = if y > 0 {
                    input.get(x, y - 1)
                } else {
                    0
                };
                let c = if x > 0 && y > 0 {
                    input.get(x - 1, y - 1)
                } else {
                    0
                };
                proof {
                    lemma_kind_range_small(k, value as int);
                    lemma_kind_range_small(k, a as int);
                    lemma_kind_range_small(k, b as int);
                    lemma_kind_range_small(k, c as int);
                }
                let pred = self.predictor(a, b, c);
                let v = value - pred;
                let ghost before = output.values();
                output.set(x, y, v);
                proof {
                    let wi = w as int;
                    let xi = x as int;
                    let yi = y as int;
                    crate::raster::lemma_row_major_bound(xi, yi, wi, h as int);
                    assert(output.values() == before.update(
                        xi + yi * wi,
                        wrap_kind(k, v as int),
                    ));
                    assert(output.values()[xi + yi * wi] == filtered_at(*self, k, inp, wi, xi, yi));
                    assert forall|x2: int, y2: int|
                        0 <= x2 < w && 0 <= y2 < y implies #[trigger] output.values()[x2 + y2 * wi]
                        == filtered_at(*self, k, inp, wi, x2, y2) by {
                        lemma_cell_ne(x2, y2, xi, yi, wi);
                        crate::raster::lemma_row_major_bound(x2, y2, wi, h as int);
                        assert(before[x2 + y2 * wi] == filtered_at(*self, k, inp, wi, x2, y2));
                        assert(output.values()[x2 + y2 * wi] == before[x2 + y2 * wi]);
                    }
                    assert forall|x2: int|
                        0 <= x2 < x + 1 implies #[trigger] output.values()[x2 + yi * wi]
                        == filtered_at(*self, k, inp, wi, x2, yi) by {
                        if x2 < x {
                            lemma_cell_ne(x2, yi, xi, yi, wi);
                            crate::raster::lemma_row_major_bound(x2, yi, wi, h as int);
                            assert(before[x2 + yi * wi] == filtered_at(*self, k, inp, wi, x2, yi));
                            assert(output.values()[x2 + yi * wi] == before[x2 + yi * wi]);
                        }
                    }
                }
                x = x + 1;
            }
            y = y + 1;
        }
    }

    /// The predictor value alone, from the three neighbours.
    pub fn predictor(&self, a: i32, b: i32, c: i32) -> (r: i32)
        requires
            -65536 <= a <= 65536,
            -65536 <= b <= 65536,
            -65536 <= c <= 65536,
        ensures
            r == spec_predictor(*self, a as int, b as int, c as int),
            -196608 <= r <= 196608,
    {
        self.apply(0, a, b, c)
    }
}

/// Filtering then reconstructing reproduces the original grid exactly:
/// for a grid `orig` of representable samples and its filtered form
/// `filt`, reconstruction at every pixel returns the original value.
pub proof fn lemma_filter_round_trip(
    f: RasterFilter,
    k: SampleKind,
    orig: Seq<int>,
    filt: Seq<int>,
    w: int,
    h: int,
    x: int,
    y: int,
)
    requires
        0 < w,
        0 <= x < w,
        0 <= y < h,
        orig.len() == w * h,
        filt.len() == w * h,
        forall|i: int| 0 <= i < orig.len() ==> in_kind_range(k, #[trigger] orig[i]),
        forall|x2: int, y2: int|
            0 <= x2 < w && 0 <= y2 < h ==> #[trigger] filt[x2 + y2 * w] == filtered_at(
                f,
                k,
                orig,
                w,
                x2,
                y2,
            ),
    ensures
        recon_xy(f, k, filt, w, x, y) == orig[x + y * w],
    decreases y, x,
{
    if x > 0 {
        lemma_filter_round_trip(f, k, orig, filt, w, h, x - 1, y);
        crate::raster::lemma_row_major_bound(x - 1, y, w, h);
    }
    if y > 0 {
        lemma_filter_round_trip(f, k, orig, filt, w, h, x, y - 1);
        crate::raster::lemma_row_major_bound(x, y - 1, w, h);
    }
    if x > 0 && y > 0 {
        lemma_filter_round_trip(f, k, orig, filt, w, h, x - 1, y - 1);
        crate::raster::lemma_row_major_bound(x - 1, y - 1, w, h);
    }
    crate::raster::lemma_row_major_bound(x, y, w, h);
    let idx = x + y * w;
    let a = if x > 0 {
        orig[(x - 1) + y * w]
    } else {
        0
    };
    let b = if y > 0 {
        orig[x + (y - 1) * w]
    } else {
        0
    };
    let c = if x > 0 && y > 0 {
        orig[(x - 1) + (y - 1) * w]
    } else {
        0
    };
    let pred = spec_predictor(f, a, b, c);
    assert(filt[idx] == wrap_kind(k, orig[idx] - pred));
    lemma_wrap_kind_add(k, orig[idx] - pred, pred);
    lemma_wrap_kind_identity(k, orig[idx]);
    assert(recon_xy(f, k, filt, w, x, y) == wrap_kind(k, spec_apply(f, filt[idx], a, b, c)));
}

/// The reconstructed value of a chunk pixel `(x, y)`: the filter applied
/// to the raw value and the reconstructed neighbours, wrapped into the
/// sample kind.
pub open spec fn recon_xy(
    f: RasterFilter,
    k: SampleKind,
    inp: Seq<int>,
    w: int,
    x: int,
    y: int,
) -> int
    decreases y, x,
{
    let a = if x > 0 {
        recon_xy(f, k, inp, w, x - 1, y)
    } else {
        0
    };
    let b = if y > 0 {
        recon_xy(f, k, inp, w, x, y - 1)
    } else {
        0
    };
    let c = if x > 0 && y > 0 {
        recon_xy(f, k, inp, w, x - 1, y - 1)
    } else {
        0
    };
    wrap_kind(k, spec_apply(f, inp[x + y * w], a, b, c))
}

/// Kind ranges are inside the bound the filter arithmetic needs.
proof fn lemma_kind_range_small(k: SampleKind, v: int)
    requires
        in_kind_range(k, v),
    ensures
        -65536 <= v <= 65536,
{
}

/// Distinct grid cells have distinct row-major indices.
pub proof fn lemma_cell_ne(x1: int, y1: int, x2: int, y2: int, w: int)
    by (nonlinear_arith)
    requires
        0 <= x1 < w,
        0 <= x2 < w,
        0 <= y1,
        0 <= y2,
        (x1, y1) != (x2, y2),
    ensures
        x1 + y1 * w != x2 + y2 * w,
{
}

/// The absolute value of a machine integer away from the extreme.
pub fn abs_i32(v: i32) -> (r: i32)
    requires
        v != i32::MIN,
    ensures
        r == spec_abs(v as int),
{
    if v < 0 {
        -v
    } else {
        v
    }
}

} // verus!
