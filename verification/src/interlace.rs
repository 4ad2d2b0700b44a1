//! Rows that are stored in seven passes.
//!
//! An interlaced PNG stream stores its picture as seven smaller pictures,
//! one behind the other. Each takes every eighth, fourth or second pixel of
//! every eighth, fourth or second row, so that the first passes give a
//! coarse view of the whole. Each pass has its own rows and predictors.

use vstd::prelude::*;
use vstd::slice::slice_subrange;
use crate::filter::{filters_valid, unfilter, unfilter_rows};
use crate::image::{lemma_split_index, MAX_PIXELS};
use crate::png::{
    lemma_stride, samples_per_pixel, stored_samples, unpack, unpack_spec, HeaderFields, PngHeader,
};

verus! {

/// The number of passes.
pub const PASSES: usize = 7;

/// The first column of pass `p`.
pub open spec fn pass_x0(p: int) -> int {
    if p == 1 {
        4
    } else if p == 3 {
        2
    } else if p == 5 {
        1
    } else {
        0
    }
}

/// The distance between the columns of pass `p`.
pub open spec fn pass_dx(p: int) -> int {
    if p <= 1 {
        8
    } else if p <= 3 {
        4
    } else if p <= 5 {
        2
    } else {
        1
    }
}

/// The first row of pass `p`.
pub open spec fn pass_y0(p: int) -> int {
    if p == 2 {
        4
    } else if p == 4 {
        2
    } else if p == 6 {
        1
    } else {
        0
    }
}

/// The distance between the rows of pass `p`.
pub open spec fn pass_dy(p: int) -> int {
    if p <= 2 {
        8
    } else if p <= 4 {
        4
    } else {
        2
    }
}

/// How many of the numbers `first`, `first + step`, `first + 2 * step`, ...
/// lie below `size`.
pub open spec fn pass_count(size: int, first: int, step: int) -> int {
    (size - first + step - 1) / step
}

/// The pass that holds the pixel in column `x` of row `y`.
pub open spec fn pass_of(x: int, y: int) -> int {
    if y % 2 == 1 {
        6
    } else if x % 2 == 1 {
        5
    } else if y % 4 == 2 {
        4
    } else if x % 4 == 2 {
        3
    } else if y % 8 == 4 {
        2
    } else if x % 8 == 4 {
        1
    } else {
        0
    }
}

/// The header of the smaller picture that pass `p` stores.
pub open spec fn pass_header(h: PngHeader, p: int) -> PngHeader {
    PngHeader {
        width: pass_count(h.width as int, pass_x0(p), pass_dx(p)) as nat,
        height: pass_count(h.height as int, pass_y0(p), pass_dy(p)) as nat,
        color: h.color,
        depth: h.depth,
        interlaced: h.interlaced,
    }
}

/// The number of bytes that pass `p` takes: a pass without pixels takes
/// none, every other one byte for the predictor and the packed samples of
/// each of its rows.
pub open spec fn pass_len(h: PngHeader, p: int) -> int {
    let ph = pass_header(h, p);
    if ph.width == 0 || ph.height == 0 {
        0
    } else {
        (ph.height * (ph.stride() + 1)) as int
    }
}

/// Where pass `p` begins.
pub open spec fn pass_start(h: PngHeader, p: int) -> int
    decreases p,
{
    if p <= 0 {
        0
    } else {
        pass_start(h, p - 1) + pass_len(h, p - 1)
    }
}

/// The bytes of pass `p`.
pub open spec fn pass_bytes(raw: Seq<u8>, h: PngHeader, p: int) -> Seq<u8> {
    raw.subrange(pass_start(h, p), pass_start(h, p) + pass_len(h, p))
}

/// Whether each of the first `n` passes names existing predictors only.
pub open spec fn passes_valid(raw: Seq<u8>, h: PngHeader, n: int) -> bool
    decreases n,
{
    if n <= 0 {
        true
    } else {
        let ph = pass_header(h, n - 1);
        passes_valid(raw, h, n - 1) && (pass_len(h, n - 1) == 0 || filters_valid(
            pass_bytes(raw, h, n - 1),
            ph.stride() as int,
            ph.height as int,
        ))
    }
}

/// The samples of pass `p`, in eight bits each.
pub open spec fn pass_levels(raw: Seq<u8>, h: PngHeader, p: int) -> Seq<u8> {
    let ph = pass_header(h, p);
    if pass_len(h, p) == 0 {
        Seq::empty()
    } else {
        unpack_spec(
            unfilter_rows(
                pass_bytes(raw, h, p),
                ph.stride() as int,
                ph.filter_unit() as int,
                ph.height as int,
            ),
            ph,
            ph.row_samples() * ph.height,
        )
    }
}

/// The column that column `x` of the picture is in pass `p`.
pub open spec fn pass_column(x: int, p: int) -> int {
    (x - pass_x0(p)) / pass_dx(p)
}

/// The row that row `y` of the picture is in pass `p`.
pub open spec fn pass_row(y: int, p: int) -> int {
    (y - pass_y0(p)) / pass_dy(p)
}

/// The number that the pixel in column `x` of row `y` has in its pass,
/// counted row by row.
pub open spec fn pass_pixel(h: PngHeader, x: int, y: int) -> int {
    let p = pass_of(x, y);
    pass_row(y, p) * pass_header(h, p).width + pass_column(x, p)
}

/// Where the pass of the pixel in column `x` of row `y` holds the first
/// sample of that pixel.
pub open spec fn pass_index(h: PngHeader, x: int, y: int) -> int {
    pass_pixel(h, x, y) * samples_per_pixel(h.color)
}

/// Sample `i` of the whole picture, taken from the pass that holds it.
pub open spec fn interlaced_level(raw: Seq<u8>, h: PngHeader, i: int) -> u8 {
    let spp = samples_per_pixel(h.color) as int;
    let pixel = i / spp;
    let x = pixel % (h.width as int);
    let y = pixel / (h.width as int);
    pass_levels(raw, h, pass_of(x, y))[pass_index(h, x, y) + i % spp]
}

/// The first `n` samples of the whole picture, row by row.
pub open spec fn interlaced_levels(raw: Seq<u8>, h: PngHeader, n: nat) -> Seq<u8> {
    Seq::new(n, |i: int| interlaced_level(raw, h, i))
}

/// The passes share the pixels of the picture among them: their pixel counts
/// add up to that of the picture.
pub proof fn lemma_pass_pixels(w: int, h: int)
    requires
        0 <= w,
        0 <= h,
    ensures
        ((w + 7) / 8) * ((h + 7) / 8) + ((w + 3) / 8) * ((h + 7) / 8) + ((w + 3) / 4) * ((h + 3)
            / 8) + ((w + 1) / 4) * ((h + 3) / 4) + ((w + 1) / 2) * ((h + 1) / 4) + (w / 2) * ((h
            + 1) / 2) + w * (h / 2) == w * h,
{
    let a0 = (w + 7) / 8;
    let a1 = (w + 3) / 8;
    let a2 = (w + 3) / 4;
    let a3 = (w + 1) / 4;
    let a4 = (w + 1) / 2;
    let a5 = w / 2;
    let b0 = (h + 7) / 8;
    let b2 = (h + 3) / 8;
    let b3 = (h + 3) / 4;
    let b4 = (h + 1) / 4;
    let b5 = (h + 1) / 2;
    let b6 = h / 2;
    assert(a0 + a1 == a2 && a2 + a3 == a4 && a4 + a5 == w);
    assert(b0 + b2 == b3 && b3 + b4 == b5 && b5 + b6 == h);
    assert(a0 * b0 + a1 * b0 == a2 * b0) by (nonlinear_arith)
        requires
            a0 + a1 == a2,
    ;
    assert(a2 * b0 + a2 * b2 == a2 * b3) by (nonlinear_arith)
        requires
            b0 + b2 == b3,
    ;
    assert(a2 * b3 + a3 * b3 == a4 * b3) by (nonlinear_arith)
        requires
            a2 + a3 == a4,
    ;
    assert(a4 * b3 + a4 * b4 == a4 * b5) by (nonlinear_arith)
        requires
            b3 + b4 == b5,
    ;
    assert(a4 * b5 + a5 * b5 == w * b5) by (nonlinear_arith)
        requires
            a4 + a5 == w,
    ;
    assert(w * b5 + w * b6 == w * h) by (nonlinear_arith)
        requires
            b5 + b6 == h,
    ;
}

/// A pass is no larger than the picture, and takes at most eight bytes for
/// each of its pixels and one more for each of its rows.
pub proof fn lemma_pass_len(h: PngHeader, p: int)
    requires
        h.wf(),
        0 <= p < 7,
    ensures
        0 <= pass_header(h, p).width <= h.width,
        0 <= pass_header(h, p).height <= h.height,
        0 <= pass_len(h, p) <= 8 * (pass_header(h, p).width * pass_header(h, p).height)
            + pass_header(h, p).height,
        pass_len(h, p) > 0 <==> pass_header(h, p).width > 0 && pass_header(h, p).height > 0,
        pass_len(h, p) > 0 ==> pass_header(h, p).wf(),
{
    let ph = pass_header(h, p);
    let pw = ph.width as int;
    let pt = ph.height as int;
    let spp = samples_per_pixel(h.color) as int;
    assert(0 <= pw <= h.width && 0 <= pt <= h.height);
    assert(pw * pt <= h.width * h.height) by (nonlinear_arith)
        requires
            0 <= pw <= h.width,
            0 <= pt <= h.height,
    ;
    assert(0 <= pw * spp <= 4 * pw) by (nonlinear_arith)
        requires
            0 <= pw,
            1 <= spp <= 4,
    ;
    lemma_stride(pw * spp, h.depth as int);
    let stride = ph.stride() as int;
    assert(stride <= 8 * pw);
    assert(0 <= pt * (stride + 1) <= 8 * (pw * pt) + pt && (pt > 0 ==> pt * (stride + 1) > 0))
        by (nonlinear_arith)
        requires
            0 <= pt,
            0 <= stride <= 8 * pw,
    ;
}

/// The passes together take at most eight bytes for each pixel of the
/// picture and seven more for each of its rows.
pub proof fn lemma_interlaced_len(h: PngHeader, p: int)
    requires
        h.wf(),
        0 <= p <= 7,
    ensures
        0 <= pass_start(h, p) <= pass_start(h, 7) <= 8 * (h.width * h.height) + 7 * h.height,
        pass_start(h, 7) <= 0xf000_0000,
        p < 7 ==> pass_start(h, p) + pass_len(h, p) <= pass_start(h, 7),
{
    reveal_with_fuel(pass_start, 8);
    lemma_pass_len(h, 0);
    lemma_pass_len(h, 1);
    lemma_pass_len(h, 2);
    lemma_pass_len(h, 3);
    lemma_pass_len(h, 4);
    lemma_pass_len(h, 5);
    lemma_pass_len(h, 6);
    lemma_pass_pixels(h.width as int, h.height as int);
    let w = h.width as int;
    let t = h.height as int;
    assert(pass_header(h, 0).width * pass_header(h, 0).height == ((w + 7) / 8) * ((t + 7) / 8));
    assert(pass_header(h, 1).width * pass_header(h, 1).height == ((w + 3) / 8) * ((t + 7) / 8));
    assert(pass_header(h, 2).width * pass_header(h, 2).height == ((w + 3) / 4) * ((t + 3) / 8));
    assert(pass_header(h, 3).width * pass_header(h, 3).height == ((w + 1) / 4) * ((t + 3) / 4));
    assert(pass_header(h, 4).width * pass_header(h, 4).height == ((w + 1) / 2) * ((t + 1) / 4));
    assert(pass_header(h, 5).width * pass_header(h, 5).height == (w / 2) * ((t + 1) / 2));
    assert(pass_header(h, 6).width * pass_header(h, 6).height == w * (t / 2));
    assert(t <= w * t) by (nonlinear_arith)
        requires
            1 <= w,
            0 <= t,
    ;
}

/// Every pixel of the picture has a place in its pass.
pub proof fn lemma_pass_place(h: PngHeader, x: int, y: int)
    requires
        h.wf(),
        0 <= x < h.width,
        0 <= y < h.height,
    ensures
        0 <= pass_of(x, y) < 7,
        0 <= pass_column(x, pass_of(x, y)) < pass_header(h, pass_of(x, y)).width,
        0 <= pass_row(y, pass_of(x, y)) < pass_header(h, pass_of(x, y)).height,
        0 <= pass_pixel(h, x, y) < pass_header(h, pass_of(x, y)).width * pass_header(
            h,
            pass_of(x, y),
        ).height,
        pass_of(x, y) >= 5 ==> pass_row(y, pass_of(x, y)) == y / 2,
        3 <= pass_of(x, y) <= 4 ==> pass_row(y, pass_of(x, y)) == y / 4,
        pass_of(x, y) <= 2 ==> pass_row(y, pass_of(x, y)) == y / 8,
        pass_of(x, y) == 6 ==> pass_column(x, pass_of(x, y)) == x,
        4 <= pass_of(x, y) <= 5 ==> pass_column(x, pass_of(x, y)) == x / 2,
        2 <= pass_of(x, y) <= 3 ==> pass_column(x, pass_of(x, y)) == x / 4,
        pass_of(x, y) <= 1 ==> pass_column(x, pass_of(x, y)) == x / 8,
{
    let p = pass_of(x, y);
    let w = h.width as int;
    let t = h.height as int;
    if p == 6 {
        assert(y % 2 == 1);
        assert(pass_x0(6) == 0 && pass_dx(6) == 1);
        assert(pass_y0(6) == 1 && pass_dy(6) == 2);
        assert(pass_column(x, 6) == (x - 0) / 1 && (x - 0) / 1 == x);
        assert(pass_row(y, 6) == (y - 1) / 2 && (y - 1) / 2 == y / 2);
        assert(pass_header(h, 6).width == (w - 0 + 1 - 1) / 1
            && (w - 0 + 1 - 1) / 1 == w);
        assert(pass_header(h, 6).height == (t - 1 + 2 - 1) / 2 && (t - 1 + 2 - 1) / 2
            == t / 2);
        assert(0 <= x < w);
        assert(0 <= y / 2 < t / 2);
    } else if p == 5 {
        assert(y % 2 == 0 && x % 2 == 1);
        assert(pass_x0(5) == 1 && pass_dx(5) == 2);
        assert(pass_y0(5) == 0 && pass_dy(5) == 2);
        assert(pass_column(x, 5) == (x - 1) / 2 && (x - 1) / 2 == x / 2);
        assert(pass_row(y, 5) == (y - 0) / 2 && (y - 0) / 2 == y / 2);
        assert(pass_header(h, 5).width == (w - 1 + 2 - 1) / 2
            && (w - 1 + 2 - 1) / 2 == w / 2);
        assert(pass_header(h, 5).height == (t - 0 + 2 - 1) / 2 && (t - 0 + 2 - 1) / 2
            == (t + 1) / 2);
        assert(0 <= x / 2 < w / 2);
        assert(0 <= y / 2 < (t + 1) / 2);
    } else if p == 4 {
        assert(x % 2 == 0 && y % 4 == 2);
        assert(pass_x0(4) == 0 && pass_dx(4) == 2);
        assert(pass_y0(4) == 2 && pass_dy(4) == 4);
        assert(pass_column(x, 4) == (x - 0) / 2 && (x - 0) / 2 == x / 2);
        assert(pass_row(y, 4) == (y - 2) / 4 && (y - 2) / 4 == y / 4);
        assert(pass_header(h, 4).width == (w - 0 + 2 - 1) / 2
            && (w - 0 + 2 - 1) / 2 == (w + 1) / 2);
        assert(pass_header(h, 4).height == (t - 2 + 4 - 1) / 4 && (t - 2 + 4 - 1) / 4
            == (t + 1) / 4);
        assert(0 <= x / 2 < (w + 1) / 2);
        assert(0 <= y / 4 < (t + 1) / 4);
    } else if p == 3 {
        assert(y % 4 == 0 && x % 4 == 2);
        assert(pass_x0(3) == 2 && pass_dx(3) == 4);
        assert(pass_y0(3) == 0 && pass_dy(3) == 4);
        assert(pass_column(x, 3) == (x - 2) / 4 && (x - 2) / 4 == x / 4);
        assert(pass_row(y, 3) == (y - 0) / 4 && (y - 0) / 4 == y / 4);
        assert(pass_header(h, 3).width == (w - 2 + 4 - 1) / 4
            && (w - 2 + 4 - 1) / 4 == (w + 1) / 4);
        assert(pass_header(h, 3).height == (t - 0 + 4 - 1) / 4 && (t - 0 + 4 - 1) / 4
            == (t + 3) / 4);
        assert(0 <= x / 4 < (w + 1) / 4);
        assert(0 <= y / 4 < (t + 3) / 4);
    } else if p == 2 {
        assert(x % 4 == 0 && y % 8 == 4);
        assert(pass_x0(2) == 0 && pass_dx(2) == 4);
        assert(pass_y0(2) == 4 && pass_dy(2) == 8);
        assert(pass_column(x, 2) == (x - 0) / 4 && (x - 0) / 4 == x / 4);
        assert(pass_row(y, 2) == (y - 4) / 8 && (y - 4) / 8 == y / 8);
        assert(pass_header(h, 2).width == (w - 0 + 4 - 1) / 4
            && (w - 0 + 4 - 1) / 4 == (w + 3) / 4);
        assert(pass_header(h, 2).height == (t - 4 + 8 - 1) / 8 && (t - 4 + 8 - 1) / 8
            == (t + 3) / 8);
        assert(0 <= x / 4 < (w + 3) / 4);
        assert(0 <= y / 8 < (t + 3) / 8);
    } else if p == 1 {
        assert(y % 8 == 0 && x % 8 == 4);
        assert(pass_x0(1) == 4 && pass_dx(1) == 8);
        assert(pass_y0(1) == 0 && pass_dy(1) == 8);
        assert(pass_column(x, 1) == (x - 4) / 8 && (x - 4) / 8 == x / 8);
        assert(pass_row(y, 1) == (y - 0) / 8 && (y - 0) / 8 == y / 8);
        assert(pass_header(h, 1).width == (w - 4 + 8 - 1) / 8
            && (w - 4 + 8 - 1) / 8 == (w + 3) / 8);
        assert(pass_header(h, 1).height == (t - 0 + 8 - 1) / 8 && (t - 0 + 8 - 1) / 8
            == (t + 7) / 8);
        assert(0 <= x / 8 < (w + 3) / 8);
        assert(0 <= y / 8 < (t + 7) / 8);
    } else {
        assert(p == 0);
        assert(y % 8 == 0 && x % 8 == 0);
        assert(pass_x0(0) == 0 && pass_dx(0) == 8);
        assert(pass_y0(0) == 0 && pass_dy(0) == 8);
        assert(pass_column(x, 0) == (x - 0) / 8 && (x - 0) / 8 == x / 8);
        assert(pass_row(y, 0) == (y - 0) / 8 && (y - 0) / 8 == y / 8);
        assert(pass_header(h, 0).width == (w - 0 + 8 - 1) / 8
            && (w - 0 + 8 - 1) / 8 == (w + 7) / 8);
        assert(pass_header(h, 0).height == (t - 0 + 8 - 1) / 8 && (t - 0 + 8 - 1) / 8
            == (t + 7) / 8);
        assert(0 <= x / 8 < (w + 7) / 8);
        assert(0 <= y / 8 < (t + 7) / 8);
    }
    let column = pass_column(x, p);
    let row = pass_row(y, p);
    let pw = pass_header(h, p).width as int;
    let pt = pass_header(h, p).height as int;
    assert(0 <= column < pw && 0 <= row < pt);
    assert(0 <= row * pw + column < pw * pt) by (nonlinear_arith)
        requires
            0 <= column < pw,
            0 <= row < pt,
    ;
}

/// If some of the first passes name a predictor that does not exist, so do
/// all of them together.
pub proof fn lemma_passes_valid_prefix(raw: Seq<u8>, h: PngHeader, a: int, b: int)
    requires
        a <= b,
        passes_valid(raw, h, b),
    ensures
        passes_valid(raw, h, a),
    decreases b - a,
{
    if a < b {
        lemma_passes_valid_prefix(raw, h, a, b - 1);
    }
}

/// The header of the smaller picture that pass `p` stores.
pub fn pass_fields(header: &HeaderFields, p: usize) -> (fields: HeaderFields)
    requires
        header@.wf(),
        p < 7,
    ensures
        fields@ == pass_header(header@, p as int),
{
    let w: u32 = header.width;
    let h: u32 = header.height;
    assert(w <= 0x1000_0000 && h <= 0x1000_0000) by (nonlinear_arith)
        requires
            1 <= w,
            1 <= h,
            w * h <= 0x1000_0000,
    ;
    let width: u32 = if p == 0 {
        (w + 7) / 8
    } else if p == 1 {
        (w + 3) / 8
    } else if p == 2 {
        (w + 3) / 4
    } else if p == 3 {
        (w + 1) / 4
    } else if p == 4 {
        (w + 1) / 2
    } else if p == 5 {
        w / 2
    } else {
        w
    };
    let height: u32 = if p <= 1 {
        (h + 7) / 8
    } else if p == 2 {
        (h + 3) / 8
    } else if p == 3 {
        (h + 3) / 4
    } else if p == 4 {
        (h + 1) / 4
    } else if p == 5 {
        (h + 1) / 2
    } else {
        h / 2
    };
    HeaderFields {
        width,
        height,
        color: header.color,
        depth: header.depth,
        interlaced: header.interlaced,
    }
}

/// The number of bytes that the seven passes take together.
pub fn interlaced_len(header: &HeaderFields) -> (n: usize)
    requires
        header@.wf(),
    ensures
        n == pass_start(header@, 7),
{
    let ghost h = header@;
    let mut total: usize = 0;
    let mut p: usize = 0;
    while p < PASSES
        invariant
            p <= 7,
            h == header@,
            h.wf(),
            total == pass_start(h, p as int),
        decreases 7 - p,
    {
        proof {
            lemma_interlaced_len(h, p as int);
            lemma_pass_len(h, p as int);
        }
        let fields = pass_fields(header, p);
        if fields.width != 0 && fields.height != 0 {
            let stride: usize = fields.stride();
            assert(fields.height * (stride + 1) == pass_len(h, p as int));
            total = total + fields.height as usize * (stride + 1);
        }
        p = p + 1;
    }
    total
}

/// Undoes the prediction in every pass and brings its samples to eight
/// bits, or returns `None` when a pass names a predictor that does not
/// exist.
pub fn read_passes(raw: &[u8], header: &HeaderFields) -> (out: Option<Vec<Vec<u8>>>)
    requires
        header@.wf(),
        raw@.len() == pass_start(header@, 7),
    ensures
        out is Some <==> passes_valid(raw@, header@, 7),
        out matches Some(v) ==> v@.len() == 7 && forall|p: int|
            0 <= p < 7 ==> (#[trigger] v@[p])@ == pass_levels(raw@, header@, p),
{
    let ghost h = header@;
    let total: usize = raw.len();
    let mut passes: Vec<Vec<u8>> = Vec::new();
    let mut start: usize = 0;
    let mut p: usize = 0;
    while p < PASSES
        invariant
            p <= 7,
            h == header@,
            h.wf(),
            raw@.len() == total,
            total == pass_start(h, 7),
            start == pass_start(h, p as int),
            passes@.len() == p,
            forall|q: int| 0 <= q < p ==> (#[trigger] passes@[q])@ == pass_levels(raw@, h, q),
            passes_valid(raw@, h, p as int),
        decreases 7 - p,
    {
        proof {
            lemma_interlaced_len(h, p as int);
            lemma_pass_len(h, p as int);
        }
        let fields = pass_fields(header, p);
        let ghost before = passes@;
        if fields.width == 0 || fields.height == 0 {
            let empty: Vec<u8> = Vec::new();
            assert(empty@ =~= pass_levels(raw@, h, p as int));
            passes.push(empty);
        } else {
            let stride: usize = fields.stride();
            let unit: usize = fields.filter_unit();
            let rows: usize = fields.height as usize;
            assert(rows * (stride + 1) == pass_len(h, p as int));
            let len: usize = rows * (stride + 1);
            let part = slice_subrange(raw, start, start + len);
            let restored = match unfilter(part, stride, unit, rows) {
                None => {
                    proof {
                        assert(!passes_valid(raw@, h, p as int + 1));
                        if passes_valid(raw@, h, 7) {
                            lemma_passes_valid_prefix(raw@, h, p as int + 1, 7);
                        }
                    }
                    return None;
                },
                Some(v) => v,
            };
            let levels = unpack(restored.as_slice(), &fields);
            passes.push(levels);
            start = start + len;
        }
        proof {
            assert forall|q: int| 0 <= q < p + 1 implies (#[trigger] passes@[q])@ == pass_levels(
                raw@,
                h,
                q,
            ) by {
                if q < p {
                    assert(passes@[q] == before[q]);
                }
            }
        }
        p = p + 1;
    }
    Some(passes)
}

/// The pass that holds the pixel in column `x` of row `y`, and the number
/// of the pixel within that pass.
pub fn locate(header: &HeaderFields, x: usize, y: usize) -> (place: (usize, usize))
    requires
        header@.wf(),
        x < header.width,
        y < header.height,
    ensures
        place.0 == pass_of(x as int, y as int),
        place.0 < 7,
        place.1 == pass_pixel(header@, x as int, y as int),
        place.1 < pass_header(header@, place.0 as int).width * pass_header(
            header@,
            place.0 as int,
        ).height,
{
    let w: usize = header.width as usize;
    proof {
        let h = header@;
        let p = pass_of(x as int, y as int);
        let pw = pass_header(h, p).width as int;
        let pt = pass_header(h, p).height as int;
        lemma_pass_place(h, x as int, y as int);
        lemma_pass_len(h, p);
        assert(h.width <= 0x1000_0000) by (nonlinear_arith)
            requires
                1 <= h.width,
                1 <= h.height,
                h.width * h.height <= 0x1000_0000,
        ;
        assert(pw * pt <= 0x1000_0000) by (nonlinear_arith)
            requires
                0 <= pw <= h.width,
                0 <= pt <= h.height,
                h.width * h.height <= 0x1000_0000,
        ;
        assert(0 <= pass_row(y as int, p) * pw) by (nonlinear_arith)
            requires
                0 <= pass_row(y as int, p),
                0 <= pw,
        ;
    }
    if y % 2 == 1 {
        (6, (y / 2) * w + x)
    } else if x % 2 == 1 {
        (5, (y / 2) * (w / 2) + x / 2)
    } else if y % 4 == 2 {
        (4, (y / 4) * ((w + 1) / 2) + x / 2)
    } else if x % 4 == 2 {
        (3, (y / 4) * ((w + 1) / 4) + x / 4)
    } else if y % 8 == 4 {
        (2, (y / 8) * ((w + 3) / 4) + x / 4)
    } else if x % 8 == 4 {
        (1, (y / 8) * ((w + 3) / 8) + x / 8)
    } else {
        (0, (y / 8) * ((w + 7) / 8) + x / 8)
    }
}

/// Puts the pixels of the seven passes in their places in the picture, or
/// returns `None` when a pass names a predictor that does not exist.
pub fn deinterlace(raw: &[u8], header: &HeaderFields) -> (out: Option<Vec<u8>>)
    requires
        header@.wf(),
        raw@.len() == pass_start(header@, 7),
    ensures
        out is Some <==> passes_valid(raw@, header@, 7),
        out matches Some(v) ==> v@ == interlaced_levels(
            raw@,
            header@,
            header@.row_samples() * header@.height,
        ),
{
    let passes = match read_passes(raw, header) {
        None => {
            return None;
        },
        Some(p) => p,
    };
    let ghost h = header@;
    let spp: usize = stored_samples(header.color);
    let width: usize = header.width as usize;
    let height: usize = header.height as usize;
    let rs: usize = header.row_samples();
    let mut out: Vec<u8> = Vec::new();
    let mut y: usize = 0;
    assert(out@ =~= interlaced_levels(raw@, h, 0));
    assert(0 * width == 0 && 0 * spp == 0) by (nonlinear_arith);
    while y < height
        invariant
            y <= height,
            h == header@,
            h.wf(),
            h.width == width,
            h.height == height,
            spp == samples_per_pixel(h.color),
            1 <= spp <= 4,
            width * height <= MAX_PIXELS,
            passes@.len() == 7,
            forall|p: int| 0 <= p < 7 ==> (#[trigger] passes@[p])@ == pass_levels(raw@, h, p),
            out@.len() == (y * width) * spp,
            out@ == interlaced_levels(raw@, h, out@.len()),
        decreases height - y,
    {
        let mut x: usize = 0;
        assert((y + 1) * width == y * width + width && (y * width + width) * spp <= (width
            * height) * spp && (width * height) * spp <= 0x4000_0000) by (nonlinear_arith)
            requires
                y < height,
                0 < width,
                1 <= spp <= 4,
                width * height <= 0x1000_0000,
        ;
        while x < width
            invariant
                x <= width,
                y < height,
                h == header@,
                h.wf(),
                h.width == width,
                h.height == height,
                spp == samples_per_pixel(h.color),
                1 <= spp <= 4,
                (y * width + width) * spp <= 0x4000_0000,
                passes@.len() == 7,
                forall|p: int| 0 <= p < 7 ==> (#[trigger] passes@[p])@ == pass_levels(raw@, h, p),
                out@.len() == (y * width + x) * spp,
                out@ == interlaced_levels(raw@, h, out@.len()),
            decreases width - x,
        {
            let (p, n) = locate(header, x, y);
            let ghost pixel = y * width + x;
            let ghost ph = pass_header(h, p as int);
            proof {
                lemma_pass_len(h, p as int);
                assert(ph.width > 0 && ph.height > 0) by (nonlinear_arith)
                    requires
                        0 <= n < ph.width * ph.height,
                ;
                assert(passes@[p as int]@ == pass_levels(raw@, h, p as int));
                assert(passes@[p as int]@.len() == ph.row_samples() * ph.height);
                assert(n * spp + spp <= (ph.width * spp) * ph.height && (pixel + 1) * spp == pixel
                    * spp + spp && (pixel + 1) * spp <= (y * width + width) * spp)
                    by (nonlinear_arith)
                    requires
                        0 <= n < ph.width * ph.height,
                        1 <= spp,
                        pixel == y * width + x,
                        x < width,
                ;
                lemma_split_index(y as int, x as int, width as int);
            }
            let base: usize = n * spp;
            let available: usize = passes[p].len();
            let mut k: usize = 0;
            while k < spp
                invariant
                    k <= spp,
                    p < 7,
                    h == header@,
                    h.width == width,
                    spp == samples_per_pixel(h.color),
                    1 <= spp <= 4,
                    pixel == y * width + x,
                    pixel / (width as int) == y,
                    pixel % (width as int) == x,
                    p == pass_of(x as int, y as int),
                    base == pass_index(h, x as int, y as int),
                    base + spp <= available,
                    available == passes@[p as int]@.len(),
                    passes@.len() == 7,
                    passes@[p as int]@ == pass_levels(raw@, h, p as int),
                    pixel * spp + spp <= 0x4000_0000,
                    out@.len() == pixel * spp + k,
                    out@ == interlaced_levels(raw@, h, out@.len()),
                decreases spp - k,
            {
                let ghost before = out@;
                let v: u8 = passes[p][base + k];
                out.push(v);
                proof {
                    lemma_split_index(pixel, k as int, spp as int);
                    let i = pixel * spp + k;
                    assert(i / (spp as int) == pixel);
                    assert(i % (spp as int) == k);
                    assert forall|j: int| 0 <= j < out@.len() implies out@[j]
                        == interlaced_levels(raw@, h, out@.len())[j] by {
                        if j < i {
                            assert(out@[j] == before[j]);
                        }
                    }
                    assert(out@ =~= interlaced_levels(raw@, h, out@.len()));
                }
                k = k + 1;
            }
            x = x + 1;
        }
        y = y + 1;
    }
    proof {
        assert((height * width) * spp == (width * spp) * height) by (nonlinear_arith);
    }
    Some(out)
}

} // verus!
