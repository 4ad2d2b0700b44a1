//! Undoing the per-row prediction that precedes compression in PNG.
//!
//! Each row of the inflated data opens with a byte that names one of five
//! predictors; every later byte of the row is stored as its difference from
//! what the predictor expects, given the bytes to the left and above.

use vstd::prelude::*;

verus! {

/// The predictor of Paeth: whichever of left, above and upper left is
/// closest to `left + above - upper_left`, ties going to the earlier.
pub open spec fn paeth(a: int, b: int, c: int) -> int {
    let p = a + b - c;
    let pa = if p >= a {
        p - a
    } else {
        a - p
    };
    let pb = if p >= b {
        p - b
    } else {
        b - p
    };
    let pc = if p >= c {
        p - c
    } else {
        c - p
    };
    if pa <= pb && pa <= pc {
        a
    } else if pb <= pc {
        b
    } else {
        c
    }
}

/// What predictor `kind` expects, given the byte to the left (`a`), the byte
/// above (`b`) and the byte above the one to the left (`c`).
pub open spec fn predictor(kind: u8, a: u8, b: u8, c: u8) -> int {
    if kind == 0 {
        0
    } else if kind == 1 {
        a as int
    } else if kind == 2 {
        b as int
    } else if kind == 3 {
        (a + b) / 2
    } else {
        paeth(a as int, b as int, c as int)
    }
}

/// The byte that was stored as `x`.
pub open spec fn reconstruct(kind: u8, x: u8, a: u8, b: u8, c: u8) -> u8 {
    ((x + predictor(kind, a, b, c)) % 256) as u8
}

/// The first `n` bytes of a row: `line` holds the stored bytes, `prev` the
/// row above, and a pixel takes `bpp` bytes. Left of the first pixel, all
/// bytes count as zero.
pub open spec fn unfilter_row(kind: u8, line: Seq<u8>, prev: Seq<u8>, bpp: int, n: int) -> Seq<u8>
    decreases n,
{
    if n <= 0 {
        Seq::empty()
    } else {
        let done = unfilter_row(kind, line, prev, bpp, n - 1);
        let i = n - 1;
        let a = if i >= bpp {
            done[i - bpp]
        } else {
            0u8
        };
        let c = if i >= bpp {
            prev[i - bpp]
        } else {
            0u8
        };
        done.push(reconstruct(kind, line[i], a, prev[i], c))
    }
}

/// The first `rows` rows: in `raw`, each row takes one byte for its
/// predictor and `stride` stored bytes. Above the first row, all bytes count
/// as zero.
pub open spec fn unfilter_rows(raw: Seq<u8>, stride: int, bpp: int, rows: int) -> Seq<u8>
    decreases rows,
{
    if rows <= 0 {
        Seq::empty()
    } else {
        let done = unfilter_rows(raw, stride, bpp, rows - 1);
        let start = (rows - 1) * (stride + 1);
        let prev = if rows == 1 {
            Seq::new(stride as nat, |i: int| 0u8)
        } else {
            done.subrange(done.len() - stride, done.len() as int)
        };
        done + unfilter_row(
            raw[start],
            raw.subrange(start + 1, start + 1 + stride),
            prev,
            bpp,
            stride,
        )
    }
}

/// Whether each of the first `rows` rows names one of the five predictors.
pub open spec fn filters_valid(raw: Seq<u8>, stride: int, rows: int) -> bool
    decreases rows,
{
    if rows <= 0 {
        true
    } else {
        filters_valid(raw, stride, rows - 1) && raw[(rows - 1) * (stride + 1)] <= 4
    }
}

/// A row of `n` bytes is `n` bytes long.
pub proof fn lemma_unfilter_row_len(kind: u8, line: Seq<u8>, prev: Seq<u8>, bpp: int, n: int)
    requires
        0 <= n,
    ensures
        unfilter_row(kind, line, prev, bpp, n).len() == n,
    decreases n,
{
    if n > 0 {
        lemma_unfilter_row_len(kind, line, prev, bpp, n - 1);
    }
}

/// Computes the byte that was stored as `x`.
pub fn reconstruct_byte(kind: u8, x: u8, a: u8, b: u8, c: u8) -> (v: u8)
    ensures
        v == reconstruct(kind, x, a, b, c),
{
    let pred: u16 = if kind == 0 {
        0
    } else if kind == 1 {
        a as u16
    } else if kind == 2 {
        b as u16
    } else if kind == 3 {
        (a as u16 + b as u16) / 2
    } else {
        let p: i32 = a as i32 + b as i32 - c as i32;
        let pa: i32 = if p >= a as i32 { p - a as i32 } else { a as i32 - p };
        let pb: i32 = if p >= b as i32 { p - b as i32 } else { b as i32 - p };
        let pc: i32 = if p >= c as i32 { p - c as i32 } else { c as i32 - p };
        if pa <= pb && pa <= pc {
            a as u16
        } else if pb <= pc {
            b as u16
        } else {
            c as u16
        }
    };
    ((x as u16 + pred) % 256) as u8
}

/// Undoes the prediction in `rows` rows of `stride` bytes each, or returns
/// `None` when a row names a predictor that does not exist.
pub fn unfilter(raw: &[u8], stride: usize, bpp: usize, rows: usize) -> (out: Option<Vec<u8>>)
    requires
        1 <= bpp,
        raw@.len() == rows * (stride + 1),
    ensures
        out is Some <==> filters_valid(raw@, stride as int, rows as int),
        out matches Some(v) ==> v@ == unfilter_rows(raw@, stride as int, bpp as int, rows as int)
            && v@.len() == rows * stride,
{
    let ghost r = raw@;
    let total: usize = raw.len();
    let mut out: Vec<u8> = Vec::new();
    let mut y: usize = 0;
    let mut src: usize = 0;
    assert(out@ =~= unfilter_rows(r, stride as int, bpp as int, 0));
    assert(0 * stride == 0) by (nonlinear_arith);
    assert(0 * (stride + 1) == 0) by (nonlinear_arith);
    while y < rows
        invariant
            y <= rows,
            1 <= bpp,
            r == raw@,
            r.len() == total,
            r.len() == rows * (stride + 1),
            src == y * (stride + 1),
            out@.len() == y * stride,
            out@ == unfilter_rows(r, stride as int, bpp as int, y as int),
            filters_valid(r, stride as int, y as int),
        decreases rows - y,
    {
        assert((y + 1) * (stride + 1) == y * (stride + 1) + stride + 1 && (y + 1) * (stride + 1)
            <= rows * (stride + 1) && (y + 1) * stride == y * stride + stride) by (nonlinear_arith)
            requires
                y < rows,
        ;
        let kind: u8 = raw[src];
        if kind > 4 {
            proof {
                assert(!filters_valid(r, stride as int, y as int + 1));
                if filters_valid(r, stride as int, rows as int) {
                    lemma_filters_valid_prefix(r, stride as int, y as int + 1, rows as int);
                }
            }
            return None;
        }
        let ghost done = out@;
        let ghost line = r.subrange(src + 1, src + 1 + stride);
        let ghost prev = if y == 0 {
            Seq::new(stride as nat, |i: int| 0u8)
        } else {
            done.subrange(done.len() - stride, done.len() as int)
        };
        let row_start: usize = out.len();
        let mut i: usize = 0;
        assert(y > 0 ==> y * stride >= stride) by (nonlinear_arith)
            requires
                0 <= stride,
        ;
        assert(out@ =~= done + unfilter_row(kind, line, prev, bpp as int, 0));
        while i < stride
            invariant
                i <= stride,
                1 <= bpp,
                y < rows,
                r == raw@,
                r.len() == total,
                src + 1 + stride <= r.len(),
                line == r.subrange(src + 1, src + 1 + stride),
                row_start == done.len(),
                done.len() == y * stride,
                y > 0 ==> done.len() >= stride,
                prev == if y == 0 {
                    Seq::new(stride as nat, |i: int| 0u8)
                } else {
                    done.subrange(done.len() - stride, done.len() as int)
                },
                out@ == done + unfilter_row(kind, line, prev, bpp as int, i as int),
                out@.len() == row_start + i,
            decreases stride - i,
        {
            proof {
                lemma_unfilter_row_len(kind, line, prev, bpp as int, i as int);
            }
            let x: u8 = raw[src + 1 + i];
            let cur: usize = out.len();
            let a: u8 = if i >= bpp { out[cur - bpp] } else { 0 };
            let b: u8 = if y > 0 { out[row_start - stride + i] } else { 0 };
            let c: u8 = if y > 0 && i >= bpp { out[row_start - stride + i - bpp] } else { 0 };
            let v: u8 = reconstruct_byte(kind, x, a, b, c);
            out.push(v);
            i = i + 1;
            assert(out@ =~= done + unfilter_row(kind, line, prev, bpp as int, i as int));
        }
        y = y + 1;
        src = src + stride + 1;
    }
    Some(out)
}

/// If an early part of the rows names a predictor that does not exist, so
/// does the whole.
pub proof fn lemma_filters_valid_prefix(raw: Seq<u8>, stride: int, a: int, b: int)
    requires
        a <= b,
        filters_valid(raw, stride, b),
    ensures
        filters_valid(raw, stride, a),
    decreases b - a,
{
    if a < b {
        lemma_filters_valid_prefix(raw, stride, a, b - 1);
    }
}

} // verus!
