//! The dither engine: a single raster-order pass over the pixel buffer.
//!
//! At every position the current (possibly error-adjusted) color is matched
//! against the palette, the match is appended to the output, and the
//! quantization error is diffused in place into the not-yet-visited
//! neighbors with the classic kernel: 7/16 right, 3/16 below-left, 5/16
//! below, 1/16 below-right, each weight applied with truncating integer
//! division and only when the neighbor is inside the image.
//!
//! Every write targets a strictly later scan position, so each cell receives
//! at most the full kernel mass of 16/16 from its four earlier neighbors.
//! That bounds each channel by `65535 + 131070 * i` after `i` steps, which
//! keeps the arithmetic far inside `i64` as long as the pixel count stays
//! within `MAX_PIXELS`.

use vstd::arithmetic::div_mod::{
    lemma_fundamental_div_mod, lemma_fundamental_div_mod_converse,
    lemma_mod_division_less_than_divisor,
};
use vstd::prelude::*;

use crate::color::{
    bounded, in_range16, lemma_views_push, lemma_views_update, rgb_add, rgb_div, rgb_mul, rgb_sub,
    tdiv, views, Color, Rgb,
};
use crate::matcher::{
    best_index, closest_color, color_dist, lemma_best_in_props, lemma_dist_zero_iff,
    CHANNEL_BOUND,
};

verus! {

/// Largest pixel count the engine accepts; keeps every diffused channel
/// below `CHANNEL_BOUND` and so all arithmetic in range.
pub const MAX_PIXELS: usize = 8_000_000;

/// One kernel weight applied to an error color: multiply by `k`, then divide
/// by 16 truncating toward zero.
pub open spec fn weight_frac(e: Rgb, k: int) -> Rgb {
    rgb_div(rgb_mul(e, k), 16)
}

/// The buffer after the error `e` of the pixel at `(x, y)` is diffused, in
/// the order the scan applies the writes.
pub open spec fn diffuse(d: Seq<Rgb>, x: int, y: int, w: int, h: int, e: Rgb) -> Seq<Rgb> {
    let i = y * w + x;
    let d1 = if x + 1 < w {
        d.update(i + 1, rgb_add(d[i + 1], weight_frac(e, 7)))
    } else {
        d
    };
    let d2 = if y + 1 < h && x + 1 < w {
        d1.update(i + w + 1, rgb_add(d1[i + w + 1], weight_frac(e, 1)))
    } else {
        d1
    };
    let d3 = if y + 1 < h && x >= 1 {
        d2.update(i + w - 1, rgb_add(d2[i + w - 1], weight_frac(e, 3)))
    } else {
        d2
    };
    if y + 1 < h {
        d3.update(i + w, rgb_add(d3[i + w], weight_frac(e, 5)))
    } else {
        d3
    }
}

/// Buffer and output after the first `i` scan steps.
pub open spec fn dither_trace(d0: Seq<Rgb>, pal: Seq<Rgb>, w: int, h: int, i: int) -> (Seq<Rgb>,
    Seq<Rgb>)
    decreases i,
{
    if i <= 0 {
        (d0, Seq::empty())
    } else {
        let prev = dither_trace(d0, pal, w, h, i - 1);
        let x = (i - 1) % w;
        let y = (i - 1) / w;
        let c = prev.0[i - 1];
        let q = pal[best_index(pal, c)];
        (diffuse(prev.0, x, y, w, h, rgb_sub(c, q)), prev.1.push(q))
    }
}

/// The kernel mass, in sixteenths, that the cell at `(jx, jy)` has received
/// from the steps before step `i`: 7 from its left neighbor, 5 from above,
/// 1 from above-left, 3 from above-right, each once that neighbor has been
/// processed.  At most 16 in total.
pub open spec fn kernel_mass(jx: int, jy: int, i: int, w: int) -> int {
    (if jx >= 1 && jy * w + jx - 1 < i {
        7int
    } else {
        0int
    }) + (if jy >= 1 && (jy - 1) * w + jx < i {
        5int
    } else {
        0int
    }) + (if jy >= 1 && jx >= 1 && (jy - 1) * w + (jx - 1) < i {
        1int
    } else {
        0int
    }) + (if jy >= 1 && jx + 1 < w && (jy - 1) * w + (jx + 1) < i {
        3int
    } else {
        0int
    })
}

/// `16 * |channel| <= m` for every channel.
pub open spec fn bounded16(c: Rgb, m: int) -> bool {
    &&& -m <= 16 * c.r <= m
    &&& -m <= 16 * c.g <= m
    &&& -m <= 16 * c.b <= m
}

/// The in-flight magnitude invariant: after `i` steps every unprocessed cell
/// is bounded by the base pixel range plus the kernel mass it has received,
/// each sixteenth of error mass being at most `131070 * i` in magnitude.
pub open spec fn mag_inv(d: Seq<Rgb>, i: int, w: int, h: int) -> bool {
    forall|jx: int, jy: int|
        0 <= jx < w && 0 <= jy < h && jy * w + jx >= i ==> bounded16(
            d[jy * w + jx],
            16 * 65535 + #[trigger] kernel_mass(jx, jy, i, w) * 131070 * i,
        )
}

/// Row-major coordinates are uniquely determined by the flat index.
pub proof fn lemma_flat_unique(w: int, x1: int, y1: int, x2: int, y2: int)
    requires
        w >= 1,
        0 <= x1 < w,
        0 <= x2 < w,
        y1 * w + x1 == y2 * w + x2,
    ensures
        x1 == x2,
        y1 == y2,
{
    assert(x1 == x2 && y1 == y2) by (nonlinear_arith)
        requires
            w >= 1,
            0 <= x1 < w,
            0 <= x2 < w,
            y1 * w + x1 == y2 * w + x2,
    ;
}

/// A sixteenth of a scaled error channel keeps `16 * |result| <= k * m` and
/// `|result| <= m` whenever `|v| <= m` and the weight `k` is at most 7.
proof fn lemma_tdiv16_scaled(v: int, k: int, m: int)
    requires
        0 <= k <= 7,
        -m <= v <= m,
        0 <= m,
    ensures
        -(k * m) <= 16 * tdiv(v * k, 16) <= k * m,
        -m <= tdiv(v * k, 16) <= m,
{
    assert(-(k * m) <= v * k <= k * m) by (nonlinear_arith)
        requires
            0 <= k <= 7,
            -m <= v <= m,
            0 <= m,
    ;
    let u = v * k;
    assert(k * m <= 7 * m) by (nonlinear_arith)
        requires
            0 <= k <= 7,
            0 <= m,
    ;
    if u >= 0 {
        lemma_fundamental_div_mod(u, 16);
        assert(16 * (u / 16) <= u);
        assert(u / 16 >= 0);
    } else {
        lemma_fundamental_div_mod(-u, 16);
        assert(16 * ((-u) / 16) <= -u);
        assert((-u) / 16 >= 0);
    }
}

/// Applies `lemma_tdiv16_scaled` to all three channels of a kernel weight.
proof fn lemma_weight_frac_bound(e: Rgb, k: int, m: int)
    requires
        0 <= k <= 7,
        bounded(e, m),
        0 <= m,
    ensures
        bounded(weight_frac(e, k), m),
        -(k * m) <= 16 * weight_frac(e, k).r <= k * m,
        -(k * m) <= 16 * weight_frac(e, k).g <= k * m,
        -(k * m) <= 16 * weight_frac(e, k).b <= k * m,
{
    lemma_tdiv16_scaled(e.r, k, m);
    lemma_tdiv16_scaled(e.g, k, m);
    lemma_tdiv16_scaled(e.b, k, m);
}

/// One diffusion step keeps the magnitude invariant: the written neighbors
/// gain exactly their kernel weight of mass, everything else only sees the
/// bound grow.
proof fn lemma_mag_inv_step(d: Seq<Rgb>, dnew: Seq<Rgb>, x: int, y: int, w: int, h: int, i: int, e: Rgb)
    requires
        w >= 1,
        h >= 1,
        0 <= x < w,
        0 <= y < h,
        i == y * w + x,
        d.len() == w * h,
        dnew == diffuse(d, x, y, w, h, e),
        mag_inv(d, i, w, h),
        bounded(e, 131070 * (i + 1)),
        0 <= i,
    ensures
        mag_inv(dnew, i + 1, w, h),
{
    assert((y + 1) * w == y * w + w) by (nonlinear_arith);
    assert forall|jx: int, jy: int|
        0 <= jx < w && 0 <= jy < h && jy * w + jx >= i + 1 implies bounded16(
            dnew[jy * w + jx],
            16 * 65535 + #[trigger] kernel_mass(jx, jy, i + 1, w) * 131070 * (i + 1),
        ) by {
        let j = jy * w + jx;
        assert(0 <= j < d.len()) by (nonlinear_arith)
            requires
                0 <= jx < w,
                0 <= jy < h,
                j == jy * w + jx,
                d.len() == w * h,
        ;
        assert((x + 1 < w ==> 0 <= i + 1 < d.len()) && (y + 1 < h ==> 0 <= i + w < d.len()) && (y
            + 1 < h && x + 1 < w ==> 0 <= i + w + 1 < d.len()) && (y + 1 < h && x >= 1 ==> 0 <= i
            + w - 1 < d.len())) by (nonlinear_arith)
            requires
                i == y * w + x,
                0 <= x < w,
                0 <= y < h,
                d.len() == w * h,
        ;
        assert(dnew.len() == d.len());
        let m0 = kernel_mass(jx, jy, i, w);
        let m1 = kernel_mass(jx, jy, i + 1, w);
        let em = 131070 * (i + 1);
        assert((jy - 1) * w == jy * w - w) by (nonlinear_arith);
        assert(bounded16(d[j], 16 * 65535 + m0 * 131070 * i));
        assert(0 <= m0 <= 16 && m0 <= m1 <= 16);
        if x + 1 < w && j == i + 1 {
            lemma_flat_unique(w, jx, jy, x + 1, y);
            assert(m1 == m0 + 7);
            lemma_weight_frac_bound(e, 7, em);
            assert(dnew[j] == rgb_add(d[j], weight_frac(e, 7)));
            assert(m0 * 131070 * i + 7 * em <= m1 * 131070 * (i + 1)) by (nonlinear_arith)
                requires
                    0 <= m0,
                    0 <= i,
                    m1 == m0 + 7,
                    em == 131070 * (i + 1),
            ;
        } else if y + 1 < h && x + 1 < w && j == i + w + 1 {
            lemma_flat_unique(w, jx, jy, x + 1, y + 1);
            assert(m1 == m0 + 1);
            lemma_weight_frac_bound(e, 1, em);
            assert(dnew[j] == rgb_add(d[j], weight_frac(e, 1)));
            assert(m0 * 131070 * i + 1 * em <= m1 * 131070 * (i + 1)) by (nonlinear_arith)
                requires
                    0 <= m0,
                    0 <= i,
                    m1 == m0 + 1,
                    em == 131070 * (i + 1),
            ;
        } else if y + 1 < h && x >= 1 && j == i + w - 1 {
            lemma_flat_unique(w, jx, jy, x - 1, y + 1);
            assert(m1 == m0 + 3);
            lemma_weight_frac_bound(e, 3, em);
            assert(dnew[j] == rgb_add(d[j], weight_frac(e, 3)));
            assert(m0 * 131070 * i + 3 * em <= m1 * 131070 * (i + 1)) by (nonlinear_arith)
                requires
                    0 <= m0,
                    0 <= i,
                    m1 == m0 + 3,
                    em == 131070 * (i + 1),
            ;
        } else if y + 1 < h && j == i + w {
            lemma_flat_unique(w, jx, jy, x, y + 1);
            assert(m1 == m0 + 5);
            lemma_weight_frac_bound(e, 5, em);
            assert(dnew[j] == rgb_add(d[j], weight_frac(e, 5)));
            assert(m0 * 131070 * i + 5 * em <= m1 * 131070 * (i + 1)) by (nonlinear_arith)
                requires
                    0 <= m0,
                    0 <= i,
                    m1 == m0 + 5,
                    em == 131070 * (i + 1),
            ;
        } else {
            assert(dnew[j] == d[j]);
            assert(m0 * 131070 * i <= m1 * 131070 * (i + 1)) by (nonlinear_arith)
                requires
                    0 <= m0 <= m1,
                    0 <= i,
            ;
        }
    }
}

/// An unprocessed cell's channels stay within `65535 + 131070 * i` after
/// `i` steps: it has received at most the full kernel mass of 16/16.
proof fn lemma_cell_bound(d: Seq<Rgb>, i: int, w: int, h: int, jx: int, jy: int)
    requires
        mag_inv(d, i, w, h),
        0 <= jx < w,
        0 <= jy < h,
        jy * w + jx >= i,
        0 <= i,
    ensures
        bounded(d[jy * w + jx], 65535 + 131070 * i),
{
    let jm = kernel_mass(jx, jy, i, w);
    assert(0 <= jm <= 16);
    assert(bounded16(d[jy * w + jx], 16 * 65535 + jm * 131070 * i));
    assert(16 * 65535 + jm * 131070 * i <= 16 * (65535 + 131070 * i)) by (nonlinear_arith)
        requires
            0 <= jm <= 16,
            0 <= i,
    ;
    let b16 = 16 * 65535 + jm * 131070 * i;
    let c = d[jy * w + jx];
    assert(-b16 <= 16 * c.r <= b16 && -b16 <= 16 * c.g <= b16 && -b16 <= 16 * c.b <= b16);
}

/// Dithers the buffer in place against the palette, returning the matched
/// colors in scan order; the buffer itself is left holding the propagated
/// error accumulators.
#[verifier::rlimit(100)]
pub fn dither_pixels(data: &mut Vec<Color>, pal: &Vec<Color>, width: usize, height: usize) -> (out:
    Vec<Color>)
    requires
        old(data)@.len() == width * height,
        width * height <= MAX_PIXELS,
        pal@.len() >= 1,
        forall|k: int| 0 <= k < pal@.len() ==> in_range16(#[trigger] pal@[k]@),
        forall|j: int| 0 <= j < old(data)@.len() ==> in_range16(#[trigger] old(data)@[j]@),
    ensures
        views(final(data)@) == dither_trace(
            views(old(data)@),
            views(pal@),
            width as int,
            height as int,
            (width * height) as int,
        ).0,
        views(out@) == dither_trace(
            views(old(data)@),
            views(pal@),
            width as int,
            height as int,
            (width * height) as int,
        ).1,
        out@.len() == width * height,
        forall|k: int|
            0 <= k < out@.len() ==> exists|m: int| 0 <= m < pal@.len() && #[trigger] out@[k]
                == pal@[m],
        forall|k: int| 0 <= k < out@.len() ==> in_range16(#[trigger] out@[k]@),
{
    let w = width;
    let h = height;
    let n: usize = w * h;
    let ghost d0 = views(data@);
    let ghost palv = views(pal@);
    let mut out: Vec<Color> = Vec::new();
    let mut i: usize = 0;
    let mut x: usize = 0;
    let mut y: usize = 0;
    proof {
        assert(n > 0 ==> w >= 1) by (nonlinear_arith)
            requires
                n == (w as int) * (h as int),
        ;
        assert forall|jx: int, jy: int|
            0 <= jx < w && 0 <= jy < h && jy * (w as int) + jx >= 0 implies bounded16(
                d0[jy * (w as int) + jx],
                16 * 65535 + #[trigger] kernel_mass(jx, jy, 0, w as int) * 131070 * 0,
            ) by {
            let j = jy * (w as int) + jx;
            assert(0 <= j < n) by (nonlinear_arith)
                requires
                    0 <= jx < w,
                    0 <= jy < h,
                    j == jy * (w as int) + jx,
                    n == (w as int) * (h as int),
            ;
            assert(in_range16(data@[j]@));
            assert(d0[j] == data@[j]@);
            assert(kernel_mass(jx, jy, 0, w as int) * 131070 * 0 == 0) by (nonlinear_arith);
        }
        assert(mag_inv(d0, 0, w as int, h as int));
        assert(views(out@) =~= Seq::<Rgb>::empty());
    }
    while i < n
        invariant
            n == w * h,
            n <= MAX_PIXELS,
            pal@.len() >= 1,
            palv == views(pal@),
            forall|k: int| 0 <= k < pal@.len() ==> in_range16(#[trigger] pal@[k]@),
            data@.len() == n,
            0 <= x,
            0 <= y,
            i == y * w + x,
            i <= n,
            n > 0 ==> x < w,
            out@.len() == i,
            views(data@) == dither_trace(d0, palv, w as int, h as int, i as int).0,
            views(out@) == dither_trace(d0, palv, w as int, h as int, i as int).1,
            mag_inv(views(data@), i as int, w as int, h as int),
            forall|k: int|
                0 <= k < out@.len() ==> exists|m: int| 0 <= m < pal@.len() && #[trigger] out@[k]
                    == pal@[m],
            forall|k: int| 0 <= k < out@.len() ==> in_range16(#[trigger] out@[k]@),
        decreases n - i,
    {
        let ghost db0 = views(data@);
        let ghost ii = i as int;
        proof {
            assert(db0.len() == n);
        }
        let ghost wi = w as int;
        let ghost hi = h as int;
        let ghost xi = x as int;
        let ghost yi = y as int;
        proof {
            assert(y < h) by (nonlinear_arith)
                requires
                    ii == yi * wi + xi,
                    0 <= xi < wi,
                    0 <= yi,
                    ii < n,
                    n == wi * hi,
                    y == yi,
                    h == hi,
            ;
            assert((yi + 1) * wi == yi * wi + wi) by (nonlinear_arith);
            lemma_cell_bound(db0, ii, wi, hi, xi, yi);
            assert(yi * wi + xi == ii);
            assert(db0[ii] == data@[ii]@);
            assert(bounded(db0[ii], 65535 + 131070 * ii));
            assert(65535 + 131070 * ii <= CHANNEL_BOUND);
        }
        let c = data[i];
        let q = closest_color(pal, &c);
        proof {
            lemma_best_in_props(palv, c@, palv.len() as int);
            lemma_views_push(out@, q);
        }
        let e = c.minus(q);
        out.push(q);
        let ghost eg = e@;
        let ghost wb = 131070 * (ii + 1);
        proof {
            assert(bounded(eg, wb));
            assert(wb <= 131070 * 8000000);
        }
        let ghost mut cursor = db0;
        if x + 1 < w {
            proof {
                assert(ii + 1 < n) by (nonlinear_arith)
                    requires
                        ii == yi * wi + xi,
                        0 <= xi,
                        xi + 1 < wi,
                        0 <= yi,
                        yi < hi,
                        n == wi * hi,
                ;
                lemma_weight_frac_bound(eg, 7, wb);
                lemma_cell_bound(db0, ii, wi, hi, xi + 1, yi);
                assert(yi * wi + (xi + 1) == ii + 1);
                assert(bounded(db0[ii + 1], 65535 + 131070 * ii));
                assert(db0[ii + 1] == data@[ii + 1]@);
            }
            let t = e.times(7).divided_by(16);
            let nv = data[i + 1].plus(t);
            let ghost pre = data@;
            data[i + 1] = nv;
            proof {
                lemma_views_update(pre, ii + 1, nv);
                cursor = cursor.update(ii + 1, rgb_add(cursor[ii + 1], weight_frac(eg, 7)));
                assert(views(data@) == cursor);
            }
        }
        if y + 1 < h {
            proof {
                assert(ii + w < n && (xi + 1 < wi ==> ii + w + 1 < n)) by (nonlinear_arith)
                    requires
                        ii == yi * wi + xi,
                        0 <= xi < wi,
                        0 <= yi,
                        yi + 1 < hi,
                        n == wi * hi,
                        w == wi,
                ;
            }
            if x + 1 < w {
                proof {
                    lemma_weight_frac_bound(eg, 1, wb);
                    lemma_cell_bound(db0, ii, wi, hi, xi + 1, yi + 1);
                    assert((yi + 1) * wi + (xi + 1) == ii + wi + 1);
                    assert(bounded(db0[ii + wi + 1], 65535 + 131070 * ii));
                    assert(cursor[ii + wi + 1] == db0[ii + wi + 1]);
                    assert(cursor[ii + wi + 1] == data@[ii + wi + 1]@);
                }
                let t = e.divided_by(16);
                let nv = data[i + w + 1].plus(t);
                let ghost pre = data@;
                data[i + w + 1] = nv;
                proof {
                    assert(rgb_mul(eg, 1) == eg);
                    assert(t@ == weight_frac(eg, 1));
                    lemma_views_update(pre, ii + wi + 1, nv);
                    cursor = cursor.update(ii + wi + 1, rgb_add(cursor[ii + wi + 1], weight_frac(eg, 1)));
                    assert(views(data@) == cursor);
                }
            }
            if x > 0 {
                proof {
                    lemma_weight_frac_bound(eg, 3, wb);
                    lemma_cell_bound(db0, ii, wi, hi, xi - 1, yi + 1);
                    assert((yi + 1) * wi + (xi - 1) == ii + wi - 1);
                    assert(bounded(db0[ii + wi - 1], 65535 + 131070 * ii));
                    assert(cursor[ii + wi - 1] == db0[ii + wi - 1]);
                    assert(cursor[ii + wi - 1] == data@[ii + wi - 1]@);
                }
                let t = e.times(3).divided_by(16);
                let nv = data[i + w - 1].plus(t);
                let ghost pre = data@;
                data[i + w - 1] = nv;
                proof {
                    lemma_views_update(pre, ii + wi - 1, nv);
                    cursor = cursor.update(ii + wi - 1, rgb_add(cursor[ii + wi - 1], weight_frac(eg, 3)));
                    assert(views(data@) == cursor);
                }
            }
            proof {
                lemma_weight_frac_bound(eg, 5, wb);
                lemma_cell_bound(db0, ii, wi, hi, xi, yi + 1);
                assert((yi + 1) * wi + xi == ii + wi);
                assert(bounded(db0[ii + wi], 65535 + 131070 * ii));
                assert(cursor[ii + wi] == db0[ii + wi]);
                assert(cursor[ii + wi] == data@[ii + wi]@);
            }
            let t = e.times(5).divided_by(16);
            let nv = data[i + w].plus(t);
            let ghost pre = data@;
            data[i + w] = nv;
            proof {
                lemma_views_update(pre, ii + wi, nv);
                cursor = cursor.update(ii + wi, rgb_add(cursor[ii + wi], weight_frac(eg, 5)));
                assert(views(data@) == cursor);
            }
        }
        proof {
            assert(cursor == diffuse(db0, xi, yi, wi, hi, eg));
            lemma_mag_inv_step(db0, cursor, xi, yi, wi, hi, ii, eg);
            lemma_fundamental_div_mod_converse(ii, wi, yi, xi);
            assert(dither_trace(d0, palv, wi, hi, ii + 1).0 == cursor);
            assert(dither_trace(d0, palv, wi, hi, ii + 1).1 == views(out@));
        }
        i = i + 1;
        x = x + 1;
        if x == w {
            x = 0;
            y = y + 1;
        }
        proof {
            assert(i == y * w + x);
        }
    }
    out
}

/// The color is exactly some entry of the palette.
pub open spec fn in_palette(c: Rgb, pal: Seq<Rgb>) -> bool {
    exists|m: int| 0 <= m < pal.len() && c == pal[m]
}

/// Quantization guarantee: every pixel the scan emits is a palette entry
/// exactly; no third color is ever produced, whatever the buffer holds.
pub proof fn lemma_output_in_palette(d0: Seq<Rgb>, pal: Seq<Rgb>, w: int, h: int, i: int)
    requires
        pal.len() >= 1,
        0 <= i,
    ensures
        dither_trace(d0, pal, w, h, i).1.len() == i,
        forall|k: int|
            0 <= k < i ==> in_palette(#[trigger] dither_trace(d0, pal, w, h, i).1[k], pal),
    decreases i,
{
    if i > 0 {
        lemma_output_in_palette(d0, pal, w, h, i - 1);
        let prev = dither_trace(d0, pal, w, h, i - 1);
        let c = prev.0[i - 1];
        lemma_best_in_props(pal, c, pal.len() as int);
        assert forall|k: int| 0 <= k < i implies in_palette(
            #[trigger] dither_trace(d0, pal, w, h, i).1[k],
            pal,
        ) by {
            if k < i - 1 {
                assert(dither_trace(d0, pal, w, h, i).1[k] == prev.1[k]);
                assert(in_palette(prev.1[k], pal));
            } else {
                assert(dither_trace(d0, pal, w, h, i).1[k] == pal[best_index(pal, c)]);
            }
        }
    }
}

/// Idempotence on exact palette members: when every source pixel already
/// equals some palette entry, every step's error is zero, the buffer is
/// never changed, and the output is pixel-identical to the input.
pub proof fn lemma_palette_image_fixed(d0: Seq<Rgb>, pal: Seq<Rgb>, w: int, h: int, i: int)
    requires
        pal.len() >= 1,
        forall|k: int| 0 <= k < pal.len() ==> in_range16(#[trigger] pal[k]),
        forall|j: int| 0 <= j < d0.len() ==> in_palette(#[trigger] d0[j], pal),
        w >= 1,
        d0.len() == w * h,
        0 <= i <= d0.len(),
    ensures
        dither_trace(d0, pal, w, h, i).0 == d0,
        dither_trace(d0, pal, w, h, i).1.len() == i,
        forall|k: int| 0 <= k < i ==> #[trigger] dither_trace(d0, pal, w, h, i).1[k] == d0[k],
    decreases i,
{
    if i > 0 {
        lemma_palette_image_fixed(d0, pal, w, h, i - 1);
        let prev = dither_trace(d0, pal, w, h, i - 1);
        assert(prev.0 == d0);
        lemma_fundamental_div_mod(i - 1, w);
        lemma_mod_division_less_than_divisor(i - 1, w);
        let x = (i - 1) % w;
        let y = (i - 1) / w;
        assert(y * w + x == i - 1);
        assert(0 <= y && y < h) by (nonlinear_arith)
            requires
                y * w + x == i - 1,
                0 <= x < w,
                w >= 1,
                1 <= i <= w * h,
        ;
        assert((x + 1 < w ==> 0 <= i < d0.len()) && (y + 1 < h ==> 0 <= i - 1 + w < d0.len()) && (y
            + 1 < h && x + 1 < w ==> 0 <= i + w < d0.len()) && (y + 1 < h && x >= 1 ==> 0 <= i - 2
            + w < d0.len())) by (nonlinear_arith)
            requires
                i - 1 == y * w + x,
                0 <= x < w,
                0 <= y < h,
                d0.len() == w * h,
        ;
        let c = d0[i - 1];
        assert(in_palette(d0[i - 1], pal));
        let m = choose|m: int| 0 <= m < pal.len() && c == pal[m];
        assert(in_range16(c));
        lemma_best_in_props(pal, c, pal.len() as int);
        let b = best_index(pal, c);
        lemma_dist_zero_iff(c, c);
        assert(color_dist(c, pal[b]) <= color_dist(c, pal[m]));
        lemma_dist_zero_iff(c, pal[b]);
        assert(pal[b] == c);
        let e = rgb_sub(c, pal[b]);
        assert(e == Rgb { r: 0, g: 0, b: 0 });
        assert(weight_frac(e, 7) == Rgb { r: 0, g: 0, b: 0 });
        assert(weight_frac(e, 1) == Rgb { r: 0, g: 0, b: 0 });
        assert(weight_frac(e, 3) == Rgb { r: 0, g: 0, b: 0 });
        assert(weight_frac(e, 5) == Rgb { r: 0, g: 0, b: 0 });
        assert(diffuse(d0, x, y, w, h, e) =~= d0);
        assert forall|k: int| 0 <= k < i implies #[trigger] dither_trace(d0, pal, w, h, i).1[k]
            == d0[k] by {
            if k < i - 1 {
                assert(dither_trace(d0, pal, w, h, i).1[k] == prev.1[k]);
            } else {
                assert(dither_trace(d0, pal, w, h, i).1[k] == pal[b]);
            }
        }
    }
}

/// Boundary safety of one diffusion step: writes land only in the window
/// just after the current position; a right-edge pixel sends nothing right
/// or below-right, a left-edge pixel nothing below-left, and a bottom-row
/// pixel nothing downward at all.
pub proof fn lemma_diffuse_boundary_safe(d: Seq<Rgb>, x: int, y: int, w: int, h: int, e: Rgb)
    requires
        0 <= x < w,
        0 <= y < h,
        d.len() == w * h,
    ensures
        forall|j: int|
            0 <= j < d.len() && !(y * w + x < j <= y * w + x + w + 1) ==> #[trigger] diffuse(
                d,
                x,
                y,
                w,
                h,
                e,
            )[j] == d[j],
        x == w - 1 ==> forall|j: int|
            0 <= j < d.len() && j != y * w + x + w - 1 && j != y * w + x + w ==> #[trigger] diffuse(
                d,
                x,
                y,
                w,
                h,
                e,
            )[j] == d[j],
        x == 0 ==> forall|j: int|
            0 <= j < d.len() && j != y * w + x + 1 && j != y * w + x + w && j != y * w + x + w + 1
                ==> #[trigger] diffuse(d, x, y, w, h, e)[j] == d[j],
        y == h - 1 ==> forall|j: int|
            0 <= j < d.len() && j != y * w + x + 1 ==> #[trigger] diffuse(d, x, y, w, h, e)[j]
                == d[j],
{
    let i = y * w + x;
    assert((x + 1 < w ==> 0 <= i + 1 < d.len()) && (y + 1 < h ==> 0 <= i + w < d.len()) && (y + 1
        < h && x + 1 < w ==> 0 <= i + w + 1 < d.len()) && (y + 1 < h && x >= 1 ==> 0 <= i + w - 1
        < d.len())) by (nonlinear_arith)
        requires
            i == y * w + x,
            0 <= x < w,
            0 <= y < h,
            d.len() == w * h,
    ;
}

} // verus!
