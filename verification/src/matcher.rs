//! Perceptually weighted nearest-color search.
//!
//! The distance between a source color and a palette candidate is a
//! redmean-style weighted sum of squared channel differences: with
//! `m` the mean of the two red channels, the red term is weighted by
//! `512 + m / 65535`, the green term by `1024`, and the blue term by
//! `512 + (65535 - m) / 65535`.  Comparisons between such distances are
//! unchanged by dropping the final square root and by scaling all three
//! weights by the positive constant `2 * 65535`, which clears the fractions;
//! `color_dist` below is that exact integer form, so the search is an exact
//! implementation of the metric with no rounding at all.

use vstd::prelude::*;

use crate::color::{bounded, in_range16, views, Color, Rgb};

verus! {

/// Magnitude bound on source channels accepted by the exec search; large
/// enough for any value error diffusion can produce within `MAX_PIXELS`
/// pixels, small enough that the distance computation fits in `i128`.
pub const CHANNEL_BOUND: i64 = 1_100_000_000_000;

/// The weighted squared distance, scaled by `2 * 65535`.
///
/// `512 * 131070 == 67107840` is the scaled base weight of the red and blue
/// terms, `1024 * 131070 == 134215680` the scaled green weight, and the sum
/// of the two red channels stands in for twice their mean.
pub open spec fn color_dist(src: Rgb, cand: Rgb) -> int {
    let s = src.r + cand.r;
    let dr = src.r - cand.r;
    let dg = src.g - cand.g;
    let db = src.b - cand.b;
    (67107840 + s) * (dr * dr) + 134215680 * (dg * dg) + (67238910 - s) * (db * db)
}

/// Index of the entry among the first `n` palette entries nearest to `src`,
/// the first such entry on ties: later entries replace the best-so-far only
/// on strict improvement.
pub open spec fn best_in(pal: Seq<Rgb>, src: Rgb, n: int) -> int
    decreases n,
{
    if n <= 1 {
        0
    } else {
        let prev = best_in(pal, src, n - 1);
        if color_dist(src, pal[n - 1]) < color_dist(src, pal[prev]) {
            n - 1
        } else {
            prev
        }
    }
}

/// Index of the first palette entry at minimal distance from `src`.
pub open spec fn best_index(pal: Seq<Rgb>, src: Rgb) -> int {
    best_in(pal, src, pal.len() as int)
}

/// The nearest-entry index is in range, achieves the minimum distance, and
/// every strictly earlier entry is strictly farther.
pub proof fn lemma_best_in_props(pal: Seq<Rgb>, src: Rgb, n: int)
    requires
        1 <= n <= pal.len(),
    ensures
        0 <= best_in(pal, src, n) < n,
        forall|k: int|
            0 <= k < n ==> color_dist(src, pal[best_in(pal, src, n)]) <= color_dist(
                src,
                #[trigger] pal[k],
            ),
        forall|k: int|
            0 <= k < best_in(pal, src, n) ==> color_dist(src, #[trigger] pal[k]) > color_dist(
                src,
                pal[best_in(pal, src, n)],
            ),
    decreases n,
{
    if n > 1 {
        lemma_best_in_props(pal, src, n - 1);
    }
}

/// A palette with a single entry: the search always returns that entry,
/// whatever the source color, in range or not.
pub proof fn lemma_singleton_palette(pal: Seq<Rgb>, src: Rgb)
    requires
        pal.len() == 1,
    ensures
        best_index(pal, src) == 0,
{
}

/// For colors in the nominal 16-bit range both scaled weights are positive,
/// so the distance is nonnegative and zero exactly on equal colors.
pub proof fn lemma_dist_zero_iff(src: Rgb, cand: Rgb)
    requires
        in_range16(src),
        in_range16(cand),
    ensures
        color_dist(src, cand) >= 0,
        color_dist(src, cand) == 0 <==> src == cand,
{
    let s = src.r + cand.r;
    let dr = src.r - cand.r;
    let dg = src.g - cand.g;
    let db = src.b - cand.b;
    assert((67107840 + s) * (dr * dr) >= 0 && 134215680 * (dg * dg) >= 0 && (67238910 - s) * (db
        * db) >= 0) by (nonlinear_arith)
        requires
            0 <= s <= 131070,
    ;
    if color_dist(src, cand) == 0 {
        assert(dr == 0 && dg == 0 && db == 0) by (nonlinear_arith)
            requires
                0 <= s <= 131070,
                (67107840 + s) * (dr * dr) + 134215680 * (dg * dg) + (67238910 - s) * (db * db)
                    == 0,
                (67107840 + s) * (dr * dr) >= 0,
                134215680 * (dg * dg) >= 0,
                (67238910 - s) * (db * db) >= 0,
        ;
    }
    if src == cand {
        assert((67107840 + s) * (dr * dr) == 0 && 134215680 * (dg * dg) == 0 && (67238910 - s) * (
        db * db) == 0) by (nonlinear_arith)
            requires
                dr == 0,
                dg == 0,
                db == 0,
        ;
    }
}

/// The distance, computed exactly in wide integers.
fn dist_exec(src: &Color, cand: &Color) -> (d: i128)
    requires
        bounded(src@, CHANNEL_BOUND as int),
        in_range16(cand@),
    ensures
        d as int == color_dist(src@, cand@),
{
    let sr = src.r as i128;
    let sg = src.g as i128;
    let sb = src.b as i128;
    let cr = cand.r as i128;
    let cg = cand.g as i128;
    let cb = cand.b as i128;
    let s = sr + cr;
    let dr = sr - cr;
    let dg = sg - cg;
    let db = sb - cb;
    proof {
        // Channel differences stay below 2.2e12 in magnitude, their squares
        // below 5e24, and each weighted term below 2.3e37, so the whole sum
        // stays far inside the i128 range.
        assert(0 <= dr * dr <= 5_000_000_000_000_000_000_000_000 && 0 <= dg * dg
            <= 5_000_000_000_000_000_000_000_000 && 0 <= db * db
            <= 5_000_000_000_000_000_000_000_000) by (nonlinear_arith)
            requires
                -2_200_000_000_000 <= dr <= 2_200_000_000_000,
                -2_200_000_000_000 <= dg <= 2_200_000_000_000,
                -2_200_000_000_000 <= db <= 2_200_000_000_000,
        ;
        assert(-23_000_000_000_000_000_000_000_000_000_000_000_000 <= (67107840 + s) * (dr * dr)
            <= 23_000_000_000_000_000_000_000_000_000_000_000_000) by (nonlinear_arith)
            requires
                0 <= dr * dr <= 5_000_000_000_000_000_000_000_000,
                -2_300_000_000_000 <= 67107840 + s <= 2_300_000_000_000,
        ;
        assert(-23_000_000_000_000_000_000_000_000_000_000_000_000 <= 134215680 * (dg * dg)
            <= 23_000_000_000_000_000_000_000_000_000_000_000_000) by (nonlinear_arith)
            requires
                0 <= dg * dg <= 5_000_000_000_000_000_000_000_000,
        ;
        assert(-23_000_000_000_000_000_000_000_000_000_000_000_000 <= (67238910 - s) * (db * db)
            <= 23_000_000_000_000_000_000_000_000_000_000_000_000) by (nonlinear_arith)
            requires
                0 <= db * db <= 5_000_000_000_000_000_000_000_000,
                -2_300_000_000_000 <= 67238910 - s <= 2_300_000_000_000,
        ;
    }
    (67107840 + s) * (dr * dr) + 134215680 * (dg * dg) + (67238910 - s) * (db * db)
}

/// The palette entry perceptually nearest to `src`; on ties, the first such
/// entry in palette order.
pub fn closest_color(pal: &Vec<Color>, src: &Color) -> (res: Color)
    requires
        pal@.len() >= 1,
        forall|k: int| 0 <= k < pal@.len() ==> in_range16(#[trigger] pal@[k]@),
        bounded(src@, CHANNEL_BOUND as int),
    ensures
        res@ == views(pal@)[best_index(views(pal@), src@)],
        exists|k: int| 0 <= k < pal@.len() && res == pal@[k],
        in_range16(res@),
{
    let ghost palv = views(pal@);
    let mut best: Color = pal[0];
    let mut best_d: i128 = dist_exec(src, &best);
    let mut i: usize = 1;
    while i < pal.len()
        invariant
            1 <= i <= pal@.len(),
            palv == views(pal@),
            forall|k: int| 0 <= k < pal@.len() ==> in_range16(#[trigger] pal@[k]@),
            bounded(src@, CHANNEL_BOUND as int),
            best == pal@[best_in(palv, src@, i as int)],
            best_d as int == color_dist(src@, palv[best_in(palv, src@, i as int)]),
        decreases pal@.len() - i,
    {
        proof {
            lemma_best_in_props(palv, src@, i as int);
        }
        let d = dist_exec(src, &pal[i]);
        if d < best_d {
            best = pal[i];
            best_d = d;
        }
        i = i + 1;
    }
    proof {
        lemma_best_in_props(palv, src@, pal@.len() as int);
    }
    best
}

} // verus!
