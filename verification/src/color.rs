//! Three-channel integer color values and their elementwise arithmetic.
//!
//! Channels are nominally 16-bit (0..=65535) but are deliberately not clamped:
//! during error diffusion a channel may transiently go negative or exceed
//! 65535, so channels are held in a wide signed integer type.

use vstd::prelude::*;

verus! {

/// Largest 16-bit channel value.
pub const MAX16: i64 = 65535;

/// A color as three signed integer channels.
#[derive(Clone, Copy, Debug, PartialEq, Eq, Structural)]
pub struct Color {
    pub r: i64,
    pub g: i64,
    pub b: i64,
}

/// Mathematical model of a color: three unbounded integer channels.
pub ghost struct Rgb {
    pub r: int,
    pub g: int,
    pub b: int,
}

impl View for Color {
    type V = Rgb;

    open spec fn view(&self) -> Rgb {
        Rgb { r: self.r as int, g: self.g as int, b: self.b as int }
    }
}

/// The models of a sequence of colors.
pub open spec fn views(s: Seq<Color>) -> Seq<Rgb> {
    s.map_values(|c: Color| c@)
}

/// True when every channel lies in the nominal 16-bit range.
pub open spec fn in_range16(c: Rgb) -> bool {
    &&& 0 <= c.r <= MAX16
    &&& 0 <= c.g <= MAX16
    &&& 0 <= c.b <= MAX16
}

/// True when every channel has magnitude at most `m`.
pub open spec fn bounded(c: Rgb, m: int) -> bool {
    &&& -m <= c.r <= m
    &&& -m <= c.g <= m
    &&& -m <= c.b <= m
}

pub open spec fn rgb_add(a: Rgb, o: Rgb) -> Rgb {
    Rgb { r: a.r + o.r, g: a.g + o.g, b: a.b + o.b }
}

pub open spec fn rgb_sub(a: Rgb, o: Rgb) -> Rgb {
    Rgb { r: a.r - o.r, g: a.g - o.g, b: a.b - o.b }
}

pub open spec fn rgb_mul(a: Rgb, k: int) -> Rgb {
    Rgb { r: a.r * k, g: a.g * k, b: a.b * k }
}

/// Division truncating toward zero, for a positive divisor, as two's-complement
/// signed division behaves.
pub open spec fn tdiv(v: int, k: int) -> int {
    if v >= 0 {
        v / k
    } else {
        -((-v) / k)
    }
}

pub open spec fn rgb_div(a: Rgb, k: int) -> Rgb {
    Rgb { r: tdiv(a.r, k), g: tdiv(a.g, k), b: tdiv(a.b, k) }
}

/// Appending a color appends its model.
pub proof fn lemma_views_push(s: Seq<Color>, c: Color)
    ensures
        views(s.push(c)) == views(s).push(c@),
{
    assert(views(s.push(c)) =~= views(s).push(c@));
}

/// Updating a color updates its model.
pub proof fn lemma_views_update(s: Seq<Color>, i: int, c: Color)
    requires
        0 <= i < s.len(),
    ensures
        views(s.update(i, c)) == views(s).update(i, c@),
{
    assert(views(s.update(i, c)) =~= views(s).update(i, c@));
}

impl Color {
    /// Elementwise sum.
    pub fn plus(self, o: Color) -> (res: Color)
        requires
            i64::MIN <= self.r + o.r <= i64::MAX,
            i64::MIN <= self.g + o.g <= i64::MAX,
            i64::MIN <= self.b + o.b <= i64::MAX,
        ensures
            res@ == rgb_add(self@, o@),
    {
        Color { r: self.r + o.r, g: self.g + o.g, b: self.b + o.b }
    }

    /// Elementwise difference.
    pub fn minus(self, o: Color) -> (res: Color)
        requires
            i64::MIN <= self.r - o.r <= i64::MAX,
            i64::MIN <= self.g - o.g <= i64::MAX,
            i64::MIN <= self.b - o.b <= i64::MAX,
        ensures
            res@ == rgb_sub(self@, o@),
    {
        Color { r: self.r - o.r, g: self.g - o.g, b: self.b - o.b }
    }

    /// Scalar multiple.
    pub fn times(self, k: i64) -> (res: Color)
        requires
            i64::MIN <= self.r * k <= i64::MAX,
            i64::MIN <= self.g * k <= i64::MAX,
            i64::MIN <= self.b * k <= i64::MAX,
        ensures
            res@ == rgb_mul(self@, k as int),
    {
        Color { r: self.r * k, g: self.g * k, b: self.b * k }
    }

    /// Scalar division, truncating toward zero.
    pub fn divided_by(self, k: i64) -> (res: Color)
        requires
            k >= 1,
            self.r > i64::MIN,
            self.g > i64::MIN,
            self.b > i64::MIN,
        ensures
            res@ == rgb_div(self@, k as int),
    {
        Color { r: self.r / k, g: self.g / k, b: self.b / k }
    }
}

} // verus!
