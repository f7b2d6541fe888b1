//! 8-bit RGBA pixels, with a signed companion type for differences.

use vstd::prelude::*;
use crate::arith::{floor_sqrt, isqrt};
use crate::color::{byte_hex, push_byte_hex};

verus! {

/// An 8-bit RGBA pixel.
#[derive(Clone, Copy, Debug)]
pub struct RGBA {
    pub r: u8,
    pub g: u8,
    pub b: u8,
    pub a: u8,
}

/// A signed RGBA value: the difference of two pixels.
#[derive(Clone, Copy, Debug)]
pub struct RGBADelta {
    pub r: i32,
    pub g: i32,
    pub b: i32,
    pub a: i32,
}

/// A sequence of RGBA pixels.
pub type RGBAPixels = Vec<RGBA>;

/// The hex code `#RRGGBBAA` of a pixel.
pub open spec fn rgba_hex(c: RGBA) -> Seq<char> {
    seq!['#'] + byte_hex(c.r) + byte_hex(c.g) + byte_hex(c.b) + byte_hex(c.a)
}

/// The squared Euclidean distance between two pixels over all four channels.
pub open spec fn rgba_distance_squared(x: RGBA, y: RGBA) -> nat {
    ((x.r - y.r) * (x.r - y.r) + (x.g - y.g) * (x.g - y.g) + (x.b - y.b) * (x.b - y.b) + (x.a
        - y.a) * (x.a - y.a)) as nat
}

/// The Euclidean distance between two pixels, rounded down, in units of
/// 1/10000.
pub open spec fn rgba_distance(x: RGBA, y: RGBA) -> nat {
    floor_sqrt(rgba_distance_squared(x, y) * 100_000_000)
}

/// The index of the pixel of `colors` nearest to `c`; among equally near
/// ones the first.
pub open spec fn rgba_nearest_index(c: RGBA, colors: Seq<RGBA>) -> int
    decreases colors.len(),
{
    if colors.len() <= 1 {
        0
    } else {
        let j = rgba_nearest_index(c, colors.drop_last());
        if rgba_distance(c, colors.last()) < rgba_distance(c, colors[j]) {
            colors.len() - 1
        } else {
            j
        }
    }
}

/// The square of a channel difference.
fn square_channel(d: i32) -> (r: u64)
    requires
        -255 <= d <= 255,
    ensures
        r == d * d,
        r <= 65025,
{
    assert(0 <= d * d <= 65025) by (nonlinear_arith)
        requires
            -255 <= d <= 255,
    ;
    (d * d) as u64
}

impl RGBA {
    /// The brightness `0.2126 R + 0.7152 G + 0.0722 B`, in units of 1/10000.
    pub fn brightness(&self) -> (r: u32)
        ensures
            r == 2126 * self.r + 7152 * self.g + 722 * self.b,
    {
        2126 * self.r as u32 + 7152 * self.g as u32 + 722 * self.b as u32
    }

    /// The Euclidean distance to `color` over the four channels, rounded
    /// down, in units of 1/10000.
    pub fn distance(&self, color: &RGBA) -> (r: u32)
        ensures
            r == rgba_distance(*self, *color),
    {
        let diff = RGBADelta::from(*self).sub(RGBADelta::from(*color));
        let sum: u64 = square_channel(diff.r) + square_channel(diff.g) + square_channel(diff.b)
            + square_channel(diff.a);
        let root = isqrt((sum as u128) * 100_000_000);
        proof {
            if root > 6_000_000 {
                crate::arith::lemma_square_monotone(6_000_001, root as nat);
            }
        }
        root as u32
    }

    /// The index of the pixel of `colors` nearest to `self` (the first one
    /// among equally near pixels), and its distance.
    pub fn nearest(&self, colors: &Vec<RGBA>) -> (r: (usize, u32))
        requires
            colors.len() > 0,
        ensures
            r.0 == rgba_nearest_index(*self, colors@),
            r.0 < colors.len(),
            r.1 == rgba_distance(*self, colors@[r.0 as int]),
    {
        let mut best: usize = 0;
        let mut best_d: u32 = self.distance(&colors[0]);
        let mut i: usize = 1;
        while i < colors.len()
            invariant
                1 <= i <= colors.len(),
                best == rgba_nearest_index(*self, colors@.subrange(0, i as int)),
                best < i,
                best_d == rgba_distance(*self, colors@[best as int]),
            decreases colors.len() - i,
        {
            let d = self.distance(&colors[i]);
            assert(colors@.subrange(0, i + 1).drop_last() =~= colors@.subrange(0, i as int));
            if d < best_d {
                best = i;
                best_d = d;
            }
            i = i + 1;
        }
        assert(colors@.subrange(0, i as int) =~= colors@);
        (best, best_d)
    }

    /// The hex code of the pixel: `#` and two upper-case, zero-padded digits
    /// for each of red, green, blue and alpha.
    pub fn hex(&self) -> (r: String)
        ensures
            r@ == rgba_hex(*self),
    {
        let mut s = String::from_str("#");
        proof {
            reveal_strlit("#");
        }
        push_byte_hex(&mut s, self.r);
        push_byte_hex(&mut s, self.g);
        push_byte_hex(&mut s, self.b);
        push_byte_hex(&mut s, self.a);
        assert(s@ =~= rgba_hex(*self));
        s
    }
}

impl RGBADelta {
    /// The channel-wise difference `self - rhs`, wrapping on overflow.
    pub fn sub(self, rhs: RGBADelta) -> (r: RGBADelta)
        ensures
            r.r == self.r.wrapping_sub(rhs.r),
            r.g == self.g.wrapping_sub(rhs.g),
            r.b == self.b.wrapping_sub(rhs.b),
            r.a == self.a.wrapping_sub(rhs.a),
    {
        RGBADelta {
            r: self.r.wrapping_sub(rhs.r),
            g: self.g.wrapping_sub(rhs.g),
            b: self.b.wrapping_sub(rhs.b),
            a: self.a.wrapping_sub(rhs.a),
        }
    }
}

impl From<RGBA> for RGBADelta {
    /// Widens each channel.
    fn from(item: RGBA) -> (r: RGBADelta) {
        RGBADelta { r: item.r as i32, g: item.g as i32, b: item.b as i32, a: item.a as i32 }
    }
}

impl vstd::std_specs::convert::FromSpecImpl<RGBA> for RGBADelta {
    open spec fn obeys_from_spec() -> bool {
        true
    }

    open spec fn from_spec(item: RGBA) -> RGBADelta {
        RGBADelta { r: item.r as i32, g: item.g as i32, b: item.b as i32, a: item.a as i32 }
    }
}

impl From<RGBADelta> for RGBA {
    /// Keeps the low eight bits of each channel.
    fn from(item: RGBADelta) -> (r: RGBA) {
        RGBA { r: item.r as u8, g: item.g as u8, b: item.b as u8, a: item.a as u8 }
    }
}

impl vstd::std_specs::convert::FromSpecImpl<RGBADelta> for RGBA {
    open spec fn obeys_from_spec() -> bool {
        true
    }

    open spec fn from_spec(item: RGBADelta) -> RGBA {
        RGBA { r: item.r as u8, g: item.g as u8, b: item.b as u8, a: item.a as u8 }
    }
}

impl PartialEq for RGBA {
    fn eq(&self, other: &Self) -> (r: bool) {
        !(self.r != other.r || self.g != other.g || self.b != other.b || self.a != other.a)
    }
}

impl vstd::std_specs::cmp::PartialEqSpecImpl for RGBA {
    open spec fn obeys_eq_spec() -> bool {
        true
    }

    open spec fn eq_spec(&self, other: &RGBA) -> bool {
        self.r == other.r && self.g == other.g && self.b == other.b && self.a == other.a
    }
}

} // verus!
