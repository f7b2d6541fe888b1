//! Colors: 8-bit RGB, and CIE LAB held in fixed point, with the Delta-E
//! 1994 distance between two LAB colors and a nearest-color search.

use vstd::prelude::*;
use vstd::arithmetic::div_mod::{lemma_div_by_multiple, lemma_div_is_ordered_by_denominator};
use crate::arith::{
    floor_sqrt, isqrt, lemma_floor_sqrt, lemma_floor_sqrt_is, lemma_square_monotone,
};

verus! {

/// Fixed-point units per LAB unit: a LAB field of `10_000` stands for 1.0.
pub const LAB_SCALE: i32 = 10_000;

/// Bound on each LAB field of a color that the clustering engine accepts
/// (200.0 LAB units either side of zero; real colors stay well inside).
pub const LAB_LIMIT: i32 = 2_000_000;

/// `1000 * LAB_SCALE`: the unit in which the Delta-E 1994 weighting factors
/// `1 + 0.045 * C1` and `1 + 0.015 * C1` are computed exactly.
pub const FACTOR_UNIT: i128 = 10_000_000;

/// An 8-bit sRGB color.
#[derive(Clone, Copy, Debug)]
pub struct RGB {
    pub r: u8,
    pub g: u8,
    pub b: u8,
}

/// A CIE LAB color in fixed point: each field is the real value times
/// `LAB_SCALE`, so `LAB { l: 535_850, a: 0, b: 0 }` is L* = 53.585.
#[derive(Clone, Copy, Debug)]
pub struct LAB {
    pub l: i32,
    pub a: i32,
    pub b: i32,
}

/// The sixteen upper-case hexadecimal digits.
pub open spec fn hex_digits() -> Seq<char> {
    seq!['0', '1', '2', '3', '4', '5', '6', '7', '8', '9', 'A', 'B', 'C', 'D', 'E', 'F']
}

/// A byte as two upper-case hexadecimal digits, zero-padded.
pub open spec fn byte_hex(x: u8) -> Seq<char> {
    seq![hex_digits()[x as int / 16], hex_digits()[x as int % 16]]
}

/// The hex code `#RRGGBB` of an RGB color.
pub open spec fn rgb_hex(c: RGB) -> Seq<char> {
    seq!['#'] + byte_hex(c.r) + byte_hex(c.g) + byte_hex(c.b)
}

/// Appends the two hexadecimal digits of `x` to `s`.
pub(crate) fn push_byte_hex(s: &mut String, x: u8)
    ensures
        final(s)@ == old(s)@ + byte_hex(x),
{
    let digits = "0123456789ABCDEF";
    proof {
        reveal_strlit("0123456789ABCDEF");
    }
    assert(digits@ =~= hex_digits());
    assert(digits.is_ascii());
    let hi: usize = (x / 16) as usize;
    let lo: usize = (x % 16) as usize;
    s.append(digits.substring_ascii(hi, hi + 1));
    s.append(digits.substring_ascii(lo, lo + 1));
    assert(final(s)@ =~= old(s)@ + byte_hex(x));
}

impl RGB {
    /// The hex code of the color: `#` and two upper-case, zero-padded
    /// digits for each of red, green and blue.
    pub fn hex(&self) -> (r: String)
        ensures
            r@ == rgb_hex(*self),
    {
        let mut s = String::from_str("#");
        proof {
            reveal_strlit("#");
        }
        push_byte_hex(&mut s, self.r);
        push_byte_hex(&mut s, self.g);
        push_byte_hex(&mut s, self.b);
        assert(s@ =~= rgb_hex(*self));
        s
    }
}

impl PartialEq for RGB {
    fn eq(&self, other: &Self) -> (r: bool) {
        !(self.r != other.r || self.g != other.g || self.b != other.b)
    }
}

impl vstd::std_specs::cmp::PartialEqSpecImpl for RGB {
    open spec fn obeys_eq_spec() -> bool {
        true
    }

    open spec fn eq_spec(&self, other: &RGB) -> bool {
        self.r == other.r && self.g == other.g && self.b == other.b
    }
}

impl PartialEq for LAB {
    fn eq(&self, other: &Self) -> (r: bool) {
        !(self.l != other.l || self.a != other.a || self.b != other.b)
    }
}

impl vstd::std_specs::cmp::PartialEqSpecImpl for LAB {
    open spec fn obeys_eq_spec() -> bool {
        true
    }

    open spec fn eq_spec(&self, other: &LAB) -> bool {
        self.l == other.l && self.a == other.a && self.b == other.b
    }
}

pub open spec fn sq(x: int) -> int {
    x * x
}

/// Each field of `c` lies within `LAB_LIMIT` of zero.
pub open spec fn lab_in_range(c: LAB) -> bool {
    -LAB_LIMIT <= c.l <= LAB_LIMIT && -LAB_LIMIT <= c.a <= LAB_LIMIT && -LAB_LIMIT <= c.b
        <= LAB_LIMIT
}

/// The chroma `sqrt(a^2 + b^2)`, rounded down, in fixed-point units.
pub open spec fn chroma_of(c: LAB) -> nat {
    floor_sqrt((sq(c.a as int) + sq(c.b as int)) as nat)
}

/// The square of the Delta-E 1994 distance from `x` to `y`, in squared
/// fixed-point units, each scaled term rounded down. `x` is the reference
/// color: its chroma `C1` sets both weighting factors, so the distance is
/// not symmetric.
pub open spec fn delta_e_squared(x: LAB, y: LAB) -> nat {
    let c1 = chroma_of(x) as int;
    let c2 = chroma_of(y) as int;
    let dl = y.l - x.l;
    let dc = c2 - c1;
    let de2 = sq(x.l - y.l) + sq(x.a - y.a) + sq(x.b - y.b);
    let rest = de2 - sq(dl) - sq(dc);
    let dh2 = if rest > 0 {
        rest
    } else {
        0
    };
    let sc = FACTOR_UNIT + 45 * c1;
    let sh = FACTOR_UNIT + 15 * c1;
    (sq(dl) + sq(dc) * sq(FACTOR_UNIT as int) / sq(sc) + dh2 * sq(FACTOR_UNIT as int) / sq(sh)) as nat
}

/// The Delta-E 1994 distance from `x` to `y`, rounded down, in fixed-point
/// units.
pub open spec fn lab_distance(x: LAB, y: LAB) -> nat {
    floor_sqrt(delta_e_squared(x, y))
}

/// The distance from a color to itself is zero.
pub proof fn lemma_distance_to_self(x: LAB)
    ensures
        delta_e_squared(x, x) == 0,
        lab_distance(x, x) == 0,
{
    let c1 = chroma_of(x) as int;
    let sc = FACTOR_UNIT + 45 * c1;
    let sh = FACTOR_UNIT + 15 * c1;
    assert(sq(sc) > 0 && sq(sh) > 0) by (nonlinear_arith)
        requires
            sc >= 1,
            sh >= 1,
    ;
    vstd::arithmetic::div_mod::lemma_div_of0(sq(sc));
    vstd::arithmetic::div_mod::lemma_div_of0(sq(sh));
    assert(0 * 0 <= 0 < (0 + 1) * (0 + 1)) by (nonlinear_arith);
    lemma_floor_sqrt_is(0, 0);
}

proof fn lemma_chroma_bound(c: LAB)
    requires
        lab_in_range(c),
    ensures
        chroma_of(c) <= 3_000_000,
{
    let a = c.a as int;
    let b = c.b as int;
    assert(0 <= a * a <= 4_000_000_000_000 && 0 <= b * b <= 4_000_000_000_000) by (nonlinear_arith)
        requires
            -2_000_000 <= a <= 2_000_000,
            -2_000_000 <= b <= 2_000_000,
    ;
    let x = (sq(a) + sq(b)) as nat;
    assert(x <= 8_000_000_000_000);
    lemma_floor_sqrt(x);
    let r = floor_sqrt(x);
    if r > 3_000_000 {
        lemma_square_monotone(3_000_001, r);
    }
}

/// `x * u / s <= x` for a divisor `s` at least `u`.
proof fn lemma_scaled_term(x: int, u: int, s: int)
    requires
        0 <= x,
        1 <= u <= s,
    ensures
        0 <= x * u / s <= x,
{
    assert(x * u >= 0) by (nonlinear_arith)
        requires
            0 <= x,
            1 <= u,
    ;
    lemma_div_is_ordered_by_denominator(x * u, u, s);
    lemma_div_by_multiple(x, u);
    vstd::arithmetic::div_mod::lemma_div_pos_is_pos(x * u, s);
}

/// Between two colors within range, the Delta-E distance is below `2^32`
/// fixed-point units, so its square fits in 64 bits.
pub proof fn lemma_distance_bound(x: LAB, y: LAB)
    requires
        lab_in_range(x),
        lab_in_range(y),
    ensures
        delta_e_squared(x, y) < 0x1_0000_0000_0000_0000,
        lab_distance(x, y) < 0x1_0000_0000,
{
    lemma_chroma_bound(x);
    lemma_chroma_bound(y);
    let c1 = chroma_of(x) as int;
    let c2 = chroma_of(y) as int;
    let dl = y.l - x.l;
    let dc = c2 - c1;
    let de2 = sq(x.l - y.l) + sq(x.a - y.a) + sq(x.b - y.b);
    let rest = de2 - sq(dl) - sq(dc);
    let dh2 = if rest > 0 {
        rest
    } else {
        0
    };
    let sc = FACTOR_UNIT + 45 * c1;
    let sh = FACTOR_UNIT + 15 * c1;
    let u2 = sq(FACTOR_UNIT as int);
    let dll = x.l - y.l;
    let da = x.a - y.a;
    let db = x.b - y.b;
    assert(0 <= dl * dl <= 16_000_000_000_000 && dll * dll == dl * dl && 0 <= da * da
        <= 16_000_000_000_000 && 0 <= db * db <= 16_000_000_000_000) by (nonlinear_arith)
        requires
            -4_000_000 <= dl <= 4_000_000,
            -4_000_000 <= da <= 4_000_000,
            -4_000_000 <= db <= 4_000_000,
            dl == -dll,
    ;
    assert(0 <= dc * dc <= 9_000_000_000_000) by (nonlinear_arith)
        requires
            -3_000_000 <= dc <= 3_000_000,
    ;
    lemma_square_monotone(FACTOR_UNIT as nat, sc as nat);
    lemma_square_monotone(FACTOR_UNIT as nat, sh as nat);
    assert(u2 >= 1);
    lemma_scaled_term(sq(dc), u2, sq(sc));
    lemma_scaled_term(dh2, u2, sq(sh));
    assert(de2 <= 48_000_000_000_000);
    assert(dh2 <= de2);
    assert(delta_e_squared(x, y) <= sq(dl) + sq(dc) + dh2);
    let t = delta_e_squared(x, y);
    lemma_floor_sqrt(t);
    let r = floor_sqrt(t);
    if r >= 0x1_0000_0000 {
        lemma_square_monotone(0x1_0000_0000, r);
    }
}

/// The index of the color of `means` nearest to `c`; among equally near
/// ones the first.
pub open spec fn nearest_index(c: LAB, means: Seq<LAB>) -> int
    decreases means.len(),
{
    if means.len() <= 1 {
        0
    } else {
        let j = nearest_index(c, means.drop_last());
        if lab_distance(c, means.last()) < lab_distance(c, means[j]) {
            means.len() - 1
        } else {
            j
        }
    }
}

/// `i` indexes a nearest color of `means` to `c`, and no earlier one is as near.
pub open spec fn is_first_nearest(c: LAB, means: Seq<LAB>, i: int) -> bool {
    &&& 0 <= i < means.len()
    &&& forall|j: int| 0 <= j < means.len() ==> lab_distance(c, means[i]) <= lab_distance(c, #[trigger] means[j])
    &&& forall|j: int| 0 <= j < i ==> lab_distance(c, means[i]) < lab_distance(c, #[trigger] means[j])
}

/// `nearest_index` picks the first of the nearest colors.
pub proof fn lemma_nearest_index(c: LAB, means: Seq<LAB>)
    requires
        means.len() > 0,
    ensures
        is_first_nearest(c, means, nearest_index(c, means)),
    decreases means.len(),
{
    if means.len() > 1 {
        let init = means.drop_last();
        lemma_nearest_index(c, init);
        assert forall|j: int| 0 <= j < init.len() implies #[trigger] means[j] == init[j] by {}
    }
}

proof fn lemma_mul_le(a: nat, b: nat, c: nat, d: nat)
    requires
        a <= c,
        b <= d,
    ensures
        a * b <= c * d,
{
    assert(a * b <= c * d) by (nonlinear_arith)
        requires
            a <= c,
            b <= d,
    ;
}

/// `(x - y)^2`, exactly.
fn square_diff(x: i32, y: i32) -> (r: u128)
    ensures
        r == sq(x - y),
        r <= 0x1_0000_0000_0000_0000,
{
    let d: i128 = x as i128 - y as i128;
    assert(0 <= d * d <= 0x1_0000_0000_0000_0000) by (nonlinear_arith)
        requires
            -0x1_0000_0000 <= d <= 0x1_0000_0000,
    ;
    (d * d) as u128
}

impl LAB {
    /// Whether each field lies within `LAB_LIMIT` of zero.
    pub fn in_range(&self) -> (r: bool)
        ensures
            r == lab_in_range(*self),
    {
        -LAB_LIMIT <= self.l && self.l <= LAB_LIMIT && -LAB_LIMIT <= self.a && self.a <= LAB_LIMIT
            && -LAB_LIMIT <= self.b && self.b <= LAB_LIMIT
    }

    /// The chroma `sqrt(a^2 + b^2)`, rounded down, in fixed-point units.
    pub fn chroma(&self) -> (r: u64)
        ensures
            r == chroma_of(*self),
            r < 0x1_0000_0000,
    {
        let a: i128 = self.a as i128;
        let b: i128 = self.b as i128;
        assert(0 <= a * a <= 0x4000_0000_0000_0000 && 0 <= b * b <= 0x4000_0000_0000_0000)
            by (nonlinear_arith)
            requires
                -0x8000_0000 <= a <= 0x8000_0000,
                -0x8000_0000 <= b <= 0x8000_0000,
        ;
        let r = isqrt((a * a + b * b) as u128);
        proof {
            if r >= 0x1_0000_0000 {
                lemma_square_monotone(0x1_0000_0000, r as nat);
            }
        }
        r
    }

    /// The Delta-E 1994 distance from `self` to `color`, rounded down, in
    /// fixed-point units. `self` is the reference color whose chroma scales
    /// the chroma and hue terms.
    pub fn distance(&self, color: &LAB) -> (r: u64)
        ensures
            r == lab_distance(*self, *color),
    {
        let c1: u64 = self.chroma();
        let c2: u64 = color.chroma();
        let dl2: u128 = square_diff(color.l, self.l);
        let dc: i128 = c2 as i128 - c1 as i128;
        assert(0 <= dc * dc <= 0x1_0000_0000_0000_0000) by (nonlinear_arith)
            requires
                -0x1_0000_0000 <= dc <= 0x1_0000_0000,
        ;
        let dc2: u128 = (dc * dc) as u128;
        let de2: u128 = square_diff(self.l, color.l) + square_diff(self.a, color.a) + square_diff(
            self.b,
            color.b,
        );
        let rest: i128 = de2 as i128 - dl2 as i128 - dc2 as i128;
        let dh2: u128 = if rest > 0 {
            rest as u128
        } else {
            0
        };
        let unit2: u128 = (FACTOR_UNIT * FACTOR_UNIT) as u128;
        let sc: u128 = (FACTOR_UNIT + 45 * c1 as i128) as u128;
        let sh: u128 = (FACTOR_UNIT + 15 * c1 as i128) as u128;
        proof {
            lemma_mul_le(dc2 as nat, unit2 as nat, 0x1_0000_0000_0000_0000, unit2 as nat);
            lemma_mul_le(dh2 as nat, unit2 as nat, 0x3_0000_0000_0000_0000, unit2 as nat);
            lemma_mul_le(sc as nat, sc as nat, 0x100_0000_0000, 0x100_0000_0000);
            lemma_mul_le(sh as nat, sh as nat, 0x100_0000_0000, 0x100_0000_0000);
            lemma_mul_le(1, 1, sc as nat, sc as nat);
            lemma_mul_le(1, 1, sh as nat, sh as nat);
        }
        let term_c: u128 = dc2 * unit2 / (sc * sc);
        let term_h: u128 = dh2 * unit2 / (sh * sh);
        assert(term_c <= dc2 * unit2 && term_h <= dh2 * unit2) by (nonlinear_arith)
            requires
                term_c == dc2 * unit2 / (sc * sc),
                term_h == dh2 * unit2 / (sh * sh),
                sc * sc >= 1,
                sh * sh >= 1,
        ;
        let total: u128 = dl2 + term_c + term_h;
        assert(total == delta_e_squared(*self, *color));
        isqrt(total)
    }

    /// The index of the color of `colors` nearest to `self` (the first one
    /// among equally near colors), and its distance. `self` is the
    /// reference color of each distance.
    pub fn nearest(&self, colors: &Vec<LAB>) -> (r: (usize, u64))
        requires
            colors.len() > 0,
        ensures
            r.0 == nearest_index(*self, colors@),
            is_first_nearest(*self, colors@, r.0 as int),
            r.1 == lab_distance(*self, colors@[r.0 as int]),
    {
        let mut best: usize = 0;
        let mut best_d: u64 = self.distance(&colors[0]);
        let mut i: usize = 1;
        while i < colors.len()
            invariant
                1 <= i <= colors.len(),
                best == nearest_index(*self, colors@.subrange(0, i as int)),
                best < i,
                best_d == lab_distance(*self, colors@[best as int]),
            decreases colors.len() - i,
        {
            let d = self.distance(&colors[i]);
            assert(colors@.subrange(0, i + 1).drop_last() =~= colors@.subrange(0, i as int));
            if d < best_d {
                best = i;
                best_d = d;
            }
            i = i + 1;
        }
        assert(colors@.subrange(0, i as int) =~= colors@);
        proof {
            lemma_nearest_index(*self, colors@);
        }
        (best, best_d)
    }
}

} // verus!
