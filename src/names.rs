//! Color names: parsing hex codes, and naming a color after the nearest
//! entry of a table of named colors.

use vstd::prelude::*;
use crate::arith::lemma_filter_push;
use crate::color::{nearest_index, LAB, RGB};

verus! {

/// The value of a hexadecimal digit of either case, or -1 for another char.
pub open spec fn hex_digit_value(c: char) -> int {
    if '0' <= c <= '9' {
        c as int - '0' as int
    } else if 'a' <= c <= 'f' {
        c as int - 'a' as int + 10
    } else if 'A' <= c <= 'F' {
        c as int - 'A' as int + 10
    } else {
        -1
    }
}

/// The chars of `s` but `#`.
pub open spec fn hex_body(s: Seq<char>) -> Seq<char> {
    s.filter(|c: char| c != '#')
}

/// The number that a sequence of hexadecimal digits spells.
pub open spec fn hex_value(d: Seq<char>) -> int
    decreases d.len(),
{
    if d.len() == 0 {
        0
    } else {
        hex_value(d.drop_last()) * 16 + hex_digit_value(d.last())
    }
}

/// `s` is a hex color code: once every `#` is removed, one or more
/// hexadecimal digits whose value fits in a `usize`.
pub open spec fn is_hex_code(s: Seq<char>) -> bool {
    &&& hex_body(s).len() > 0
    &&& forall|i: int| 0 <= i < hex_body(s).len() ==> hex_digit_value(#[trigger] hex_body(s)[i]) >= 0
    &&& hex_value(hex_body(s)) <= usize::MAX
}

proof fn lemma_hex_value_nonneg(d: Seq<char>)
    requires
        forall|i: int| 0 <= i < d.len() ==> hex_digit_value(#[trigger] d[i]) >= 0,
    ensures
        hex_value(d) >= 0,
    decreases d.len(),
{
    if d.len() > 0 {
        let init = d.drop_last();
        assert forall|i: int| 0 <= i < init.len() implies hex_digit_value(#[trigger] init[i]) >= 0 by {
            assert(init[i] == d[i]);
        }
        lemma_hex_value_nonneg(init);
        assert(hex_digit_value(d[d.len() - 1]) >= 0);
    }
}

/// Appending digits never lowers the value.
proof fn lemma_hex_value_grows(a: Seq<char>, b: Seq<char>)
    requires
        forall|i: int| 0 <= i < (a + b).len() ==> hex_digit_value(#[trigger] (a + b)[i]) >= 0,
    ensures
        hex_value(a) <= hex_value(a + b),
    decreases b.len(),
{
    if b.len() == 0 {
        assert(a + b =~= a);
    } else {
        let c = a + b.drop_last();
        assert((a + b).drop_last() =~= c);
        assert forall|i: int| 0 <= i < c.len() implies hex_digit_value(#[trigger] c[i]) >= 0 by {
            assert(c[i] == (a + b)[i]);
        }
        lemma_hex_value_grows(a, b.drop_last());
        lemma_hex_value_nonneg(c);
        assert(hex_digit_value((a + b)[(a + b).len() - 1]) >= 0);
    }
}

/// The value of one hexadecimal digit.
fn digit_value(c: char) -> (v: usize)
    requires
        hex_digit_value(c) >= 0,
    ensures
        v == hex_digit_value(c),
        v < 16,
{
    if '0' <= c && c <= '9' {
        (c as u32 - '0' as u32) as usize
    } else if 'a' <= c && c <= 'f' {
        (c as u32 - 'a' as u32 + 10) as usize
    } else {
        (c as u32 - 'A' as u32 + 10) as usize
    }
}

/// Converts a hex string (`#RRGGBB`; every `#` is skipped, digits of either
/// case) to an RGB color: its value `v` gives red `v >> 16`, green
/// `v >> 8` and blue `v`, each truncated to eight bits.
pub fn hex_to_rgb(s: &str) -> (r: RGB)
    requires
        is_hex_code(s@),
    ensures
        r.r == hex_value(hex_body(s@)) / 0x10000 % 0x100,
        r.g == hex_value(hex_body(s@)) / 0x100 % 0x100,
        r.b == hex_value(hex_body(s@)) % 0x100,
{
    let n = s.unicode_len();
    let ghost body = hex_body(s@);
    let mut v: usize = 0;
    let mut i: usize = 0;
    while i < n
        invariant
            i <= n == s@.len(),
            is_hex_code(s@),
            body == hex_body(s@),
            v == hex_value(hex_body(s@.subrange(0, i as int))),
        decreases n - i,
    {
        let c = s.get_char(i);
        let ghost pre = s@.subrange(0, i as int);
        let ghost rest = s@.subrange(i as int + 1, n as int);
        assert(s@.subrange(0, i + 1) =~= pre.push(c));
        assert(s@ =~= pre.push(c) + rest);
        proof {
            lemma_filter_push(pre, c, |x: char| x != '#');
            Seq::filter_distributes_over_add(pre.push(c), rest, |x: char| x != '#');
            lemma_hex_value_grows(hex_body(pre.push(c)), hex_body(rest));
        }
        if c != '#' {
            let ghost nb = hex_body(pre.push(c));
            assert(nb.drop_last() =~= hex_body(pre));
            assert(nb[nb.len() - 1] == body[nb.len() - 1]);
            let d = digit_value(c);
            v = v * 16 + d;
        }
        i = i + 1;
    }
    assert(s@.subrange(0, n as int) =~= s@);
    RGB { r: (v / 0x10000 % 0x100) as u8, g: (v / 0x100 % 0x100) as u8, b: (v % 0x100) as u8 }
}

/// A table of named colors: `names[i]` names `colors[i]`.
pub struct ColorNames {
    pub names: Vec<String>,
    pub colors: Vec<LAB>,
}

/// The name of the color of `table` nearest to `color` (the first one among
/// equally near colors), `color` being the reference of each distance.
pub fn near_color_name<'a>(color: &LAB, table: &'a ColorNames) -> (r: &'a String)
    requires
        table.colors.len() > 0,
        table.names.len() == table.colors.len(),
    ensures
        r == table.names@[nearest_index(*color, table.colors@)],
{
    let i = color.nearest(&table.colors).0;
    &table.names[i]
}

} // verus!
