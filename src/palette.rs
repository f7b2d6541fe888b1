//! Around the clustering engine: turning raw RGBA bytes into pixels,
//! sampling a batch of them, ordering a palette, and matching palette sizes
//! to input files.

use vstd::prelude::*;
use rand::rngs::StdRng;
use crate::color::{LAB, RGB};
use crate::random::choose_samples;

verus! {

/// Palette size used for an input file that was given none.
pub const DEFAULT_COUNT: u8 = 5;

/// Pixel `i` of RGBA bytes: the red, green and blue of the four bytes from
/// `4 * i`, the alpha byte being ignored.
pub open spec fn pixel_of_bytes(data: Seq<u8>, i: int) -> RGB {
    RGB { r: data[4 * i], g: data[4 * i + 1], b: data[4 * i + 2] }
}

/// The pixels of RGBA bytes, four bytes to a pixel; the alpha is ignored.
/// A short last group of three bytes still makes a pixel; one of one or two
/// bytes cannot.
pub fn rgb_pixels(data: &Vec<u8>) -> (r: Vec<RGB>)
    requires
        data.len() % 4 == 0 || data.len() % 4 == 3,
    ensures
        r.len() == (data.len() + 3) / 4,
        forall|i: int| 0 <= i < r.len() ==> #[trigger] r[i] == pixel_of_bytes(data@, i),
{
    let mut r: Vec<RGB> = Vec::new();
    let count: usize = data.len() / 4 + if data.len() % 4 == 3 {
        1
    } else {
        0
    };
    let mut i: usize = 0;
    while i < count
        invariant
            count == (data.len() + 3) / 4,
            data.len() % 4 == 0 || data.len() % 4 == 3,
            i <= (data.len() + 3) / 4,
            r.len() == i,
            forall|m: int| 0 <= m < i ==> #[trigger] r[m] == pixel_of_bytes(data@, m),
        decreases (data.len() + 3) / 4 - i,
    {
        let at: usize = 4 * i;
        r.push(RGB { r: data[at], g: data[at + 1], b: data[at + 2] });
        i = i + 1;
    }
    r
}

/// The batch size asked for, 0 for none.
pub open spec fn batch_of(batch_size: Option<u32>) -> int {
    match batch_size {
        Some(b) => b as int,
        None => 0,
    }
}

/// A batch is sampled when one was asked for, is smaller than the image
/// (`width * height` pixels) and is larger than the palette.
pub open spec fn batch_applies(batch_size: Option<u32>, width: u32, height: u32, k: u8) -> bool {
    let b = batch_of(batch_size);
    b != 0 && b < width * height && b > k
}

/// The samples to cluster: where a batch applies, `batch_size` of the
/// pixels (all of them where there are fewer) drawn at random without
/// repetition; otherwise all the pixels.
pub fn batch_pixels(
    pixels: Vec<LAB>,
    k: u8,
    batch_size: Option<u32>,
    width: u32,
    height: u32,
    rng: &mut StdRng,
) -> (r: Vec<LAB>)
    ensures
        batch_applies(batch_size, width, height, k) ==> r@.len() == if batch_of(batch_size)
            < pixels@.len() {
            batch_of(batch_size)
        } else {
            pixels@.len() as int
        } && r@.to_multiset().subset_of(pixels@.to_multiset()),
        !batch_applies(batch_size, width, height, k) ==> r@ == pixels@,
{
    let batch: u32 = match batch_size {
        Some(b) => b,
        None => 0,
    };
    let w: u64 = width as u64;
    let h: u64 = height as u64;
    assert(w * h <= u64::MAX) by (nonlinear_arith)
        requires
            w <= u32::MAX,
            h <= u32::MAX,
    ;
    if batch != 0 && (batch as u64) < w * h && batch > k as u32 {
        choose_samples(&pixels, rng, batch as usize)
    } else {
        pixels
    }
}

/// `e` inserted into `s` after the last entry that represents at least as
/// many samples.
pub open spec fn insert_by_count(s: Seq<(LAB, usize)>, e: (LAB, usize)) -> Seq<(LAB, usize)>
    decreases s.len(),
{
    if s.len() == 0 {
        seq![e]
    } else if s.last().1 >= e.1 {
        s.push(e)
    } else {
        insert_by_count(s.drop_last(), e).push(s.last())
    }
}

/// `p` ordered by the number of samples each entry represents, most first,
/// entries that represent equally many keeping their order.
pub open spec fn sorted_by_dominance(p: Seq<(LAB, usize)>) -> Seq<(LAB, usize)>
    decreases p.len(),
{
    if p.len() == 0 {
        p
    } else {
        insert_by_count(sorted_by_dominance(p.drop_last()), p.last())
    }
}

/// The entries of `s` represent ever fewer (or equally many) samples.
pub open spec fn counts_descending(s: Seq<(LAB, usize)>) -> bool {
    forall|i: int, j: int| 0 <= i < j < s.len() ==> (#[trigger] s[i]).1 >= (#[trigger] s[j]).1
}

proof fn lemma_insert_by_count(s: Seq<(LAB, usize)>, e: (LAB, usize))
    requires
        counts_descending(s),
    ensures
        counts_descending(insert_by_count(s, e)),
        insert_by_count(s, e).to_multiset() =~= s.to_multiset().insert(e),
        insert_by_count(s, e).len() == s.len() + 1,
        forall|i: int|
            0 <= i < insert_by_count(s, e).len() ==> #[trigger] insert_by_count(s, e)[i] == e
                || exists|j: int| 0 <= j < s.len() && insert_by_count(s, e)[i] == s[j],
    decreases s.len(),
{
    broadcast use vstd::seq_lib::group_to_multiset_ensures;

    if s.len() > 0 && s.last().1 < e.1 {
        let init = s.drop_last();
        let last = s.last();
        assert(counts_descending(init)) by {
            assert forall|i: int, j: int| 0 <= i < j < init.len() implies (#[trigger] init[i]).1 >= (
            #[trigger] init[j]).1 by {
                assert(init[i] == s[i] && init[j] == s[j]);
            }
        }
        lemma_insert_by_count(init, e);
        let t = insert_by_count(init, e);
        assert(init.push(last) =~= s);
        assert forall|i: int| 0 <= i < t.len() implies (#[trigger] t[i]).1 >= last.1 by {
            if t[i] != e {
                let j = choose|j: int| 0 <= j < init.len() && t[i] == init[j];
                assert(init[j] == s[j]);
            }
        }
        assert forall|i: int, j: int| 0 <= i < j < t.push(last).len() implies (#[trigger] t.push(
            last,
        )[i]).1 >= (#[trigger] t.push(last)[j]).1 by {
            if j == t.len() {
                assert(t.push(last)[i] == t[i]);
            } else {
                assert(t.push(last)[i] == t[i] && t.push(last)[j] == t[j]);
            }
        }
        assert forall|i: int| 0 <= i < t.push(last).len() implies #[trigger] t.push(last)[i] == e
            || exists|j: int| 0 <= j < s.len() && t.push(last)[i] == s[j] by {
            if i == t.len() {
                assert(t.push(last)[i] == s[s.len() - 1]);
            } else if t[i] != e {
                let j = choose|j: int| 0 <= j < init.len() && t[i] == init[j];
                assert(t.push(last)[i] == s[j]);
            }
        }
    } else if s.len() > 0 {
        assert forall|i: int, j: int| 0 <= i < j < s.push(e).len() implies (#[trigger] s.push(e)[i]).1
            >= (#[trigger] s.push(e)[j]).1 by {
            if j == s.len() {
                assert(s[i].1 >= s[s.len() - 1].1 || i == s.len() - 1);
            }
        }
        assert forall|i: int| 0 <= i < s.push(e).len() implies #[trigger] s.push(e)[i] == e
            || exists|j: int| 0 <= j < s.len() && s.push(e)[i] == s[j] by {
            if i < s.len() {
                assert(s.push(e)[i] == s[i]);
            }
        }
    } else {
        assert(seq![e] =~= s.push(e));
    }
}

/// Ordering by dominance yields the same entries, most dominant first.
pub proof fn lemma_sorted_by_dominance(p: Seq<(LAB, usize)>)
    ensures
        counts_descending(sorted_by_dominance(p)),
        sorted_by_dominance(p).to_multiset() =~= p.to_multiset(),
    decreases p.len(),
{
    broadcast use vstd::seq_lib::group_to_multiset_ensures;

    if p.len() > 0 {
        lemma_sorted_by_dominance(p.drop_last());
        lemma_insert_by_count(sorted_by_dominance(p.drop_last()), p.last());
        assert(p.drop_last().push(p.last()) =~= p);
    }
}

/// Orders a palette by dominance, most dominant first; entries of equal
/// dominance keep their order.
pub fn sort_by_dominance(palette: &Vec<(LAB, usize)>) -> (r: Vec<(LAB, usize)>)
    ensures
        r@ == sorted_by_dominance(palette@),
        counts_descending(r@),
        r@.to_multiset() == palette@.to_multiset(),
{
    let mut r: Vec<(LAB, usize)> = Vec::new();
    let mut i: usize = 0;
    while i < palette.len()
        invariant
            i <= palette.len(),
            r@ == sorted_by_dominance(palette@.subrange(0, i as int)),
        decreases palette.len() - i,
    {
        let e = palette[i];
        let mut pos: usize = r.len();
        assert(r@.subrange(0, pos as int) =~= r@);
        assert(insert_by_count(r@, e) + r@.subrange(pos as int, r@.len() as int) =~= insert_by_count(r@, e));
        while pos > 0 && r[pos - 1].1 < e.1
            invariant
                pos <= r.len(),
                insert_by_count(r@, e) == insert_by_count(r@.subrange(0, pos as int), e) + r@.subrange(
                    pos as int,
                    r@.len() as int,
                ),
            decreases pos,
        {
            let ghost pre = r@.subrange(0, pos as int);
            assert(pre.drop_last() =~= r@.subrange(0, pos - 1));
            assert(r@.subrange(pos - 1, r@.len() as int) =~= seq![r@[pos - 1]] + r@.subrange(
                pos as int,
                r@.len() as int,
            ));
            assert(insert_by_count(pre.drop_last(), e).push(pre.last()) + r@.subrange(
                pos as int,
                r@.len() as int,
            ) =~= insert_by_count(r@.subrange(0, pos - 1), e) + r@.subrange(pos - 1, r@.len() as int));
            pos = pos - 1;
        }
        let ghost before = r@;
        assert(insert_by_count(before.subrange(0, pos as int), e) =~= before.subrange(0, pos as int).push(e));
        r.insert(pos, e);
        assert(r@ =~= insert_by_count(before, e));
        assert(palette@.subrange(0, i + 1).drop_last() =~= palette@.subrange(0, i as int));
        i = i + 1;
    }
    assert(palette@.subrange(0, i as int) =~= palette@);
    proof {
        lemma_sorted_by_dominance(palette@);
    }
    r
}

/// The palette size for each of `files` input files: the sizes given, in
/// order, then `DEFAULT_COUNT` for each file beyond them.
pub fn pad_counts(counts: &Vec<u8>, files: usize) -> (r: Vec<u8>)
    ensures
        r.len() == if counts.len() < files {
            files as int
        } else {
            counts.len() as int
        },
        forall|i: int| 0 <= i < counts.len() ==> #[trigger] r[i] == counts[i],
        forall|i: int| counts.len() <= i < r.len() ==> #[trigger] r[i] == DEFAULT_COUNT,
{
    let mut r: Vec<u8> = Vec::new();
    let mut i: usize = 0;
    while i < counts.len() || i < files
        invariant
            i <= counts.len() || i <= files,
            r.len() == i,
            forall|m: int| 0 <= m < i && m < counts.len() ==> #[trigger] r[m] == counts[m],
            forall|m: int| counts.len() <= m < i ==> #[trigger] r[m] == DEFAULT_COUNT,
        decreases (if counts.len() < files { files } else { counts.len() }) - i,
    {
        if i < counts.len() {
            r.push(counts[i]);
        } else {
            r.push(DEFAULT_COUNT);
        }
        i = i + 1;
    }
    r
}

} // verus!
