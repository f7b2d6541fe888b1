//! The clustering engine: weighted k-means++ seeding followed by Lloyd
//! iterations, with the assignment step split across worker threads.

use vstd::prelude::*;
use vstd::arithmetic::div_mod::{
    lemma_div_by_multiple, lemma_div_is_ordered, lemma_fundamental_div_mod,
    lemma_fundamental_div_mod_converse_div,
};
use rand::rngs::StdRng;
use crate::arith::lemma_filter_push;
use crate::color::{
    lab_distance, lab_in_range, lemma_distance_bound, lemma_nearest_index, nearest_index, LAB,
    LAB_LIMIT,
};
use crate::parallel::assign_ranges_in_parallel;
use crate::random::{entropy_rng, random_index, seq_sum, weighted_index, weighted_sample};
use crate::weights::{weight_of, WeightFn};

verus! {

/// A mean has moved when it is more than this distance (1e-4 LAB units)
/// from its value before the update.
pub const TOLERANCE: u64 = 1;

/// Iteration budget when the caller gives none.
pub const MAX_ITER: u16 = 300;

/// Every color of `s` lies within `LAB_LIMIT` of zero in each field.
pub open spec fn all_in_range(s: Seq<LAB>) -> bool {
    forall|i: int| 0 <= i < s.len() ==> lab_in_range(#[trigger] s[i])
}

/// The samples of `pixels` whose nearest mean is `means[j]`, in order.
pub open spec fn cluster_of(pixels: Seq<LAB>, means: Seq<LAB>, j: int) -> Seq<LAB> {
    pixels.filter(|p: LAB| nearest_index(p, means) == j)
}

/// The clusters of `pixels` around `means`, one for each mean.
pub open spec fn assign(pixels: Seq<LAB>, means: Seq<LAB>) -> Seq<Seq<LAB>> {
    Seq::new(means.len(), |j: int| cluster_of(pixels, means, j))
}

/// Field `ch` of a LAB color: 0 for L, 1 for a, 2 for b.
pub open spec fn lab_field(c: LAB, ch: int) -> int {
    if ch == 0 {
        c.l as int
    } else if ch == 1 {
        c.a as int
    } else {
        c.b as int
    }
}

/// The sum of the weights of the colors of `s`.
pub open spec fn total_weight(s: Seq<LAB>, f: WeightFn) -> int
    decreases s.len(),
{
    if s.len() == 0 {
        0
    } else {
        total_weight(s.drop_last(), f) + weight_of(f, s.last())
    }
}

/// The sum over `s` of each color's weight times its field `ch`.
pub open spec fn weighted_sum(s: Seq<LAB>, f: WeightFn, ch: int) -> int
    decreases s.len(),
{
    if s.len() == 0 {
        0
    } else {
        weighted_sum(s.drop_last(), f, ch) + weight_of(f, s.last()) * lab_field(s.last(), ch)
    }
}

/// The weighted average of the colors of `s`, each field rounded down.
pub open spec fn weighted_mean(s: Seq<LAB>, f: WeightFn) -> LAB {
    LAB {
        l: (weighted_sum(s, f, 0) / total_weight(s, f)) as i32,
        a: (weighted_sum(s, f, 1) / total_weight(s, f)) as i32,
        b: (weighted_sum(s, f, 2) / total_weight(s, f)) as i32,
    }
}

/// The new mean of a cluster: the weighted average of its members, or the
/// previous mean where the cluster is empty.
pub open spec fn cluster_mean(cluster: Seq<LAB>, previous: LAB, f: WeightFn) -> LAB {
    if cluster.len() == 0 {
        previous
    } else {
        weighted_mean(cluster, f)
    }
}

/// The means after one update step.
pub open spec fn updated_means(clusters: Seq<Seq<LAB>>, means: Seq<LAB>, f: WeightFn) -> Seq<LAB> {
    Seq::new(means.len(), |j: int| cluster_mean(clusters[j], means[j], f))
}

/// Some mean moved by more than `TOLERANCE`.
pub open spec fn means_moved(before: Seq<LAB>, after: Seq<LAB>) -> bool {
    exists|j: int| 0 <= j < before.len() && lab_distance(before[j], #[trigger] after[j]) > TOLERANCE
}

/// The total weight of colors within range is positive and at most
/// `u32::MAX` per color, and each weighted sum lies within `LAB_LIMIT` times
/// the total weight either side of zero. (`LAB_LIMIT` is written out as
/// `2_000_000` in these bounds: the solver multiplies by literals only.)
proof fn lemma_weighted_bounds(s: Seq<LAB>, f: WeightFn, ch: int)
    requires
        all_in_range(s),
    ensures
        0 <= total_weight(s, f) <= s.len() * 0xffff_ffff,
        s.len() > 0 ==> total_weight(s, f) > 0,
        -2_000_000 * total_weight(s, f) <= weighted_sum(s, f, ch) <= 2_000_000 * total_weight(s, f),
    decreases s.len(),
{
    if s.len() > 0 {
        let init = s.drop_last();
        assert(all_in_range(init)) by {
            assert forall|i: int| 0 <= i < init.len() implies lab_in_range(#[trigger] init[i]) by {
                assert(init[i] == s[i]);
            }
        }
        lemma_weighted_bounds(init, f, ch);
        let w = weight_of(f, s.last()) as int;
        let x = lab_field(s.last(), ch);
        assert(lab_in_range(s[s.len() - 1]));
        assert(1 <= w <= 0xffff_ffff) by {
            match f {
                WeightFn::Uniform => {},
            }
        }
        assert(-2_000_000 * w <= w * x <= 2_000_000 * w) by (nonlinear_arith)
            requires
                -2_000_000 <= x <= 2_000_000,
                w >= 1,
        ;
        assert(2_000_000 * total_weight(s, f) == 2_000_000 * total_weight(init, f) + 2_000_000 * w)
            by (nonlinear_arith)
            requires
                total_weight(s, f) == total_weight(init, f) + w,
        ;
    }
}

/// `s / w` rounded down, for `|s| <= 2_000_000 * w`.
fn floor_div(s: i128, w: u128) -> (q: i32)
    requires
        0 < w < 0x1_0000_0000_0000_0000_0000_0000,
        -2_000_000 * w <= s <= 2_000_000 * w,
    ensures
        q == (s as int) / (w as int),
        -LAB_LIMIT <= q <= LAB_LIMIT,
{
    let shift: i128 = 2_000_000i128 * (w as i128);
    let u: u128 = (s + shift) as u128;
    let q: u128 = u / w;
    proof {
        assert(u <= 4_000_000 * w);
        lemma_div_is_ordered(u as int, 4_000_000 * w, w as int);
        lemma_div_by_multiple(4_000_000, w as int);
        lemma_fundamental_div_mod(u as int, w as int);
        let r = u as int % w as int;
        assert(s == (q - 2_000_000) * w + r) by (nonlinear_arith)
            requires
                u == s + 2_000_000 * w,
                u == w * q + r,
        ;
        lemma_fundamental_div_mod_converse_div(s as int, w as int, q - 2_000_000, r);
    }
    (q as i128 - 2_000_000i128) as i32
}

/// The new mean of a cluster: the weighted average of its colors, or
/// `previous` where the cluster is empty.
fn recal_means(colors: &Vec<LAB>, weight: WeightFn, previous: &LAB) -> (r: LAB)
    requires
        all_in_range(colors@),
        lab_in_range(*previous),
    ensures
        r == cluster_mean(colors@, *previous, weight),
        lab_in_range(r),
{
    if colors.len() == 0 {
        return *previous;
    }
    let mut w_sum: u128 = 0;
    let mut sl: i128 = 0;
    let mut sa: i128 = 0;
    let mut sb: i128 = 0;
    let mut i: usize = 0;
    while i < colors.len()
        invariant
            0 <= i <= colors.len(),
            all_in_range(colors@),
            w_sum == total_weight(colors@.subrange(0, i as int), weight),
            sl == weighted_sum(colors@.subrange(0, i as int), weight, 0),
            sa == weighted_sum(colors@.subrange(0, i as int), weight, 1),
            sb == weighted_sum(colors@.subrange(0, i as int), weight, 2),
            w_sum <= i * 0xffff_ffff,
            -2_000_000 * w_sum <= sl <= 2_000_000 * w_sum,
            -2_000_000 * w_sum <= sa <= 2_000_000 * w_sum,
            -2_000_000 * w_sum <= sb <= 2_000_000 * w_sum,
        decreases colors.len() - i,
    {
        let c = colors[i];
        let w = weight.weight(&c);
        let ghost prefix = colors@.subrange(0, i as int + 1);
        assert(prefix.drop_last() =~= colors@.subrange(0, i as int));
        assert(all_in_range(prefix)) by {
            assert forall|j: int| 0 <= j < prefix.len() implies lab_in_range(#[trigger] prefix[j]) by {
                assert(prefix[j] == colors@[j]);
            }
        }
        proof {
            lemma_weighted_bounds(prefix, weight, 0);
            lemma_weighted_bounds(prefix, weight, 1);
            lemma_weighted_bounds(prefix, weight, 2);
        }
        assert(lab_in_range(colors@[i as int]));
        assert(w_sum + w <= 0x1_0000_0000_0000_0000_0000_0000);
        w_sum = w_sum + w as u128;
        sl = sl + (w as i128) * (c.l as i128);
        sa = sa + (w as i128) * (c.a as i128);
        sb = sb + (w as i128) * (c.b as i128);
        i = i + 1;
    }
    assert(colors@.subrange(0, i as int) =~= colors@);
    proof {
        lemma_weighted_bounds(colors@, weight, 0);
    }
    LAB { l: floor_div(sl, w_sum), a: floor_div(sa, w_sum), b: floor_div(sb, w_sum) }
}

/// Number of worker threads of the assignment step.
pub const NUM_WORKERS: usize = 5;

/// The range of sample indices that worker `v` of `workers` handles: equal
/// contiguous shares of `n / workers` samples, the last worker also taking
/// the remainder.
pub open spec fn worker_range(n: int, workers: int, v: int) -> (int, int) {
    let chunk = n / workers;
    (v * chunk, if v == workers - 1 {
        n
    } else {
        (v + 1) * chunk
    })
}

/// Cluster `j` as merged from the first `v` workers: the part that each
/// worker found, concatenated in worker order.
pub open spec fn merged_cluster(pixels: Seq<LAB>, means: Seq<LAB>, workers: int, j: int, v: int) -> Seq<LAB>
    decreases v,
{
    if v <= 0 {
        Seq::empty()
    } else {
        let range = worker_range(pixels.len() as int, workers, v - 1);
        merged_cluster(pixels, means, workers, j, v - 1) + cluster_of(
            pixels.subrange(range.0, range.1),
            means,
            j,
        )
    }
}

proof fn lemma_merged_step(pixels: Seq<LAB>, means: Seq<LAB>, workers: int, j: int, v: int)
    requires
        v >= 0,
    ensures
        merged_cluster(pixels, means, workers, j, v + 1) == merged_cluster(pixels, means, workers, j, v)
            + cluster_of(
            pixels.subrange(
                worker_range(pixels.len() as int, workers, v).0,
                worker_range(pixels.len() as int, workers, v).1,
            ),
            means,
            j,
        ),
{
}

proof fn lemma_worker_range_bounds(n: int, workers: int, v: int)
    requires
        n >= 0,
        workers >= 1,
        0 <= v < workers,
    ensures
        0 <= worker_range(n, workers, v).0 <= worker_range(n, workers, v).1 <= n,
        v + 1 < workers ==> worker_range(n, workers, v).1 == worker_range(n, workers, v + 1).0,
        v == 0 ==> worker_range(n, workers, v).0 == 0,
{
    let chunk = n / workers;
    lemma_fundamental_div_mod(n, workers);
    assert(0 <= chunk) by {
        vstd::arithmetic::div_mod::lemma_div_pos_is_pos(n, workers);
    }
    assert(0 <= v * chunk <= (v + 1) * chunk) by (nonlinear_arith)
        requires
            0 <= v,
            0 <= chunk,
    ;
    assert((v + 1) * chunk <= workers * chunk) by (nonlinear_arith)
        requires
            v + 1 <= workers,
            0 <= chunk,
    ;
    assert(workers * chunk <= n) by (nonlinear_arith)
        requires
            n == workers * chunk + n % workers,
            0 <= n % workers,
    ;
    assert(v == 0 ==> v * chunk == 0);
}

/// Cluster `j` over the samples in `[0, hi)` is cluster `j` over `[0, lo)`
/// followed by cluster `j` over `[lo, hi)`.
pub proof fn lemma_cluster_split(pixels: Seq<LAB>, means: Seq<LAB>, j: int, lo: int, hi: int)
    requires
        0 <= lo <= hi <= pixels.len(),
    ensures
        cluster_of(pixels.subrange(0, hi), means, j) == cluster_of(pixels.subrange(0, lo), means, j)
            + cluster_of(pixels.subrange(lo, hi), means, j),
{
    assert(pixels.subrange(0, hi) =~= pixels.subrange(0, lo) + pixels.subrange(lo, hi));
    Seq::filter_distributes_over_add(
        pixels.subrange(0, lo),
        pixels.subrange(lo, hi),
        |p: LAB| nearest_index(p, means) == j,
    );
}

proof fn lemma_merged_prefix(pixels: Seq<LAB>, means: Seq<LAB>, workers: int, j: int, v: int)
    requires
        workers >= 1,
        0 <= v <= workers,
    ensures
        merged_cluster(pixels, means, workers, j, v) == cluster_of(
            pixels.subrange(
                0,
                if v == 0 {
                    0
                } else {
                    worker_range(pixels.len() as int, workers, v - 1).1
                },
            ),
            means,
            j,
        ),
    decreases v,
{
    let n = pixels.len() as int;
    if v == 0 {
        reveal(Seq::filter);
        assert(pixels.subrange(0, 0).len() == 0);
    } else {
        lemma_merged_prefix(pixels, means, workers, j, v - 1);
        lemma_worker_range_bounds(n, workers, v - 1);
        if v >= 2 {
            lemma_worker_range_bounds(n, workers, v - 2);
        }
        let range = worker_range(n, workers, v - 1);
        lemma_cluster_split(pixels, means, j, range.0, range.1);
    }
}

/// The clusters do not depend on how many workers share the assignment:
/// for any number of workers, concatenating in worker order the part of
/// cluster `j` that each worker found gives cluster `j` of all the samples.
pub proof fn lemma_clusters_independent_of_workers(pixels: Seq<LAB>, means: Seq<LAB>, workers: int, j: int)
    requires
        workers >= 1,
    ensures
        merged_cluster(pixels, means, workers, j, workers) == cluster_of(pixels, means, j),
{
    lemma_merged_prefix(pixels, means, workers, j, workers);
    assert(pixels.subrange(0, pixels.len() as int) =~= pixels);
}

/// The clusters of the samples in `[lo, hi)`: for each mean, the samples of
/// the range whose nearest mean it is, in order.
pub fn assign_range(pixels: &Vec<LAB>, means: &Vec<LAB>, lo: usize, hi: usize) -> (r: Vec<Vec<LAB>>)
    requires
        means.len() > 0,
        lo <= hi <= pixels.len(),
    ensures
        r.len() == means.len(),
        forall|j: int|
            0 <= j < means.len() ==> (#[trigger] r[j])@ == cluster_of(
                pixels@.subrange(lo as int, hi as int),
                means@,
                j,
            ),
{
    let mut clusters: Vec<Vec<LAB>> = Vec::new();
    let mut j: usize = 0;
    while j < means.len()
        invariant
            j <= means.len(),
            clusters.len() == j,
            forall|m: int| 0 <= m < j ==> (#[trigger] clusters[m])@ == Seq::<LAB>::empty(),
        decreases means.len() - j,
    {
        clusters.push(Vec::new());
        j = j + 1;
    }
    let mut i: usize = lo;
    while i < hi
        invariant
            lo <= i <= hi <= pixels.len(),
            means.len() > 0,
            clusters.len() == means.len(),
            forall|m: int|
                0 <= m < means.len() ==> (#[trigger] clusters[m])@ == cluster_of(
                    pixels@.subrange(lo as int, i as int),
                    means@,
                    m,
                ),
        decreases hi - i,
    {
        let c = pixels[i];
        let near = c.nearest(means).0;
        let ghost before = clusters@;
        clusters[near].push(c);
        assert(pixels@.subrange(lo as int, i + 1) =~= pixels@.subrange(lo as int, i as int).push(c));
        assert forall|m: int| 0 <= m < means.len() implies (#[trigger] clusters[m])@ == cluster_of(
            pixels@.subrange(lo as int, i + 1),
            means@,
            m,
        ) by {
            lemma_filter_push(
                pixels@.subrange(lo as int, i as int),
                c,
                |p: LAB| nearest_index(p, means@) == m,
            );
            if m != near {
                assert(clusters[m] == before[m]);
            }
        }
        i = i + 1;
    }
    if lo == hi {
        proof {
            reveal(Seq::filter);
        }
    }
    clusters
}

/// The ranges of the `workers` workers over `n` samples.
fn worker_ranges(n: usize, workers: usize) -> (r: Vec<(usize, usize)>)
    requires
        workers >= 1,
    ensures
        r.len() == workers,
        forall|v: int|
            0 <= v < workers ==> (#[trigger] r[v]).0 == worker_range(n as int, workers as int, v).0
                && r[v].1 == worker_range(n as int, workers as int, v).1,
{
    let chunk: usize = n / workers;
    let mut r: Vec<(usize, usize)> = Vec::new();
    let mut v: usize = 0;
    while v < workers
        invariant
            v <= workers,
            workers >= 1,
            chunk == n / workers,
            r.len() == v,
            forall|u: int|
                0 <= u < v ==> (#[trigger] r[u]).0 == worker_range(n as int, workers as int, u).0
                    && r[u].1 == worker_range(n as int, workers as int, u).1,
        decreases workers - v,
    {
        proof {
            lemma_worker_range_bounds(n as int, workers as int, v as int);
        }
        assert(v * chunk <= n);
        let start: usize = v * chunk;
        let end: usize = if v == workers - 1 {
            n
        } else {
            (v + 1) * chunk
        };
        r.push((start, end));
        v = v + 1;
    }
    r
}

/// The clusters of `pixels` around `means`, the samples being shared out
/// among `NUM_WORKERS` worker threads in contiguous ranges.
fn find_clusters(pixels: &Vec<LAB>, means: &Vec<LAB>) -> (r: Vec<Vec<LAB>>)
    requires
        means.len() > 0,
    ensures
        r.len() == means.len(),
        forall|j: int| 0 <= j < means.len() ==> (#[trigger] r[j])@ == cluster_of(pixels@, means@, j),
{
    let ranges = worker_ranges(pixels.len(), NUM_WORKERS);
    assert forall|w: int| 0 <= w < ranges.len() implies (#[trigger] ranges[w]).0 <= ranges[w].1 <= pixels.len() by {
        lemma_worker_range_bounds(pixels.len() as int, NUM_WORKERS as int, w);
    }
    let mut parts = assign_ranges_in_parallel(pixels, means, &ranges);
    let ghost parts0 = parts@;
    let mut clusters: Vec<Vec<LAB>> = Vec::new();
    let mut j: usize = 0;
    while j < means.len()
        invariant
            j <= means.len(),
            clusters.len() == j,
            forall|m: int| 0 <= m < j ==> (#[trigger] clusters[m])@ == Seq::<LAB>::empty(),
        decreases means.len() - j,
    {
        clusters.push(Vec::new());
        j = j + 1;
    }
    let ghost n = pixels.len() as int;
    let ghost workers = NUM_WORKERS as int;
    let mut w: usize = 0;
    while w < ranges.len()
        invariant
            w <= ranges.len() == NUM_WORKERS,
            parts.len() == ranges.len(),
            parts0.len() == ranges.len(),
            n == pixels@.len(),
            workers == NUM_WORKERS,
            clusters.len() == means.len(),
            forall|v: int| w <= v < parts.len() ==> #[trigger] parts[v] == parts0[v],
            forall|v: int|
                0 <= v < parts0.len() ==> (#[trigger] parts0[v]).len() == means.len() && forall|m: int|
                    0 <= m < means.len() ==> parts0[v][m]@ == cluster_of(
                        pixels@.subrange(ranges[v].0 as int, ranges[v].1 as int),
                        means@,
                        m,
                    ),
            forall|v: int|
                0 <= v < NUM_WORKERS ==> (#[trigger] ranges[v]).0 == worker_range(n, workers, v).0
                    && ranges[v].1 == worker_range(n, workers, v).1,
            forall|m: int|
                0 <= m < means.len() ==> (#[trigger] clusters[m])@ == merged_cluster(
                    pixels@,
                    means@,
                    workers,
                    m,
                    w as int,
                ),
        decreases ranges.len() - w,
    {
        let mut part: Vec<Vec<LAB>> = Vec::new();
        std::mem::swap(&mut part, &mut parts[w]);
        assert(part == parts0[w as int]);
        let ghost merged = clusters@;
        let mut m: usize = 0;
        while m < means.len()
            invariant
                m <= means.len(),
                clusters.len() == means.len(),
                part.len() == means.len(),
                forall|x: int| m <= x < means.len() ==> #[trigger] part[x] == parts0[w as int][x],
                forall|x: int| m <= x < means.len() ==> #[trigger] clusters[x] == merged[x],
                forall|x: int|
                    0 <= x < m ==> (#[trigger] clusters[x])@ == merged[x]@ + parts0[w as int][x]@,
            decreases means.len() - m,
        {
            clusters[m].append(&mut part[m]);
            m = m + 1;
        }
        assert forall|x: int| 0 <= x < means.len() implies (#[trigger] clusters[x])@ == merged_cluster(
            pixels@,
            means@,
            workers,
            x,
            w + 1,
        ) by {
            let range = worker_range(n, workers, w as int);
            assert(ranges[w as int].0 == range.0 && ranges[w as int].1 == range.1);
            assert(parts0[w as int].len() == means.len());
            assert(parts0[w as int][x]@ == cluster_of(pixels@.subrange(range.0, range.1), means@, x));
            assert(merged[x]@ == merged_cluster(pixels@, means@, workers, x, w as int));
            assert(clusters[x]@ == merged[x]@ + parts0[w as int][x]@);
            lemma_merged_step(pixels@, means@, workers, x, w as int);
        }
        w = w + 1;
    }
    assert forall|m: int| 0 <= m < means.len() implies (#[trigger] clusters[m])@ == cluster_of(
        pixels@,
        means@,
        m,
    ) by {
        lemma_clusters_independent_of_workers(pixels@, means@, workers, m);
    }
    clusters
}

/// Lloyd iterations from `means` with a budget of `budget` rounds (a
/// budget of 0 runs one round, as the clusters need one assignment). Each
/// round assigns the samples to their nearest means and moves every mean to
/// the weighted average of its cluster; the rounds stop when no mean moved
/// by more than `TOLERANCE` or the budget is spent. The result is the final
/// means and the clusters of the last assignment.
pub open spec fn lloyd(pixels: Seq<LAB>, means: Seq<LAB>, f: WeightFn, budget: nat) -> (Seq<LAB>, Seq<Seq<LAB>>)
    decreases budget,
{
    let clusters = assign(pixels, means);
    let next = updated_means(clusters, means, f);
    if budget <= 1 || !means_moved(means, next) {
        (next, clusters)
    } else {
        lloyd(pixels, next, f, (budget - 1) as nat)
    }
}

/// Each mean with the number of samples in its cluster.
pub open spec fn palette_of(means: Seq<LAB>, clusters: Seq<Seq<LAB>>) -> Seq<(LAB, usize)> {
    Seq::new(means.len(), |j: int| (means[j], clusters[j].len() as usize))
}

/// Filtering keeps the colors within range.
proof fn lemma_filter_in_range(s: Seq<LAB>, p: spec_fn(LAB) -> bool)
    requires
        all_in_range(s),
    ensures
        all_in_range(s.filter(p)),
    decreases s.len(),
{
    reveal(Seq::filter);
    if s.len() > 0 {
        let init = s.drop_last();
        assert(all_in_range(init)) by {
            assert forall|i: int| 0 <= i < init.len() implies lab_in_range(#[trigger] init[i]) by {
                assert(init[i] == s[i]);
            }
        }
        lemma_filter_in_range(init, p);
        assert(lab_in_range(s[s.len() - 1]));
    }
}

/// The clusters of samples within range hold colors within range.
proof fn lemma_clusters_in_range(pixels: Seq<LAB>, means: Seq<LAB>, j: int)
    requires
        all_in_range(pixels),
    ensures
        all_in_range(cluster_of(pixels, means, j)),
{
    lemma_filter_in_range(pixels, |p: LAB| nearest_index(p, means) == j);
}

/// Runs the Lloyd iterations from `initial` and returns each final mean with
/// the size of its cluster.
fn run_lloyd(pixels: &Vec<LAB>, initial: Vec<LAB>, weight: WeightFn, budget: u16) -> (r: Vec<(LAB, usize)>)
    requires
        initial.len() > 0,
        all_in_range(pixels@),
        all_in_range(initial@),
    ensures
        r@ == palette_of(
            lloyd(pixels@, initial@, weight, budget as nat).0,
            lloyd(pixels@, initial@, weight, budget as nat).1,
        ),
{
    let ghost target = lloyd(pixels@, initial@, weight, budget as nat);
    let mut means = initial;
    let mut left: u16 = budget;
    loop
        invariant
            means.len() > 0,
            all_in_range(pixels@),
            all_in_range(means@),
            lloyd(pixels@, means@, weight, left as nat) == target,
            target == lloyd(pixels@, initial@, weight, budget as nat),
        decreases left,
    {
        let clusters = find_clusters(pixels, &means);
        let ghost assigned = assign(pixels@, means@);
        let ghost next_spec = updated_means(assigned, means@, weight);
        let mut next: Vec<LAB> = Vec::new();
        let mut changed: bool = false;
        let mut j: usize = 0;
        while j < clusters.len()
            invariant
                j <= clusters.len() == means.len(),
                all_in_range(pixels@),
                all_in_range(means@),
                forall|m: int| 0 <= m < means.len() ==> (#[trigger] clusters[m])@ == cluster_of(pixels@, means@, m),
                assigned == assign(pixels@, means@),
                next_spec == updated_means(assigned, means@, weight),
                next.len() == j,
                forall|m: int| 0 <= m < j ==> #[trigger] next[m] == next_spec[m],
                all_in_range(next@),
                changed <==> exists|m: int| 0 <= m < j && lab_distance(means@[m], #[trigger] next_spec[m]) > TOLERANCE,
            decreases clusters.len() - j,
        {
            proof {
                lemma_clusters_in_range(pixels@, means@, j as int);
            }
            assert(lab_in_range(means@[j as int]));
            let m = recal_means(&clusters[j], weight, &means[j]);
            assert(m == next_spec[j as int]);
            if means[j].distance(&m) > TOLERANCE {
                changed = true;
            }
            let ghost before = next@;
            next.push(m);
            assert(all_in_range(next@)) by {
                assert forall|i: int| 0 <= i < next@.len() implies lab_in_range(#[trigger] next@[i]) by {
                    if i < j {
                        assert(next@[i] == before[i]);
                    }
                }
            }
            j = j + 1;
        }
        assert(next@ =~= next_spec);
        assert(changed <==> means_moved(means@, next_spec));
        if left <= 1 || !changed {
            let mut palette: Vec<(LAB, usize)> = Vec::new();
            let mut i: usize = 0;
            while i < next.len()
                invariant
                    i <= next.len() == clusters.len(),
                    palette.len() == i,
                    forall|m: int| 0 <= m < i ==> #[trigger] palette[m] == (next@[m], clusters@[m]@.len() as usize),
                decreases next.len() - i,
            {
                palette.push((next[i], clusters[i].len()));
                i = i + 1;
            }
            assert(palette@ =~= palette_of(next_spec, assigned));
            assert(lloyd(pixels@, means@, weight, left as nat) == (next_spec, assigned));
            return palette;
        }
        assert(lloyd(pixels@, means@, weight, left as nat) == lloyd(pixels@, next@, weight, (left - 1) as nat));
        means = next;
        left = left - 1;
    }
}

/// Why no palette could be made.
#[derive(Clone, Copy, Debug, PartialEq, Eq, Structural)]
pub enum PaletteError {
    /// A palette of zero colors was asked for.
    CountIsZero,
    /// More colors were asked for than there are samples.
    CountExceedsSamples,
    /// A sample has a field beyond `LAB_LIMIT`.
    ColorOutOfRange,
}

/// What holds of the k-means++ seeds of `pixels` for a palette of `k` colors,
/// whatever the random draws: between one and `k` seeds, each a sample,
/// each at a positive distance from every earlier seed (a later seed is drawn
/// with weight the square of its distance to the nearest earlier one); and
/// fewer than `k` only when every sample lies at distance zero from its
/// nearest seed, so that no further seed could be drawn.
pub open spec fn valid_seeds(pixels: Seq<LAB>, k: int, seeds: Seq<LAB>) -> bool {
    &&& 1 <= seeds.len() <= k
    &&& forall|j: int| 0 <= j < seeds.len() ==> pixels.contains(#[trigger] seeds[j])
    &&& forall|i: int, j: int|
        0 <= i < j < seeds.len() ==> lab_distance(#[trigger] seeds[j], #[trigger] seeds[i]) > 0
    &&& seeds.len() < k ==> forall|p: int|
        0 <= p < pixels.len() ==> lab_distance(
            #[trigger] pixels[p],
            seeds[nearest_index(pixels[p], seeds)],
        ) == 0
}

/// The iteration budget for a caller's `max_iter`.
pub open spec fn budget_of(max_iter: Option<u16>) -> nat {
    match max_iter {
        Some(n) => n as nat,
        None => MAX_ITER as nat,
    }
}

/// The palette made from `seeds`: where seeding stopped short of `k` seeds,
/// each seed with the size of its cluster; otherwise each mean after the
/// Lloyd iterations with the size of its cluster in the last assignment.
pub open spec fn palette_from_seeds(
    pixels: Seq<LAB>,
    seeds: Seq<LAB>,
    k: int,
    f: WeightFn,
    budget: nat,
) -> Seq<(LAB, usize)> {
    if seeds.len() < k {
        palette_of(seeds, assign(pixels, seeds))
    } else {
        palette_of(lloyd(pixels, seeds, f, budget).0, lloyd(pixels, seeds, f, budget).1)
    }
}

/// A sum of values that are not negative is zero only where each is.
proof fn lemma_zero_sum(s: Seq<u128>)
    requires
        seq_sum(s) == 0,
    ensures
        forall|i: int| 0 <= i < s.len() ==> s[i] == 0,
    decreases s.len(),
{
    if s.len() > 0 {
        lemma_sum_nonneg(s.drop_last());
        lemma_zero_sum(s.drop_last());
        assert forall|i: int| 0 <= i < s.len() implies s[i] == 0 by {
            if i < s.len() - 1 {
                assert(s[i] == s.drop_last()[i]);
            }
        }
    }
}

proof fn lemma_sum_nonneg(s: Seq<u128>)
    ensures
        seq_sum(s) >= 0,
    decreases s.len(),
{
    if s.len() > 0 {
        lemma_sum_nonneg(s.drop_last());
    }
}

/// For each sample, the square of its distance to the nearest of `means`:
/// the weights of the next k-means++ draw.
fn seeding_weights(pixels: &Vec<LAB>, means: &Vec<LAB>) -> (w: Vec<u128>)
    requires
        means.len() > 0,
        all_in_range(pixels@),
        all_in_range(means@),
    ensures
        w.len() == pixels.len(),
        forall|i: int|
            0 <= i < w.len() ==> #[trigger] w[i] == sq_nat(
                lab_distance(pixels@[i], means@[nearest_index(pixels@[i], means@)]),
            ),
        seq_sum(w@) <= u128::MAX,
{
    let mut w: Vec<u128> = Vec::new();
    let mut total: u128 = 0;
    let mut i: usize = 0;
    while i < pixels.len()
        invariant
            i <= pixels.len(),
            means.len() > 0,
            all_in_range(pixels@),
            all_in_range(means@),
            w.len() == i,
            forall|m: int|
                0 <= m < i ==> #[trigger] w[m] == sq_nat(
                    lab_distance(pixels@[m], means@[nearest_index(pixels@[m], means@)]),
                ),
            total == seq_sum(w@),
            total <= i * 0x1_0000_0000_0000_0000,
        decreases pixels.len() - i,
    {
        let near = pixels[i].nearest(means);
        proof {
            lemma_distance_bound(pixels@[i as int], means@[near.0 as int]);
        }
        let d: u128 = near.1 as u128;
        assert(d * d < 0x1_0000_0000_0000_0000) by (nonlinear_arith)
            requires
                d < 0x1_0000_0000,
        ;
        let x: u128 = d * d;
        let ghost before = w@;
        w.push(x);
        assert(w@.drop_last() =~= before);
        total = total + x;
        i = i + 1;
    }
    assert(pixels.len() <= usize::MAX);
    w
}

/// The square of a natural number.
pub open spec fn sq_nat(x: nat) -> nat {
    x * x
}

/// k-means++ seeding: a first seed drawn uniformly from the samples, then
/// up to `k - 1` more, each drawn with weight the square of a sample's
/// distance to its nearest seed so far. Stops early where every sample lies
/// at distance zero from the seeds.
fn seed_means(pixels: &Vec<LAB>, k: usize, rng: &mut StdRng) -> (seeds: Vec<LAB>)
    requires
        1 <= k <= pixels.len(),
        all_in_range(pixels@),
    ensures
        valid_seeds(pixels@, k as int, seeds@),
        all_in_range(seeds@),
{
    let first = random_index(rng, pixels.len());
    let mut means: Vec<LAB> = Vec::new();
    means.push(pixels[first]);
    assert(pixels@.contains(means@[0]));
    while means.len() < k
        invariant
            1 <= means.len() <= k <= pixels.len(),
            all_in_range(pixels@),
            all_in_range(means@),
            forall|j: int| 0 <= j < means.len() ==> pixels@.contains(#[trigger] means@[j]),
            forall|i: int, j: int|
                0 <= i < j < means.len() ==> lab_distance(#[trigger] means@[j], #[trigger] means@[i]) > 0,
        decreases k - means.len(),
    {
        let weights = seeding_weights(pixels, &means);
        match weighted_index(&weights) {
            Err(_) => {
                proof {
                    lemma_sum_nonneg(weights@);
                    lemma_zero_sum(weights@);
                    assert forall|p: int| 0 <= p < pixels.len() implies lab_distance(
                        #[trigger] pixels@[p],
                        means@[nearest_index(pixels@[p], means@)],
                    ) == 0 by {
                        assert(weights[p] == 0);
                        let d = lab_distance(pixels@[p], means@[nearest_index(pixels@[p], means@)]);
                        if d > 0 {
                            assert(d * d > 0) by (nonlinear_arith)
                                requires
                                    d > 0,
                            ;
                        }
                    }
                }
                return means;
            },
            Ok(dist) => {
                let i = weighted_sample(&dist, rng);
                let c = pixels[i];
                proof {
                    let near = nearest_index(c, means@);
                    lemma_nearest_index(c, means@);
                    let d = lab_distance(c, means@[near]);
                    assert(weights[i as int] > 0);
                    assert(d > 0);
                    assert forall|j: int| 0 <= j < means.len() implies lab_distance(
                        c,
                        #[trigger] means@[j],
                    ) > 0 by {
                        assert(lab_distance(c, means@[near]) <= lab_distance(c, means@[j]));
                    }
                }
                let ghost before = means@;
                means.push(c);
                proof {
                    assert forall|j: int| 0 <= j < means.len() implies pixels@.contains(#[trigger] means@[j]) by {
                        if j < before.len() {
                            assert(means@[j] == before[j]);
                        }
                    }
                    assert forall|a: int, b: int|
                        0 <= a < b < means.len() implies lab_distance(
                        #[trigger] means@[b],
                        #[trigger] means@[a],
                    ) > 0 by {
                        assert(means@[a] == before[a]);
                        if b < before.len() {
                            assert(means@[b] == before[b]);
                        }
                    }
                    assert(all_in_range(means@)) by {
                        assert forall|j: int| 0 <= j < means@.len() implies lab_in_range(#[trigger] means@[j]) by {
                            if j < before.len() {
                                assert(means@[j] == before[j]);
                            }
                        }
                    }
                }
            },
        }
    }
    means
}

/// Each mean with the size of its cluster among `pixels`.
fn cluster_sizes(pixels: &Vec<LAB>, means: &Vec<LAB>) -> (r: Vec<(LAB, usize)>)
    requires
        means.len() > 0,
    ensures
        r@ == palette_of(means@, assign(pixels@, means@)),
{
    let clusters = find_clusters(pixels, means);
    let mut palette: Vec<(LAB, usize)> = Vec::new();
    let mut i: usize = 0;
    while i < means.len()
        invariant
            i <= means.len() == clusters.len(),
            forall|m: int| 0 <= m < means.len() ==> (#[trigger] clusters[m])@ == cluster_of(pixels@, means@, m),
            palette.len() == i,
            forall|m: int| 0 <= m < i ==> #[trigger] palette[m] == (means@[m], clusters@[m]@.len() as usize),
        decreases means.len() - i,
    {
        palette.push((means[i], clusters[i].len()));
        i = i + 1;
    }
    assert(palette@ =~= palette_of(means@, assign(pixels@, means@)));
    palette
}

/// The palette of `k` colors for `pixels`, drawing the k-means++ seeds with
/// `rng`: each entry is a mean and the number of samples it represents (its
/// dominance is that number over `pixels.len()`).
///
/// Fails with `CountIsZero` for `k == 0`, with `CountExceedsSamples` for
/// more colors than samples, and with `ColorOutOfRange` where a sample lies
/// beyond `LAB_LIMIT`. Otherwise the result is the palette that the Lloyd
/// iterations (at most `max_iter`, by default `MAX_ITER`) make from valid
/// seeds; where seeding stopped short of `k` seeds, each seed with its
/// cluster size, and the palette is shorter than `k`. A mean whose cluster
/// is left empty keeps its value for that round.
pub fn pigments_pixels_with_rng(
    pixels: &Vec<LAB>,
    k: u8,
    weight: WeightFn,
    max_iter: Option<u16>,
    rng: &mut StdRng,
) -> (r: Result<Vec<(LAB, usize)>, PaletteError>)
    ensures
        k == 0 ==> r == Err::<Vec<(LAB, usize)>, PaletteError>(PaletteError::CountIsZero),
        k > 0 && k > pixels.len() ==> r == Err::<Vec<(LAB, usize)>, PaletteError>(
            PaletteError::CountExceedsSamples,
        ),
        0 < k <= pixels.len() && !all_in_range(pixels@) ==> r == Err::<Vec<(LAB, usize)>, PaletteError>(
            PaletteError::ColorOutOfRange,
        ),
        0 < k <= pixels.len() && all_in_range(pixels@) ==> r is Ok && exists|seeds: Seq<LAB>|
            valid_seeds(pixels@, k as int, seeds) && r->Ok_0@ == palette_from_seeds(
                pixels@,
                seeds,
                k as int,
                weight,
                budget_of(max_iter),
            ),
{
    if k == 0 {
        return Err(PaletteError::CountIsZero);
    }
    if k as usize > pixels.len() {
        return Err(PaletteError::CountExceedsSamples);
    }
    let mut i: usize = 0;
    while i < pixels.len()
        invariant
            i <= pixels.len(),
            0 < k <= pixels.len(),
            forall|m: int| 0 <= m < i ==> lab_in_range(#[trigger] pixels@[m]),
        decreases pixels.len() - i,
    {
        if !pixels[i].in_range() {
            return Err(PaletteError::ColorOutOfRange);
        }
        i = i + 1;
    }
    let seeds = seed_means(pixels, k as usize, rng);
    let budget: u16 = match max_iter {
        Some(n) => n,
        None => MAX_ITER,
    };
    if seeds.len() < k as usize {
        Ok(cluster_sizes(pixels, &seeds))
    } else {
        Ok(run_lloyd(pixels, seeds, weight, budget))
    }
}

/// The palette of `k` colors for `pixels`, with seeds drawn from a generator
/// seeded by the operating system; see `pigments_pixels_with_rng`.
pub fn pigments_pixels(pixels: &Vec<LAB>, k: u8, weight: WeightFn, max_iter: Option<u16>) -> (r: Result<
    Vec<(LAB, usize)>,
    PaletteError,
>)
    ensures
        k == 0 ==> r == Err::<Vec<(LAB, usize)>, PaletteError>(PaletteError::CountIsZero),
        k > 0 && k > pixels.len() ==> r == Err::<Vec<(LAB, usize)>, PaletteError>(
            PaletteError::CountExceedsSamples,
        ),
        0 < k <= pixels.len() && !all_in_range(pixels@) ==> r == Err::<Vec<(LAB, usize)>, PaletteError>(
            PaletteError::ColorOutOfRange,
        ),
        0 < k <= pixels.len() && all_in_range(pixels@) ==> r is Ok && exists|seeds: Seq<LAB>|
            valid_seeds(pixels@, k as int, seeds) && r->Ok_0@ == palette_from_seeds(
                pixels@,
                seeds,
                k as int,
                weight,
                budget_of(max_iter),
            ),
{
    let mut rng = entropy_rng();
    pigments_pixels_with_rng(pixels, k, weight, max_iter, &mut rng)
}

/// The number of samples that the entries of a palette represent together.
pub open spec fn palette_total(p: Seq<(LAB, usize)>) -> int
    decreases p.len(),
{
    if p.len() == 0 {
        0
    } else {
        palette_total(p.drop_last()) + p.last().1
    }
}

/// The sizes of the first `m` clusters of `pixels` around `means`, summed.
pub open spec fn cluster_total(pixels: Seq<LAB>, means: Seq<LAB>, m: int) -> int
    decreases m,
{
    if m <= 0 {
        0
    } else {
        cluster_total(pixels, means, m - 1) + cluster_of(pixels, means, m - 1).len()
    }
}

proof fn lemma_cluster_total_empty(means: Seq<LAB>, m: int)
    ensures
        cluster_total(Seq::empty(), means, m) == 0,
    decreases m,
{
    reveal(Seq::filter);
    if m > 0 {
        lemma_cluster_total_empty(means, m - 1);
    }
}

/// A sample added at the end joins the end of its nearest mean's cluster.
proof fn lemma_cluster_push(s: Seq<LAB>, x: LAB, means: Seq<LAB>, j: int)
    ensures
        cluster_of(s.push(x), means, j) == if nearest_index(x, means) == j {
            cluster_of(s, means, j).push(x)
        } else {
            cluster_of(s, means, j)
        },
{
    reveal(Seq::filter);
    assert(s.push(x).drop_last() =~= s);
}

proof fn lemma_cluster_total_push(s: Seq<LAB>, x: LAB, means: Seq<LAB>, m: int)
    requires
        m >= 0,
        means.len() > 0,
    ensures
        cluster_total(s.push(x), means, m) == cluster_total(s, means, m) + if nearest_index(x, means) < m {
            1int
        } else {
            0int
        },
    decreases m,
{
    if m > 0 {
        lemma_cluster_total_push(s, x, means, m - 1);
        lemma_cluster_push(s, x, means, m - 1);
    } else {
        lemma_nearest_index(x, means);
    }
}

/// Every sample lies in exactly one cluster: the cluster sizes add up to the
/// number of samples.
pub proof fn lemma_clusters_partition(pixels: Seq<LAB>, means: Seq<LAB>)
    requires
        means.len() > 0,
    ensures
        cluster_total(pixels, means, means.len() as int) == pixels.len(),
    decreases pixels.len(),
{
    if pixels.len() == 0 {
        lemma_cluster_total_empty(means, means.len() as int);
        assert(pixels =~= Seq::<LAB>::empty());
    } else {
        let init = pixels.drop_last();
        let x = pixels.last();
        lemma_clusters_partition(init, means);
        assert(init.push(x) =~= pixels);
        lemma_cluster_total_push(init, x, means, means.len() as int);
        lemma_nearest_index(x, means);
    }
}

proof fn lemma_palette_total_prefix(pixels: Seq<LAB>, means: Seq<LAB>, m: int)
    requires
        0 <= m <= means.len(),
        pixels.len() <= usize::MAX,
    ensures
        palette_total(palette_of(means, assign(pixels, means)).subrange(0, m)) == cluster_total(
            pixels,
            means,
            m,
        ),
    decreases m,
{
    let q = palette_of(means, assign(pixels, means));
    if m > 0 {
        lemma_palette_total_prefix(pixels, means, m - 1);
        assert(q.subrange(0, m).drop_last() =~= q.subrange(0, m - 1));
        pixels.lemma_filter_len(|p: LAB| nearest_index(p, means) == m - 1);
    } else {
        assert(q.subrange(0, 0).len() == 0);
    }
}

/// The palette made from the clusters around `means` represents every
/// sample once, and each entry at most all of them.
proof fn lemma_palette_of_assign(pixels: Seq<LAB>, means: Seq<LAB>)
    requires
        means.len() > 0,
        pixels.len() <= usize::MAX,
    ensures
        palette_total(palette_of(means, assign(pixels, means))) == pixels.len(),
        forall|j: int|
            0 <= j < means.len() ==> (#[trigger] palette_of(means, assign(pixels, means))[j]).1
                <= pixels.len(),
{
    let q = palette_of(means, assign(pixels, means));
    lemma_palette_total_prefix(pixels, means, means.len() as int);
    assert(q.subrange(0, means.len() as int) =~= q);
    lemma_clusters_partition(pixels, means);
    assert forall|j: int| 0 <= j < means.len() implies (#[trigger] q[j]).1 <= pixels.len() by {
        pixels.lemma_filter_len(|p: LAB| nearest_index(p, means) == j);
    }
}

/// The Lloyd iterations keep the number of means, and end with the
/// clusters around some means of that number.
proof fn lemma_lloyd_shape(pixels: Seq<LAB>, means: Seq<LAB>, f: WeightFn, budget: nat)
    ensures
        lloyd(pixels, means, f, budget).0.len() == means.len(),
        exists|m: Seq<LAB>|
            m.len() == means.len() && lloyd(pixels, means, f, budget).1 == assign(pixels, m),
    decreases budget,
{
    let clusters = assign(pixels, means);
    let next = updated_means(clusters, means, f);
    if budget <= 1 || !means_moved(means, next) {
        assert(lloyd(pixels, means, f, budget).1 == assign(pixels, means));
    } else {
        lemma_lloyd_shape(pixels, next, f, (budget - 1) as nat);
    }
}

/// For any seeds that k-means++ can draw, the palette has at most `k`
/// entries, no entry represents more samples than there are, and together
/// the entries represent every sample exactly once: each dominance lies in
/// `[0, 1]` and the dominances sum to 1.
pub proof fn lemma_palette_shares(pixels: Seq<LAB>, seeds: Seq<LAB>, k: int, f: WeightFn, budget: nat)
    requires
        valid_seeds(pixels, k, seeds),
        pixels.len() <= usize::MAX,
    ensures
        palette_from_seeds(pixels, seeds, k, f, budget).len() <= k,
        forall|j: int|
            0 <= j < palette_from_seeds(pixels, seeds, k, f, budget).len() ==> (
            #[trigger] palette_from_seeds(pixels, seeds, k, f, budget)[j]).1 <= pixels.len(),
        palette_total(palette_from_seeds(pixels, seeds, k, f, budget)) == pixels.len(),
{
    if seeds.len() < k {
        lemma_palette_of_assign(pixels, seeds);
    } else {
        lemma_lloyd_shape(pixels, seeds, f, budget);
        let m = choose|m: Seq<LAB>|
            m.len() == seeds.len() && lloyd(pixels, seeds, f, budget).1 == assign(pixels, m);
        lemma_palette_of_assign(pixels, m);
        let r = lloyd(pixels, seeds, f, budget);
        lemma_palette_same_counts(r.0, m, assign(pixels, m));
    }
}

/// Two palettes over the same clusters represent the same numbers of samples.
proof fn lemma_palette_same_counts(a: Seq<LAB>, b: Seq<LAB>, clusters: Seq<Seq<LAB>>)
    requires
        a.len() == b.len(),
    ensures
        palette_total(palette_of(a, clusters)) == palette_total(palette_of(b, clusters)),
        forall|j: int|
            0 <= j < a.len() ==> (#[trigger] palette_of(a, clusters)[j]).1 == palette_of(b, clusters)[j].1,
    decreases a.len(),
{
    if a.len() > 0 {
        let n = a.len() - 1;
        lemma_palette_same_counts(a.subrange(0, n as int), b.subrange(0, n as int), clusters);
        assert(palette_of(a, clusters).drop_last() =~= palette_of(a.subrange(0, n as int), clusters));
        assert(palette_of(b, clusters).drop_last() =~= palette_of(b.subrange(0, n as int), clusters));
    }
}

/// Filtering by a predicate that every color meets changes nothing.
proof fn lemma_filter_all(s: Seq<LAB>, p: spec_fn(LAB) -> bool)
    requires
        forall|x: LAB| #[trigger] p(x),
    ensures
        s.filter(p) == s,
    decreases s.len(),
{
    reveal(Seq::filter);
    if s.len() > 0 {
        lemma_filter_all(s.drop_last(), p);
        assert(s.drop_last().push(s.last()) =~= s);
    }
}

/// With a single mean every sample falls in its cluster, so the Lloyd
/// iterations end with that mean at the weighted centroid of all the
/// samples, its cluster being all of them.
pub proof fn lemma_single_mean(pixels: Seq<LAB>, means: Seq<LAB>, f: WeightFn, budget: nat)
    requires
        means.len() == 1,
        pixels.len() > 0,
    ensures
        lloyd(pixels, means, f, budget).0 == seq![weighted_mean(pixels, f)],
        lloyd(pixels, means, f, budget).1 == seq![pixels],
    decreases budget,
{
    let pred = |p: LAB| nearest_index(p, means) == 0;
    lemma_filter_all(pixels, pred);
    let clusters = assign(pixels, means);
    assert(clusters =~= seq![pixels]);
    let next = updated_means(clusters, means, f);
    assert(next =~= seq![weighted_mean(pixels, f)]);
    if !(budget <= 1 || !means_moved(means, next)) {
        lemma_single_mean(pixels, next, f, (budget - 1) as nat);
    }
}

/// A palette of one color is the weighted centroid of all the samples,
/// representing every one of them (dominance 1).
pub proof fn lemma_one_color_palette(pixels: Seq<LAB>, seeds: Seq<LAB>, f: WeightFn, budget: nat)
    requires
        valid_seeds(pixels, 1, seeds),
        pixels.len() <= usize::MAX,
    ensures
        palette_from_seeds(pixels, seeds, 1, f, budget) == seq![(weighted_mean(pixels, f), pixels.len() as usize)],
{
    assert(pixels.contains(seeds[0]));
    lemma_single_mean(pixels, seeds, f, budget);
    assert(palette_from_seeds(pixels, seeds, 1, f, budget) =~= seq![(weighted_mean(pixels, f), pixels.len() as usize)]);
}

} // verus!
