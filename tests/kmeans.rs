use pigmnts::color::LAB;
use pigmnts::kmeans::MAX_ITER;
use pigmnts::weights::{resolve_mood, Mood, WeightFn};
use pigmnts::{pigments_pixels, pigments_pixels_with_rng, PaletteError};
use rand::rngs::StdRng;
use rand::SeedableRng;

fn lab(l: i32, a: i32, b: i32) -> LAB {
    LAB { l, a, b }
}

/// Deterministic spread of `n` colors over the LAB range.
fn spread(n: usize) -> Vec<LAB> {
    let mut state: u64 = 12345;
    let mut out = Vec::new();
    for _ in 0..n {
        state = state.wrapping_mul(6364136223846793005).wrapping_add(1442695040888963407);
        let l = ((state >> 33) % 1_000_001) as i32;
        let a = ((state >> 13) % 2_000_001) as i32 - 1_000_000;
        let b = ((state >> 23) % 2_000_001) as i32 - 1_000_000;
        out.push(lab(l, a, b));
    }
    out
}

/// `count` colors around `center`, with offsets that cancel out.
fn blob(center: (i32, i32, i32), count: usize) -> Vec<LAB> {
    (0..count)
        .map(|i| {
            let dl = ((i % 5) as i32 - 2) * 1000;
            let da = ((i / 5 % 5) as i32 - 2) * 1000;
            lab(center.0 + dl, center.1 + da, center.2 - dl)
        })
        .collect()
}

#[test]
fn zero_colors_is_an_error() {
    let pixels = spread(10);
    assert_eq!(pigments_pixels(&pixels, 0, WeightFn::Uniform, None), Err(PaletteError::CountIsZero));
}

#[test]
fn more_colors_than_samples_is_an_error() {
    let pixels = spread(3);
    assert_eq!(
        pigments_pixels(&pixels, 4, WeightFn::Uniform, None),
        Err(PaletteError::CountExceedsSamples)
    );
    assert_eq!(
        pigments_pixels(&Vec::new(), 1, WeightFn::Uniform, None),
        Err(PaletteError::CountExceedsSamples)
    );
}

#[test]
fn sample_out_of_range_is_an_error() {
    let mut pixels = spread(5);
    pixels.push(lab(0, 2_000_001, 0));
    assert_eq!(
        pigments_pixels(&pixels, 2, WeightFn::Uniform, None),
        Err(PaletteError::ColorOutOfRange)
    );
}

#[test]
fn palette_has_at_most_k_entries_and_shares_sum_to_one() {
    let pixels = spread(200);
    for seed in 0..5u64 {
        let mut rng = StdRng::seed_from_u64(seed);
        let palette = pigments_pixels_with_rng(&pixels, 6, WeightFn::Uniform, None, &mut rng).unwrap();
        assert!(palette.len() <= 6);
        let total: usize = palette.iter().map(|e| e.1).sum();
        assert_eq!(total, 200);
        for (_, count) in palette.iter() {
            let dominance = *count as f64 / 200.0;
            assert!((0.0..=1.0).contains(&dominance));
        }
    }
}

#[test]
fn same_seed_same_palette() {
    let pixels = spread(150);
    let mut rng1 = StdRng::seed_from_u64(42);
    let mut rng2 = StdRng::seed_from_u64(42);
    let first = pigments_pixels_with_rng(&pixels, 4, WeightFn::Uniform, None, &mut rng1).unwrap();
    let second = pigments_pixels_with_rng(&pixels, 4, WeightFn::Uniform, None, &mut rng2).unwrap();
    assert_eq!(first, second);
}

#[test]
fn one_color_is_the_centroid() {
    let pixels = spread(37);
    let n = pixels.len() as i64;
    let sum = |f: fn(&LAB) -> i32| pixels.iter().map(|c| f(c) as i64).sum::<i64>();
    let centroid = lab(
        sum(|c| c.l).div_euclid(n) as i32,
        sum(|c| c.a).div_euclid(n) as i32,
        sum(|c| c.b).div_euclid(n) as i32,
    );
    for budget in [None, Some(1), Some(2)] {
        let palette = pigments_pixels(&pixels, 1, WeightFn::Uniform, budget).unwrap();
        assert_eq!(palette, vec![(centroid, 37)]);
    }
}

#[test]
fn identical_samples_shrink_the_palette() {
    let gray = lab(535850, 0, 0);
    let pixels = vec![gray; 100];
    let palette = pigments_pixels(&pixels, 3, WeightFn::Uniform, None).unwrap();
    assert_eq!(palette, vec![(gray, 100)]);
}

#[test]
fn two_tight_clusters_are_found() {
    let mut pixels = blob((200000, 100000, 100000), 50);
    pixels.extend(blob((800000, -100000, -100000), 50));
    let mut rng = StdRng::seed_from_u64(7);
    let mut palette = pigments_pixels_with_rng(&pixels, 2, WeightFn::Uniform, None, &mut rng).unwrap();
    palette.sort_by_key(|e| e.0.l);
    assert_eq!(palette.len(), 2);
    assert_eq!(palette[0], (lab(200000, 100000, 100000), 50));
    assert_eq!(palette[1], (lab(800000, -100000, -100000), 50));
}

#[test]
fn fewer_samples_than_workers() {
    let pixels = vec![lab(100000, 0, 0), lab(900000, 0, 0), lab(100000, 0, 0)];
    let mut rng = StdRng::seed_from_u64(3);
    let mut palette = pigments_pixels_with_rng(&pixels, 2, WeightFn::Uniform, Some(10), &mut rng).unwrap();
    palette.sort_by_key(|e| e.0.l);
    assert_eq!(palette, vec![(lab(100000, 0, 0), 2), (lab(900000, 0, 0), 1)]);
}

#[test]
fn every_sample_is_assigned_with_a_remainder() {
    // 13 samples over 5 workers: the last worker takes the remainder.
    let pixels = spread(13);
    let mut rng = StdRng::seed_from_u64(11);
    let palette = pigments_pixels_with_rng(&pixels, 3, WeightFn::Uniform, None, &mut rng).unwrap();
    let total: usize = palette.iter().map(|e| e.1).sum();
    assert_eq!(total, 13);
}

#[test]
fn dominant_mood_weighs_uniformly() {
    let f = resolve_mood(&Mood::Dominant);
    assert_eq!(f, WeightFn::Uniform);
    assert_eq!(f.weight(&lab(1, 2, 3)), 1);
    assert_eq!(MAX_ITER, 300);
}
