use pigmnts::color::{LAB, RGB};
use pigmnts::palette::{batch_pixels, pad_counts, rgb_pixels, sort_by_dominance, DEFAULT_COUNT};
use rand::rngs::StdRng;
use rand::SeedableRng;

fn lab(l: i32) -> LAB {
    LAB { l, a: 0, b: 0 }
}

#[test]
fn rgba_bytes_become_pixels_without_alpha() {
    let data = vec![1, 2, 3, 255, 4, 5, 6, 0];
    let pixels = rgb_pixels(&data);
    assert_eq!(pixels.len(), 2);
    assert!(pixels[0] == RGB { r: 1, g: 2, b: 3 });
    assert!(pixels[1] == RGB { r: 4, g: 5, b: 6 });
    assert!(rgb_pixels(&Vec::new()).is_empty());
}

#[test]
fn batch_is_sampled_only_when_it_applies() {
    let pixels: Vec<LAB> = (0..100).map(|i| lab(i * 1000)).collect();
    let mut rng = StdRng::seed_from_u64(1);
    let batch = batch_pixels(pixels.clone(), 3, Some(10), 10, 10, &mut rng);
    assert_eq!(batch.len(), 10);
    for c in batch.iter() {
        assert!(pixels.contains(c));
    }
    for i in 0..batch.len() {
        for j in 0..i {
            assert!(batch[i] != batch[j]);
        }
    }
    assert_eq!(batch_pixels(pixels.clone(), 3, None, 10, 10, &mut rng), pixels);
    assert_eq!(batch_pixels(pixels.clone(), 3, Some(0), 10, 10, &mut rng), pixels);
    assert_eq!(batch_pixels(pixels.clone(), 3, Some(100), 10, 10, &mut rng), pixels);
    assert_eq!(batch_pixels(pixels.clone(), 10, Some(10), 10, 10, &mut rng), pixels);
}

#[test]
fn palette_sorted_by_dominance_stably() {
    let palette = vec![(lab(1), 5), (lab(2), 9), (lab(3), 5), (lab(4), 12), (lab(5), 0)];
    let sorted = sort_by_dominance(&palette);
    let order: Vec<i32> = sorted.iter().map(|e| e.0.l).collect();
    assert_eq!(order, vec![4, 2, 1, 3, 5]);
    assert!(sort_by_dominance(&Vec::new()).is_empty());
}

#[test]
fn counts_padded_with_the_default() {
    assert_eq!(pad_counts(&vec![3], 3), vec![3, DEFAULT_COUNT, DEFAULT_COUNT]);
    assert_eq!(pad_counts(&vec![], 2), vec![5, 5]);
    assert_eq!(pad_counts(&vec![7, 8], 1), vec![7, 8]);
}
