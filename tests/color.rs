use pigmnts::color::{LAB, RGB};

fn lab(l: i32, a: i32, b: i32) -> LAB {
    LAB { l, a, b }
}

#[test]
fn rgb_hex_is_upper_case_and_zero_padded() {
    assert_eq!(RGB { r: 0, g: 15, b: 255 }.hex(), "#000FFF");
    assert_eq!(RGB { r: 171, g: 205, b: 239 }.hex(), "#ABCDEF");
    assert_eq!(RGB { r: 0, g: 0, b: 0 }.hex(), "#000000");
}

#[test]
fn rgb_equality_compares_channels() {
    assert!(RGB { r: 1, g: 2, b: 3 } == RGB { r: 1, g: 2, b: 3 });
    assert!(RGB { r: 1, g: 2, b: 3 } != RGB { r: 1, g: 2, b: 4 });
}

#[test]
fn lab_equality_compares_fields() {
    assert!(lab(1, 2, 3) == lab(1, 2, 3));
    assert!(lab(1, 2, 3) != lab(1, -2, 3));
}

#[test]
fn chroma_is_the_rounded_down_hypotenuse() {
    assert_eq!(lab(500000, 30000, 40000).chroma(), 50000);
    assert_eq!(lab(0, 1, 1).chroma(), 1);
    assert_eq!(lab(0, 0, 0).chroma(), 0);
}

#[test]
fn distance_to_self_is_zero() {
    for c in [lab(0, 0, 0), lab(535850, 12345, -67890), lab(1000000, -1280000, 1270000)] {
        assert_eq!(c.distance(&c), 0);
    }
}

#[test]
fn distance_pure_chroma_difference() {
    // From a neutral gray the chroma factor is 1: the distance is the chroma.
    assert_eq!(lab(500000, 0, 0).distance(&lab(500000, 0, 300000)), 300000);
}

#[test]
fn distance_is_asymmetric() {
    let x = lab(500000, 0, 0);
    let y = lab(500000, 0, 300000);
    // 30 / (1 + 0.045 * 30) = 12.7659...
    assert_eq!(y.distance(&x), 127659);
    assert_ne!(x.distance(&y), y.distance(&x));
    let a = lab(600000, 200000, -100000);
    let b = lab(400000, -50000, 250000);
    assert_eq!(a.distance(&b), 378724);
    assert_eq!(b.distance(&a), 369461);
}

#[test]
fn distance_lightness_only() {
    assert_eq!(lab(200000, 0, 0).distance(&lab(250000, 0, 0)), 50000);
}

#[test]
fn nearest_picks_the_closest() {
    let means = vec![lab(0, 0, 0), lab(500000, 0, 0), lab(1000000, 0, 0)];
    assert_eq!(lab(450000, 0, 0).nearest(&means), (1, 50000));
    assert_eq!(lab(990000, 0, 0).nearest(&means), (2, 10000));
}

#[test]
fn nearest_breaks_ties_by_first_index() {
    let means = vec![lab(400000, 0, 0), lab(600000, 0, 0), lab(400000, 0, 0)];
    assert_eq!(lab(500000, 0, 0).nearest(&means), (0, 100000));
}

#[test]
fn in_range_checks_every_field() {
    assert!(lab(2000000, -2000000, 0).in_range());
    assert!(!lab(2000001, 0, 0).in_range());
    assert!(!lab(0, 0, -2000001).in_range());
}
