use pigmnts::rgba::{RGBADelta, RGBA};

fn px(r: u8, g: u8, b: u8, a: u8) -> RGBA {
    RGBA { r, g, b, a }
}

#[test]
fn rgba_hex_has_four_channels() {
    assert_eq!(px(10, 11, 12, 13).hex(), "#0A0B0C0D");
    assert_eq!(px(255, 0, 128, 255).hex(), "#FF0080FF");
}

#[test]
fn brightness_in_ten_thousandths() {
    assert_eq!(px(255, 255, 255, 0).brightness(), 2550000);
    assert_eq!(px(1, 0, 0, 0).brightness(), 2126);
    assert_eq!(px(0, 0, 1, 9).brightness(), 722);
}

#[test]
fn rgba_distance_is_euclidean() {
    assert_eq!(px(0, 0, 0, 0).distance(&px(3, 4, 0, 0)), 50000);
    assert_eq!(px(0, 0, 0, 0).distance(&px(1, 1, 0, 0)), 14142);
    assert_eq!(px(9, 9, 9, 9).distance(&px(9, 9, 9, 9)), 0);
    assert_eq!(px(0, 0, 0, 0).distance(&px(255, 255, 255, 255)), 5100000);
}

#[test]
fn rgba_nearest_first_on_ties() {
    let colors = vec![px(10, 0, 0, 0), px(0, 10, 0, 0), px(0, 0, 1, 0)];
    assert_eq!(px(0, 0, 0, 0).nearest(&colors), (2, 10000));
    let tied = vec![px(2, 0, 0, 0), px(0, 2, 0, 0)];
    assert_eq!(px(0, 0, 0, 0).nearest(&tied), (0, 20000));
}

#[test]
fn delta_conversions_and_difference() {
    let d = RGBADelta::from(px(1, 2, 3, 4)).sub(RGBADelta::from(px(4, 3, 2, 1)));
    assert_eq!((d.r, d.g, d.b, d.a), (-3, -1, 1, 3));
    let back = RGBA::from(RGBADelta { r: 256 + 7, g: -1, b: 0, a: 255 });
    assert!(back == px(7, 255, 0, 255));
}
