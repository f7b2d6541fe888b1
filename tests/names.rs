use pigmnts::color::{LAB, RGB};
use pigmnts::names::{hex_to_rgb, near_color_name, ColorNames};

#[test]
fn hex_to_rgb_reads_both_cases() {
    assert!(hex_to_rgb("#FF8000") == RGB { r: 255, g: 128, b: 0 });
    assert!(hex_to_rgb("#ff8000") == RGB { r: 255, g: 128, b: 0 });
    assert!(hex_to_rgb("aBcDeF") == RGB { r: 171, g: 205, b: 239 });
}

#[test]
fn hex_to_rgb_short_and_long_codes() {
    assert!(hex_to_rgb("#fff") == RGB { r: 0, g: 15, b: 255 });
    assert!(hex_to_rgb("#1000000") == RGB { r: 0, g: 0, b: 0 });
    assert!(hex_to_rgb("##12#34#56") == RGB { r: 0x12, g: 0x34, b: 0x56 });
}

#[test]
fn nearest_name_is_of_the_nearest_entry() {
    let table = ColorNames {
        names: vec!["Black".to_string(), "Gray".to_string(), "White".to_string()],
        colors: vec![
            LAB { l: 0, a: 0, b: 0 },
            LAB { l: 500000, a: 0, b: 0 },
            LAB { l: 1000000, a: 0, b: 0 },
        ],
    };
    assert_eq!(near_color_name(&LAB { l: 560000, a: 10000, b: 0 }, &table), "Gray");
    assert_eq!(near_color_name(&LAB { l: 900000, a: 0, b: 0 }, &table), "White");
    assert_eq!(near_color_name(&LAB { l: 250000, a: 0, b: 0 }, &table), "Black");
}
