use pio::image::Rgb;
use pio::options::{parse_color, parse_quality, quality_targets, search_bounds};

#[test]
fn quality_accepts_zero_to_one_hundred() {
    assert_eq!(parse_quality("0"), Ok(0));
    assert_eq!(parse_quality("85"), Ok(85));
    assert_eq!(parse_quality("100"), Ok(100));
    assert_eq!(parse_quality("+7"), Ok(7));
    assert_eq!(parse_quality("007"), Ok(7));
}

#[test]
fn quality_rejects_everything_else() {
    let msg = "expected value between 0 and 100";
    assert_eq!(parse_quality("101"), Err(msg));
    assert_eq!(parse_quality("255"), Err(msg));
    assert_eq!(parse_quality("256"), Err(msg));
    assert_eq!(parse_quality("999999999999"), Err(msg));
    assert_eq!(parse_quality("-1"), Err(msg));
    assert_eq!(parse_quality(""), Err(msg));
    assert_eq!(parse_quality("+"), Err(msg));
    assert_eq!(parse_quality("12a"), Err(msg));
    assert_eq!(parse_quality("1.5"), Err(msg));
}

#[test]
fn color_parses_hex_pairs() {
    assert_eq!(parse_color("#ffffff"), Ok(Rgb { r: 255, g: 255, b: 255 }));
    assert_eq!(parse_color("#000000"), Ok(Rgb { r: 0, g: 0, b: 0 }));
    assert_eq!(parse_color("#1a2B3c"), Ok(Rgb { r: 0x1a, g: 0x2b, b: 0x3c }));
}

#[test]
fn color_rejects_malformed_input() {
    assert_eq!(parse_color("ffffff"), Err("expected format #rrggbb"));
    assert_eq!(parse_color("#fff"), Err("expected format #rrggbb"));
    assert_eq!(parse_color("#fffffff"), Err("expected format #rrggbb"));
    assert_eq!(parse_color(""), Err("expected format #rrggbb"));
    assert_eq!(parse_color("#gggggg"), Err("invalid digit found in string"));
}

#[test]
fn bounds_default_to_quality_plus_minus_spread() {
    assert_eq!(search_bounds(85, 10, None, None), Ok((75, 95)));
    assert_eq!(search_bounds(5, 10, None, None), Ok((0, 15)));
    assert_eq!(search_bounds(95, 10, None, None), Ok((85, 100)));
}

#[test]
fn explicit_bounds_win() {
    assert_eq!(search_bounds(85, 10, Some(10), Some(20)), Ok((10, 20)));
    assert_eq!(search_bounds(85, 10, Some(50), None), Ok((50, 95)));
    assert_eq!(search_bounds(85, 10, None, Some(90)), Ok((75, 90)));
}

#[test]
fn crossed_bounds_are_rejected() {
    assert_eq!(
        search_bounds(85, 10, Some(90), Some(80)),
        Err("value of `--min` must be less or equal to value of `--max`")
    );
}

#[test]
fn target_table_is_calibrated() {
    let t = quality_targets();
    assert_eq!(t.len(), 101);
    // Higher quality demands smaller dissimilarity.
    for q in 0..100 {
        assert!(t[q] >= t[q + 1]);
    }
    // Spot values on the table's fixed scale.
    assert_eq!(t[0], 644_050_000);
    assert_eq!(t[85], 4_475_500);
    assert_eq!(t[100], 400_000);
}
