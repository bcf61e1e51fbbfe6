use css_color::Srgb;
use pfaedle::color;
use std::str::FromStr;

/// The colour of a text on a background, both given in words.
fn parse_color(input: &str) -> Option<(String, String)> {
    let parsed = Srgb::from_str(input).ok();
    let linear = |c: f32| -> f32 {
        if c <= 0.03928 {
            c / 12.92
        } else {
            ((c + 0.055) / 1.055).powf(2.4)
        }
    };
    let channels = parsed.as_ref().map(|c| {
        let byte = |v: f32| (v * 255.0).round() as u8;
        (byte(c.red), byte(c.green), byte(c.blue))
    });
    let luminance = parsed.as_ref().map_or(0.0, |c| {
        0.2126 * linear(c.red) + 0.7152 * linear(c.green) + 0.0722 * linear(c.blue)
    });
    color::parse_color(channels, (luminance as f64 * 1e9).round() as u32)
}

#[test]
fn test_parse_hex() {
    let (bg, fg) = parse_color("#FF0000").unwrap();
    assert_eq!(bg, "FF0000");
    // Black contrasts more with pure red than white does.
    assert_eq!(fg, "000000");

    let (bg, fg) = parse_color("white").unwrap();
    assert_eq!(bg, "FFFFFF");
    assert_eq!(fg, "000000");

    let (bg, fg) = parse_color("black").unwrap();
    assert_eq!(bg, "000000");
    assert_eq!(fg, "FFFFFF");
}

#[test]
fn what_is_no_colour_gives_none() {
    assert_eq!(parse_color("no colour at all"), None);
    assert_eq!(
        color::parse_color(Some((1, 171, 16)), 0),
        Some(("01AB10".to_string(), "FFFFFF".to_string()))
    );
}
