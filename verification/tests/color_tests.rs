use directedtype::render::color::{parse_color, Rgba8};

fn rgba8(r: u8, g: u8, b: u8, a: u8) -> Rgba8 {
    Rgba8 { r, g, b, a }
}

#[test]
fn test_hex_colors() {
    assert_eq!(parse_color("#333"), rgba8(0x33, 0x33, 0x33, 255));
    assert_eq!(parse_color("#1a2b3c"), rgba8(0x1a, 0x2b, 0x3c, 255));
    assert_eq!(parse_color("#ff000080"), rgba8(0xff, 0x00, 0x00, 0x80));
}

#[test]
fn test_named_colors() {
    assert_eq!(parse_color("white"), rgba8(255, 255, 255, 255));
    assert_eq!(parse_color("transparent"), rgba8(0, 0, 0, 0));
}

#[test]
fn short_hex_with_alpha_repeats_each_digit() {
    assert_eq!(parse_color("#f08c"), rgba8(0xff, 0x00, 0x88, 0xcc));
}

#[test]
fn invalid_hex_channels_fall_back() {
    // A channel that does not parse is 0; an alpha that does not parse is 255.
    assert_eq!(parse_color("#zz0000"), rgba8(0, 0, 0, 255));
    assert_eq!(parse_color("#112233zz"), rgba8(0x11, 0x22, 0x33, 255));
    // A leading plus sign is accepted by the radix parser.
    assert_eq!(parse_color("#+a+b+c"), rgba8(0x0a, 0x0b, 0x0c, 255));
}

#[test]
fn unusual_lengths_and_empty_text_are_black() {
    assert_eq!(parse_color("#12345"), rgba8(0, 0, 0, 255));
    assert_eq!(parse_color(""), rgba8(0, 0, 0, 255));
    assert_eq!(parse_color("   "), rgba8(0, 0, 0, 255));
}

#[test]
fn names_ignore_case_and_surrounding_space() {
    assert_eq!(parse_color("  ReD \n"), rgba8(230, 50, 50, 255));
    assert_eq!(parse_color("GREY"), rgba8(128, 128, 128, 255));
    assert_eq!(parse_color("lightgrey"), rgba8(211, 211, 211, 255));
    assert_eq!(parse_color("no-such-color"), rgba8(0, 0, 0, 255));
}

#[test]
fn multibyte_hex_channels_do_not_parse() {
    // Three two-byte characters make six bytes; each channel is one
    // character that is no hex digit.
    assert_eq!(parse_color("#ééé"), rgba8(0, 0, 0, 255));
}
