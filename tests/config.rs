use goto::config::{parse_color, str_to_color, ColorError};
use goto::frame::Color;

#[test]
fn colour_forms() {
    assert_eq!(str_to_color("#fff"), Ok(Color::new(255, 255, 255, 255)));
    assert_eq!(str_to_color("#1a2B3c"), Ok(Color::new(0x1a, 0x2b, 0x3c, 255)));
    assert_eq!(str_to_color("#10203040"), Ok(Color::new(0x10, 0x20, 0x30, 0x40)));
    assert_eq!(str_to_color("#abc"), Ok(Color::new(0xaa, 0xbb, 0xcc, 255)));
}

#[test]
fn colour_ignores_surrounding_whitespace() {
    assert_eq!(str_to_color("  #fff \t"), Ok(Color::new(255, 255, 255, 255)));
    assert_eq!(str_to_color("   "), Err(ColorError::Missing));
    assert_eq!(parse_color(b" #fff"), Err(ColorError::NoHash));
}

#[test]
fn colour_errors() {
    assert_eq!(str_to_color(""), Err(ColorError::Missing));
    assert_eq!(str_to_color("fff"), Err(ColorError::NoHash));
    assert_eq!(str_to_color("#ffff"), Err(ColorError::BadLength));
    assert_eq!(str_to_color("#"), Err(ColorError::BadLength));
    assert_eq!(str_to_color("#ggg"), Err(ColorError::BadDigit));
    assert_eq!(str_to_color("#12345z"), Err(ColorError::BadDigit));
    assert_eq!(str_to_color("#\u{e9}\u{e9}\u{e9}"), Err(ColorError::BadDigit));
}

#[test]
fn colour_plus_sign_reads_as_radix_parse_does() {
    assert_eq!(str_to_color("#+f+f+f"), Ok(Color::new(15, 15, 15, 255)));
    assert_eq!(str_to_color("#+++"), Err(ColorError::BadDigit));
    assert_eq!(u8::from_str_radix("+f", 16), Ok(15));
}
