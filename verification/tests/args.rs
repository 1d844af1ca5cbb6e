use greentext_epub::args::hex_color_validator;
use greentext_epub::args::Color;

const SHAPE_ERROR: &str = "Hexadecimal notation for RGB color has to be either `#rgb` or `#rrggbb`";

#[test]
fn valid_hex_colors_pass() {
    assert_eq!(hex_color_validator("#2CAF26"), Ok(()));
    assert_eq!(hex_color_validator("#000"), Ok(()));
    assert_eq!(hex_color_validator("#fff"), Ok(()));
    assert_eq!(hex_color_validator("#AbCdEf"), Ok(()));
    assert_eq!(hex_color_validator("#019"), Ok(()));
}

#[test]
fn wrong_shape_is_rejected() {
    assert_eq!(hex_color_validator("2CAF26"), Err(SHAPE_ERROR.to_string()));
    assert_eq!(hex_color_validator("#ff"), Err(SHAPE_ERROR.to_string()));
    assert_eq!(hex_color_validator("#ffff"), Err(SHAPE_ERROR.to_string()));
    assert_eq!(hex_color_validator("#fffffff"), Err(SHAPE_ERROR.to_string()));
    assert_eq!(hex_color_validator(""), Err(SHAPE_ERROR.to_string()));
    assert_eq!(hex_color_validator("#"), Err(SHAPE_ERROR.to_string()));
}

#[test]
fn one_invalid_digit_is_named() {
    assert_eq!(
        hex_color_validator("#ffg"),
        Err("Invalid hexadecimal digit: 'g'".to_string())
    );
}

#[test]
fn several_invalid_digits_are_listed_in_order() {
    assert_eq!(
        hex_color_validator("#xyzxyz"),
        Err("Invalid hexadecimal digits: 'x', 'y', 'z', 'x', 'y', 'z'".to_string())
    );
}

#[test]
fn color_defaults_to_auto() {
    assert_eq!(Color::default(), Color::Auto);
}
