use retiler::uri_format::format_padded_i32;
use retiler::uri_format::format_template;
use retiler::uri_format::parse_width;
use retiler::uri_format::Formattable;

#[test]
fn i32_formats_zero_padded() {
    assert_eq!(7i32.format("3").unwrap(), "007");
    assert_eq!(7i32.format("1").unwrap(), "7");
    assert_eq!(1234i32.format("2").unwrap(), "1234");
    assert_eq!(0i32.format("4").unwrap(), "0000");
}

#[test]
fn negative_values_pad_in_front_of_the_sign() {
    assert_eq!((-2i32).format("3").unwrap(), "0-2");
    assert_eq!((-12i32).format("5").unwrap(), "00-12");
    assert_eq!((-12i32).format("1").unwrap(), "-12");
    assert_eq!(format_padded_i32(i32::MIN, 0), "-2147483648");
}

#[test]
fn field_width_must_be_a_decimal_integer() {
    assert!(5i32.format("x").is_err());
    assert!(5i32.format("").is_err());
    assert!(5i32.format("-3").is_err());
    assert!(5i32.format("99999999999999999999999").is_err());
    assert_eq!(parse_width("042"), Some(42));
    assert_eq!(parse_width("4 2"), None);
}

#[test]
fn template_substitutes_all_three_keys() {
    assert_eq!(format_template("{x:2}/{y:2}/{z:2}", 1, 2, 3).unwrap(), "01/02/03");
    assert_eq!(format_template("plain text", 1, 2, 3).unwrap(), "plain text");
    assert_eq!(format_template("{x:1}{x:1}", 9, 0, 0).unwrap(), "99");
}

#[test]
fn template_errors_are_value_independent() {
    assert!(format_template("{x:}", 1, 2, 3).is_err());
    assert!(format_template("{x:}", 0, 0, 0).is_err());
}
