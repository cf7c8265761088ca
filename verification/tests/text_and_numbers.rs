use benchmark::number::{is_float_literal, parse_i32};
use benchmark::text::chars_of;

#[test]
fn parse_i32_accepts_signed_decimals() {
    assert_eq!(parse_i32("144"), Some(144));
    assert_eq!(parse_i32("+7"), Some(7));
    assert_eq!(parse_i32("-12"), Some(-12));
    assert_eq!(parse_i32("007"), Some(7));
    assert_eq!(parse_i32("2147483647"), Some(i32::MAX));
    assert_eq!(parse_i32("-2147483648"), Some(i32::MIN));
}

#[test]
fn parse_i32_refuses_what_str_parse_refuses() {
    for s in ["", "+", "-", "1 ", " 1", "1.5", "2147483648", "-2147483649", "99999999999999999999", "12%", "٣"] {
        assert_eq!(parse_i32(s), None, "{:?}", s);
        assert!(s.parse::<i32>().is_err());
    }
}

#[test]
fn parse_i32_agrees_with_std_on_a_range() {
    for n in [-100000i64, -2147483648, -1, 0, 1, 19076, 2147483647, 2147483648] {
        let s = n.to_string();
        assert_eq!(parse_i32(&s), s.parse::<i32>().ok());
        let plus = format!("+{}", n);
        assert_eq!(parse_i32(&plus), plus.parse::<i32>().ok());
    }
}

#[test]
fn chars_of_keeps_every_character() {
    assert_eq!(chars_of("aé\n"), vec!['a', 'é', '\n']);
    assert_eq!(chars_of(""), Vec::<char>::new());
}

#[test]
fn float_literals_as_str_parse_takes_them() {
    for t in ["0.05", "1", "1.", ".5", "+2.5e3", "-1E-2", "inf", "-Infinity", "NaN", "1e+5", "007.00"] {
        assert!(is_float_literal(t), "{:?}", t);
        assert!(t.parse::<f64>().is_ok());
    }
    for t in ["", ".", "+", "e5", "1e", "1.2.3", "n/a", "1,5", " 1", "1 ", "0x10", "infin", "--1", "1e+"] {
        assert!(!is_float_literal(t), "{:?}", t);
        assert!(t.parse::<f64>().is_err());
    }
}
