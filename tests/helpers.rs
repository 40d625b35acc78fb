use fast_magic_string::{guess_indent, normalize_range, slice_string, Error, FmsErrType, FmsRegex};

#[test]
fn normalizing_ranges() {
    assert_eq!(normalize_range("hello", -2, 5).unwrap(), (3, 5));
    assert_eq!(normalize_range("hello", -7, 5).unwrap(), (3, 5));
    assert_eq!(normalize_range("hello", 0, 6).unwrap_err().err_type, FmsErrType::Range);
    assert_eq!(normalize_range("", -1, 0).unwrap_err().err_type, FmsErrType::Range);
}

#[test]
fn guessing_indent() {
    assert_eq!(guess_indent("a\nb\nc").unwrap(), "\t");
    assert_eq!(guess_indent("\tx\n  y").unwrap(), "\t");
    assert_eq!(guess_indent("x\n    y\n  z").unwrap(), "  ");
}

#[test]
fn slicing_strings() {
    assert_eq!(slice_string("hello".to_string(), 1, 3), "el");
}

#[test]
fn regex_flags() {
    let r = FmsRegex::with_flags("a+", "gy").unwrap();
    assert!(r.global());
    assert!(r.sticky());
    assert_eq!(r.source, "a+");
    let plain = r.new("b").unwrap();
    assert!(!plain.global());
    assert!(!plain.sticky());
    assert_eq!(plain.source, "b");
}

#[test]
fn errors_carry_kind_and_reason() {
    let e = Error::new(FmsErrType::Deprecated);
    assert_eq!(e.err_type, FmsErrType::Deprecated);
    assert!(e.err_msg.is_none());
    let f = Error::from_reason(FmsErrType::Slice, "why");
    assert_eq!(f.err_msg, Some("why".to_string()));
}

#[test]
fn default_error_kind() {
    let e = Error::default();
    assert_eq!(e.err_type, FmsErrType::Default);
    assert!(e.err_msg.is_none());
}
