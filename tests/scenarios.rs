use fast_magic_string::error::FmsErrType;
use fast_magic_string::magic_string::MagicString;

#[test]
fn round_trip_renders_original() {
    let s = MagicString::new("hello world", None);
    assert_eq!(s.to_string(), "hello world");
    assert!(!s.has_changed());
}

#[test]
fn overwrite_replaces_range() {
    let mut s = MagicString::new("hello world", None);
    s.overwrite(0, 5, "goodbye", None).unwrap();
    assert_eq!(s.to_string(), "goodbye world");
    assert!(s.has_changed());
}

#[test]
fn append_left_then_right_at_same_index() {
    let mut s = MagicString::new("hello world", None);
    s.append_left(5, "A").unwrap();
    s.append_right(5, "B").unwrap();
    assert_eq!(s.to_string(), "helloAB world");
}

#[test]
fn move_block_forward() {
    let mut s = MagicString::new("abcdef", None);
    s._move(0, 2, 4).unwrap();
    assert_eq!(s.to_string(), "cdabef");
}

#[test]
fn indent_defaults_to_tab() {
    let mut s = MagicString::new("a\nb\nc", None);
    s.indent(None, None).unwrap();
    assert_eq!(s.to_string(), "\ta\n\tb\n\tc");
}

#[test]
fn slice_inside_replaced_text_fails() {
    let mut s = MagicString::new("hello world", None);
    s.overwrite(2, 8, "XY", None).unwrap();
    let r = s.slice(4, 10);
    assert!(matches!(r, Err(e) if e.err_type == FmsErrType::Slice));
}
