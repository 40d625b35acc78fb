use fast_magic_string::{FmsErrType, IndentOptions, MagicString, MagicStringOptions, OverwriteOptions};

fn err_type<T>(r: Result<T, fast_magic_string::Error>) -> FmsErrType {
    match r {
        Ok(_) => panic!("expected an error"),
        Err(e) => e.err_type,
    }
}

#[test]
fn untouched_session_renders_original() {
    let s = MagicString::new("line one\nline two\n", None);
    assert_eq!(s.to_string(), "line one\nline two\n");
    let empty = MagicString::new("", None);
    assert_eq!(empty.to_string(), "");
}

#[test]
fn remove_empty_range_is_noop() {
    let mut s = MagicString::new("hello world", None);
    s.remove(5, 5).unwrap();
    assert_eq!(s.to_string(), "hello world");
    assert!(!s.has_changed());
}

#[test]
fn overwrite_empty_range_is_range_error() {
    let mut s = MagicString::new("hello world", None);
    assert_eq!(err_type(s.overwrite(3, 3, "x", None)), FmsErrType::Range);
    assert_eq!(s.to_string(), "hello world");
}

#[test]
fn split_inside_edited_chunk_fails() {
    let mut s = MagicString::new("hello world", None);
    s.overwrite(0, 5, "HELLO", None).unwrap();
    assert_eq!(err_type(s.append_left(2, "x")), FmsErrType::SplitChunk);
    assert_eq!(err_type(s.overwrite(2, 3, "y", None)), FmsErrType::SplitChunk);
    s.append_left(5, "!").unwrap();
    s.prepend_right(0, ">").unwrap();
    assert_eq!(s.to_string(), ">HELLO! world");
}

#[test]
fn overwrite_keeps_or_drops_glued_text() {
    let mut s = MagicString::new("abc", None);
    s.append_right(1, "<").unwrap();
    s.overwrite(1, 2, "B", None).unwrap();
    assert_eq!(s.to_string(), "aBc");
    let mut t = MagicString::new("abc", None);
    t.append_right(1, "<").unwrap();
    t.update(1, 2, "B", None).unwrap();
    assert_eq!(t.to_string(), "a<Bc");
    let mut u = MagicString::new("abc", None);
    u.append_right(1, "<").unwrap();
    let opts = OverwriteOptions { content_only: Some(true), store_name: None, overwrite: None };
    u.overwrite(1, 2, "B", Some(opts)).unwrap();
    assert_eq!(u.to_string(), "a<Bc");
}

#[test]
fn inserts_at_one_offset_keep_their_order() {
    let mut s = MagicString::new("ab", None);
    s.append_left(1, "X").unwrap();
    s.prepend_left(1, "Y").unwrap();
    s.append_right(1, "Z").unwrap();
    s.prepend_right(1, "W").unwrap();
    assert_eq!(s.to_string(), "aYXWZb");
}

#[test]
fn insert_at_document_end_goes_to_front_wrapper() {
    let mut s = MagicString::new("ab", None);
    s.append_right(2, "X").unwrap();
    assert_eq!(s.to_string(), "Xab");
    s.append_left(2, "Y").unwrap();
    assert_eq!(s.to_string(), "XabY");
}

#[test]
fn prepend_and_append_wrap_output() {
    let mut s = MagicString::new("b", None);
    s.prepend("a").unwrap();
    s.append("c").unwrap();
    assert_eq!(s.to_string(), "abc");
}

#[test]
fn move_to_the_end_and_backwards() {
    let mut s = MagicString::new("abcdef", None);
    s._move(0, 2, 6).unwrap();
    assert_eq!(s.to_string(), "cdefab");
    let mut t = MagicString::new("abcdef", None);
    t._move(4, 6, 1).unwrap();
    assert_eq!(t.to_string(), "aefbcd");
}

#[test]
fn move_into_itself_is_range_error() {
    let mut s = MagicString::new("abcdef", None);
    assert_eq!(err_type(s._move(0, 3, 2)), FmsErrType::Range);
    assert_eq!(s.to_string(), "abcdef");
}

#[test]
fn overwrite_across_moved_content_fails() {
    let mut s = MagicString::new("abcdef", None);
    s._move(0, 2, 4).unwrap();
    assert_eq!(err_type(s.overwrite(1, 3, "X", None)), FmsErrType::Overwrite);
    assert_eq!(s.to_string(), "cdabef");
}

#[test]
fn remove_and_reset() {
    let mut s = MagicString::new("hello world", None);
    s.remove(0, 6).unwrap();
    assert_eq!(s.to_string(), "world");
    s.reset(0, 6).unwrap();
    assert_eq!(s.to_string(), "hello world");
    let mut t = MagicString::new("hello world", None);
    t.overwrite(0, 5, "bye", None).unwrap();
    t.reset(0, 5).unwrap();
    assert_eq!(t.to_string(), "hello world");
}

#[test]
fn end_out_of_bounds_is_range_error() {
    let mut s = MagicString::new("hello", None);
    assert_eq!(err_type(s.remove(0, 6)), FmsErrType::Range);
    assert_eq!(err_type(s.slice(0, 6)), FmsErrType::Range);
}

#[test]
fn negative_offsets_count_from_end() {
    let s = MagicString::new("hello world", None);
    assert_eq!(s.slice(-5, 11).unwrap(), "world");
    let mut t = MagicString::new("hello world", None);
    t.overwrite(-5, -1, "WORL", None).unwrap();
    assert_eq!(t.to_string(), "hello WORLd");
}

#[test]
fn slice_of_edited_session() {
    let mut s = MagicString::new("hello world", None);
    assert_eq!(s.slice(0, 5).unwrap(), "hello");
    s.overwrite(0, 5, "bye", None).unwrap();
    assert_eq!(s.slice(0, 11).unwrap(), "bye world");
    assert_eq!(s.slice(6, 11).unwrap(), "world");
    assert_eq!(s.slice(3, 3).unwrap(), "");
}

#[test]
fn slice_end_inside_replaced_text_fails() {
    let mut s = MagicString::new("hello world", None);
    s.overwrite(6, 11, "there", None).unwrap();
    assert_eq!(err_type(s.slice(0, 8)), FmsErrType::Slice);
}

#[test]
fn snip_keeps_only_the_range() {
    let mut s = MagicString::new("hello world", None);
    let part = s.snip(0, 5).unwrap();
    assert_eq!(part.to_string(), "hello");
    assert_eq!(s.to_string(), "hello world");
    let copy = s._clone();
    assert_eq!(copy.to_string(), "hello world");
}

#[test]
fn trim_whitespace_and_classes() {
    let mut s = MagicString::new("  hello  ", None);
    s.trim(None);
    assert_eq!(s.to_string(), "hello");
    let mut t = MagicString::new("  hello  ", None);
    t.trim_start(None);
    assert_eq!(t.to_string(), "hello  ");
    let mut u = MagicString::new("  hello  ", None);
    u.trim_end(None);
    assert_eq!(u.to_string(), "  hello");
    let mut v = MagicString::new("xxabcxx", None);
    v.trim(Some("x"));
    assert_eq!(v.to_string(), "abc");
    let mut w = MagicString::new("\n\nabc\n", None);
    w.trim_lines();
    assert_eq!(w.to_string(), "abc");
}

#[test]
fn trim_stops_at_wrapper_text() {
    let mut s = MagicString::new("  a  ", None);
    s.prepend(" x").unwrap();
    assert!(s.trim_start_aborted(None));
    assert_eq!(s.to_string(), "x  a  ");
    let mut t = MagicString::new("   ", None);
    assert!(!t.trim_end_aborted(None));
    assert_eq!(t.to_string(), "");
}

#[test]
fn indent_uses_guessed_spaces() {
    let mut s = MagicString::new("a\n  b\n  c", None);
    s.indent(None, None).unwrap();
    assert_eq!(s.to_string(), "  a\n    b\n    c");
}

#[test]
fn indent_with_given_string_and_options() {
    let mut s = MagicString::new("a\nb", None);
    let opts = IndentOptions { exclude: None, indent_start: Some(false) };
    s.indent(Some(">".to_string()), Some(opts)).unwrap();
    assert_eq!(s.to_string(), "a\n>b");
    let mut t = MagicString::new("a\nb\nc", None);
    let opts = IndentOptions { exclude: Some(vec![vec![2, 3]]), indent_start: None };
    t.indent(Some(">".to_string()), Some(opts)).unwrap();
    assert_eq!(t.to_string(), ">a\nb\n>c");
    let mut u = MagicString::new("a\nb", None);
    u.indent(Some(String::new()), None).unwrap();
    assert_eq!(u.to_string(), "a\nb");
}

#[test]
fn indent_covers_wrappers_and_edits() {
    let mut s = MagicString::new("x\ny", None);
    s.prepend("p\n").unwrap();
    s.overwrite(2, 3, "Y1\nY2", None).unwrap();
    s.indent(Some("-".to_string()), None).unwrap();
    assert_eq!(s.to_string(), "-p\n-x\n-Y1\n-Y2");
}

#[test]
fn replace_first_and_all_strings() {
    let mut s = MagicString::new("hello world", None);
    s.replace_by_string("o", "0").unwrap();
    assert_eq!(s.to_string(), "hell0 world");
    let mut t = MagicString::new("hello world", None);
    t.replace_all_by_string("o", "0").unwrap();
    assert_eq!(t.to_string(), "hell0 w0rld");
    let mut u = MagicString::new("hello", None);
    u.replace_by_string("z", "0").unwrap();
    assert_eq!(u.to_string(), "hello");
    assert_eq!(err_type(u.replace_all_by_string("", "0")), FmsErrType::Range);
}

#[test]
fn replace_by_regular_expression() {
    let mut s = MagicString::new("hello world", None);
    s.replace_by_regexp("o", "0", true).unwrap();
    assert_eq!(s.to_string(), "hell0 w0rld");
    let mut t = MagicString::new("hello world", None);
    t.replace_by_regexp("(\\w+) (\\w+)", "$2 $1", false).unwrap();
    assert_eq!(t.to_string(), "world hello");
    let mut u = MagicString::new("hello world", None);
    u.replace_by_regexp("wor", "[$&]", false).unwrap();
    assert_eq!(u.to_string(), "hello [wor]ld");
    let mut v = MagicString::new("hello world", None);
    v.replace_by_regexp("world", "$$ and $9", false).unwrap();
    assert_eq!(v.to_string(), "hello $ and $9");
    let mut w = MagicString::new("hello", None);
    assert_eq!(err_type(w.replace_by_regexp("(", "x", false)), FmsErrType::Type);
    assert_eq!(w.to_string(), "hello");
}

#[test]
fn emptiness_and_change() {
    assert!(MagicString::new("  \n\t", None).is_empty());
    let mut s = MagicString::new("ab", None);
    assert!(!s.is_empty());
    s.remove(0, 2).unwrap();
    assert!(s.is_empty());
    assert!(s.has_changed());
}

#[test]
fn options_set_ignore_list() {
    let opts = MagicStringOptions { filename: None, indent_exclusion_ranges: None, ignore_list: Some(true) };
    let s = MagicString::new("a", Some(opts));
    let map = s.generate_map(None).unwrap();
    assert_eq!(map.x_google_ignore_list, Some(vec![0u8]));
}

#[test]
fn move_to_its_own_end_changes_nothing() {
    let mut s = MagicString::new("abcdef", None);
    s._move(0, 2, 2).unwrap();
    assert_eq!(s.to_string(), "abcdef");
    assert_eq!(err_type(s._move(0, 2, 0)), FmsErrType::Range);
    assert_eq!(err_type(s._move(0, 2, 7)), FmsErrType::Range);
}
