use fast_magic_string::locator::Locator;
use fast_magic_string::{
    encode_mappings, get_relative_path, GenerateMapOptions, MagicString, MappingsFacade,
};

#[test]
fn mappings_of_untouched_text() {
    let s = MagicString::new("abc", None);
    let map = s.generate_map(None).unwrap();
    assert_eq!(map.mappings, "AAAA");
    assert_eq!(map.version, 3);
    assert_eq!(map.sources, vec![String::new()]);
    assert_eq!(map.file, None);
    assert_eq!(map.sources_content, None);
    assert_eq!(map.x_google_ignore_list, None);
    let t = MagicString::new("ab\ncd", None);
    assert_eq!(t.generate_map(None).unwrap().mappings, "AAAA;AACA");
}

#[test]
fn mappings_of_edited_and_moved_text() {
    let mut s = MagicString::new("abc", None);
    s.overwrite(0, 1, "XY", None).unwrap();
    assert_eq!(s.generate_map(None).unwrap().mappings, "AAAA,EAAC");
    let mut t = MagicString::new("abcdef", None);
    t._move(0, 2, 4).unwrap();
    assert_eq!(t.generate_map(None).unwrap().mappings, "AAAE,EAAF,EAAI");
}

#[test]
fn mappings_in_high_resolution() {
    let s = MagicString::new("ab", None);
    let opts = GenerateMapOptions { file: None, source: None, source_root: None, include_content: None, hires: Some(true) };
    assert_eq!(s.generate_map(Some(opts)).unwrap().mappings, "AAAA,CAAC");
}

#[test]
fn same_edits_give_same_mappings() {
    let build = || {
        let mut s = MagicString::new("one\ntwo three", None);
        s.overwrite(4, 7, "2", None).unwrap();
        s.prepend("// head\n").unwrap();
        s.generate_map(None).unwrap().mappings
    };
    assert_eq!(build(), build());
}

#[test]
fn stored_names_and_marked_offsets() {
    let mut s = MagicString::new("let a = b;", None);
    let opts = fast_magic_string::OverwriteOptions { content_only: None, store_name: Some(true), overwrite: None };
    s.overwrite(4, 5, "alpha", Some(opts)).unwrap();
    let map = s.generate_map(None).unwrap();
    assert_eq!(map.names, vec!["a".to_string()]);
    assert_eq!(map.mappings, "AAAA,IAAIA,KAAC");
    let mut t = MagicString::new("abcd", None);
    t.add_sourcemap_location(2);
    assert_eq!(t.generate_map(None).unwrap().mappings, "AAAA,EAAE");
}

#[test]
fn map_fields_from_options() {
    let s = MagicString::new("x", None);
    let opts = GenerateMapOptions {
        file: Some("dist/out.js".to_string()),
        source: Some("src/in.js".to_string()),
        source_root: Some("/root".to_string()),
        include_content: Some(true),
        hires: None,
    };
    let map = s.generate_decoded_map(Some(opts)).unwrap();
    assert_eq!(map.file, Some("out.js".to_string()));
    assert_eq!(map.sources, vec!["../src/in.js".to_string()]);
    assert_eq!(map.source_root, Some("/root".to_string()));
    assert_eq!(map.sources_content, Some(vec!["x".to_string()]));
    assert_eq!(map.mappings, vec![vec![vec![0i64, 0, 0, 0]]]);
}

#[test]
fn relative_paths() {
    assert_eq!(get_relative_path("a/b/c.js", "a/d/e.js"), "../d/e.js");
    assert_eq!(get_relative_path("a/b.js", "a/c.js"), "c.js");
    assert_eq!(get_relative_path("", "x.js"), "x.js");
    assert_eq!(get_relative_path("a\\b.js", "c.js"), "../c.js");
}

#[test]
fn facade_and_encoding() {
    let mut f = MappingsFacade::new(false, &vec![]);
    f.add_mappings("abc", "abc", "", "", (0, 0), (0, 3), false, usize::MAX);
    f.advance("\n");
    assert_eq!(f.get(), vec![vec![vec![0i64, 0, 0, 0]], vec![]]);
    let encoded = encode_mappings(&vec![vec![vec![0, 0, 0, 0], vec![16, 0, -1, 5]], vec![]]).unwrap();
    assert_eq!(encoded, "AAAA,gBADK;");
}

#[test]
fn locator_lines_and_columns() {
    let text: Vec<char> = "a\nbc".chars().collect();
    let l = Locator::new(&text);
    assert_eq!(l.locate(0), Some((0, 0)));
    assert_eq!(l.locate(3), Some((1, 1)));
    assert_eq!(l.locate(4), Some((1, 2)));
    assert_eq!(l.locate(5), None);
}
