use wallpapers::directories::{
    extension, has_valid_extension, next_original_for_prefix, next_original_for_wildcard_prefix,
    next_original_in_dir, numbered_name, original_id, originals_among, parse_name, parse_number,
    sequence_after, valid_extension, DirState,
};
use wallpapers::interactive::normalize_path;
use wallpapers::paths::{file_name, is_relative, join, parent, starts_with, strip_prefix};

fn names(list: &[&str]) -> Vec<String> {
    list.iter().map(|s| s.to_string()).collect()
}

#[test]
fn joining_puts_one_separator_between() {
    assert_eq!(join("/a", "b"), "/a/b");
    assert_eq!(join("/a/", "b"), "/a/b");
    assert_eq!(join("", "b"), "b");
    assert_eq!(join("/a", "/b"), "/b");
    assert_eq!(join("/a", ""), "/a/");
    assert_eq!(join("a/b", "c/d.png"), "a/b/c/d.png");
}

#[test]
fn file_names_and_parents() {
    assert_eq!(file_name("/a/b/c.png"), Some("c.png".to_string()));
    assert_eq!(file_name("c.png"), Some("c.png".to_string()));
    assert_eq!(file_name("/a/b/"), None);
    assert_eq!(file_name("/"), None);
    assert_eq!(file_name(""), None);
    assert_eq!(file_name("a/.."), None);
    assert_eq!(file_name("a/."), None);
    assert_eq!(parent("/a/b/c.png"), Some("/a/b".to_string()));
    assert_eq!(parent("/a"), Some("/".to_string()));
    assert_eq!(parent("a"), Some(String::new()));
    assert_eq!(parent("/"), None);
    assert_eq!(parent(""), None);
}

#[test]
fn prefixes_are_compared_by_components() {
    assert!(starts_with("/cache/1920x1080/a.png", "/cache/1920x1080"));
    assert!(starts_with("/cache/1920x1080", "/cache/1920x1080"));
    assert!(starts_with("/cache/1920x1080/a.png", "/cache/"));
    assert!(!starts_with("/cache/1920x10800/a.png", "/cache/1920x1080"));
    assert!(!starts_with("/cache", "/cache/1920x1080"));
    assert!(starts_with("anything", ""));
    assert_eq!(strip_prefix("/o/a/b.png", "/o"), Some("a/b.png".to_string()));
    assert_eq!(strip_prefix("/o/a/b.png", "/o/"), Some("a/b.png".to_string()));
    assert_eq!(strip_prefix("/o", "/o"), Some(String::new()));
    assert_eq!(strip_prefix("/other/b.png", "/o"), None);
}

#[test]
fn relative_paths_hold_ordinary_names_only() {
    assert!(is_relative("a.png"));
    assert!(is_relative("a/b/c.png"));
    assert!(is_relative("a/.hidden/..c"));
    assert!(!is_relative(""));
    assert!(!is_relative("/a"));
    assert!(!is_relative("a/"));
    assert!(!is_relative("a//b"));
    assert!(!is_relative("a/./b"));
    assert!(!is_relative("../a"));
    assert!(!is_relative("a/.."));
    assert!(!is_relative("."));
}

#[test]
fn normalizing_resolves_dots() {
    assert_eq!(normalize_path("/a/b/../c"), "/a/c");
    assert_eq!(normalize_path("/a/./b//c/"), "/a/b/c");
    assert_eq!(normalize_path("a/../../b"), "b");
    assert_eq!(normalize_path("/.."), "/");
    assert_eq!(normalize_path("/"), "/");
    assert_eq!(normalize_path(""), "");
    assert_eq!(normalize_path("./a"), "a");
    assert_eq!(normalize_path("/o/x/../../../etc/passwd"), "/etc/passwd");
    assert_eq!(normalize_path("a/b/c"), "a/b/c");
}

#[test]
fn image_extensions_in_either_case() {
    for e in ["jpg", "JPG", "jpeg", "Jpeg", "png", "PNG", "bmp", "bMp"] {
        assert!(valid_extension(e));
    }
    for e in ["", "gif", "pngx", "jp", "webp", " png"] {
        assert!(!valid_extension(e));
    }
    assert!(has_valid_extension("a.png"));
    assert!(has_valid_extension("a.b.JPG"));
    assert!(!has_valid_extension("png"));
    assert!(!has_valid_extension(".png"));
    assert!(!has_valid_extension("a.png.txt"));
    assert!(!has_valid_extension("a."));
    assert_eq!(extension("/a/b/C.PnG"), Some("png".to_string()));
    assert_eq!(extension("/a/b/c"), None);
    assert_eq!(extension("/a/b/.hidden"), None);
    assert_eq!(extension("/a/b/x.*"), Some("*".to_string()));
    assert_eq!(extension("/a.d/"), None);
}

#[test]
fn originals_are_found_below_their_directory() {
    let id = original_id("/o", "/o/nature/tree.JPG").unwrap();
    assert_eq!(id.slash_path(), "nature/tree.JPG");
    assert!(original_id("/o", "/o/notes.txt").is_none());
    assert!(original_id("/o", "/elsewhere/tree.jpg").is_none());
    assert!(original_id("/o", "/o").is_none());
    assert!(original_id("/o", "/o/a//b.png").is_none());
}

#[test]
fn numbered_names_are_taken_apart() {
    let p = parse_name("holiday_012.png").unwrap();
    assert_eq!((p.prefix.as_str(), p.digits.as_str()), ("holiday_", "012"));
    let p = parse_name("7.jpeg").unwrap();
    assert_eq!((p.prefix.as_str(), p.digits.as_str()), ("", "7"));
    let p = parse_name("a1b22.bmp").unwrap();
    assert_eq!((p.prefix.as_str(), p.digits.as_str()), ("a1b", "22"));
    let p = parse_name("v1.2.jpg").unwrap();
    assert_eq!((p.prefix.as_str(), p.digits.as_str()), ("v1.", "2"));
    for bad in ["holiday.png", "12", "12.", "12.pn", "12.pngpn", "12.p1g", "a\nb1.png", ""] {
        assert!(parse_name(bad).is_none());
    }
    assert!(parse_name("a\n1.png").is_some());
    assert_eq!(parse_number("0012"), Some(12));
    assert_eq!(parse_number("0"), Some(0));
    assert_eq!(parse_number(""), None);
    assert_eq!(parse_number("1a"), None);
    assert_eq!(parse_number("18446744073709551615"), Some(usize::MAX));
    assert_eq!(parse_number("18446744073709551616"), None);
    assert_eq!(parse_number("99999999999999999999999"), None);
}

#[test]
fn the_next_original_follows_the_largest_number() {
    let files = names(&["a01.png", "a07.jpg", "a003.png", "notes.txt"]);
    assert_eq!(next_original_in_dir(DirState::Directory, &files), Some(("a".to_string(), 8, 3)));
    assert_eq!(next_original_in_dir(DirState::Missing, &files), Some((String::new(), 0, 2)));
    assert_eq!(next_original_in_dir(DirState::NotDirectory, &files), None);
    assert_eq!(
        next_original_in_dir(DirState::Directory, &names(&["notes.txt"])),
        Some((String::new(), 0, 2))
    );
    assert_eq!(next_original_in_dir(DirState::Directory, &names(&["a01.png", "b02.png"])), None);
    assert_eq!(next_original_in_dir(DirState::Directory, &names(&["a01.png", "b.png"])), None);
    assert_eq!(originals_among(&files), names(&["a01.png", "a07.jpg", "a003.png"]));
    assert_eq!(sequence_after(&Vec::new()), None);
    assert_eq!(
        sequence_after(&names(&["x18446744073709551615.png"])),
        None
    );
}

#[test]
fn a_prefix_has_to_name_one_sequence() {
    let files = names(&["pre_a_01.png", "pre_a_02.png", "other_09.png"]);
    assert_eq!(
        next_original_for_prefix(DirState::Directory, &files, "pre"),
        Some(("pre_a_".to_string(), 3, 2))
    );
    assert_eq!(next_original_for_prefix(DirState::Directory, &files, "none"), None);
    assert_eq!(next_original_for_prefix(DirState::Missing, &files, "pre"), None);
    let mixed = names(&["pre_a_01.png", "pre_b_01.png"]);
    assert_eq!(next_original_for_prefix(DirState::Directory, &mixed, "pre"), None);
}

#[test]
fn a_wildcard_prefix_counts_on_from_its_own_sequence() {
    let files = names(&["s01.png", "s12.png", "q99.png", "s.png", "ss7.png"]);
    assert_eq!(next_original_for_wildcard_prefix(DirState::Directory, &files, "s"), Some((13, 2)));
    assert_eq!(next_original_for_wildcard_prefix(DirState::Directory, &files, "z"), Some((0, 2)));
    assert_eq!(next_original_for_wildcard_prefix(DirState::Missing, &files, "s"), Some((0, 2)));
    assert_eq!(next_original_for_wildcard_prefix(DirState::NotDirectory, &files, "s"), None);
    let big = names(&["s99999999999999999999999.png"]);
    assert_eq!(next_original_for_wildcard_prefix(DirState::Directory, &big, "s"), None);
}

#[test]
fn new_names_are_padded_with_zeros() {
    assert_eq!(numbered_name("a", 8, 3, "png"), "a008.png");
    assert_eq!(numbered_name("", 0, 2, "jpg"), "00.jpg");
    assert_eq!(numbered_name("x_", 1234, 2, "bmp"), "x_1234.bmp");
    assert_eq!(numbered_name("x", 5, 0, "png"), "x5.png");
}

#[test]
fn only_ascii_digits_number_a_name() {
    let p = parse_name("ab\u{661}2.png").unwrap();
    assert_eq!((p.prefix.as_str(), p.digits.as_str()), ("ab\u{661}", "2"));
    assert!(parse_name("ab\u{661}.png").is_none());
    assert_eq!(parse_number("\u{661}"), None);
    assert_eq!(
        next_original_in_dir(DirState::Directory, &names(&["ab\u{661}2.png"])),
        Some(("ab\u{661}".to_string(), 3, 1))
    );
}
