use haske_router::bytes::{bytes_eq, copy_bytes, join_from, split_bytes};
use haske_router::path::{decode_segment, hex_digit, normalize_path, TrailingSlash};

fn segs(list: &[&str]) -> Vec<Vec<u8>> {
    list.iter().map(|s| s.as_bytes().to_vec()).collect()
}

#[test]
fn splits_on_the_separator() {
    assert_eq!(split_bytes(b"a/b/c", b'/'), segs(&["a", "b", "c"]));
    assert_eq!(split_bytes(b"abc", b'/'), segs(&["abc"]));
    assert_eq!(split_bytes(b"", b'/'), segs(&[""]));
    assert_eq!(split_bytes(b"/", b'/'), segs(&["", ""]));
    assert_eq!(split_bytes(b"a//b", b'/'), segs(&["a", "", "b"]));
    assert_eq!(split_bytes(b"/a/", b'/'), segs(&["", "a", ""]));
    assert_eq!(split_bytes(b"a,b", b','), segs(&["a", "b"]));
}

#[test]
fn joins_from_an_index() {
    let parts = segs(&["a", "b", "c"]);
    assert_eq!(join_from(&parts, 0, b'/'), b"a/b/c".to_vec());
    assert_eq!(join_from(&parts, 1, b'/'), b"b/c".to_vec());
    assert_eq!(join_from(&parts, 2, b'/'), b"c".to_vec());
    assert_eq!(join_from(&parts, 3, b'/'), b"".to_vec());
    assert_eq!(join_from(&segs(&["", "x", ""]), 0, b'-'), b"-x-".to_vec());
}

#[test]
fn compares_and_copies_bytes() {
    assert!(bytes_eq(b"abc", b"abc"));
    assert!(bytes_eq(b"", b""));
    assert!(!bytes_eq(b"abc", b"abd"));
    assert!(!bytes_eq(b"abc", b"ab"));
    assert!(!bytes_eq(b"ab", b"abc"));
    assert_eq!(copy_bytes(b"xyz"), b"xyz".to_vec());
    assert_eq!(copy_bytes(b""), Vec::<u8>::new());
}

#[test]
fn reads_hexadecimal_digits() {
    assert_eq!(hex_digit(b'0'), Some(0));
    assert_eq!(hex_digit(b'9'), Some(9));
    assert_eq!(hex_digit(b'a'), Some(10));
    assert_eq!(hex_digit(b'f'), Some(15));
    assert_eq!(hex_digit(b'A'), Some(10));
    assert_eq!(hex_digit(b'F'), Some(15));
    assert_eq!(hex_digit(b'g'), None);
    assert_eq!(hex_digit(b'G'), None);
    assert_eq!(hex_digit(b'/'), None);
    assert_eq!(hex_digit(b':'), None);
    assert_eq!(hex_digit(b'@'), None);
    assert_eq!(hex_digit(b'`'), None);
}

#[test]
fn decodes_percent_escapes() {
    assert_eq!(decode_segment(b"abc"), Some(b"abc".to_vec()));
    assert_eq!(decode_segment(b""), Some(Vec::new()));
    assert_eq!(decode_segment(b"a%20b"), Some(b"a b".to_vec()));
    assert_eq!(decode_segment(b"%41%42%43"), Some(b"ABC".to_vec()));
    assert_eq!(decode_segment(b"%2F"), Some(b"/".to_vec()));
    assert_eq!(decode_segment(b"%2f"), Some(b"/".to_vec()));
    assert_eq!(decode_segment(b"%25"), Some(b"%".to_vec()));
    assert_eq!(decode_segment(b"%00%ff%FF%7e"), Some(vec![0x00, 0xff, 0xff, 0x7e]));
    assert_eq!(decode_segment(b"%C3%A9"), Some("\u{e9}".as_bytes().to_vec()));
    assert_eq!(decode_segment(b"a+b"), Some(b"a+b".to_vec()));
    assert_eq!(decode_segment(b"%2541"), Some(b"%41".to_vec()));
}

#[test]
fn refuses_malformed_escapes() {
    assert_eq!(decode_segment(b"%"), None);
    assert_eq!(decode_segment(b"%4"), None);
    assert_eq!(decode_segment(b"abc%"), None);
    assert_eq!(decode_segment(b"abc%4"), None);
    assert_eq!(decode_segment(b"%zz"), None);
    assert_eq!(decode_segment(b"%4g"), None);
    assert_eq!(decode_segment(b"%g4"), None);
    assert_eq!(decode_segment(b"%%41"), None);
    assert_eq!(decode_segment(b"%41%"), None);
}

#[test]
fn cuts_a_path_into_decoded_segments() {
    let ignore = TrailingSlash::Ignore;
    assert_eq!(normalize_path(b"/a/b", ignore), Some(segs(&["a", "b"])));
    assert_eq!(normalize_path(b"/a", ignore), Some(segs(&["a"])));
    assert_eq!(normalize_path(b"/a%20b/%41", ignore), Some(segs(&["a b", "A"])));
    assert_eq!(normalize_path(b"/a%2Fb/c", ignore), Some(segs(&["a/b", "c"])));
}

#[test]
fn the_empty_path_and_the_root_have_no_segments() {
    assert_eq!(normalize_path(b"", TrailingSlash::Ignore), Some(Vec::new()));
    assert_eq!(normalize_path(b"/", TrailingSlash::Ignore), Some(Vec::new()));
    assert_eq!(normalize_path(b"", TrailingSlash::Strict), Some(Vec::new()));
    assert_eq!(normalize_path(b"/", TrailingSlash::Strict), Some(Vec::new()));
}

#[test]
fn one_trailing_slash_is_dropped_where_the_policy_says_so() {
    assert_eq!(normalize_path(b"/a/b/", TrailingSlash::Ignore), Some(segs(&["a", "b"])));
    assert_eq!(normalize_path(b"/a/", TrailingSlash::Ignore), Some(segs(&["a"])));
    assert_eq!(normalize_path(b"/a/b//", TrailingSlash::Ignore), None);
    assert_eq!(normalize_path(b"//", TrailingSlash::Ignore), None);
    assert_eq!(normalize_path(b"/a/b/", TrailingSlash::Strict), None);
    assert_eq!(normalize_path(b"/a/", TrailingSlash::Strict), None);
    assert_eq!(normalize_path(b"/a/b", TrailingSlash::Strict), Some(segs(&["a", "b"])));
    assert_eq!(normalize_path(b"/a%2F", TrailingSlash::Ignore), Some(segs(&["a/"])));
}

#[test]
fn a_path_that_cannot_be_read_has_no_segments() {
    let ignore = TrailingSlash::Ignore;
    assert_eq!(normalize_path(b"a/b", ignore), None);
    assert_eq!(normalize_path(b"a", ignore), None);
    assert_eq!(normalize_path(b"/a//b", ignore), None);
    assert_eq!(normalize_path(b"//a", ignore), None);
    assert_eq!(normalize_path(b"/a/%zz", ignore), None);
    assert_eq!(normalize_path(b"/%/a", ignore), None);
    assert_eq!(normalize_path(b"/a/%4", ignore), None);
}
