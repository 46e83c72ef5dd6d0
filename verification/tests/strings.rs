use static_opti::bytes::{find_in, le, trimmed};
use static_opti::paths::normalize;

#[test]
fn order_is_lexicographic_by_byte() {
    assert!(le(b"", b""));
    assert!(le(b"", b"a"));
    assert!(!le(b"a", b""));
    assert!(le(b"a", b"a"));
    assert!(le(b"a", b"b"));
    assert!(!le(b"b", b"a"));
    assert!(le(b"a", b"ab"));
    assert!(!le(b"ab", b"a"));
    assert!(le(b"ab", b"b"));
    assert!(le(b"Z", b"a"));
    assert!(le(b"a/b", b"a0"));
    assert!(le(&[0x7f], &[0x80]));
    assert!(!le(&[0xff], &[0x00, 0xff]));
}

#[test]
fn order_agrees_with_the_order_of_strings() {
    let words = ["", "a", "a.html", "a/index.html", "b", "caf\u{e9}", "cafe", "z", "\u{1F600}"];
    for a in words {
        for b in words {
            assert_eq!(le(a.as_bytes(), b.as_bytes()), a <= b);
        }
    }
}

#[test]
fn trimmed_drops_the_runs_at_both_ends() {
    assert_eq!(trimmed(b"/a/b/", b'/'), b"a/b");
    assert_eq!(trimmed(b"///a//b//", b'/'), b"a//b");
    assert_eq!(trimmed(b"a", b'/'), b"a");
    assert_eq!(trimmed(b"", b'/'), b"");
    assert_eq!(trimmed(b"/", b'/'), b"");
    assert_eq!(trimmed(b"////", b'/'), b"");
    assert_eq!(trimmed(b"/a", b'/'), b"a");
    assert_eq!(trimmed(b"a/", b'/'), b"a");
}

#[test]
fn find_in_looks_for_a_substring() {
    assert!(find_in(b"gzip, br", b"br"));
    assert!(find_in(b"br", b"br"));
    assert!(find_in(b"abr", b"br"));
    assert!(!find_in(b"b r", b"br"));
    assert!(!find_in(b"b", b"br"));
    assert!(!find_in(b"", b"br"));
    assert!(find_in(b"", b""));
    assert!(find_in(b"x", b""));
    assert!(find_in(b"gzip", b"gzip"));
    assert!(!find_in(b"gzi", b"gzip"));
    assert!(find_in(b"xgzgzipx", b"gzip"));
}

#[test]
fn normalize_turns_backslashes_into_slashes() {
    assert_eq!(normalize("a\\b\\c.txt"), "a/b/c.txt");
    assert_eq!(normalize("a/b\\c"), "a/b/c");
    assert_eq!(normalize("plain.txt"), "plain.txt");
    assert_eq!(normalize(""), "");
    assert_eq!(normalize("\\"), "/");
    assert_eq!(normalize("caf\u{e9}\\x"), "caf\u{e9}/x");
}
