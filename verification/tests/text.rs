//! Text, numbers and paths.
use gift::numbers::{
    dec_string, hex_decode, hex_string, push_dec_int, read_octal, read_signed64, read_unsigned,
};
use gift::path_set::{difference, key_of, path_of, set_of_paths};
use gift::text::{
    char_is_space, chars_of, first_solid_line, join_lines, lines_of, string_of, text_of_slice,
    trimmed, words_of,
};
use gift::unix_path::{components_of, join, push_path, strip_root};

fn cs(s: &str) -> Vec<char> {
    s.chars().collect()
}

fn texts(v: Vec<Vec<char>>) -> Vec<String> {
    v.iter().map(|l| l.iter().collect()).collect()
}

#[test]
fn white_space_is_that_of_unicode() {
    for c in '\0'..=char::MAX {
        assert_eq!(char_is_space(c), c.is_whitespace(), "{c:?}");
    }
}

#[test]
fn text_is_taken_apart_as_std_does() {
    for s in [
        "", "\n", "a", "a\n", "a\r\nb", "\r\n\r", " a  b\t\u{3000}c ", "a\n\nb\n", "\u{a0}x\u{2028}",
    ] {
        assert_eq!(chars_of(s), cs(s));
        assert_eq!(string_of(&cs(s)), s);
        let lines: Vec<&str> = s.lines().collect();
        assert_eq!(texts(lines_of(&cs(s))), lines);
        let words: Vec<&str> = s.split_whitespace().collect();
        assert_eq!(texts(words_of(&cs(s))), words);
        let t: String = trimmed(&cs(s)).iter().collect();
        assert_eq!(t, s.trim());
        let joined: String = join_lines(&lines_of(&cs(s))).iter().collect();
        assert_eq!(joined, lines.join("\n"));
        let solid = s.lines().map(str::trim).find(|l| !l.is_empty()).map(str::to_string);
        assert_eq!(first_solid_line(&cs(s)).map(|l| l.iter().collect::<String>()), solid);
    }
    assert_eq!(text_of_slice("啊".as_bytes()).as_deref(), Some("啊"));
    assert_eq!(text_of_slice(b"\xff"), None);
}

#[test]
fn numbers_are_read_as_std_does() {
    for s in ["", "0", "007", "+5", "-5", "-0", "9223372036854775807", "9223372036854775808",
        "-9223372036854775808", "-9223372036854775809", "18446744073709551615",
        "18446744073709551616", "1 ", "x", "+", "-", "+-1"]
    {
        assert_eq!(read_signed64(&cs(s)), s.parse::<i64>().ok(), "{s}");
        if !s.starts_with('-') {
            assert_eq!(read_unsigned(&cs(s), u64::MAX), s.parse::<u64>().ok(), "{s}");
            assert_eq!(read_unsigned(&cs(s), 255), s.parse::<u8>().ok().map(u64::from), "{s}");
        }
    }
    assert_eq!(read_octal(&cs("100644")), Some(0o100644));
    assert_eq!(read_octal(&cs("8")), None);
    assert_eq!(dec_string(0), "0");
    assert_eq!(dec_string(u64::MAX), u64::MAX.to_string());
    let mut s = String::new();
    push_dec_int(&mut s, i64::MIN);
    assert_eq!(s, i64::MIN.to_string());
    assert_eq!(hex_string(&[0, 0xaf, 9]), "00af09");
    assert_eq!(hex_decode("00AF09"), Some(vec![0, 0xaf, 9]));
    assert_eq!(hex_decode("0"), None);
    assert_eq!(hex_decode("0g"), None);
}

#[test]
fn paths_are_taken_apart() {
    let parts = |s: &str| {
        components_of(s.as_bytes())
            .into_iter()
            .map(|c| String::from_utf8(c).unwrap())
            .collect::<Vec<_>>()
    };
    assert_eq!(parts("a//b/./c/"), ["a", "b", "c"]);
    assert_eq!(parts("/a"), ["/", "a"]);
    assert_eq!(strip_root(b"/w", b"/w/a/b"), Some(&b"a/b"[..]));
    assert_eq!(strip_root(b"/w", b"/wa/b"), None);
    assert_eq!(join(b"", b"x"), b"x");
    assert_eq!(join(b"d", b"x"), b"d/x");
    assert_eq!(push_path(b"/d", b"/x"), b"/x");
    assert_eq!(push_path(b"/d/", b"x"), b"/d/x");
}

#[test]
fn sets_of_paths_are_in_order_of_their_names() {
    let a = set_of_paths(&vec![b"a/b".to_vec(), b"a-b".to_vec(), b"a".to_vec()]);
    let b = set_of_paths(&vec![b"a".to_vec()]);
    let left: Vec<Vec<u8>> = difference(&a, &b).iter().map(|k| path_of(k)).collect();
    assert_eq!(left, [b"a/b".to_vec(), b"a-b".to_vec()]);
    assert_eq!(path_of(&key_of(b"x/y z")), b"x/y z");
}
