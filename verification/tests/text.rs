//! Characters and their widths.

use authorized_dns_keys::text::{char_width, text_of, to_chars};

#[test]
fn widths_are_those_of_utf8() {
    assert_eq!(char_width('a'), 1);
    assert_eq!(char_width('\u{7f}'), 1);
    assert_eq!(char_width('\u{80}'), 2);
    assert_eq!(char_width('\u{7ff}'), 2);
    assert_eq!(char_width('\u{800}'), 3);
    assert_eq!(char_width('\u{ffff}'), 3);
    assert_eq!(char_width('\u{10000}'), 4);
    assert_eq!(char_width('\u{10ffff}'), 4);
    for c in ['\0', 'z', '\u{e9}', '\u{d7ff}', '\u{e000}', '\u{1f600}'] {
        assert_eq!(char_width(c), c.len_utf8());
    }
}

#[test]
fn characters_of_a_text() {
    assert_eq!(to_chars("a\u{e9}\u{1f600}"), vec!['a', '\u{e9}', '\u{1f600}']);
    assert_eq!(to_chars(""), Vec::<char>::new());
}

#[test]
fn text_of_a_range_of_characters() {
    let chars = vec!['l', 'h', 's', '=', '\u{e9}', 'x'];
    assert_eq!(text_of(&chars, 4, 6), "\u{e9}x");
    assert_eq!(text_of(&chars, 0, 6), "lhs=\u{e9}x");
    assert_eq!(text_of(&chars, 3, 3), "");
}
