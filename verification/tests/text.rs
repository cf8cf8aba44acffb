use cmdlang::text::{chars_of, len_of, width_of};

#[test]
fn widths_follow_utf8() {
    assert_eq!(width_of('a'), 1);
    assert_eq!(width_of('\u{7f}'), 1);
    assert_eq!(width_of('\u{80}'), 2);
    assert_eq!(width_of('\u{7ff}'), 2);
    assert_eq!(width_of('\u{800}'), 3);
    assert_eq!(width_of('\u{ffff}'), 3);
    assert_eq!(width_of('\u{10000}'), 4);
    assert_eq!(width_of('\u{10ffff}'), 4);
    for c in ['\0', 'z', '\u{e9}', '\u{2192}', '\u{1f600}'] {
        assert_eq!(width_of(c), c.len_utf8());
    }
}

#[test]
fn characters_come_in_order() {
    assert_eq!(chars_of(""), Vec::<char>::new());
    assert_eq!(chars_of("a\u{e9}\u{2192}\u{1f600}!"), vec!['a', '\u{e9}', '\u{2192}', '\u{1f600}', '!']);
}

#[test]
fn length_counts_bytes() {
    assert_eq!(len_of(""), 0);
    assert_eq!(len_of("abc"), 3);
    assert_eq!(len_of("a\u{e9}\u{2192}\u{1f600}!"), 11);
}
