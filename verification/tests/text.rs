use nano_downloader::text::{chars_of, is_whitespace_char, string_of, trim_bounds};

#[test]
fn whitespace_matches_std() {
    for c in ['\t', '\n', '\u{b}', '\u{c}', '\r', ' ', '\u{85}', '\u{a0}', '\u{1680}', '\u{2000}', '\u{200a}',
        '\u{2028}', '\u{2029}', '\u{202f}', '\u{205f}', '\u{3000}', 'a', '0', '\u{200b}', '\u{feff}', '\u{1f}']
    {
        assert_eq!(is_whitespace_char(c), c.is_whitespace(), "{:?}", c);
    }
}

#[test]
fn trims_like_std() {
    for s in ["", "  ", " a ", "\u{3000}x\u{85}", "a b", "\r\n42\r\n"] {
        let cs = chars_of(s);
        let (lo, hi) = trim_bounds(&cs);
        assert_eq!(string_of(&cs[lo..hi]), s.trim(), "{:?}", s);
    }
}
