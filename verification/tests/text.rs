use downloader::text::{begins_with, chars_of, find_first, find_first_char, finishes_with, has_text};
use downloader::text::{is_space_char, join_texts, lower_ascii, replace_all, split_on, string_of};
use downloader::text::{text_lines, text_words, trim_text};

const SAMPLES: [&str; 16] = [
    "",
    " ",
    "a",
    " a b ",
    "\r\n",
    "\n",
    "a\r\nb\rc\nd\r",
    "a\n\nb\n",
    "\u{a0}\u{2003}x\u{3000}y\u{85}",
    "\u{200b}x\u{feff}",
    "a:b::c:",
    ":",
    "aaaa",
    "…é🎵 ü",
    "\tone\u{b}two\u{c}three",
    "\r",
];

#[test]
fn white_space_is_that_of_unicode() {
    for code in 0..=0x10ffff {
        if let Some(ch) = char::from_u32(code) {
            assert_eq!(is_space_char(ch), ch.is_whitespace(), "{code:x}");
            assert_eq!(lower_ascii(ch), ch.to_ascii_lowercase(), "{code:x}");
        }
    }
}

#[test]
fn texts_are_trimmed_and_split() {
    for text in SAMPLES {
        let chars = chars_of(text);
        assert_eq!(string_of(&chars), text);
        assert_eq!(trim_text(text), text.trim());
        assert_eq!(text_lines(text), text.lines().collect::<Vec<_>>());
        assert_eq!(text_words(&chars), text.split_whitespace().collect::<Vec<_>>());
        assert_eq!(split_on(&chars, ':'), text.split(':').collect::<Vec<_>>());
    }
}

#[test]
fn texts_are_searched() {
    for text in SAMPLES {
        let chars = chars_of(text);
        for pattern in ["a", "aa", "\n", "b", "x", "…é", "::"] {
            assert_eq!(has_text(text, pattern), text.contains(pattern));
            assert_eq!(begins_with(text, pattern), text.starts_with(pattern));
            assert_eq!(finishes_with(text, pattern), text.ends_with(pattern));
            assert_eq!(replace_all(text, pattern, "<a>"), text.replace(pattern, "<a>"));
            let found = text.find(pattern).map(|at| text[..at].chars().count());
            assert_eq!(find_first(&chars, &chars_of(pattern)), found);
        }
        assert_eq!(find_first_char(&chars, ':'), text.chars().position(|ch| ch == ':'));
    }
    assert!(has_text("abc", "") && begins_with("", "") && finishes_with("", ""));
}

#[test]
fn texts_are_joined() {
    let list = |texts: &[&str]| texts.iter().map(|text| text.to_string()).collect::<Vec<_>>();
    assert_eq!(join_texts(&list(&[]), ", "), "");
    assert_eq!(join_texts(&list(&["a"]), ", "), "a");
    assert_eq!(join_texts(&list(&["a", "", "b"]), ", "), "a, , b");
}
