use cconfig::text::{
    char_is_whitespace, chars_of, find_from, matches_at, push_chars, rank_text, slice_of,
    split_text, string_of, trim_text, without_char, Rank,
};

fn chars(text: &str) -> Vec<char> {
    text.chars().collect()
}

fn joined(parts: &Vec<Vec<char>>) -> Vec<String> {
    parts.iter().map(|part| part.iter().collect()).collect()
}

#[test]
fn whitespace_is_what_the_standard_library_says() {
    let mut code: u32 = 0;
    while code <= 0x10FFFF {
        if let Some(c) = char::from_u32(code) {
            assert_eq!(char_is_whitespace(c), c.is_whitespace(), "code point {:#x}", code);
        }
        code += 1;
    }
}

#[test]
fn chars_of_gives_every_character() {
    assert_eq!(chars_of("a=é\n"), vec!['a', '=', 'é', '\n']);
    assert_eq!(chars_of(""), Vec::<char>::new());
}

#[test]
fn string_of_takes_a_range() {
    let all = chars("héllo world");
    assert_eq!(string_of(&all, 0, all.len()), "héllo world");
    assert_eq!(string_of(&all, 1, 5), "éllo");
    assert_eq!(string_of(&all, 3, 3), "");
}

#[test]
fn push_chars_appends() {
    let mut out = String::from("ab");
    push_chars(&mut out, &chars("cdef"), 1, 3);
    assert_eq!(out, "abde");
}

#[test]
fn slice_of_copies_a_range() {
    assert_eq!(slice_of(&chars("abcdef"), 2, 4), vec!['c', 'd']);
}

#[test]
fn matches_at_checks_bounds_and_characters() {
    let s = chars("a\r\nb");
    let pat = chars("\r\n");
    assert!(matches_at(&s, &pat, 1));
    assert!(!matches_at(&s, &pat, 0));
    assert!(!matches_at(&s, &pat, 3));
    assert!(!matches_at(&s, &pat, 9));
    assert!(!matches_at(&chars("\r"), &pat, 0));
}

#[test]
fn find_from_gives_the_first_occurrence() {
    let s = chars("a=b=c");
    let pat = chars("=");
    assert_eq!(find_from(&s, &pat, 0), Some(1));
    assert_eq!(find_from(&s, &pat, 1), Some(1));
    assert_eq!(find_from(&s, &pat, 2), Some(3));
    assert_eq!(find_from(&s, &pat, 4), None);
    assert_eq!(find_from(&s, &pat, 5), None);
    assert_eq!(find_from(&chars(""), &pat, 0), None);
}

#[test]
fn split_text_agrees_with_the_standard_library() {
    let samples = ["", "a", "a\nb", "\n", "a\n\nb\n", "a\r\nb\rc\nd", "\r\n\r\n", "x=y=z", "==", "ab"];
    let patterns = ["\n", "\r", "\r\n", "="];
    for sample in samples {
        for pattern in patterns {
            let expected: Vec<String> = sample.split(pattern).map(String::from).collect();
            assert_eq!(joined(&split_text(&chars(sample), &chars(pattern))), expected);
        }
    }
}

#[test]
fn trim_text_agrees_with_the_standard_library() {
    let samples = ["", " ", "  a  ", "a", "\t a b \r\n", "\u{3000}x\u{a0}", " \u{2003} ", "a \u{85}"];
    for sample in samples {
        let trimmed: String = trim_text(&chars(sample)).iter().collect();
        assert_eq!(trimmed, sample.trim());
    }
}

#[test]
fn without_char_takes_every_occurrence_out() {
    assert_eq!(without_char(&chars("a=b"), '='), chars("ab"));
    assert_eq!(without_char(&chars("==a==b=="), '='), chars("ab"));
    assert_eq!(without_char(&chars("abc"), '='), chars("abc"));
    assert_eq!(without_char(&chars("="), '='), chars(""));
}

#[test]
fn rank_text_agrees_with_the_standard_library() {
    let samples = ["", "a", "ab", "b", "B", "aa", "é", "z", "\u{10000}", "\u{ffff}", "a\u{7f}", "a\u{80}"];
    for a in samples {
        for b in samples {
            let expected = if a < b {
                Rank::Before
            } else if a == b {
                Rank::Same
            } else {
                Rank::After
            };
            assert_eq!(rank_text(&chars(a), &chars(b)), expected, "{:?} against {:?}", a, b);
        }
    }
}
