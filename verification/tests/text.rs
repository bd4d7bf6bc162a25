use caravan::text::{append_number, chars_of, find_in, range_is, text_of, trim, two_words};

#[test]
fn white_space_is_what_std_takes_for_it() {
    for c in '\0'..=char::MAX {
        let text = c.to_string();
        assert_eq!(trim(&text).is_empty(), c.is_whitespace(), "{:?}", c);
    }
}

#[test]
fn texts_are_trimmed_on_both_sides() {
    for text in ["", " ", "a", "  a b\t\n", "\u{3000}é\u{a0}", "x \u{200b}"] {
        assert_eq!(trim(text), text.trim());
    }
}

#[test]
fn numbers_are_written_in_decimal() {
    for n in [0usize, 7, 10, 99, 100, 65535, 4294967296, usize::MAX] {
        let mut s = "n=".to_string();
        append_number(&mut s, n);
        assert_eq!(s, format!("n={}", n));
    }
}

#[test]
fn the_first_two_words_are_found() {
    for text in ["", "a", " a ", "a b", "  ab \t cd ef", "é\u{3000}z"] {
        let chars = chars_of(text);
        let expected: Vec<&str> = text.split_whitespace().collect();
        match two_words(&chars, chars.len()) {
            Some(w) => {
                assert_eq!(text_of(&chars, w.first.0, w.first.1), expected[0]);
                assert_eq!(text_of(&chars, w.second.0, w.second.1), expected[1]);
            }
            None => assert!(expected.len() < 2),
        }
    }
}

#[test]
fn the_first_occurrence_is_found() {
    let chars = chars_of("abcabc");
    assert_eq!(find_in(&chars, 0, 6, "bc"), Some(1));
    assert_eq!(find_in(&chars, 2, 6, "bc"), Some(2));
    assert_eq!(find_in(&chars, 2, 5, "bc"), None);
    assert_eq!(find_in(&chars, 0, 6, "abcabcd"), None);
    assert_eq!(find_in(&chars, 6, 6, ""), Some(0));
    assert!(range_is(&chars, 1, 3, "bc"));
    assert!(!range_is(&chars, 1, 4, "bc"));
}
