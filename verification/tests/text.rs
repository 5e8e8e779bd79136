use wpic::text::{
    chars_of, contains_char, contains_str, copy_list, copy_of, ends_with, find_char, join_strings,
    lines_of, occurs, padded_left, padded_right, push_copy, push_fill, same, same_chars, space,
    split_once_at, starts_with, string_of, trim_end_char, trim_end_chars, trim_end_str,
    trim_start_chars, trim_str,
};

#[test]
fn white_space_is_that_of_unicode() {
    let mut n: u32 = 0;
    while n <= 0x10ffff {
        if let Some(c) = char::from_u32(n) {
            assert_eq!(space(c), c.is_whitespace(), "{:x}", n);
        }
        n += 1;
    }
}

#[test]
fn trimming_takes_white_space_off_the_ends() {
    assert_eq!(trim_str(" \t a b \u{a0}\n"), "a b");
    assert_eq!(trim_str("   "), "");
    assert_eq!(trim_end_str("  a  "), "  a");
    assert_eq!(trim_end_char("a//b///", '/'), "a//b");
    assert_eq!(trim_end_char("///", '/'), "");
    assert_eq!(trim_start_chars(&[' ', 'a', ' ']).to_vec(), vec!['a', ' ']);
    assert_eq!(trim_end_chars(&[' ', 'a', ' ']).to_vec(), vec![' ', 'a']);
}

#[test]
fn lines_end_at_line_feeds() {
    for s in ["", "a", "a\n", "a\nb", "a\r\nb\r", "\n\n", "\r\n", "a\n\r\nb\n"] {
        let expected: Vec<String> = s.lines().map(|l| l.to_string()).collect();
        assert_eq!(lines_of(s), expected, "{:?}", s);
    }
}

#[test]
fn searching_finds_texts_and_characters() {
    assert!(contains_str("error: directory not found", "directory not found"));
    assert!(!contains_str("director", "directory"));
    assert!(contains_str("abc", ""));
    assert!(contains_char("a/b", '/'));
    assert!(!contains_char("ab", '/'));
    assert!(starts_with("-l", "-"));
    assert!(!starts_with("", "-"));
    assert!(ends_with("a.jpg", ".jpg"));
    assert!(!ends_with("jpg", ".jpg"));
    assert_eq!(find_char(&['a', 'b', 'a'], 'b'), 1);
    assert_eq!(find_char(&['a'], 'x'), 1);
    assert!(occurs(&['a', 'b'], &['b'], 1));
    assert!(!occurs(&['a', 'b'], &['b', 'c'], 1));
    assert!(same("é", "é"));
    assert!(!same("é", "e"));
    assert!(same_chars(&['a'], &['a']));
    assert!(!same_chars(&['a'], &['b']));
}

#[test]
fn splitting_goes_around_the_first_character() {
    assert_eq!(split_once_at("a=b=c", '='), Some(("a".to_string(), "b=c".to_string())));
    assert_eq!(split_once_at("=", '='), Some((String::new(), String::new())));
    assert_eq!(split_once_at("abc", '='), None);
}

#[test]
fn joining_and_padding() {
    let parts = vec!["a".to_string(), "b".to_string(), "c".to_string()];
    assert_eq!(join_strings(&parts, ", "), "a, b, c");
    assert_eq!(join_strings(&Vec::new(), ", "), "");
    assert_eq!(padded_left("7", 3), "  7");
    assert_eq!(padded_left("1234", 3), "1234");
    assert_eq!(padded_right("★", 3), "★  ");
    let mut s = copy_of("x");
    push_fill(&mut s, '0', 2);
    assert_eq!(s, "x00");
    assert_eq!(string_of(&chars_of("häh")), "häh");
    let mut v = copy_list(&parts);
    push_copy(&mut v, "d");
    assert_eq!(v, vec!["a", "b", "c", "d"]);
}
