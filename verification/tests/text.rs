use bookmarks::text::{
    chars_of, find_in, parse_decimal, split_and_trim, str_contains, str_eq, str_lt, trim_in,
};

fn text_chars(s: &str) -> Vec<char> {
    s.chars().collect()
}

#[test]
fn chars_of_counts_characters() {
    assert_eq!(chars_of("día"), vec!['d', 'í', 'a']);
    assert_eq!(chars_of(""), Vec::<char>::new());
}

#[test]
fn find_in_reports_the_first_occurrence() {
    let hay = text_chars("abcabcabc");
    assert_eq!(find_in(&hay, 0, 9, &text_chars("bc")), Some(1));
    assert_eq!(find_in(&hay, 2, 9, &text_chars("bc")), Some(4));
    assert_eq!(find_in(&hay, 2, 5, &text_chars("bc")), None);
    assert_eq!(find_in(&hay, 2, 6, &text_chars("bc")), Some(4));
    assert_eq!(find_in(&hay, 0, 9, &text_chars("x")), None);
    assert_eq!(find_in(&hay, 0, 9, &text_chars("abcabcabca")), None);
}

#[test]
fn find_in_finds_the_empty_needle_at_the_start_of_the_window() {
    let hay = text_chars("abc");
    assert_eq!(find_in(&hay, 0, 3, &text_chars("")), Some(0));
    assert_eq!(find_in(&hay, 2, 3, &text_chars("")), Some(2));
    assert_eq!(find_in(&hay, 3, 3, &text_chars("")), Some(3));
}

#[test]
fn contains_is_case_sensitive() {
    assert!(str_contains("Rust and Verus", "Verus"));
    assert!(!str_contains("Rust and Verus", "verus"));
    assert!(str_contains("anything", ""));
    assert!(str_contains("", ""));
    assert!(!str_contains("", "a"));
    assert!(str_contains("señor", "ñ"));
}

#[test]
fn str_eq_compares_texts() {
    assert!(str_eq("", ""));
    assert!(str_eq("all", "all"));
    assert!(!str_eq("all", "al"));
    assert!(!str_eq("al", "all"));
    assert!(!str_eq("all", "alL"));
}

#[test]
fn str_lt_is_the_order_of_the_dictionary() {
    assert!(str_lt("", "a"));
    assert!(!str_lt("a", ""));
    assert!(!str_lt("", ""));
    assert!(str_lt("a", "b"));
    assert!(!str_lt("b", "a"));
    assert!(str_lt("ab", "abc"));
    assert!(!str_lt("abc", "ab"));
    assert!(!str_lt("abc", "abc"));
    assert!(str_lt("Z", "a"));
    assert!(str_lt("z", "é"));
    for (a, b) in [("rust", "verus"), ("a", "A"), ("10", "9"), ("tag", "tag ")] {
        assert_eq!(str_lt(a, b), a < b, "{:?} {:?}", a, b);
        assert_eq!(str_lt(b, a), b < a, "{:?} {:?}", b, a);
    }
}

#[test]
fn trim_in_cuts_white_space_at_both_ends() {
    let hay = text_chars("  a b \t\n");
    assert_eq!(trim_in(&hay, 0, hay.len()), (2, 5));
    assert_eq!(trim_in(&hay, 3, hay.len()), (4, 5));
    let blank = text_chars(" \u{a0}\u{3000} ");
    let (a, b) = trim_in(&blank, 0, blank.len());
    assert_eq!(a, b);
    let none = text_chars("");
    assert_eq!(trim_in(&none, 0, 0), (0, 0));
}

#[test]
fn split_and_trim_keeps_empty_pieces() {
    assert_eq!(split_and_trim("a, b,,c ", ','), vec!["a", "b", "", "c"]);
    assert_eq!(split_and_trim("", ','), vec![""]);
    assert_eq!(split_and_trim(",", ','), vec!["", ""]);
    assert_eq!(split_and_trim("rust", ','), vec!["rust"]);
    assert_eq!(split_and_trim(" rust +  verus+z3 ", '+'), vec!["rust", "verus", "z3"]);
    assert_eq!(split_and_trim("a+b", ','), vec!["a+b"]);
}

#[test]
fn split_and_trim_agrees_with_std() {
    for text in ["", "a", "a,b", ",a,", " x , y ", "día, niño ,", ",,,", "  "] {
        let expected: Vec<String> = text.split(',').map(|piece| piece.trim().to_string()).collect();
        assert_eq!(split_and_trim(text, ','), expected, "{:?}", text);
    }
}

#[test]
fn parse_decimal_reads_numerals() {
    assert_eq!(parse_decimal("0"), Some(0));
    assert_eq!(parse_decimal("20"), Some(20));
    assert_eq!(parse_decimal("+20"), Some(20));
    assert_eq!(parse_decimal("007"), Some(7));
    assert_eq!(parse_decimal(&usize::MAX.to_string()), Some(usize::MAX));
}

#[test]
fn parse_decimal_rejects_everything_else() {
    for bad in ["", "+", "-1", "1.5", " 1", "1 ", "all", "1_000", "0x10", "++1", "१"] {
        assert_eq!(parse_decimal(bad), None, "{:?}", bad);
    }
    let beyond = format!("{}0", usize::MAX);
    assert_eq!(parse_decimal(&beyond), None);
    let one_more = format!("{}", usize::MAX as u128 + 1);
    assert_eq!(parse_decimal(&one_more), None);
}

#[test]
fn parse_decimal_agrees_with_std() {
    for text in ["0", "1", "+1", "-0", "00", "18446744073709551615", "18446744073709551616", "a", ""] {
        assert_eq!(parse_decimal(text), text.parse::<usize>().ok(), "{:?}", text);
    }
}
