use satgpt::parse::{
    breaks, digit_of, find_line_end, is_skipped, parse_line, parse_token, space, to_chars,
};
use satgpt::{parse_custom_format, Lit};

fn lits(ks: &[i32]) -> Vec<Lit> {
    ks.iter().map(|&k| Lit::new((k.abs() - 1) as usize, k < 0)).collect()
}

fn token(t: &str) -> Option<i32> {
    let s = to_chars(t);
    parse_token(&s, 0, s.len())
}

#[test]
fn characters_of_a_text() {
    assert_eq!(to_chars("a\u{e9}\u{3000}"), vec!['a', '\u{e9}', '\u{3000}']);
    assert!(to_chars("").is_empty());
}

#[test]
fn tokens_that_are_numbers() {
    assert_eq!(token("0"), Some(0));
    assert_eq!(token("17"), Some(17));
    assert_eq!(token("-17"), Some(-17));
    assert_eq!(token("+17"), Some(17));
    assert_eq!(token("007"), Some(7));
    assert_eq!(token("2147483647"), Some(i32::MAX));
    assert_eq!(token("-2147483648"), Some(i32::MIN));
    assert_eq!(token("-0"), Some(0));
}

#[test]
fn tokens_that_are_no_numbers() {
    assert_eq!(token(""), None);
    assert_eq!(token("-"), None);
    assert_eq!(token("+"), None);
    assert_eq!(token("1x"), None);
    assert_eq!(token("x1"), None);
    assert_eq!(token("--1"), None);
    assert_eq!(token("1-"), None);
    assert_eq!(token("2147483648"), None);
    assert_eq!(token("-2147483649"), None);
    assert_eq!(token("99999999999999999999999999"), None);
    assert_eq!(token("1.5"), None);
}

#[test]
fn bracketed_clauses() {
    let (clauses, num_vars) = parse_custom_format("[1, -2, 3]\n[-3, 4]\n");
    assert_eq!(clauses, vec![lits(&[1, -2, 3]), lits(&[-3, 4])]);
    assert_eq!(num_vars, 4);
}

#[test]
fn dimacs_text() {
    let text = "c a comment\np cnf 3 2\n1 -2 0\n% another\n2 3 0\n0\n";
    let (clauses, num_vars) = parse_custom_format(text);
    assert_eq!(clauses, vec![lits(&[1, -2]), lits(&[2, 3])]);
    assert_eq!(num_vars, 3);
}

#[test]
fn everything_before_the_header_is_passed_over() {
    let text = "1 2\n3 4\np cnf 9 9\n5 6\n";
    let (clauses, num_vars) = parse_custom_format(text);
    assert_eq!(clauses, vec![lits(&[5, 6])]);
    assert_eq!(num_vars, 6);
}

#[test]
fn only_the_first_header_counts() {
    let text = "p cnf 1 1\n1 2\np cnf 2 2\n3\n";
    let (clauses, num_vars) = parse_custom_format(text);
    // the second header is a line like any other: its numbers make a clause
    assert_eq!(clauses, vec![lits(&[1, 2]), lits(&[2, 2]), lits(&[3])]);
    assert_eq!(num_vars, 3);
}

#[test]
fn an_indented_header_is_no_header() {
    let (clauses, num_vars) = parse_custom_format("1\n p cnf 5 5\n2\n");
    assert_eq!(clauses, vec![lits(&[1]), lits(&[5, 5]), lits(&[2])]);
    assert_eq!(num_vars, 5);
}

#[test]
fn empty_text_has_one_variable() {
    let (clauses, num_vars) = parse_custom_format("");
    assert!(clauses.is_empty());
    assert_eq!(num_vars, 1);
    let (clauses, num_vars) = parse_custom_format("\n\n   \n");
    assert!(clauses.is_empty());
    assert_eq!(num_vars, 1);
}

#[test]
fn lines_that_begin_with_c_percent_or_zero_are_passed_over() {
    let text = "  c 1 2\n\t% 3\n 0 4 5\n01 2\n6\n";
    let (clauses, num_vars) = parse_custom_format(text);
    assert_eq!(clauses, vec![lits(&[6])]);
    assert_eq!(num_vars, 6);
}

#[test]
fn what_is_no_number_is_ignored() {
    let (clauses, num_vars) = parse_custom_format("1 x -2 3y 0 +4 2147483648 -2147483648\nfoo bar\n[]\n");
    assert_eq!(clauses, vec![lits(&[1, -2, 4])]);
    assert_eq!(num_vars, 4);
}

#[test]
fn separators_and_line_ends() {
    let (clauses, num_vars) = parse_custom_format("1,2]3[4\r\n-5\u{a0}6\u{3000}7");
    assert_eq!(clauses, vec![lits(&[1, 2, 3, 4]), lits(&[-5, 6, 7])]);
    assert_eq!(num_vars, 7);
}

#[test]
fn last_line_without_line_feed() {
    let (clauses, num_vars) = parse_custom_format("p cnf 2 1\n-1 2");
    assert_eq!(clauses, vec![lits(&[-1, 2])]);
    assert_eq!(num_vars, 2);
    let (clauses, num_vars) = parse_custom_format("p cnf 2 1");
    assert!(clauses.is_empty());
    assert_eq!(num_vars, 1);
}

#[test]
fn largest_variable() {
    let (clauses, num_vars) = parse_custom_format("2147483647 -1\n");
    assert_eq!(clauses, vec![vec![Lit(0xffff_fffc), Lit(1)]]);
    assert_eq!(num_vars, 0x7fff_ffff);
}

#[test]
fn white_space_and_separators() {
    for c in [' ', '\t', '\n', '\r', '\u{b}', '\u{c}', '\u{85}', '\u{a0}', '\u{1680}', '\u{2000}', '\u{200a}',
        '\u{2028}', '\u{2029}', '\u{202f}', '\u{205f}', '\u{3000}']
    {
        assert!(space(c));
        assert!(c.is_whitespace());
        assert!(breaks(c));
    }
    for c in ['a', '0', '-', '\u{200b}', '\u{feff}', '\u{8}', '\u{e}'] {
        assert!(!space(c));
        assert!(!c.is_whitespace());
        assert!(!breaks(c));
    }
    for c in ['[', ']', ','] {
        assert!(!space(c));
        assert!(breaks(c));
    }
}

#[test]
fn white_space_is_what_the_standard_library_says() {
    for code in 0..0x11_0000u32 {
        if let Some(c) = char::from_u32(code) {
            assert_eq!(space(c), c.is_whitespace());
        }
    }
}

#[test]
fn numbers_are_what_the_standard_library_parses() {
    for t in ["", "0", "-0", "+0", "12", "-12", "+12", "0012", "1 2", "1a", "a", "-", "+", "+-1", "2147483647",
        "2147483648", "-2147483648", "-2147483649", "00000000000000000000001", "१२"]
    {
        assert_eq!(token(t), t.parse::<i32>().ok());
    }
}

#[test]
fn digits() {
    assert_eq!(digit_of('0'), Some(0));
    assert_eq!(digit_of('9'), Some(9));
    assert_eq!(digit_of('/'), None);
    assert_eq!(digit_of(':'), None);
    assert_eq!(digit_of('५'), None);
}

#[test]
fn line_ends() {
    let s = to_chars("ab\ncd\n\nef");
    assert_eq!(find_line_end(&s, 0), 2);
    assert_eq!(find_line_end(&s, 1), 2);
    assert_eq!(find_line_end(&s, 2), 2);
    assert_eq!(find_line_end(&s, 3), 5);
    assert_eq!(find_line_end(&s, 6), 6);
    assert_eq!(find_line_end(&s, 7), 9);
    assert_eq!(find_line_end(&s, 9), 9);
}

#[test]
fn lines_that_are_passed_over() {
    let s = to_chars("  c x\n\n 12\n%\n0 1");
    assert!(is_skipped(&s, 0, 5));
    assert!(is_skipped(&s, 6, 6));
    assert!(!is_skipped(&s, 7, 10));
    assert!(is_skipped(&s, 11, 12));
    assert!(is_skipped(&s, 13, 16));
    assert!(is_skipped(&s, 0, 2));
}

#[test]
fn literals_of_a_line() {
    let s = to_chars("[3, -1] 0 7x 2");
    assert_eq!(parse_line(&s, 0, s.len(), 0), (lits(&[3, -1, 2]), 2));
    assert_eq!(parse_line(&s, 0, s.len(), 9), (lits(&[3, -1, 2]), 9));
    assert_eq!(parse_line(&s, 0, 2, 0), (lits(&[3]), 2));
    assert_eq!(parse_line(&s, 4, 4, 5), (vec![], 5));
}
