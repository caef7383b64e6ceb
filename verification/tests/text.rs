use graphew::graph::text::{
    chars_of, copy_range, find_char_in, fold_case_char, is_space_char, line_begins_with,
    parse_id_in, separator_of, split_lines, string_from, FIELD_MARK, TARGET_MARK,
};

fn chars(s: &str) -> Vec<char> {
    s.chars().collect()
}

fn lines_of(s: &str) -> Vec<String> {
    split_lines(&chars(s))
        .into_iter()
        .map(|l| l.into_iter().collect())
        .collect()
}

fn parse(s: &str) -> Option<usize> {
    let c = chars(s);
    parse_id_in(&c, 0, c.len())
}

#[test]
fn marks() {
    assert_eq!(FIELD_MARK, ':');
    assert_eq!(TARGET_MARK, ',');
}

#[test]
fn characters_of_a_text() {
    assert_eq!(chars_of(""), Vec::<char>::new());
    assert_eq!(chars_of("aä→"), vec!['a', 'ä', '→']);
    assert_eq!(string_from(&chars("hello"), 2), "llo");
    assert_eq!(string_from(&chars("hello"), 5), "");
    assert_eq!(string_from(&chars("aä→"), 0), "aä→");
    assert_eq!(copy_range(&chars("hello"), 1, 3), vec!['e', 'l']);
    assert_eq!(copy_range(&chars("hello"), 2, 2), Vec::<char>::new());
}

#[test]
fn finding_a_character() {
    let c = chars("a,b,,c");
    assert_eq!(find_char_in(&c, ',', 0), 1);
    assert_eq!(find_char_in(&c, ',', 1), 1);
    assert_eq!(find_char_in(&c, ',', 2), 3);
    assert_eq!(find_char_in(&c, ',', 4), 4);
    assert_eq!(find_char_in(&c, ',', 5), 6);
    assert_eq!(find_char_in(&c, ',', 6), 6);
    assert_eq!(find_char_in(&c, 'x', 0), 6);
}

#[test]
fn lines_with_exact_values() {
    assert_eq!(lines_of(""), Vec::<String>::new());
    assert_eq!(lines_of("\n"), vec![""]);
    assert_eq!(lines_of("a"), vec!["a"]);
    assert_eq!(lines_of("a\n"), vec!["a"]);
    assert_eq!(lines_of("a\n\nb"), vec!["a", "", "b"]);
    assert_eq!(lines_of("a\r\nb\r"), vec!["a", "b\r"]);
    assert_eq!(lines_of("a\r\r\nb"), vec!["a\r", "b"]);
    assert_eq!(lines_of("\r\n\r\n"), vec!["", ""]);
}

#[test]
fn lines_agree_with_the_standard_library() {
    let pieces = ["", "a", "\n", "\r", "\r\n", "b c", "::", "\n\n", "x\r"];
    for a in pieces {
        for b in pieces {
            for c in pieces {
                let text = format!("{}{}{}", a, b, c);
                let expected: Vec<String> = text.lines().map(String::from).collect();
                assert_eq!(lines_of(&text), expected);
            }
        }
    }
}

#[test]
fn white_space_agrees_with_the_standard_library() {
    for code in 0..=0x10FFFFu32 {
        if let Some(c) = char::from_u32(code) {
            assert_eq!(is_space_char(c), c.is_whitespace());
        }
    }
}

#[test]
fn case_folding() {
    assert_eq!(fold_case_char('A'), 'a' as u32);
    assert_eq!(fold_case_char('Z'), 'z' as u32);
    assert_eq!(fold_case_char('a'), 'a' as u32);
    assert_eq!(fold_case_char('@'), '@' as u32);
    assert_eq!(fold_case_char('['), '[' as u32);
    assert_eq!(fold_case_char('Ä'), 'Ä' as u32);
    for code in 0..=0x10FFFFu32 {
        if let Some(c) = char::from_u32(code) {
            assert_eq!(fold_case_char(c), c.to_ascii_lowercase() as u32);
        }
    }
}

#[test]
fn beginning_of_a_line() {
    let states = chars("States");
    for (line, expected) in [
        ("States", true),
        ("  \t states: 12", true),
        ("STATES", true),
        ("\u{2003}States", true),
        ("State", false),
        ("", false),
        ("   ", false),
        ("x States", false),
        ("Stat es", false),
        ("Transitions", false),
    ] {
        assert_eq!(line_begins_with(&chars(line), &states), expected);
    }
    assert!(line_begins_with(&chars("anything"), &chars("")));
}

#[test]
fn first_separator() {
    assert_eq!(separator_of(&chars("")), None);
    assert_eq!(separator_of(&chars(":")), None);
    assert_eq!(separator_of(&chars("a:b:c")), None);
    assert_eq!(separator_of(&chars("::")), Some(0));
    assert_eq!(separator_of(&chars("12::ab::cd")), Some(2));
    assert_eq!(separator_of(&chars("a:::b")), Some(1));
    assert_eq!(separator_of(&chars("abc::")), Some(3));
    for line in ["x::y::z", "::", ":a::", "a:b", "::::", "a"] {
        assert_eq!(
            separator_of(&chars(line)),
            line.find("::").map(|at| line[..at].chars().count())
        );
    }
}

#[test]
fn identifiers_with_exact_values() {
    assert_eq!(parse("0"), Some(0));
    assert_eq!(parse("42"), Some(42));
    assert_eq!(parse("+42"), Some(42));
    assert_eq!(parse("0042"), Some(42));
    assert_eq!(parse(""), None);
    assert_eq!(parse("+"), None);
    assert_eq!(parse("-1"), None);
    assert_eq!(parse("++1"), None);
    assert_eq!(parse("1+"), None);
    assert_eq!(parse(" 1"), None);
    assert_eq!(parse("1 "), None);
    assert_eq!(parse("1a"), None);
    assert_eq!(parse("١"), None);
    let c = chars("ab123cd");
    assert_eq!(parse_id_in(&c, 2, 5), Some(123));
    assert_eq!(parse_id_in(&c, 2, 6), None);
    assert_eq!(parse_id_in(&c, 3, 3), None);
}

#[test]
fn identifiers_agree_with_the_standard_library() {
    let max = usize::MAX.to_string();
    let mut over = max.clone();
    let last = over.pop().unwrap();
    over.push(char::from_digit(last.to_digit(10).unwrap() + 1, 10).unwrap());
    let long = format!("{}0", max);
    let zeros = format!("000000000000000000000000000000{}", max);
    let cases: Vec<&str> = vec![
        "0", "7", "+7", "-7", "+", "", "12345678901234567890", "99999999999999999999",
        &max, &over, &long, &zeros, "1_000", "0x10", "1e3", "１２",
    ];
    for case in cases {
        assert_eq!(parse(case), case.parse::<usize>().ok());
    }
}
