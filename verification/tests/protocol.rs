use task_ws::text::{
    is_whitespace, line_end_from, parse_unsigned, push_decimal, to_chars, word_end_from,
};
use task_ws::{
    parse_matrix, parse_node_count, solve_tsp, try_solve_tsp, Engine, MalformedInput,
};

fn chars(s: &str) -> Vec<char> {
    s.chars().collect()
}

fn number(token: &str, max: u64) -> Option<u64> {
    let chars = chars(token);
    parse_unsigned(&chars, 0, chars.len(), max)
}

fn decimal(v: u64) -> String {
    let mut out = String::new();
    push_decimal(&mut out, v);
    out
}

#[test]
fn whitespace_is_what_separates() {
    for c in [' ', '\t', '\n', '\r', '\u{b}', '\u{c}', '\u{85}', '\u{a0}', '\u{1680}', '\u{2000}',
        '\u{2005}', '\u{200a}', '\u{2028}', '\u{2029}', '\u{202f}', '\u{205f}', '\u{3000}']
    {
        assert!(is_whitespace(c), "{:?}", c);
    }
    for c in
        ['0', 'a', '+', '-', '\u{8}', '\u{e}', '\u{1f}', '\u{200b}', '\u{180e}', '\u{feff}', '\0']
    {
        assert!(!is_whitespace(c), "{:?}", c);
    }
    // the same characters as the standard library's
    for code in 0..0x3100u32 {
        if let Some(c) = char::from_u32(code) {
            assert_eq!(is_whitespace(c), c.is_whitespace(), "{:?}", c);
        }
    }
}

#[test]
fn text_to_characters() {
    assert_eq!(to_chars(""), Vec::<char>::new());
    assert_eq!(to_chars("a b\n"), vec!['a', ' ', 'b', '\n']);
    assert_eq!(to_chars("é\u{3000}x"), vec!['é', '\u{3000}', 'x']);
}

#[test]
fn lines_end_behind_the_line_feed() {
    let text = chars("12\n3 4\n\nlast");
    assert_eq!(line_end_from(&text, 0), 3);
    assert_eq!(line_end_from(&text, 1), 3);
    assert_eq!(line_end_from(&text, 3), 7);
    assert_eq!(line_end_from(&text, 7), 8);
    assert_eq!(line_end_from(&text, 8), 12);
    assert_eq!(line_end_from(&text, 12), 12);
    assert_eq!(line_end_from(&chars(""), 0), 0);
}

#[test]
fn words_end_at_whitespace() {
    let text = chars("ab  cde\tf");
    assert_eq!(word_end_from(&text, 0, text.len()), 2);
    assert_eq!(word_end_from(&text, 2, text.len()), 2);
    assert_eq!(word_end_from(&text, 4, text.len()), 7);
    assert_eq!(word_end_from(&text, 4, 6), 6);
    assert_eq!(word_end_from(&text, 8, text.len()), 9);
}

#[test]
fn numbers_are_digits_after_an_optional_plus() {
    let max = u32::MAX as u64;
    assert_eq!(number("0", max), Some(0));
    assert_eq!(number("7", max), Some(7));
    assert_eq!(number("+7", max), Some(7));
    assert_eq!(number("007", max), Some(7));
    assert_eq!(number("+000", max), Some(0));
    assert_eq!(number("1234567890", max), Some(1234567890));
    assert_eq!(number("4294967295", max), Some(4294967295));
    assert_eq!(number("4294967296", max), None);
    assert_eq!(number("00000000004294967295", max), Some(4294967295));
    assert_eq!(number("99999999999999999999999999", max), None);
    assert_eq!(number("", max), None);
    assert_eq!(number("+", max), None);
    assert_eq!(number("-", max), None);
    assert_eq!(number("-0", max), None);
    assert_eq!(number("-5", max), None);
    assert_eq!(number("++5", max), None);
    assert_eq!(number("5+", max), None);
    assert_eq!(number("1_000", max), None);
    assert_eq!(number("12a", max), None);
    assert_eq!(number("0x10", max), None);
    assert_eq!(number("1.5", max), None);
    assert_eq!(number("١٢", max), None);
    assert_eq!(number("18446744073709551615", u64::MAX), Some(u64::MAX));
    assert_eq!(number("18446744073709551616", u64::MAX), None);
    assert_eq!(number("18446744073709551615x", u64::MAX), None);
    assert_eq!(number("10", 9), None);
    assert_eq!(number("9", 9), Some(9));
    // a part of a longer text
    let text = chars("x123y");
    assert_eq!(parse_unsigned(&text, 1, 4, max), Some(123));
    assert_eq!(parse_unsigned(&text, 1, 5, max), None);
    assert_eq!(parse_unsigned(&text, 2, 2, max), None);
}

#[test]
fn numbers_in_base_ten() {
    assert_eq!(decimal(0), "0");
    assert_eq!(decimal(7), "7");
    assert_eq!(decimal(10), "10");
    assert_eq!(decimal(1203), "1203");
    assert_eq!(decimal(4294967295), "4294967295");
    assert_eq!(decimal(u64::MAX), "18446744073709551615");
    let mut out = String::from("n = ");
    push_decimal(&mut out, 42);
    assert_eq!(out, "n = 42");
}

#[test]
fn written_numbers_read_back() {
    for v in [0u64, 1, 9, 10, 11, 99, 100, 101, 65535, 4294967294, 4294967295, u64::MAX] {
        assert_eq!(number(&decimal(v), u64::MAX), Some(v));
    }
}

#[test]
fn matrix_is_read_row_by_row() {
    assert_eq!(parse_matrix("0\n"), Ok(vec![]));
    assert_eq!(parse_matrix("0"), Ok(vec![]));
    assert_eq!(parse_matrix("0\nanything at all\n"), Ok(vec![]));
    assert_eq!(parse_matrix("1\n5\n"), Ok(vec![vec![5]]));
    assert_eq!(parse_matrix("2\n0 1\n2 3\n"), Ok(vec![vec![0, 1], vec![2, 3]]));
    assert_eq!(parse_matrix("2\n0 1\n2 3"), Ok(vec![vec![0, 1], vec![2, 3]]));
    assert_eq!(
        parse_matrix("  +2 \r\n\t0   1\r\n2\u{a0}3 \r\nmore lines\nare ignored"),
        Ok(vec![vec![0, 1], vec![2, 3]])
    );
}

#[test]
fn a_token_that_is_no_distance_is_unreachable() {
    assert_eq!(
        parse_matrix("2\n0 x\n-1 4294967296\n"),
        Ok(vec![vec![0, u32::MAX], vec![u32::MAX, u32::MAX]])
    );
    assert_eq!(parse_matrix("1\n1.5\n"), Ok(vec![vec![u32::MAX]]));
    for engine in [Engine::Scalar, Engine::Lanes] {
        // the only tour uses the edge that cannot be used
        assert_eq!(solve_tsp("2\n0 x\n5 0\n", engine), Ok("4294967295\n".to_string()));
        // the tour 0 -> 1 -> 2 -> 0 avoids it
        assert_eq!(
            solve_tsp("3\n0 1 oops\n9 0 2\n3 9 0\n", engine),
            Ok("6\n".to_string())
        );
        // one node: the matrix is not looked at
        assert_eq!(solve_tsp("1\nx\n", engine), Ok("0\n".to_string()));
    }
}

#[test]
fn node_count_errors() {
    for input in ["", "\n", "   \n", "foo\n", "-1\n", "1 2\n", "3x\n", "2.0\n", "+\n",
        "99999999999999999999999999\n", "\n3\n0 0 0\n0 0 0\n0 0 0\n"]
    {
        assert_eq!(parse_matrix(input), Err(MalformedInput::NodeCount), "{:?}", input);
        assert_eq!(solve_tsp(input, Engine::Scalar), Err(MalformedInput::NodeCount));
        assert_eq!(solve_tsp(input, Engine::Lanes), Err(MalformedInput::NodeCount));
        assert_eq!(try_solve_tsp(input, Engine::Lanes), Some(Err(MalformedInput::NodeCount)));
        assert_eq!(parse_node_count(input), None);
    }
    assert_eq!(MalformedInput::NodeCount.message(), "Invalid N");
}

#[test]
fn row_length_errors() {
    let cases: [(&str, usize, usize, usize); 8] = [
        ("3\n0 1 2\n3 4 5\n", 3, 3, 0),
        ("3\n", 1, 3, 0),
        ("3", 1, 3, 0),
        ("2\n0\n0 0\n", 1, 2, 1),
        ("2\n0 1 2\n0 0\n", 1, 2, 3),
        ("2\n0 1\n0\n", 2, 2, 1),
        ("2\n0 1\n\n0 1\n", 2, 2, 0),
        ("1\n\n", 1, 1, 0),
    ];
    for (input, line, expected, found) in cases {
        let why = MalformedInput::RowLength { line, expected, found };
        assert_eq!(parse_matrix(input), Err(why), "{:?}", input);
        assert_eq!(solve_tsp(input, Engine::Scalar), Err(why));
        assert_eq!(solve_tsp(input, Engine::Lanes), Err(why));
        assert_eq!(try_solve_tsp(input, Engine::Scalar), Some(Err(why)));
    }
    // the first bad row is reported
    assert_eq!(
        parse_matrix("3\n0 1\n0\n0 0 0 0\n"),
        Err(MalformedInput::RowLength { line: 1, expected: 3, found: 2 })
    );
    assert_eq!(
        MalformedInput::RowLength { line: 2, expected: 3, found: 0 }.message(),
        "Line 2: expected 3 values, got 0"
    );
    assert_eq!(
        MalformedInput::RowLength { line: 12, expected: 100, found: 99 }.message(),
        "Line 12: expected 100 values, got 99"
    );
}

#[test]
fn a_huge_node_count_fails_at_the_first_row() {
    let count = usize::MAX.to_string();
    assert_eq!(
        parse_matrix(&format!("{}\n0 0\n", count)),
        Err(MalformedInput::RowLength { line: 1, expected: usize::MAX, found: 2 })
    );
    assert_eq!(
        try_solve_tsp(&format!("{}\n0 0\n", count), Engine::Scalar),
        Some(Err(MalformedInput::RowLength { line: 1, expected: usize::MAX, found: 2 }))
    );
    assert_eq!(parse_node_count(&count), Some(usize::MAX));
    assert_eq!(parse_node_count(&format!("{}0", count)), None);
}

#[test]
fn answer_is_one_decimal_line() {
    for engine in [Engine::Scalar, Engine::Lanes] {
        assert_eq!(solve_tsp("0\n", engine), Ok("0\n".to_string()));
        assert_eq!(solve_tsp("0", engine), Ok("0\n".to_string()));
        assert_eq!(solve_tsp("1\n0\n", engine), Ok("0\n".to_string()));
        assert_eq!(solve_tsp("1\n7\n", engine), Ok("0\n".to_string()));
        assert_eq!(solve_tsp("2\n0 3\n4 0\n", engine), Ok("7\n".to_string()));
        assert_eq!(
            solve_tsp("3\n0 10 15\n10 0 20\n15 20 0\n", engine),
            Ok("45\n".to_string())
        );
        assert_eq!(
            solve_tsp("2\n0 2147483647\n2147483647 0\n", engine),
            Ok("4294967294\n".to_string())
        );
        assert_eq!(
            solve_tsp("2\n0 2147483648\n2147483648 0\n", engine),
            Ok("4294967295\n".to_string())
        );
    }
}

#[test]
fn node_count_is_one_number_on_the_first_line() {
    assert_eq!(parse_node_count("0\n"), Some(0));
    assert_eq!(parse_node_count("3\n"), Some(3));
    assert_eq!(parse_node_count("3"), Some(3));
    assert_eq!(parse_node_count(" \t+12 \r\n"), Some(12));
    assert_eq!(parse_node_count("007\n"), Some(7));
    assert_eq!(parse_node_count("\u{3000}5\u{a0}\n"), Some(5));
    assert_eq!(parse_node_count("5 5\n"), None);
    assert_eq!(parse_node_count("five\n"), None);
    assert_eq!(parse_node_count("-3\n"), None);
    assert_eq!(parse_node_count(""), None);
}

#[test]
fn instances_of_ordinary_size_can_be_solved() {
    for engine in [Engine::Scalar, Engine::Lanes] {
        assert_eq!(try_solve_tsp("0\n", engine), Some(Ok("0\n".to_string())));
        assert_eq!(
            try_solve_tsp("3\n0 10 15\n10 0 20\n15 20 0\n", engine),
            Some(Ok("45\n".to_string()))
        );
        let mut input = String::from("12\n");
        for _ in 0..12 {
            input.push_str(&"1 ".repeat(12));
            input.push('\n');
        }
        assert_eq!(try_solve_tsp(&input, engine), Some(Ok("12\n".to_string())));
        assert_eq!(solve_tsp(&input, engine), Ok("12\n".to_string()));
    }
}

#[test]
fn an_instance_too_large_for_a_table_is_told_apart() {
    let n = usize::BITS as usize;
    let mut input = format!("{}\n", n);
    for _ in 0..n {
        input.push_str(&"1 ".repeat(n));
        input.push('\n');
    }
    assert!(parse_matrix(&input).is_ok());
    assert_eq!(try_solve_tsp(&input, Engine::Scalar), None);
    assert_eq!(try_solve_tsp(&input, Engine::Lanes), None);
}
