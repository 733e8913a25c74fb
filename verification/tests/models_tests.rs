use github_fetcher_mcp::models::{parse_line_range, LineRange};

#[test]
fn parses_line_range_strings() {
    let cases = [
        ("1..200", LineRange::Range { start: 1, end: 200 }),
        ("1...200", LineRange::Range { start: 1, end: 200 }),
        ("..200", LineRange::End(200)),
        ("1..", LineRange::Start(1)),
        ("1:200", LineRange::Range { start: 1, end: 200 }),
        ("1:", LineRange::Start(1)),
        (":200", LineRange::End(200)),
    ];

    for (input, expected) in cases {
        let parsed = parse_line_range(input).unwrap();
        assert_eq!(parsed, expected);
    }
}

#[test]
fn parses_numeric_line_range() {
    let parsed = parse_line_range("10").unwrap();
    assert_eq!(parsed, LineRange::End(10));
}

#[test]
fn ignores_whitespace_around_the_expression_and_its_sides() {
    assert_eq!(
        parse_line_range(" 1 .. 200 "),
        Some(LineRange::Range { start: 1, end: 200 })
    );
    assert_eq!(parse_line_range(" 10 "), Some(LineRange::End(10)));
}

#[test]
fn accepts_a_leading_plus_sign() {
    assert_eq!(parse_line_range("+10"), Some(LineRange::End(10)));
}

#[test]
fn rejects_malformed_line_ranges() {
    assert_eq!(parse_line_range(""), None);
    assert_eq!(parse_line_range("   "), None);
    assert_eq!(parse_line_range(":"), None);
    assert_eq!(parse_line_range(".."), None);
    assert_eq!(parse_line_range("abc"), None);
    assert_eq!(parse_line_range("a..b"), None);
    assert_eq!(parse_line_range("a..5"), None);
    assert_eq!(parse_line_range("1..x"), None);
    assert_eq!(parse_line_range("1.5"), None);
    assert_eq!(parse_line_range("99999999999999999999999999"), None);
}

#[test]
fn separator_precedence_prefers_three_dots() {
    assert_eq!(
        parse_line_range("2...9"),
        Some(LineRange::Range { start: 2, end: 9 })
    );
    assert_eq!(
        parse_line_range("2..9"),
        Some(LineRange::Range { start: 2, end: 9 })
    );
}

#[test]
fn bounds_map_each_form_to_first_and_last_kept_line() {
    assert_eq!(LineRange::End(5).bounds(), (1, Some(5)));
    assert_eq!(LineRange::Range { start: 2, end: 7 }.bounds(), (2, Some(7)));
    assert_eq!(LineRange::Start(3).bounds(), (3, None));
}

#[test]
fn default_depth_is_one() {
    assert_eq!(github_fetcher_mcp::default_depth(), 1);
}
