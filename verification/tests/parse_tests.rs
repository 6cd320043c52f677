use nn_tour::parse::{is_numeric_token, parse_point, parse_points, split_tokens, PointParseError};

fn expect_ok(line: &str) -> (String, String) {
    match parse_point(line) {
        Ok(pair) => pair,
        Err(e) => panic!("expected Ok for {:?}, got {:?}", line, e),
    }
}

#[test]
fn plain_pair_parses() {
    let (a, b) = expect_ok("1.0 2.0");
    assert_eq!(a, "1.0");
    assert_eq!(b, "2.0");
}

#[test]
fn surrounding_whitespace_is_ignored() {
    let (a, b) = expect_ok("  3.5\t4.25  ");
    assert_eq!(a, "3.5");
    assert_eq!(b, "4.25");
}

#[test]
fn three_tokens_are_a_format_error() {
    match parse_point("1 2 3") {
        Err(PointParseError::InvalidFormat(line)) => assert_eq!(line, "1 2 3"),
        other => panic!("expected InvalidFormat, got {:?}", other),
    }
}

#[test]
fn one_token_is_a_format_error() {
    assert!(matches!(
        parse_point("1.0"),
        Err(PointParseError::InvalidFormat(_))
    ));
}

#[test]
fn empty_line_is_a_format_error() {
    assert!(matches!(
        parse_point(""),
        Err(PointParseError::InvalidFormat(_))
    ));
}

#[test]
fn non_numeric_token_is_a_parse_error() {
    match parse_point("1.0 abc") {
        Err(PointParseError::ParseError(token)) => assert_eq!(token, "abc"),
        other => panic!("expected ParseError, got {:?}", other),
    }
}

#[test]
fn parse_error_wins_over_wrong_count() {
    match parse_point("abc 1 2") {
        Err(PointParseError::ParseError(token)) => assert_eq!(token, "abc"),
        other => panic!("expected ParseError, got {:?}", other),
    }
}

#[test]
fn first_bad_token_is_reported() {
    match parse_point("1 x y") {
        Err(PointParseError::ParseError(token)) => assert_eq!(token, "x"),
        other => panic!("expected ParseError, got {:?}", other),
    }
}

#[test]
fn accepted_tokens_parse_as_floats() {
    let good = [
        "0", "1", "-1", "+7", "1.0", "5.", ".5", "-.5", "+1.5e-3", "1e5", "1E5", "1.e5",
        "12.34e+2", "inf", "-inf", "Inf", "INFINITY", "-InFiNiTy", "nan", "NaN", "-NAN",
        "000123", "9.9999999e300",
    ];
    for tok in good {
        assert!(is_numeric_token(tok), "should accept {:?}", tok);
        assert!(tok.parse::<f64>().is_ok(), "float parser rejects {:?}", tok);
    }
}

#[test]
fn rejected_tokens_fail_the_float_parser_too() {
    let bad = [
        "", "+", "-", ".", "+.", "e5", "1e", "1e+", "--1", "1.2.3", "1x2", "in", "infini",
        "nanx", "infinityy", "1 2", "0x10", "١٢",
    ];
    for tok in bad {
        assert!(!is_numeric_token(tok), "should reject {:?}", tok);
        assert!(tok.parse::<f64>().is_err(), "float parser accepts {:?}", tok);
    }
}

#[test]
fn accepted_pair_round_trips_through_the_float_parser() {
    let (a, b) = expect_ok("-2.5e1 +0.125");
    assert_eq!(a.parse::<f64>().unwrap(), -25.0);
    assert_eq!(b.parse::<f64>().unwrap(), 0.125);
}

#[test]
fn tokens_split_on_unicode_whitespace() {
    let tokens = split_tokens("1.0\u{2003}2.0");
    assert_eq!(tokens, vec!["1.0".to_string(), "2.0".to_string()]);
}

#[test]
fn splitting_keeps_token_order_and_content() {
    let tokens = split_tokens("  alpha  beta\tgamma ");
    assert_eq!(
        tokens,
        vec!["alpha".to_string(), "beta".to_string(), "gamma".to_string()]
    );
}

#[test]
fn all_good_lines_parse_in_order() {
    let lines = vec![
        "0 0".to_string(),
        " 3.0  4.0 ".to_string(),
        "-1e2 .5".to_string(),
    ];
    let pairs = parse_points(&lines).unwrap();
    assert_eq!(
        pairs,
        vec![
            ("0".to_string(), "0".to_string()),
            ("3.0".to_string(), "4.0".to_string()),
            ("-1e2".to_string(), ".5".to_string()),
        ]
    );
}

#[test]
fn first_bad_line_aborts_the_whole_run() {
    let lines = vec![
        "1 2".to_string(),
        "x y".to_string(),
        "3 4 5".to_string(),
    ];
    match parse_points(&lines) {
        Err(PointParseError::ParseError(token)) => assert_eq!(token, "x"),
        other => panic!("expected ParseError, got {:?}", other),
    }
    let lines = vec!["1 2".to_string(), "3 4 5".to_string()];
    match parse_points(&lines) {
        Err(PointParseError::InvalidFormat(line)) => assert_eq!(line, "3 4 5"),
        other => panic!("expected InvalidFormat, got {:?}", other),
    }
}

#[test]
fn error_messages_name_the_offender() {
    match parse_point("1 2 3") {
        Err(e) => assert_eq!(e.message(), "Invalid format: 1 2 3"),
        other => panic!("expected an error, got {:?}", other),
    }
    match parse_point("1 oops") {
        Err(e) => assert_eq!(e.message(), "Error parsing coordinate: oops"),
        other => panic!("expected an error, got {:?}", other),
    }
    let io = PointParseError::IoError("no such file".to_string());
    assert_eq!(io.message(), "I/O Error: no such file");
}
