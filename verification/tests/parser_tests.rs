use perf_focus::parser::{
    compile, parse_atom, parse_chain, parse_matcher, parse_matcher_at, parse_query,
    skip_whitespace, Expected, ParseError, Query, MATCHER_RE,
};

fn chars(text: &str) -> Vec<char> {
    text.chars().collect()
}

fn shape(text: &str) -> String {
    format!("{:?}", parse_query(text).unwrap())
}

fn syntax_error(text: &str) -> (Expected, usize) {
    match parse_query(text) {
        Err(ParseError::Syntax { expected, offset }) => (expected, offset),
        _ => panic!("no syntax error"),
    }
}

#[test]
fn atoms_are_read() {
    assert_eq!(shape("{a}"), "Regex(\"a\")");
    assert_eq!(shape("."), "Wildcard");
    assert_eq!(shape("({a})"), "Paren(Regex(\"a\"))");
    assert_eq!(shape("..{a}"), "Skip(Regex(\"a\"), Empty)");
    assert_eq!(shape(".. ."), "Skip(Wildcard, Empty)");
}

#[test]
fn operators_are_read() {
    assert_eq!(shape("{a},{b}"), "Then(Regex(\"a\"), Regex(\"b\"))");
    assert_eq!(shape("{a},{b},{c}"), "Then(Regex(\"a\"), Then(Regex(\"b\"), Regex(\"c\")))");
    assert_eq!(shape("{a}..{b}"), "Then(Regex(\"a\"), Skip(Regex(\"b\"), Empty))");
    assert_eq!(shape("{a}..!{b}"), "Then(Regex(\"a\"), Not(Skip(Regex(\"b\"), Empty)))");
    assert_eq!(shape("!{a}..{b}"), "Skip(Regex(\"b\"), Not(Regex(\"a\")))");
    assert_eq!(shape("{a}/{b}"), "Or(Regex(\"a\"), Regex(\"b\"))");
    assert_eq!(shape("{a}/{b}/{c}"), "Or(Regex(\"a\"), Or(Regex(\"b\"), Regex(\"c\")))");
}

#[test]
fn alternatives_bind_tighter_than_skips_and_sequences() {
    assert_eq!(shape("{a}/{b},{c}"), "Then(Or(Regex(\"a\"), Regex(\"b\")), Regex(\"c\"))");
    assert_eq!(shape("{a},{b}/{c}"), "Then(Regex(\"a\"), Or(Regex(\"b\"), Regex(\"c\")))");
    assert_eq!(
        shape("{a}..{b}/{c}"),
        "Then(Regex(\"a\"), Skip(Or(Regex(\"b\"), Regex(\"c\")), Empty))"
    );
    assert_eq!(
        shape("{a}..{b},{c}"),
        "Then(Regex(\"a\"), Skip(Then(Regex(\"b\"), Regex(\"c\")), Empty))"
    );
    assert_eq!(shape("..{a}/{b}"), "Or(Skip(Regex(\"a\"), Empty), Regex(\"b\"))");
}

#[test]
fn blanks_may_stand_between_parts_and_at_the_end() {
    assert_eq!(shape("{a} , {b}"), "Then(Regex(\"a\"), Regex(\"b\"))");
    assert_eq!(shape("{a}\n..\n{b}  "), "Then(Regex(\"a\"), Skip(Regex(\"b\"), Empty))");
    assert_eq!(shape("( {a} )"), "Paren(Regex(\"a\"))");
    assert_eq!(shape("! {a} .. {b}"), "Skip(Regex(\"b\"), Not(Regex(\"a\")))");
    assert_eq!(syntax_error(" {a}"), (Expected::Matcher, 0));
    assert_eq!(syntax_error("{a}\t"), (Expected::EndOfInput, 3));
}

#[test]
fn patterns_may_hold_braces_and_escapes() {
    assert_eq!(shape("{a{2}}"), "Regex(\"a{2}\")");
    assert_eq!(shape("{a\\}b}"), "Regex(\"a\\\\}b\")");
    assert_eq!(shape("{}"), "Regex(\"\")");
    assert_eq!(shape("{a b}"), "Regex(\"a b\")");
    assert_eq!(shape("{\u{e9}\\\u{e9}}"), "Regex(\"\u{e9}\\\\\u{e9}\")");
}

#[test]
fn text_that_is_no_query_gives_a_syntax_error() {
    assert_eq!(syntax_error(""), (Expected::Matcher, 0));
    assert_eq!(syntax_error("a"), (Expected::Matcher, 0));
    assert_eq!(syntax_error("{a"), (Expected::Matcher, 0));
    assert_eq!(syntax_error("{a},"), (Expected::EndOfInput, 3));
    assert_eq!(syntax_error("{a},{"), (Expected::EndOfInput, 3));
    assert_eq!(syntax_error("{a} {b}"), (Expected::EndOfInput, 4));
    assert_eq!(syntax_error("({a}"), (Expected::Matcher, 0));
    assert_eq!(syntax_error("{a}/"), (Expected::EndOfInput, 3));
    assert_eq!(syntax_error("{a}.."), (Expected::EndOfInput, 3));
    assert_eq!(syntax_error("!{a}"), (Expected::Matcher, 0));
    assert_eq!(syntax_error(".."), (Expected::EndOfInput, 1));
}

#[test]
fn missing_parts_are_named() {
    assert_eq!(Expected::OpenBrace.describe(), "'{' character");
    assert_eq!(Expected::CloseBrace.describe(), "matching '}' character");
    assert_eq!(Expected::Matcher.describe(), ".");
    assert_eq!(Expected::EndOfInput.describe(), "end of input");
}

#[test]
fn pattern_atom_is_read_at_an_offset() {
    let text = chars("x{a{b}c}y");
    match MATCHER_RE::parse(&text, 1) {
        Ok((Query::Regex(pattern), end)) => {
            assert_eq!(pattern, "a{b}c");
            assert_eq!(end, 8);
        }
        _ => panic!("no pattern"),
    }
    assert!(matches!(
        MATCHER_RE::parse(&text, 0),
        Err(ParseError::Syntax { expected: Expected::OpenBrace, offset: 0 })
    ));
    assert!(matches!(
        MATCHER_RE::parse(&text, 9),
        Err(ParseError::Syntax { expected: Expected::OpenBrace, offset: 9 })
    ));
    let open = chars("{a{b}");
    assert!(matches!(
        MATCHER_RE::parse(&open, 0),
        Err(ParseError::Syntax { expected: Expected::CloseBrace, offset: 5 })
    ));
    let escaped = chars("{a\\}");
    assert!(matches!(
        MATCHER_RE::parse(&escaped, 0),
        Err(ParseError::Syntax { expected: Expected::CloseBrace, offset: 4 })
    ));
    let trailing = chars("{a\\");
    assert!(matches!(
        MATCHER_RE::parse(&trailing, 0),
        Err(ParseError::Syntax { expected: Expected::CloseBrace, offset: 3 })
    ));
}

#[test]
fn parts_are_read_at_an_offset() {
    let text = chars("  {a}/{b} , {c}");
    assert_eq!(skip_whitespace(&text, 0), 2);
    assert_eq!(skip_whitespace(&text, 2), 2);
    let (atom, end) = parse_atom(&text, 2).unwrap();
    assert_eq!(format!("{:?}", atom), "Regex(\"a\")");
    assert_eq!(end, 5);
    let (chain, end) = parse_chain(&text, 2).unwrap();
    assert_eq!(format!("{:?}", chain), "Or(Regex(\"a\"), Regex(\"b\"))");
    assert_eq!(end, 9);
    let (matcher, end) = parse_matcher_at(&text, 2).unwrap();
    assert_eq!(
        format!("{:?}", matcher),
        "Then(Or(Regex(\"a\"), Regex(\"b\")), Regex(\"c\"))"
    );
    assert_eq!(end, 15);
    assert!(parse_atom(&text, 0).is_none());
    assert!(parse_matcher_at(&text, 15).is_none());
}

#[test]
fn pattern_that_does_not_compile_is_named() {
    match parse_matcher("{a},{(}") {
        Err(ParseError::InvalidRegex { pattern, reason }) => {
            assert_eq!(pattern, "(");
            assert!(!reason.is_empty());
        }
        _ => panic!("no error"),
    }
    match parse_matcher("{[},{(}") {
        Err(ParseError::InvalidRegex { pattern, .. }) => assert_eq!(pattern, "["),
        _ => panic!("no error"),
    }
    assert!(parse_matcher(".,(.)").is_ok());
    assert!(matches!(
        parse_matcher("{(},"),
        Err(ParseError::Syntax { expected: Expected::EndOfInput, offset: 3 })
    ));
}

#[test]
fn compiled_query_says_what_was_written() {
    let query = parse_query("!{a}..({b}/.)").unwrap();
    let matcher = compile(&query).unwrap();
    assert_eq!(matcher.describe(), "..({b}/.) while !{a}");
    let frames = [format!("x"), format!("b")];
    let found = matcher.search_trace(&frames).unwrap();
    assert_eq!((found.first_matching_frame, found.first_callee_frame), (0, 1));
}
