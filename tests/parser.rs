use lq::parser::common::{label_identifier, match_text, match_token, separated_list};
use lq::parser::error::{decimal_string, PError};
use lq::parser::token::{LqToken, LqTokenizer, TokenKind};

fn lex(source: &str) -> Vec<LqToken<'_>> {
    LqTokenizer::new(source).collect_tokens()
}

fn kinds(source: &str) -> Vec<TokenKind> {
    lex(source).iter().map(|t| t.kind).collect()
}

fn identifiers<'a>(input: &'a [LqToken<'a>]) -> Result<(usize, Vec<String>), PError> {
    separated_list(
        TokenKind::OpenParen,
        TokenKind::CloseParen,
        TokenKind::Comma,
        label_identifier,
        "test_separated_list",
        "test_separated_list",
        input,
        0,
    )
}

#[test]
fn test_separated_list() {
    let input = lex("(foo,bar,   baz, )");
    let (rest, elements) = identifiers(&input).unwrap();
    for (i, element) in elements.iter().enumerate() {
        println!("element {}: {:#?}", i, element);
    }
    assert_eq!(elements, vec!["foo".to_string(), "bar".to_string(), "baz".to_string()]);
    assert_eq!(rest, input.len());
}

#[test]
fn token_test_tokenizer() {
    let source = "map { .1 as a1, .3 as b1 } | select count_over_time(__line__[1s])";
    let res = lex(source);
    for token in &res {
        println!("{}", token.describe());
    }
    assert_eq!(
        kinds(source),
        vec![
            TokenKind::Mapper, TokenKind::OpenBrace, TokenKind::Dot, TokenKind::Number, TokenKind::As, TokenKind::Identifier, TokenKind::Comma, TokenKind::Dot, TokenKind::Number, TokenKind::As, TokenKind::Identifier,
            TokenKind::CloseBrace, TokenKind::Pipe, TokenKind::Select, TokenKind::Identifier, TokenKind::OpenParen, TokenKind::Identifier, TokenKind::OpenBracket, TokenKind::Number,
            TokenKind::Identifier, TokenKind::CloseBracket, TokenKind::CloseParen
        ]
    );
    assert_eq!(res[5].text(), "a1");
    assert_eq!(res[14].text(), "count_over_time");
    assert_eq!(res[14].at, "count_over_time");
    assert_eq!(res[16].text(), "__line__");
    assert_eq!(res[0].span, 0..3);
    assert_eq!(res[0].describe(), "Mapper at 0..3");
}

#[test]
fn keywords_in_any_case() {
    for (src, kind) in [
        ("map", TokenKind::Mapper),
        ("MAP", TokenKind::Mapper),
        ("Map", TokenKind::Mapper),
        ("mAp", TokenKind::Mapper),
        ("as", TokenKind::As),
        ("AS", TokenKind::As),
        ("aS", TokenKind::As),
        ("select", TokenKind::Select),
        ("SELECT", TokenKind::Select),
        ("SeLeCt", TokenKind::Select),
    ] {
        let toks = lex(src);
        assert_eq!(toks.len(), 1, "{}", src);
        assert_eq!(toks[0].kind, kind, "{}", src);
        assert_eq!(toks[0].span, 0..src.len());
    }
}

#[test]
fn keyword_prefix_is_an_identifier() {
    assert_eq!(kinds("mapper"), vec![TokenKind::Identifier]);
    assert_eq!(kinds("ass"), vec![TokenKind::Identifier]);
    assert_eq!(kinds("selected map1"), vec![TokenKind::Identifier, TokenKind::Identifier]);
    assert_eq!(kinds("1s"), vec![TokenKind::Number, TokenKind::Identifier]);
}

#[test]
fn empty_list_is_rejected() {
    let input = lex("()");
    let err = identifiers(&input).unwrap_err();
    assert_eq!(
        err,
        PError::Expected { expected: TokenKind::Identifier, found: TokenKind::CloseParen, at: 1 }
    );
}

#[test]
fn unrecognized_symbol_ends_lexing() {
    assert!(lex("@").is_empty());
    let toks = lex("a @ b");
    assert_eq!(toks.len(), 1);
    assert_eq!(toks[0].text(), "a");
    let mut lexer = LqTokenizer::new("x @");
    assert!(lexer.next().is_some());
    assert!(lexer.next().is_none());
    assert!(lexer.next().is_none());
}

#[test]
fn non_ascii_text_ends_lexing() {
    let toks = lex("ab\u{e9}cd");
    assert_eq!(toks.len(), 1);
    assert_eq!(toks[0].text(), "ab");
}

#[test]
fn whitespace_is_skipped() {
    assert!(lex("").is_empty());
    assert!(lex(" \t\r\n\x0c").is_empty());
    let toks = lex("  a\t,\n12 ");
    assert_eq!(toks.len(), 3);
    assert_eq!(toks[0].span, 2..3);
    assert_eq!(toks[1].span, 4..5);
    assert_eq!(toks[2].span, 6..8);
    assert_eq!(toks[2].text(), "12");
}

#[test]
fn mismatched_kind_names_both_kinds_and_position() {
    let input = lex("foo 42");
    let err = match_token(TokenKind::Identifier, &input, 1).unwrap_err();
    assert_eq!(
        err,
        PError::Expected { expected: TokenKind::Identifier, found: TokenKind::Number, at: 4 }
    );
    let msg = err.message();
    assert!(msg.contains("Identifier"));
    assert!(msg.contains("Number"));
    assert_eq!(msg, "Expected API Token Identifier, found Number at 4");
}

#[test]
fn exhausted_input() {
    let input = lex("foo");
    let err = match_token(TokenKind::Comma, &input, 1).unwrap_err();
    assert_eq!(err, PError::Exhausted { expected: TokenKind::Comma });
    assert_eq!(err.message(), "LoqQuery Token Comma does not match: input exhausted");
}

#[test]
fn match_token_consumes_one() {
    let input = lex("foo,bar");
    let (next, tok) = match_token(TokenKind::Identifier, &input, 0).unwrap();
    assert_eq!(next, 1);
    assert_eq!(tok.text(), "foo");
    let (next, tok) = match_token(TokenKind::Comma, &input, next).unwrap();
    assert_eq!(next, 2);
    assert_eq!(tok.span, 3..4);
}

#[test]
fn match_text_is_exact() {
    let input = lex("Map foo");
    let (next, tok) = match_text("Map", &input, 0).unwrap();
    assert_eq!(next, 1);
    assert_eq!(tok.kind, TokenKind::Mapper);
    let err = match_text("map", &input, 0).unwrap_err();
    assert_eq!(err, PError::TextMismatch { text: "map".to_string() });
    assert_eq!(err.message(), "LoqQuery Text map does not match");
    assert!(match_text("foo", &input, 1).is_ok());
    assert!(match_text("fo", &input, 1).is_err());
    assert!(match_text("foo", &input, 2).is_err());
}

#[test]
fn label_identifier_returns_text() {
    let input = lex("  name_1 select");
    let (next, name) = label_identifier(&input, 0).unwrap();
    assert_eq!(next, 1);
    assert_eq!(name, "name_1");
    let err = label_identifier(&input, 1).unwrap_err();
    assert_eq!(
        err,
        PError::Expected { expected: TokenKind::Identifier, found: TokenKind::Select, at: 9 }
    );
}

#[test]
fn lexing_is_deterministic() {
    let source = "map { .1 as a1 } | select f(x[2])";
    let a = lex(source);
    let b = lex(source);
    assert_eq!(a, b);
}

#[test]
fn spans_are_ordered() {
    let source = "map{.12 as  a1,x}|SELECT f ( y )";
    let toks = lex(source);
    for t in &toks {
        assert!(t.span.start < t.span.end);
        assert_eq!(&source[t.span.clone()], t.text());
    }
    for w in toks.windows(2) {
        assert!(w[0].span.end <= w[1].span.start);
    }
}

#[test]
fn separated_list_single_and_unterminated() {
    let input = lex("(a)");
    assert_eq!(identifiers(&input).unwrap(), (3, vec!["a".to_string()]));
    let input = lex("(a,)");
    assert_eq!(identifiers(&input).unwrap(), (4, vec!["a".to_string()]));
    let input = lex("(a, 1)");
    assert_eq!(
        identifiers(&input).unwrap_err(),
        PError::Expected { expected: TokenKind::CloseParen, found: TokenKind::Number, at: 4 }
    );
    let input = lex("(a b)");
    assert_eq!(
        identifiers(&input).unwrap_err(),
        PError::Expected { expected: TokenKind::CloseParen, found: TokenKind::Identifier, at: 3 }
    );
    let input = lex("(a,,)");
    assert!(identifiers(&input).is_err());
    let input = lex("[a]");
    assert_eq!(
        identifiers(&input).unwrap_err(),
        PError::Expected { expected: TokenKind::OpenParen, found: TokenKind::OpenBracket, at: 0 }
    );
    let input = lex("(a, b");
    assert_eq!(
        identifiers(&input).unwrap_err(),
        PError::Exhausted { expected: TokenKind::CloseParen }
    );
}

#[test]
fn separated_list_from_a_cursor() {
    let input = lex("select (x, y) | z");
    let (rest, names) = separated_list(
        TokenKind::OpenParen,
        TokenKind::CloseParen,
        TokenKind::Comma,
        label_identifier,
        "select",
        "names",
        &input,
        1,
    )
    .unwrap();
    assert_eq!(names, vec!["x".to_string(), "y".to_string()]);
    assert_eq!(rest, 6);
    assert_eq!(input[rest].kind, TokenKind::Pipe);
}

#[test]
fn filler_tokens_around_elements_are_skipped() {
    let src = "( a )";
    let mk = |kind, s: usize, e: usize| LqToken { source: src, kind, at: &src[s..e], span: s..e };
    let input = vec![
        mk(TokenKind::OpenParen, 0, 1),
        mk(TokenKind::Whitespace, 1, 2),
        mk(TokenKind::Identifier, 2, 3),
        mk(TokenKind::Whitespace, 3, 4),
        mk(TokenKind::CloseParen, 4, 5),
    ];
    assert_eq!(identifiers(&input).unwrap(), (5, vec!["a".to_string()]));
}

#[test]
fn decimal_rendering() {
    assert_eq!(decimal_string(0), "0");
    assert_eq!(decimal_string(7), "7");
    assert_eq!(decimal_string(10), "10");
    assert_eq!(decimal_string(4096), "4096");
    assert_eq!(decimal_string(usize::MAX), usize::MAX.to_string());
}

#[test]
fn kind_names() {
    assert_eq!(TokenKind::OpenBracket.name(), "OpenBracket");
    assert_eq!(TokenKind::Whitespace.name(), "Whitespace");
    assert_eq!(TokenKind::Comma.name(), "Comma");
}

#[test]
fn text_slices_any_valid_span() {
    let src = "héllo world";
    let empty = LqToken { source: src, kind: TokenKind::Identifier, at: "", span: 3..3 };
    assert_eq!(empty.text(), "");
    let other = LqToken { source: src, kind: TokenKind::Identifier, at: "x", span: 7..12 };
    assert_eq!(other.text(), "world");
    let accented = LqToken { source: src, kind: TokenKind::Identifier, at: "", span: 0..6 };
    assert_eq!(accented.text(), "héllo");
}

#[test]
fn match_text_reads_only_the_token_at_the_cursor() {
    let src = "ab";
    let input = vec![
        LqToken { source: src, kind: TokenKind::Identifier, at: "a", span: 0..1 },
        LqToken { source: src, kind: TokenKind::Identifier, at: "", span: 1..1 },
    ];
    assert!(match_text("a", &input, 0).is_ok());
    assert!(match_text("", &input, 1).is_ok());
    assert_eq!(label_identifier(&input, 1).unwrap(), (2, String::new()));
}

#[test]
fn tokens_before_an_unrecognized_byte_are_those_of_the_prefix() {
    for (whole, prefix) in [("map {a}@ b", "map {a}"), ("x1 , @@", "x1 , "), ("sel@ect", "sel")] {
        let view = |src| -> Vec<(TokenKind, std::ops::Range<usize>, String)> {
            lex(src).iter().map(|t| (t.kind, t.span.clone(), t.text().to_string())).collect()
        };
        assert_eq!(view(whole), view(prefix));
    }
}
