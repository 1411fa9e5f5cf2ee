use lq::tokens::{LqTokenizer, TokenKind};

#[test]
fn tokens_test_tokenizer() {
    let source = "map { .1 as a1, .3 as b1 }";
    let res = LqTokenizer::new(source).collect_tokens();
    for token in &res {
        println!("{:#?}", token);
    }
    let kinds: Vec<TokenKind> = res.iter().map(|t| t.kind).collect();
    assert_eq!(
        kinds,
        vec![
            TokenKind::Mapper,
            TokenKind::OpenBrace,
            TokenKind::Dot,
            TokenKind::Number,
            TokenKind::As,
            TokenKind::Identifier,
            TokenKind::Comma,
            TokenKind::Dot,
            TokenKind::Number,
            TokenKind::As,
            TokenKind::Identifier,
            TokenKind::CloseBrace,
        ]
    );
    assert_eq!(res[5].at, "a1");
    assert_eq!(res[5].span, 12..14);
}

#[test]
fn legacy_keywords_are_lower_case_only() {
    let res = LqTokenizer::new("MAP As as map").collect_tokens();
    let kinds: Vec<TokenKind> = res.iter().map(|t| t.kind).collect();
    assert_eq!(
        kinds,
        vec![TokenKind::Identifier, TokenKind::Identifier, TokenKind::As, TokenKind::Mapper]
    );
}

#[test]
fn legacy_stops_at_symbols_it_lacks() {
    let res = LqTokenizer::new("a | select").collect_tokens();
    assert_eq!(res.len(), 1);
    assert_eq!(res[0].at, "a");
    assert!(LqTokenizer::new("(x)").collect_tokens().is_empty());
}

#[test]
fn legacy_kind_names() {
    assert_eq!(TokenKind::OpenBrace.name(), "{");
    assert_eq!(TokenKind::Mapper.name(), "map");
    assert_eq!(TokenKind::Identifier.name(), "identifier");
}
