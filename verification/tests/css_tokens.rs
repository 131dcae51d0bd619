use saba_core::token::CssToken;
use saba_core::token::CssTokenizer;

fn tokens_of(input: &str) -> Vec<CssToken> {
    let mut tokenizer = CssTokenizer::new(input.to_string());
    tokenizer.tokenize()
}

#[test]
fn hash_colon_rule_block() {
    let tokens = tokens_of("#a:b{c:1.5;}");
    assert_eq!(
        tokens,
        vec![
            CssToken::HashToken("a".to_string()),
            CssToken::Colon,
            CssToken::Ident("b".to_string()),
            CssToken::OpenCurly,
            CssToken::Ident("c".to_string()),
            CssToken::Colon,
            CssToken::Number("1.5".to_string()),
            CssToken::SemiColon,
            CssToken::CloseCurly,
        ]
    );
    assert_eq!("1.5".parse::<f64>().unwrap(), 1.5);
}

#[test]
fn unterminated_string_recovers() {
    let tokens = tokens_of("\"unterminated");
    assert_eq!(tokens, vec![CssToken::StringToken("unterminated".to_string())]);
}

#[test]
fn at_keyword_media() {
    let tokens = tokens_of("@media");
    assert_eq!(tokens, vec![CssToken::AtKeyword("media".to_string())]);
}

#[test]
fn whitespace_only_yields_nothing() {
    assert_eq!(tokens_of(" \t\r\n \u{0c} "), vec![]);
}

#[test]
fn empty_input_yields_nothing() {
    assert_eq!(tokens_of(""), vec![]);
}

#[test]
fn unit_after_number_is_separate_ident() {
    assert_eq!(
        tokens_of("5em"),
        vec![CssToken::Number("5".to_string()), CssToken::Ident("em".to_string())]
    );
    assert_eq!(
        tokens_of("50%"),
        vec![CssToken::Number("50".to_string()), CssToken::Delim('%')]
    );
}

#[test]
fn signed_and_fractional_numbers() {
    assert_eq!(tokens_of("-1.5e-2"), vec![CssToken::Number("-1.5e-2".to_string())]);
    assert_eq!(tokens_of("+3"), vec![CssToken::Number("+3".to_string())]);
    assert_eq!(tokens_of(".5"), vec![CssToken::Number(".5".to_string())]);
    assert_eq!(
        tokens_of("+.5"),
        vec![CssToken::Delim('+'), CssToken::Number(".5".to_string())]
    );
}

#[test]
fn exponent_marker_needs_digits() {
    assert_eq!(
        tokens_of("5e"),
        vec![CssToken::Number("5".to_string()), CssToken::Ident("e".to_string())]
    );
    assert_eq!(
        tokens_of("5e- x"),
        vec![
            CssToken::Number("5".to_string()),
            CssToken::Ident("e-".to_string()),
            CssToken::Ident("x".to_string()),
        ]
    );
    assert_eq!(tokens_of("5E+2"), vec![CssToken::Number("5E+2".to_string())]);
}

#[test]
fn lone_hash_is_delim() {
    assert_eq!(
        tokens_of("# a"),
        vec![CssToken::Delim('#'), CssToken::Ident("a".to_string())]
    );
}

#[test]
fn lone_at_is_delim() {
    assert_eq!(
        tokens_of("@ x"),
        vec![CssToken::Delim('@'), CssToken::Ident("x".to_string())]
    );
}

#[test]
fn string_escapes_keep_escaped_code_point() {
    assert_eq!(
        tokens_of("\"a\\\"b\""),
        vec![CssToken::StringToken("a\"b".to_string())]
    );
    assert_eq!(tokens_of("'abc'"), vec![CssToken::StringToken("abc".to_string())]);
}

#[test]
fn identifier_escape_drops_backslash() {
    assert_eq!(tokens_of("col\\or"), vec![CssToken::Ident("color".to_string())]);
}

#[test]
fn dash_identifier_needs_identifier_start() {
    assert_eq!(tokens_of("-a"), vec![CssToken::Ident("-a".to_string())]);
    assert_eq!(
        tokens_of("- a"),
        vec![CssToken::Delim('-'), CssToken::Ident("a".to_string())]
    );
}

#[test]
fn structural_tokens_map_directly() {
    assert_eq!(
        tokens_of("(){};:"),
        vec![
            CssToken::OpenParenthesis,
            CssToken::CloseParenthesis,
            CssToken::OpenCurly,
            CssToken::CloseCurly,
            CssToken::SemiColon,
            CssToken::Colon,
        ]
    );
}

#[test]
fn anything_else_is_delim() {
    assert_eq!(
        tokens_of("* /"),
        vec![CssToken::Delim('*'), CssToken::Delim('/')]
    );
}

#[test]
fn trailing_backslash_is_consumed_silently() {
    assert_eq!(tokens_of("ab\\"), vec![CssToken::Ident("ab".to_string())]);
    assert_eq!(
        tokens_of("\"x\\"),
        vec![CssToken::StringToken("x".to_string())]
    );
    assert_eq!(tokens_of("#\\"), vec![CssToken::HashToken(String::new())]);
}

#[test]
fn next_token_drains_then_stays_empty() {
    let mut tokenizer = CssTokenizer::new("a b".to_string());
    assert_eq!(tokenizer.next_token(), Some(CssToken::Ident("a".to_string())));
    assert_eq!(tokenizer.next_token(), Some(CssToken::Ident("b".to_string())));
    assert_eq!(tokenizer.next_token(), None);
    assert_eq!(tokenizer.next_token(), None);
}
