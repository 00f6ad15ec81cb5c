use lexer::scan::tokenize;
use lexer::token::{Token, TokenType};

#[test]
fn integers_render_in_decimal() {
    assert_eq!(TokenType::Int(0).to_display_string(), "0");
    assert_eq!(TokenType::Int(42).to_display_string(), "42");
    assert_eq!(TokenType::Int(-7).to_display_string(), "-7");
    assert_eq!(TokenType::Int(i32::MAX).to_display_string(), "2147483647");
    assert_eq!(TokenType::Int(i32::MIN).to_display_string(), "-2147483648");
}

#[test]
fn literals_and_identifiers_render_as_their_text() {
    assert_eq!(
        TokenType::Float(String::from("1.5")).to_display_string(),
        "1.5"
    );
    assert_eq!(
        TokenType::Identifier(String::from("abc")).to_display_string(),
        "abc"
    );
}

#[test]
fn operators_render_quoted() {
    assert_eq!(TokenType::Plus.to_display_string(), "'+'");
    assert_eq!(TokenType::EqEq.to_display_string(), "'=='");
    assert_eq!(TokenType::Neq.to_display_string(), "'!='");
    assert_eq!(TokenType::Cross.to_display_string(), "'\u{d7}'");
    assert_eq!(TokenType::Sqrt.to_display_string(), "'\u{221a}'");
    assert_eq!(TokenType::LeftBrace.to_display_string(), "'{'");
    assert_eq!(TokenType::Newline.to_display_string(), "'\\n'");
}

#[test]
fn keywords_render_quoted_lowercase() {
    assert_eq!(TokenType::If.to_display_string(), "'if'");
    assert_eq!(TokenType::Else.to_display_string(), "'else'");
    assert_eq!(TokenType::While.to_display_string(), "'while'");
    assert_eq!(TokenType::And.to_display_string(), "'and'");
    assert_eq!(TokenType::Or.to_display_string(), "'or'");
    assert_eq!(TokenType::Not.to_display_string(), "'not'");
}

#[test]
fn eof_renders_as_sentinel() {
    assert_eq!(TokenType::EOF.to_display_string(), "<eof>");
}

#[test]
fn superscript_renders_space_joined() {
    let inner = vec![
        Token {
            ty: TokenType::Int(2),
            range: 3..4,
        },
        Token {
            ty: TokenType::Plus,
            range: 4..5,
        },
        Token {
            ty: TokenType::Int(3),
            range: 5..6,
        },
    ];
    let sup = TokenType::Superscript(inner);
    assert_eq!(sup.to_display_string(), "^(2 '+' 3)");
}

#[test]
fn token_renders_as_its_kind() {
    let tok = Token {
        ty: TokenType::Int(5),
        range: 0..1,
    };
    assert_eq!(tok.to_display_string(), "5");
}

#[test]
fn int_rendering_relexes_to_the_same_kind() {
    let tok = &tokenize("42").unwrap()[0];
    let again = tokenize(&tok.to_display_string()).unwrap();
    assert_eq!(again[0].ty, TokenType::Int(42));
}

#[test]
fn identifier_rendering_relexes_to_the_same_kind() {
    let tok = &tokenize("velocity").unwrap()[0];
    let again = tokenize(&tok.to_display_string()).unwrap();
    assert_eq!(again[0].ty, TokenType::Identifier(String::from("velocity")));
}

#[test]
fn float_rendering_relexes_to_the_same_kind() {
    let tok = &tokenize("3.25").unwrap()[0];
    let again = tokenize(&tok.to_display_string()).unwrap();
    assert_eq!(again[0].ty, TokenType::Float(String::from("3.25")));
}
