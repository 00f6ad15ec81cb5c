use lexer::scan::tokenize;
use lexer::token::{LexError, LexErrorKind, Token, TokenType};

fn t(ty: TokenType, start: usize, end: usize) -> Token {
    Token { ty, range: start..end }
}

#[test]
fn empty_input_is_just_eof() {
    let toks = tokenize("").unwrap();
    assert_eq!(toks, vec![t(TokenType::EOF, 0, 0)]);
}

#[test]
fn one_plus_two_with_ranges() {
    let toks = tokenize("1 + 2").unwrap();
    assert_eq!(
        toks,
        vec![
            t(TokenType::Int(1), 0, 1),
            t(TokenType::Plus, 2, 3),
            t(TokenType::Int(2), 4, 5),
            t(TokenType::EOF, 5, 5),
        ]
    );
}

#[test]
fn superscript_single_token() {
    let toks = tokenize("x^2").unwrap();
    assert_eq!(
        toks,
        vec![
            t(TokenType::Identifier(String::from("x")), 0, 1),
            t(TokenType::Superscript(vec![t(TokenType::Int(2), 2, 3)]), 1, 3),
            t(TokenType::EOF, 3, 3),
        ]
    );
}

#[test]
fn superscript_parenthesised_expression() {
    let toks = tokenize("x^(2+3)").unwrap();
    assert_eq!(
        toks,
        vec![
            t(TokenType::Identifier(String::from("x")), 0, 1),
            t(
                TokenType::Superscript(vec![
                    t(TokenType::Int(2), 3, 4),
                    t(TokenType::Plus, 4, 5),
                    t(TokenType::Int(3), 5, 6),
                ]),
                1,
                7
            ),
            t(TokenType::EOF, 7, 7),
        ]
    );
}

#[test]
fn superscript_nested_parens_resolve() {
    let toks = tokenize("x^(y^(z)+1)").unwrap();
    assert_eq!(
        toks,
        vec![
            t(TokenType::Identifier(String::from("x")), 0, 1),
            t(
                TokenType::Superscript(vec![
                    t(TokenType::Identifier(String::from("y")), 3, 4),
                    t(
                        TokenType::Superscript(vec![t(
                            TokenType::Identifier(String::from("z")),
                            6,
                            7
                        )]),
                        4,
                        8
                    ),
                    t(TokenType::Plus, 8, 9),
                    t(TokenType::Int(1), 9, 10),
                ]),
                1,
                11
            ),
            t(TokenType::EOF, 11, 11),
        ]
    );
}

#[test]
fn superscript_unary_minus_exponent() {
    let toks = tokenize("x^-2").unwrap();
    assert_eq!(
        toks,
        vec![
            t(TokenType::Identifier(String::from("x")), 0, 1),
            t(
                TokenType::Superscript(vec![
                    t(TokenType::Minus, 2, 3),
                    t(TokenType::Int(2), 3, 4),
                ]),
                1,
                4
            ),
            t(TokenType::EOF, 4, 4),
        ]
    );
}

#[test]
fn keywords_and_eqeq_not_split() {
    let toks = tokenize("if x == 1").unwrap();
    assert_eq!(
        toks,
        vec![
            t(TokenType::If, 0, 2),
            t(TokenType::Identifier(String::from("x")), 3, 4),
            t(TokenType::EqEq, 5, 7),
            t(TokenType::Int(1), 8, 9),
            t(TokenType::EOF, 9, 9),
        ]
    );
}

#[test]
fn all_keywords_resolve() {
    let toks = tokenize("if else while and or not").unwrap();
    let kinds: Vec<&TokenType> = toks.iter().map(|tk| &tk.ty).collect();
    assert_eq!(
        kinds,
        vec![
            &TokenType::If,
            &TokenType::Else,
            &TokenType::While,
            &TokenType::And,
            &TokenType::Or,
            &TokenType::Not,
            &TokenType::EOF,
        ]
    );
}

#[test]
fn keyword_prefix_is_identifier() {
    let toks = tokenize("iffy").unwrap();
    assert_eq!(
        toks,
        vec![
            t(TokenType::Identifier(String::from("iffy")), 0, 4),
            t(TokenType::EOF, 4, 4),
        ]
    );
}

#[test]
fn unterminated_superscript_points_at_caret() {
    let err = tokenize("x^(2").unwrap_err();
    assert_eq!(
        err,
        LexError {
            kind: LexErrorKind::UnterminatedSuperscript,
            pos: 1
        }
    );
}

#[test]
fn caret_at_end_of_input_is_unterminated() {
    let err = tokenize("x^").unwrap_err();
    assert_eq!(err.kind, LexErrorKind::UnterminatedSuperscript);
    assert_eq!(err.pos, 1);
}

#[test]
fn empty_superscript_region_is_an_error() {
    let err = tokenize("x^()").unwrap_err();
    assert_eq!(err.kind, LexErrorKind::UnexpectedCharacter);
    assert_eq!(err.pos, 3);
}

#[test]
fn float_literal() {
    let toks = tokenize("1.5").unwrap();
    assert_eq!(
        toks,
        vec![
            t(TokenType::Float(String::from("1.5")), 0, 3),
            t(TokenType::EOF, 3, 3),
        ]
    );
}

#[test]
fn trailing_dot_is_not_part_of_the_number() {
    let err = tokenize("1.").unwrap_err();
    assert_eq!(
        err,
        LexError {
            kind: LexErrorKind::UnexpectedCharacter,
            pos: 1
        }
    );
}

#[test]
fn int_at_limit_and_overflow() {
    let toks = tokenize("2147483647").unwrap();
    assert_eq!(toks[0], t(TokenType::Int(2147483647), 0, 10));
    let err = tokenize("2147483648").unwrap_err();
    assert_eq!(
        err,
        LexError {
            kind: LexErrorKind::NumericOverflow,
            pos: 0
        }
    );
}

#[test]
fn unicode_operators_have_byte_ranges() {
    // The multiplication sign takes two bytes in UTF-8.
    let toks = tokenize("2\u{d7}3").unwrap();
    assert_eq!(
        toks,
        vec![
            t(TokenType::Int(2), 0, 1),
            t(TokenType::Cross, 1, 3),
            t(TokenType::Int(3), 3, 4),
            t(TokenType::EOF, 4, 4),
        ]
    );
}

#[test]
fn glyph_operators_resolve() {
    let toks = tokenize("\u{221a}\u{221b}\u{221c}\u{b0}\u{2219}\u{f7}").unwrap();
    let kinds: Vec<&TokenType> = toks.iter().map(|tk| &tk.ty).collect();
    assert_eq!(
        kinds,
        vec![
            &TokenType::Sqrt,
            &TokenType::Cbrt,
            &TokenType::Fort,
            &TokenType::Degree,
            &TokenType::Dot,
            &TokenType::Divide,
            &TokenType::EOF,
        ]
    );
}

#[test]
fn brackets_and_punctuation_resolve() {
    let toks = tokenize("(){}|,\u{230a}\u{230b}\u{2308}\u{2309}").unwrap();
    let kinds: Vec<&TokenType> = toks.iter().map(|tk| &tk.ty).collect();
    assert_eq!(
        kinds,
        vec![
            &TokenType::LeftParen,
            &TokenType::RightParen,
            &TokenType::LeftBrace,
            &TokenType::RightBrace,
            &TokenType::Pipe,
            &TokenType::Comma,
            &TokenType::LeftFloor,
            &TokenType::RightFloor,
            &TokenType::LeftCeil,
            &TokenType::RightCeil,
            &TokenType::EOF,
        ]
    );
}

#[test]
fn comparison_lookahead() {
    let toks = tokenize("< <= > >= ! != =").unwrap();
    let kinds: Vec<&TokenType> = toks.iter().map(|tk| &tk.ty).collect();
    assert_eq!(
        kinds,
        vec![
            &TokenType::Lt,
            &TokenType::Lte,
            &TokenType::Gt,
            &TokenType::Gte,
            &TokenType::Exclamation,
            &TokenType::Neq,
            &TokenType::Eq,
            &TokenType::EOF,
        ]
    );
}

#[test]
fn newline_is_a_token_and_tabs_are_skipped() {
    let toks = tokenize("1\t\n2").unwrap();
    assert_eq!(
        toks,
        vec![
            t(TokenType::Int(1), 0, 1),
            t(TokenType::Newline, 2, 3),
            t(TokenType::Int(2), 3, 4),
            t(TokenType::EOF, 4, 4),
        ]
    );
}

#[test]
fn unexpected_character_reports_its_byte_offset() {
    let err = tokenize("1 @").unwrap_err();
    assert_eq!(
        err,
        LexError {
            kind: LexErrorKind::UnexpectedCharacter,
            pos: 2
        }
    );
}

#[test]
fn deep_superscript_nesting_fails() {
    let mut src = String::from("x");
    for _ in 0..40 {
        src.push_str("^(2");
    }
    for _ in 0..40 {
        src.push(')');
    }
    let err = tokenize(&src).unwrap_err();
    assert_eq!(err.kind, LexErrorKind::SuperscriptNestingTooDeep);
}

#[test]
fn arithmetic_operators_resolve() {
    let toks = tokenize("+ - * / %").unwrap();
    let kinds: Vec<&TokenType> = toks.iter().map(|tk| &tk.ty).collect();
    assert_eq!(
        kinds,
        vec![
            &TokenType::Plus,
            &TokenType::Minus,
            &TokenType::Star,
            &TokenType::Slash,
            &TokenType::Percent,
            &TokenType::EOF,
        ]
    );
}

#[test]
fn leading_zeros_keep_their_range() {
    let toks = tokenize("007").unwrap();
    assert_eq!(toks[0], t(TokenType::Int(7), 0, 3));
}

#[test]
fn space_after_caret_is_not_an_exponent() {
    let err = tokenize("x^ 2").unwrap_err();
    assert_eq!(err.kind, LexErrorKind::UnexpectedCharacter);
    assert_eq!(err.pos, 2);
}

#[test]
fn superscript_range_contains_nested_ranges() {
    let toks = tokenize("ab^(c+1)").unwrap();
    let sup = &toks[1];
    if let TokenType::Superscript(inner) = &sup.ty {
        assert!(!inner.is_empty());
        for nested in inner {
            assert!(sup.range.start < nested.range.start);
            assert!(nested.range.end <= sup.range.end);
        }
    } else {
        panic!("second token is not a superscript");
    }
}

#[test]
fn ranges_are_monotonic_across_a_longer_input() {
    let toks = tokenize("while x_1 <= 10 { y = y \u{d7} 2\n}").unwrap();
    for w in toks.windows(2) {
        assert!(w[0].range.end <= w[1].range.start);
    }
    let last = toks.last().unwrap();
    assert_eq!(last.ty, TokenType::EOF);
    assert_eq!(last.range.start, last.range.end);
}
