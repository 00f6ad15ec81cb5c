//! The token model: the kinds of lexical units, the position-tagged token,
//! and the lexical error values that scanning can report.

use core::ops::Range;
use vstd::prelude::*;

verus! {

/// One kind of lexical unit. `Superscript` holds the fully-lexed token
/// sequence of an exponent region and may nest without bound.
///
/// `Float` carries the literal text of the number (for example `"1.5"`);
/// turning that text into a machine float is left to unverified callers.
#[derive(Debug, PartialEq)]
pub enum TokenType {
    Int(i32),
    Float(String),
    Identifier(String),
    Superscript(Vec<Token>),
    Eq,
    Plus,
    Minus,
    Star,
    Dot,
    Cross,
    Slash,
    Divide,
    Percent,
    Carrot,
    Exclamation,
    Degree,
    Sqrt,
    Cbrt,
    Fort,
    Not,
    EqEq,
    Neq,
    Lt,
    Lte,
    Gt,
    Gte,
    And,
    Or,
    LeftParen,
    RightParen,
    LeftBrace,
    RightBrace,
    Pipe,
    LeftFloor,
    RightFloor,
    LeftCeil,
    RightCeil,
    Comma,
    If,
    Else,
    While,
    Newline,
    EOF,
}

/// One token: a kind together with the half-open byte range `[start, end)`
/// of the source text it was read from.
#[derive(Debug, PartialEq)]
pub struct Token {
    pub ty: TokenType,
    pub range: Range<usize>,
}

/// Mathematical model of a `TokenType`: strings become character sequences
/// and a superscript payload becomes a sequence of token models.
pub enum TokenTypeModel {
    Int(i32),
    Float(Seq<char>),
    Identifier(Seq<char>),
    Superscript(Seq<TokenModel>),
    Eq,
    Plus,
    Minus,
    Star,
    Dot,
    Cross,
    Slash,
    Divide,
    Percent,
    Carrot,
    Exclamation,
    Degree,
    Sqrt,
    Cbrt,
    Fort,
    Not,
    EqEq,
    Neq,
    Lt,
    Lte,
    Gt,
    Gte,
    And,
    Or,
    LeftParen,
    RightParen,
    LeftBrace,
    RightBrace,
    Pipe,
    LeftFloor,
    RightFloor,
    LeftCeil,
    RightCeil,
    Comma,
    If,
    Else,
    While,
    Newline,
    EOF,
}

/// Mathematical model of a `Token`.
pub struct TokenModel {
    pub ty: TokenTypeModel,
    pub start: int,
    pub end: int,
}

pub open spec fn token_type_model(t: TokenType) -> TokenTypeModel
    decreases t,
    via token_type_model_decreases
{
    match t {
        TokenType::Int(n) => TokenTypeModel::Int(n),
        TokenType::Float(text) => TokenTypeModel::Float(text@),
        TokenType::Identifier(text) => TokenTypeModel::Identifier(text@),
        TokenType::Superscript(ts) => TokenTypeModel::Superscript(tokens_model_rec(ts@)),
        TokenType::Eq => TokenTypeModel::Eq,
        TokenType::Plus => TokenTypeModel::Plus,
        TokenType::Minus => TokenTypeModel::Minus,
        TokenType::Star => TokenTypeModel::Star,
        TokenType::Dot => TokenTypeModel::Dot,
        TokenType::Cross => TokenTypeModel::Cross,
        TokenType::Slash => TokenTypeModel::Slash,
        TokenType::Divide => TokenTypeModel::Divide,
        TokenType::Percent => TokenTypeModel::Percent,
        TokenType::Carrot => TokenTypeModel::Carrot,
        TokenType::Exclamation => TokenTypeModel::Exclamation,
        TokenType::Degree => TokenTypeModel::Degree,
        TokenType::Sqrt => TokenTypeModel::Sqrt,
        TokenType::Cbrt => TokenTypeModel::Cbrt,
        TokenType::Fort => TokenTypeModel::Fort,
        TokenType::Not => TokenTypeModel::Not,
        TokenType::EqEq => TokenTypeModel::EqEq,
        TokenType::Neq => TokenTypeModel::Neq,
        TokenType::Lt => TokenTypeModel::Lt,
        TokenType::Lte => TokenTypeModel::Lte,
        TokenType::Gt => TokenTypeModel::Gt,
        TokenType::Gte => TokenTypeModel::Gte,
        TokenType::And => TokenTypeModel::And,
        TokenType::Or => TokenTypeModel::Or,
        TokenType::LeftParen => TokenTypeModel::LeftParen,
        TokenType::RightParen => TokenTypeModel::RightParen,
        TokenType::LeftBrace => TokenTypeModel::LeftBrace,
        TokenType::RightBrace => TokenTypeModel::RightBrace,
        TokenType::Pipe => TokenTypeModel::Pipe,
        TokenType::LeftFloor => TokenTypeModel::LeftFloor,
        TokenType::RightFloor => TokenTypeModel::RightFloor,
        TokenType::LeftCeil => TokenTypeModel::LeftCeil,
        TokenType::RightCeil => TokenTypeModel::RightCeil,
        TokenType::Comma => TokenTypeModel::Comma,
        TokenType::If => TokenTypeModel::If,
        TokenType::Else => TokenTypeModel::Else,
        TokenType::While => TokenTypeModel::While,
        TokenType::Newline => TokenTypeModel::Newline,
        TokenType::EOF => TokenTypeModel::EOF,
    }
}

#[via_fn]
proof fn token_type_model_decreases(t: TokenType) {
    broadcast use vstd::std_specs::vec::group_vec_axioms;

    if let TokenType::Superscript(ts) = t {
        assert(decreases_to!(t => ts));
        assert(decreases_to!(ts => ts@));
    }
}

/// The model of a token sequence, element by element.
pub open spec fn tokens_model_rec(ts: Seq<Token>) -> Seq<TokenModel>
    decreases ts,
{
    if ts.len() == 0 {
        Seq::empty()
    } else {
        seq![token_model(ts[0])] + tokens_model_rec(ts.drop_first())
    }
}

pub proof fn lemma_tokens_model_cons(t: Token, ts: Seq<Token>)
    ensures
        tokens_model_rec(seq![t] + ts) == seq![token_model(t)] + tokens_model_rec(ts),
{
    assert((seq![t] + ts)[0] == t);
    assert((seq![t] + ts).drop_first() =~= ts);
}

pub proof fn lemma_tokens_model_push(ts: Seq<Token>, t: Token)
    ensures
        tokens_model_rec(ts.push(t)) == tokens_model_rec(ts).push(token_model(t)),
    decreases ts.len(),
{
    if ts.len() == 0 {
        reveal_with_fuel(tokens_model_rec, 2);
        assert(ts.push(t)[0] == t);
        assert(ts.push(t).drop_first() =~= Seq::<Token>::empty());
        assert(tokens_model_rec(ts.push(t)) =~= tokens_model_rec(ts).push(token_model(t)));
    } else {
        assert(ts.push(t)[0] == ts[0]);
        assert(ts.push(t).drop_first() =~= ts.drop_first().push(t));
        lemma_tokens_model_push(ts.drop_first(), t);
        assert(seq![token_model(ts[0])] + tokens_model_rec(ts.drop_first()).push(token_model(t))
            =~= (seq![token_model(ts[0])] + tokens_model_rec(ts.drop_first())).push(
            token_model(t),
        ));
        assert(tokens_model_rec(ts.push(t)) =~= tokens_model_rec(ts).push(token_model(t)));
    }
}

/// The model of a token sequence indexes pointwise into its elements.
pub proof fn lemma_tokens_model_index(ts: Seq<Token>)
    ensures
        tokens_model_rec(ts).len() == ts.len(),
        forall|k: int| 0 <= k < ts.len() ==> tokens_model_rec(ts)[k] == token_model(ts[k]),
    decreases ts.len(),
{
    if ts.len() > 0 {
        lemma_tokens_model_index(ts.drop_first());
    }
}

pub open spec fn token_model(t: Token) -> TokenModel
    decreases t,
{
    TokenModel {
        ty: token_type_model(t.ty),
        start: t.range.start as int,
        end: t.range.end as int,
    }
}

impl View for TokenType {
    type V = TokenTypeModel;

    open spec fn view(&self) -> TokenTypeModel {
        token_type_model(*self)
    }
}

impl View for Token {
    type V = TokenModel;

    open spec fn view(&self) -> TokenModel {
        token_model(*self)
    }
}

pub open spec fn digit_char(d: int) -> char {
    if d == 0 {
        '0'
    } else if d == 1 {
        '1'
    } else if d == 2 {
        '2'
    } else if d == 3 {
        '3'
    } else if d == 4 {
        '4'
    } else if d == 5 {
        '5'
    } else if d == 6 {
        '6'
    } else if d == 7 {
        '7'
    } else if d == 8 {
        '8'
    } else {
        '9'
    }
}

/// The decimal rendering of a non-negative integer, most significant digit
/// first, with no leading zero except for zero itself.
pub open spec fn nat_digits(n: int) -> Seq<char>
    decreases n,
{
    if n < 10 {
        seq![digit_char(n)]
    } else {
        nat_digits(n / 10).push(digit_char(n % 10))
    }
}

/// The decimal rendering of an integer, `-` first when negative.
pub open spec fn int_digits(n: int) -> Seq<char> {
    if n < 0 {
        seq!['-'] + nat_digits(-n)
    } else {
        nat_digits(n)
    }
}

/// The canonical rendering of one token kind: literals and identifiers
/// unquoted, operators and keywords quoted, a superscript as `^(` plus its
/// space-joined inner tokens plus `)`, `EOF` as a fixed sentinel.
pub open spec fn display_type_model(t: TokenTypeModel) -> Seq<char>
    decreases t,
{
    match t {
        TokenTypeModel::Int(n) => int_digits(n as int),
        TokenTypeModel::Float(text) => text,
        TokenTypeModel::Identifier(text) => text,
        TokenTypeModel::Superscript(ts) => seq!['^', '('] + display_tokens_model(ts) + seq![')'],
        TokenTypeModel::Eq => seq!['\'', '=', '\''],
        TokenTypeModel::Plus => seq!['\'', '+', '\''],
        TokenTypeModel::Minus => seq!['\'', '-', '\''],
        TokenTypeModel::Star => seq!['\'', '*', '\''],
        TokenTypeModel::Dot => seq!['\'', '\u{2219}', '\''],
        TokenTypeModel::Cross => seq!['\'', '\u{d7}', '\''],
        TokenTypeModel::Slash => seq!['\'', '/', '\''],
        TokenTypeModel::Divide => seq!['\'', '\u{f7}', '\''],
        TokenTypeModel::Percent => seq!['\'', '%', '\''],
        TokenTypeModel::Carrot => seq!['\'', '^', '\''],
        TokenTypeModel::Exclamation => seq!['\'', '!', '\''],
        TokenTypeModel::Degree => seq!['\'', '\u{b0}', '\''],
        TokenTypeModel::Sqrt => seq!['\'', '\u{221a}', '\''],
        TokenTypeModel::Cbrt => seq!['\'', '\u{221b}', '\''],
        TokenTypeModel::Fort => seq!['\'', '\u{221c}', '\''],
        TokenTypeModel::Not => seq!['\'', 'n', 'o', 't', '\''],
        TokenTypeModel::EqEq => seq!['\'', '=', '=', '\''],
        TokenTypeModel::Neq => seq!['\'', '!', '=', '\''],
        TokenTypeModel::Lt => seq!['\'', '<', '\''],
        TokenTypeModel::Lte => seq!['\'', '<', '=', '\''],
        TokenTypeModel::Gt => seq!['\'', '>', '\''],
        TokenTypeModel::Gte => seq!['\'', '>', '=', '\''],
        TokenTypeModel::And => seq!['\'', 'a', 'n', 'd', '\''],
        TokenTypeModel::Or => seq!['\'', 'o', 'r', '\''],
        TokenTypeModel::LeftParen => seq!['\'', '(', '\''],
        TokenTypeModel::RightParen => seq!['\'', ')', '\''],
        TokenTypeModel::LeftBrace => seq!['\'', '{', '\''],
        TokenTypeModel::RightBrace => seq!['\'', '}', '\''],
        TokenTypeModel::Pipe => seq!['\'', '|', '\''],
        TokenTypeModel::LeftFloor => seq!['\'', '\u{230a}', '\''],
        TokenTypeModel::RightFloor => seq!['\'', '\u{230b}', '\''],
        TokenTypeModel::LeftCeil => seq!['\'', '\u{2308}', '\''],
        TokenTypeModel::RightCeil => seq!['\'', '\u{2309}', '\''],
        TokenTypeModel::Comma => seq!['\'', ',', '\''],
        TokenTypeModel::If => seq!['\'', 'i', 'f', '\''],
        TokenTypeModel::Else => seq!['\'', 'e', 'l', 's', 'e', '\''],
        TokenTypeModel::While => seq!['\'', 'w', 'h', 'i', 'l', 'e', '\''],
        TokenTypeModel::Newline => seq!['\'', '\\', 'n', '\''],
        TokenTypeModel::EOF => seq!['<', 'e', 'o', 'f', '>'],
    }
}

/// The renderings of a token sequence joined with single spaces.
pub open spec fn display_tokens_model(ts: Seq<TokenModel>) -> Seq<char>
    decreases ts,
{
    if ts.len() == 0 {
        Seq::empty()
    } else if ts.len() == 1 {
        display_type_model(ts[0].ty)
    } else {
        display_type_model(ts[0].ty) + seq![' '] + display_tokens_model(ts.drop_first())
    }
}

fn digit_str(d: u64) -> (r: &'static str)
    requires
        d < 10,
    ensures
        r@ == seq![digit_char(d as int)],
{
    proof {
        reveal_strlit("0");
        reveal_strlit("1");
        reveal_strlit("2");
        reveal_strlit("3");
        reveal_strlit("4");
        reveal_strlit("5");
        reveal_strlit("6");
        reveal_strlit("7");
        reveal_strlit("8");
        reveal_strlit("9");
    }
    if d == 0 {
        "0"
    } else if d == 1 {
        "1"
    } else if d == 2 {
        "2"
    } else if d == 3 {
        "3"
    } else if d == 4 {
        "4"
    } else if d == 5 {
        "5"
    } else if d == 6 {
        "6"
    } else if d == 7 {
        "7"
    } else if d == 8 {
        "8"
    } else {
        "9"
    }
}

fn nat_string(n: u64) -> (r: String)
    ensures
        r@ == nat_digits(n as int),
    decreases n,
{
    if n < 10 {
        digit_str(n).to_owned()
    } else {
        let mut out = nat_string(n / 10);
        out.append(digit_str(n % 10));
        proof {
            assert(nat_digits(n as int / 10) + seq![digit_char(n as int % 10)] =~= nat_digits(
                n as int / 10,
            ).push(digit_char(n as int % 10)));
        }
        out
    }
}

fn int_string(n: i32) -> (r: String)
    ensures
        r@ == int_digits(n as int),
{
    if n < 0 {
        let m: u64 = (-(n as i64)) as u64;
        let mut out = "-".to_owned();
        proof {
            reveal_strlit("-");
            assert("-"@ =~= seq!['-']);
        }
        let rest = nat_string(m);
        out.append(rest.as_str());
        out
    } else {
        nat_string(n as u64)
    }
}

impl TokenType {
    /// Canonical single-line rendering used for diagnostics: exactly
    /// `display_type_model` of this kind's model.
    pub fn to_display_string(&self) -> (r: String)
        ensures
            r@ == display_type_model(self@),
        decreases *self, 1int,
    {
        proof {
            reveal_strlit("'='");
            assert("'='"@ =~= seq!['\'', '=', '\'']);
            reveal_strlit("'+'");
            assert("'+'"@ =~= seq!['\'', '+', '\'']);
            reveal_strlit("'-'");
            assert("'-'"@ =~= seq!['\'', '-', '\'']);
            reveal_strlit("'*'");
            assert("'*'"@ =~= seq!['\'', '*', '\'']);
            reveal_strlit("'\u{2219}'");
            assert("'\u{2219}'"@ =~= seq!['\'', '\u{2219}', '\'']);
            reveal_strlit("'\u{d7}'");
            assert("'\u{d7}'"@ =~= seq!['\'', '\u{d7}', '\'']);
            reveal_strlit("'/'");
            assert("'/'"@ =~= seq!['\'', '/', '\'']);
            reveal_strlit("'\u{f7}'");
            assert("'\u{f7}'"@ =~= seq!['\'', '\u{f7}', '\'']);
            reveal_strlit("'%'");
            assert("'%'"@ =~= seq!['\'', '%', '\'']);
            reveal_strlit("'^'");
            assert("'^'"@ =~= seq!['\'', '^', '\'']);
            reveal_strlit("'!'");
            assert("'!'"@ =~= seq!['\'', '!', '\'']);
            reveal_strlit("'\u{b0}'");
            assert("'\u{b0}'"@ =~= seq!['\'', '\u{b0}', '\'']);
            reveal_strlit("'\u{221a}'");
            assert("'\u{221a}'"@ =~= seq!['\'', '\u{221a}', '\'']);
            reveal_strlit("'\u{221b}'");
            assert("'\u{221b}'"@ =~= seq!['\'', '\u{221b}', '\'']);
            reveal_strlit("'\u{221c}'");
            assert("'\u{221c}'"@ =~= seq!['\'', '\u{221c}', '\'']);
            reveal_strlit("'not'");
            assert("'not'"@ =~= seq!['\'', 'n', 'o', 't', '\'']);
            reveal_strlit("'=='");
            assert("'=='"@ =~= seq!['\'', '=', '=', '\'']);
            reveal_strlit("'!='");
            assert("'!='"@ =~= seq!['\'', '!', '=', '\'']);
            reveal_strlit("'<'");
            assert("'<'"@ =~= seq!['\'', '<', '\'']);
            reveal_strlit("'<='");
            assert("'<='"@ =~= seq!['\'', '<', '=', '\'']);
            reveal_strlit("'>'");
            assert("'>'"@ =~= seq!['\'', '>', '\'']);
            reveal_strlit("'>='");
            assert("'>='"@ =~= seq!['\'', '>', '=', '\'']);
            reveal_strlit("'and'");
            assert("'and'"@ =~= seq!['\'', 'a', 'n', 'd', '\'']);
            reveal_strlit("'or'");
            assert("'or'"@ =~= seq!['\'', 'o', 'r', '\'']);
            reveal_strlit("'('");
            assert("'('"@ =~= seq!['\'', '(', '\'']);
            reveal_strlit("')'");
            assert("')'"@ =~= seq!['\'', ')', '\'']);
            reveal_strlit("'{'");
            assert("'{'"@ =~= seq!['\'', '{', '\'']);
            reveal_strlit("'}'");
            assert("'}'"@ =~= seq!['\'', '}', '\'']);
            reveal_strlit("'|'");
            assert("'|'"@ =~= seq!['\'', '|', '\'']);
            reveal_strlit("'\u{230a}'");
            assert("'\u{230a}'"@ =~= seq!['\'', '\u{230a}', '\'']);
            reveal_strlit("'\u{230b}'");
            assert("'\u{230b}'"@ =~= seq!['\'', '\u{230b}', '\'']);
            reveal_strlit("'\u{2308}'");
            assert("'\u{2308}'"@ =~= seq!['\'', '\u{2308}', '\'']);
            reveal_strlit("'\u{2309}'");
            assert("'\u{2309}'"@ =~= seq!['\'', '\u{2309}', '\'']);
            reveal_strlit("','");
            assert("','"@ =~= seq!['\'', ',', '\'']);
            reveal_strlit("'if'");
            assert("'if'"@ =~= seq!['\'', 'i', 'f', '\'']);
            reveal_strlit("'else'");
            assert("'else'"@ =~= seq!['\'', 'e', 'l', 's', 'e', '\'']);
            reveal_strlit("'while'");
            assert("'while'"@ =~= seq!['\'', 'w', 'h', 'i', 'l', 'e', '\'']);
            reveal_strlit("'\\n'");
            assert("'\\n'"@ =~= seq!['\'', '\\', 'n', '\'']);
            reveal_strlit("<eof>");
            assert("<eof>"@ =~= seq!['<', 'e', 'o', 'f', '>']);
        }
        match self {
            TokenType::Int(n) => int_string(*n),
            TokenType::Float(text) => text.clone(),
            TokenType::Identifier(text) => text.clone(),
            TokenType::Superscript(ts) => {
                let mut out = "^(".to_owned();
                proof {
                    reveal_strlit("^(");
                    reveal_strlit(")");
                    assert("^("@ =~= seq!['^', '(']);
                    assert(")"@ =~= seq![')']);
                }
                let inner = render_tokens(ts, 0);
                out.append(inner.as_str());
                out.append(")");
                proof {
                    assert(tokens_model_rec(ts@).skip(0) =~= tokens_model_rec(ts@));
                    assert(out@ =~= seq!['^', '('] + display_tokens_model(tokens_model_rec(ts@))
                        + seq![')']);
                }
                out
            },
            TokenType::Eq => "'='".to_owned(),
            TokenType::Plus => "'+'".to_owned(),
            TokenType::Minus => "'-'".to_owned(),
            TokenType::Star => "'*'".to_owned(),
            TokenType::Dot => "'\u{2219}'".to_owned(),
            TokenType::Cross => "'\u{d7}'".to_owned(),
            TokenType::Slash => "'/'".to_owned(),
            TokenType::Divide => "'\u{f7}'".to_owned(),
            TokenType::Percent => "'%'".to_owned(),
            TokenType::Carrot => "'^'".to_owned(),
            TokenType::Exclamation => "'!'".to_owned(),
            TokenType::Degree => "'\u{b0}'".to_owned(),
            TokenType::Sqrt => "'\u{221a}'".to_owned(),
            TokenType::Cbrt => "'\u{221b}'".to_owned(),
            TokenType::Fort => "'\u{221c}'".to_owned(),
            TokenType::Not => "'not'".to_owned(),
            TokenType::EqEq => "'=='".to_owned(),
            TokenType::Neq => "'!='".to_owned(),
            TokenType::Lt => "'<'".to_owned(),
            TokenType::Lte => "'<='".to_owned(),
            TokenType::Gt => "'>'".to_owned(),
            TokenType::Gte => "'>='".to_owned(),
            TokenType::And => "'and'".to_owned(),
            TokenType::Or => "'or'".to_owned(),
            TokenType::LeftParen => "'('".to_owned(),
            TokenType::RightParen => "')'".to_owned(),
            TokenType::LeftBrace => "'{'".to_owned(),
            TokenType::RightBrace => "'}'".to_owned(),
            TokenType::Pipe => "'|'".to_owned(),
            TokenType::LeftFloor => "'\u{230a}'".to_owned(),
            TokenType::RightFloor => "'\u{230b}'".to_owned(),
            TokenType::LeftCeil => "'\u{2308}'".to_owned(),
            TokenType::RightCeil => "'\u{2309}'".to_owned(),
            TokenType::Comma => "','".to_owned(),
            TokenType::If => "'if'".to_owned(),
            TokenType::Else => "'else'".to_owned(),
            TokenType::While => "'while'".to_owned(),
            TokenType::Newline => "'\\n'".to_owned(),
            TokenType::EOF => "<eof>".to_owned(),
        }
    }
}

impl Token {
    /// A token renders as its kind; the range is not part of the rendering.
    pub fn to_display_string(&self) -> (r: String)
        ensures
            r@ == display_type_model(self.ty@),
        decreases *self, 2int,
    {
        self.ty.to_display_string()
    }
}

/// Renders the tokens of `ts` from index `k` on, joined with single spaces.
fn render_tokens(ts: &Vec<Token>, k: usize) -> (r: String)
    requires
        k <= ts@.len(),
    ensures
        r@ == display_tokens_model(tokens_model_rec(ts@).skip(k as int)),
    decreases *ts, ts@.len() - k,
{
    proof {
        lemma_tokens_model_index(ts@);
    }
    let ghost ms = tokens_model_rec(ts@);
    if k == ts.len() {
        proof {
            assert(ms.skip(k as int) =~= Seq::<TokenModel>::empty());
        }
        String::new()
    } else {
        let head = ts[k].to_display_string();
        proof {
            assert(ms.skip(k as int)[0] == token_model(ts@[k as int]));
            assert(ms.skip(k as int).drop_first() =~= ms.skip(k as int + 1));
        }
        if k + 1 == ts.len() {
            proof {
                assert(ms.skip(k as int).len() == 1);
            }
            head
        } else {
            let mut out = head;
            out.append(" ");
            proof {
                reveal_strlit(" ");
                assert(" "@ =~= seq![' ']);
            }
            let rest = render_tokens(ts, k + 1);
            out.append(rest.as_str());
            proof {
                assert(ms.skip(k as int).len() >= 2);
                assert(display_type_model(ms.skip(k as int)[0].ty) + seq![' ']
                    + display_tokens_model(ms.skip(k as int).drop_first()) =~= (display_type_model(
                    ms.skip(k as int)[0].ty,
                ) + seq![' ']) + display_tokens_model(ms.skip(k as int).drop_first()));
            }
            out
        }
    }
}

/// The ways a `tokenize` call can fail.
#[derive(Debug, Clone, Copy, PartialEq, Eq, Structural)]
pub enum LexErrorKind {
    UnexpectedCharacter,
    NumericOverflow,
    UnterminatedSuperscript,
    SuperscriptNestingTooDeep,
}

/// A lexical error: its kind and the byte offset at which it was detected.
#[derive(Debug, Clone, Copy, PartialEq, Eq, Structural)]
pub struct LexError {
    pub kind: LexErrorKind,
    pub pos: usize,
}

} // verus!
