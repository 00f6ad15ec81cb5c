//! The scanner: a mathematical model of tokenization over a sequence of
//! characters, and the verified executable tokenizer proved equal to it.
//!
//! Byte positions are defined through `vstd::utf8::encode_utf8`, so every
//! range in a produced token is an offset into the UTF-8 encoding of the
//! source text.

use crate::token::{
    token_model, tokens_model_rec, LexError, LexErrorKind, Token, TokenModel, TokenType,
    TokenTypeModel,
};
use vstd::prelude::*;
use vstd::utf8::{char_is_scalar, encode_scalar, encode_utf8};

verus! {

/// Superscript regions deeper than this fail with `SuperscriptNestingTooDeep`
/// instead of risking unbounded recursion.
pub const MAX_SUPERSCRIPT_DEPTH: usize = 32;

/// A lexical error in the mathematical model: kind plus byte offset.
pub struct LexErrorModel {
    pub kind: LexErrorKind,
    pub pos: int,
}

/// The model of an executable `LexError`.
pub open spec fn lex_error_model(e: LexError) -> LexErrorModel {
    LexErrorModel { kind: e.kind, pos: e.pos as int }
}

/// Number of bytes the UTF-8 encoding of `c` takes.
pub open spec fn char_width(c: char) -> int {
    encode_scalar(c as u32).len() as int
}

/// Byte offset of the `i`-th character of `s` in the UTF-8 encoding of `s`.
pub open spec fn byte_pos(s: Seq<char>, i: int) -> int {
    encode_utf8(s.take(i)).len() as int
}

pub open spec fn is_space_char(c: char) -> bool {
    c == ' ' || c == '\t'
}

pub open spec fn is_digit_char(c: char) -> bool {
    '0' as u32 <= c as u32 <= '9' as u32
}

pub open spec fn digit_val(c: char) -> int {
    c as u32 - '0' as u32
}

pub open spec fn is_word_start_char(c: char) -> bool {
    ('a' as u32 <= c as u32 <= 'z' as u32) || ('A' as u32 <= c as u32 <= 'Z' as u32) || c == '_'
}

pub open spec fn is_word_char(c: char) -> bool {
    is_word_start_char(c) || is_digit_char(c)
}

/// First index at or after `i` whose character is not a decimal digit.
pub open spec fn digit_run_end(s: Seq<char>, i: int) -> int
    decreases s.len() - i,
{
    if i < s.len() && is_digit_char(s[i]) {
        digit_run_end(s, i + 1)
    } else {
        i
    }
}

/// First index at or after `i` whose character cannot continue a word.
pub open spec fn word_run_end(s: Seq<char>, i: int) -> int
    decreases s.len() - i,
{
    if i < s.len() && is_word_char(s[i]) {
        word_run_end(s, i + 1)
    } else {
        i
    }
}

/// The integer a digit run denotes, most significant digit first.
pub open spec fn digits_val(ds: Seq<char>) -> int
    decreases ds.len(),
{
    if ds.len() == 0 {
        0
    } else {
        digits_val(ds.drop_last()) * 10 + digit_val(ds.last())
    }
}

/// The fixed keyword table: reserved words and the kinds they lex to.
pub open spec fn keyword_token(text: Seq<char>) -> Option<TokenTypeModel> {
    if text == seq!['i', 'f'] {
        Some(TokenTypeModel::If)
    } else if text == seq!['e', 'l', 's', 'e'] {
        Some(TokenTypeModel::Else)
    } else if text == seq!['w', 'h', 'i', 'l', 'e'] {
        Some(TokenTypeModel::While)
    } else if text == seq!['a', 'n', 'd'] {
        Some(TokenTypeModel::And)
    } else if text == seq!['o', 'r'] {
        Some(TokenTypeModel::Or)
    } else if text == seq!['n', 'o', 't'] {
        Some(TokenTypeModel::Not)
    } else {
        None
    }
}

pub open spec fn tok(ty: TokenTypeModel, start: int, end: int) -> TokenModel {
    TokenModel { ty, start, end }
}

pub open spec fn lex_err(kind: LexErrorKind, pos: int) -> LexErrorModel {
    LexErrorModel { kind, pos }
}

pub proof fn lemma_encode_utf8_push(s: Seq<char>, c: char)
    ensures
        encode_utf8(s.push(c)) == encode_utf8(s) + encode_scalar(c as u32),
    decreases s.len(),
{
    if s.len() == 0 {
        reveal_with_fuel(vstd::utf8::encode_utf8, 2);
        assert(s.push(c)[0] == c);
        assert(s.push(c).drop_first() =~= Seq::<char>::empty());
        assert(encode_utf8(s.push(c)) =~= encode_utf8(s) + encode_scalar(c as u32));
    } else {
        assert(s.push(c)[0] == s[0]);
        assert(s.push(c).drop_first() =~= s.drop_first().push(c));
        lemma_encode_utf8_push(s.drop_first(), c);
        assert(encode_scalar(s[0] as u32) + (encode_utf8(s.drop_first()) + encode_scalar(c as u32))
            =~= (encode_scalar(s[0] as u32) + encode_utf8(s.drop_first())) + encode_scalar(
            c as u32,
        ));
        assert(encode_utf8(s.push(c)) =~= encode_utf8(s) + encode_scalar(c as u32));
    }
}

pub proof fn lemma_char_width(c: char)
    ensures
        1 <= char_width(c) <= 4,
{
    char_is_scalar(c);
}

pub proof fn lemma_byte_pos_zero(s: Seq<char>)
    ensures
        byte_pos(s, 0) == 0,
{
    assert(s.take(0) =~= Seq::<char>::empty());
}

pub proof fn lemma_byte_pos_step(s: Seq<char>, i: int)
    requires
        0 <= i < s.len(),
    ensures
        byte_pos(s, i + 1) == byte_pos(s, i) + char_width(s[i]),
{
    assert(s.take(i + 1) =~= s.take(i).push(s[i]));
    lemma_encode_utf8_push(s.take(i), s[i]);
}

pub proof fn lemma_byte_pos_mono(s: Seq<char>, i: int, j: int)
    requires
        0 <= i <= j <= s.len(),
    ensures
        byte_pos(s, i) + (j - i) <= byte_pos(s, j),
        byte_pos(s, i) <= byte_pos(s, j),
    decreases j - i,
{
    if i < j {
        lemma_byte_pos_mono(s, i, j - 1);
        lemma_byte_pos_step(s, j - 1);
        lemma_char_width(s[j - 1]);
    }
}

/// The byte position of the end of the input is the length of its UTF-8
/// encoding: exactly what `str::len` returns on the source text.
pub proof fn lemma_byte_pos_full(s: Seq<char>)
    ensures
        byte_pos(s, s.len() as int) == encode_utf8(s).len(),
{
    assert(s.take(s.len() as int) =~= s);
}

pub proof fn lemma_digit_run(s: Seq<char>, i: int)
    requires
        0 <= i <= s.len(),
    ensures
        i <= digit_run_end(s, i) <= s.len(),
        forall|m: int| i <= m < digit_run_end(s, i) ==> is_digit_char(s[m]),
        digit_run_end(s, i) < s.len() ==> !is_digit_char(s[digit_run_end(s, i)]),
    decreases s.len() - i,
{
    if i < s.len() && is_digit_char(s[i]) {
        lemma_digit_run(s, i + 1);
    }
}

pub proof fn lemma_word_run(s: Seq<char>, i: int)
    requires
        0 <= i <= s.len(),
    ensures
        i <= word_run_end(s, i) <= s.len(),
        forall|m: int| i <= m < word_run_end(s, i) ==> is_word_char(s[m]),
        word_run_end(s, i) < s.len() ==> !is_word_char(s[word_run_end(s, i)]),
    decreases s.len() - i,
{
    if i < s.len() && is_word_char(s[i]) {
        lemma_word_run(s, i + 1);
    }
}

pub proof fn lemma_digits_val_nonneg(ds: Seq<char>)
    requires
        forall|m: int| 0 <= m < ds.len() ==> is_digit_char(ds[m]),
    ensures
        digits_val(ds) >= 0,
    decreases ds.len(),
{
    if ds.len() > 0 {
        lemma_digits_val_nonneg(ds.drop_last());
    }
}

/// Extending a digit run to the right never shrinks its value, so once a
/// prefix exceeds `i32::MAX` the whole literal does.
pub proof fn lemma_digits_val_prefix(ds: Seq<char>, k: int)
    requires
        0 <= k <= ds.len(),
        forall|m: int| 0 <= m < ds.len() ==> is_digit_char(ds[m]),
    ensures
        digits_val(ds.subrange(0, k)) <= digits_val(ds),
    decreases ds.len() - k,
{
    if k == ds.len() {
        assert(ds.subrange(0, k) =~= ds);
    } else {
        lemma_digits_val_prefix(ds, k + 1);
        assert(ds.subrange(0, k + 1).drop_last() =~= ds.subrange(0, k));
        lemma_digits_val_nonneg(ds.subrange(0, k));
    }
}

/// The token scanned from a numeric literal starting at `i`:
/// a maximal digit run, continued past a `.` only when at least one digit
/// follows it; an integer value above `i32::MAX` is a `NumericOverflow`.
pub open spec fn spec_number(s: Seq<char>, i: int) -> Result<(TokenModel, int), LexErrorModel> {
    let e1 = digit_run_end(s, i);
    if e1 < s.len() && s[e1] == '.' && e1 + 1 < s.len() && is_digit_char(s[e1 + 1]) {
        let e2 = digit_run_end(s, e1 + 1);
        Ok((tok(TokenTypeModel::Float(s.subrange(i, e2)), byte_pos(s, i), byte_pos(s, e2)), e2))
    } else {
        let v = digits_val(s.subrange(i, e1));
        if v > i32::MAX {
            Err(lex_err(LexErrorKind::NumericOverflow, byte_pos(s, i)))
        } else {
            Ok((tok(TokenTypeModel::Int(v as i32), byte_pos(s, i), byte_pos(s, e1)), e1))
        }
    }
}

/// The token scanned from a word starting at `i`: a maximal run of letters,
/// digits and underscores, resolved against the keyword table.
pub open spec fn spec_word(s: Seq<char>, i: int) -> (TokenModel, int) {
    let e = word_run_end(s, i + 1);
    let text = s.subrange(i, e);
    let ty = match keyword_token(text) {
        Some(k) => k,
        None => TokenTypeModel::Identifier(text),
    };
    (tok(ty, byte_pos(s, i), byte_pos(s, e)), e)
}

/// The token scanned from an operator or punctuation character at `i`,
/// with one character of lookahead for `==`, `!=`, `<=` and `>=`.
pub open spec fn spec_symbol(s: Seq<char>, i: int) -> Result<(TokenModel, int), LexErrorModel> {
    let c = s[i];
    let two = i + 1 < s.len() && s[i + 1] == '=';
    if c == '=' && two {
        Ok((tok(TokenTypeModel::EqEq, byte_pos(s, i), byte_pos(s, i + 2)), i + 2))
    } else if c == '=' {
        Ok((tok(TokenTypeModel::Eq, byte_pos(s, i), byte_pos(s, i + 1)), i + 1))
    } else if c == '!' && two {
        Ok((tok(TokenTypeModel::Neq, byte_pos(s, i), byte_pos(s, i + 2)), i + 2))
    } else if c == '!' {
        Ok((tok(TokenTypeModel::Exclamation, byte_pos(s, i), byte_pos(s, i + 1)), i + 1))
    } else if c == '<' && two {
        Ok((tok(TokenTypeModel::Lte, byte_pos(s, i), byte_pos(s, i + 2)), i + 2))
    } else if c == '<' {
        Ok((tok(TokenTypeModel::Lt, byte_pos(s, i), byte_pos(s, i + 1)), i + 1))
    } else if c == '>' && two {
        Ok((tok(TokenTypeModel::Gte, byte_pos(s, i), byte_pos(s, i + 2)), i + 2))
    } else if c == '>' {
        Ok((tok(TokenTypeModel::Gt, byte_pos(s, i), byte_pos(s, i + 1)), i + 1))
    } else {
        match single_symbol(c) {
            Some(ty) => Ok((tok(ty, byte_pos(s, i), byte_pos(s, i + 1)), i + 1)),
            None => Err(lex_err(LexErrorKind::UnexpectedCharacter, byte_pos(s, i))),
        }
    }
}

/// The kinds reached by exactly one character, with no lookahead.
pub open spec fn single_symbol(c: char) -> Option<TokenTypeModel> {
    if c == '+' {
        Some(TokenTypeModel::Plus)
    } else if c == '-' {
        Some(TokenTypeModel::Minus)
    } else if c == '*' {
        Some(TokenTypeModel::Star)
    } else if c == '\u{2219}' {
        Some(TokenTypeModel::Dot)
    } else if c == '\u{d7}' {
        Some(TokenTypeModel::Cross)
    } else if c == '/' {
        Some(TokenTypeModel::Slash)
    } else if c == '\u{f7}' {
        Some(TokenTypeModel::Divide)
    } else if c == '%' {
        Some(TokenTypeModel::Percent)
    } else if c == '\u{b0}' {
        Some(TokenTypeModel::Degree)
    } else if c == '\u{221a}' {
        Some(TokenTypeModel::Sqrt)
    } else if c == '\u{221b}' {
        Some(TokenTypeModel::Cbrt)
    } else if c == '\u{221c}' {
        Some(TokenTypeModel::Fort)
    } else if c == '(' {
        Some(TokenTypeModel::LeftParen)
    } else if c == ')' {
        Some(TokenTypeModel::RightParen)
    } else if c == '{' {
        Some(TokenTypeModel::LeftBrace)
    } else if c == '}' {
        Some(TokenTypeModel::RightBrace)
    } else if c == '|' {
        Some(TokenTypeModel::Pipe)
    } else if c == '\u{230a}' {
        Some(TokenTypeModel::LeftFloor)
    } else if c == '\u{230b}' {
        Some(TokenTypeModel::RightFloor)
    } else if c == '\u{2308}' {
        Some(TokenTypeModel::LeftCeil)
    } else if c == '\u{2309}' {
        Some(TokenTypeModel::RightCeil)
    } else if c == ',' {
        Some(TokenTypeModel::Comma)
    } else {
        None
    }
}

/// The token scanned at index `i` (not a space), with `depth` enclosing
/// superscript regions. On `^` the exponent is either a parenthesised region
/// or a single following token, optionally prefixed by a unary minus.
pub open spec fn spec_token(s: Seq<char>, i: int, depth: int) -> Result<
    (TokenModel, int),
    LexErrorModel,
>
    decreases s.len() - i, 0int,
{
    let c = s[i];
    if c == '\n' {
        Ok((tok(TokenTypeModel::Newline, byte_pos(s, i), byte_pos(s, i + 1)), i + 1))
    } else if is_digit_char(c) {
        spec_number(s, i)
    } else if is_word_start_char(c) {
        Ok(spec_word(s, i))
    } else if c == '^' {
        if depth >= MAX_SUPERSCRIPT_DEPTH {
            Err(lex_err(LexErrorKind::SuperscriptNestingTooDeep, byte_pos(s, i)))
        } else if i + 1 < s.len() && s[i + 1] == '(' {
            match spec_region(s, i + 2, depth + 1, 0, byte_pos(s, i)) {
                Err(e) => Err(e),
                Ok((ts, end)) => if ts.len() == 0 {
                    Err(lex_err(LexErrorKind::UnexpectedCharacter, byte_pos(s, end - 1)))
                } else {
                    Ok((tok(TokenTypeModel::Superscript(ts), byte_pos(s, i), byte_pos(s, end)), end))
                },
            }
        } else if i + 1 < s.len() && s[i + 1] == '-' {
            if i + 2 < s.len() {
                match spec_token(s, i + 2, depth + 1) {
                    Err(e) => Err(e),
                    Ok((t2, k)) => {
                        let minus = tok(TokenTypeModel::Minus, byte_pos(s, i + 1), byte_pos(s, i + 2));
                        Ok((tok(TokenTypeModel::Superscript(seq![minus, t2]), byte_pos(s, i), byte_pos(s, k)), k))
                    },
                }
            } else {
                Err(lex_err(LexErrorKind::UnterminatedSuperscript, byte_pos(s, i)))
            }
        } else if i + 1 < s.len() {
            match spec_token(s, i + 1, depth + 1) {
                Err(e) => Err(e),
                Ok((t1, k)) => Ok((
                    tok(TokenTypeModel::Superscript(seq![t1]), byte_pos(s, i), byte_pos(s, k)),
                    k,
                )),
            }
        } else {
            Err(lex_err(LexErrorKind::UnterminatedSuperscript, byte_pos(s, i)))
        }
    } else {
        spec_symbol(s, i)
    }
}

/// A superscript region after `^(`: tokens up to the `)` that closes the
/// region, skipping spaces, tracking the depth of ordinary parentheses.
/// Yields the inner tokens and the index just past the closing `)`.
/// `sup_pos` is the byte offset of the opening `^`, reported when the region
/// never closes. The `i < k` test only gives the recursion its measure; a
/// scanned token always ends past its start.
pub open spec fn spec_region(s: Seq<char>, i: int, depth: int, pdepth: int, sup_pos: int) -> Result<
    (Seq<TokenModel>, int),
    LexErrorModel,
>
    decreases s.len() - i, 1int,
{
    if i >= s.len() {
        Err(lex_err(LexErrorKind::UnterminatedSuperscript, sup_pos))
    } else if is_space_char(s[i]) {
        spec_region(s, i + 1, depth, pdepth, sup_pos)
    } else if s[i] == ')' && pdepth == 0 {
        Ok((Seq::empty(), i + 1))
    } else {
        match spec_token(s, i, depth) {
            Err(e) => Err(e),
            Ok((t, k)) => if i < k <= s.len() {
                let pd = if s[i] == '(' {
                    pdepth + 1
                } else if s[i] == ')' {
                    pdepth - 1
                } else {
                    pdepth
                };
                match spec_region(s, k, depth, pd, sup_pos) {
                    Err(e) => Err(e),
                    Ok((ts, end)) => Ok((seq![t] + ts, end)),
                }
            } else {
                Err(lex_err(LexErrorKind::UnexpectedCharacter, byte_pos(s, i)))
            },
        }
    }
}

/// The top-level token stream from index `i` to the end of the input,
/// skipping spaces, without the final `EOF`. The `i < k` test only gives
/// the recursion its measure; a scanned token always ends past its start.
pub open spec fn spec_stream(s: Seq<char>, i: int) -> Result<Seq<TokenModel>, LexErrorModel>
    decreases s.len() - i, 1int,
{
    if i >= s.len() {
        Ok(Seq::empty())
    } else if is_space_char(s[i]) {
        spec_stream(s, i + 1)
    } else {
        match spec_token(s, i, 0) {
            Err(e) => Err(e),
            Ok((t, k)) => if i < k <= s.len() {
                match spec_stream(s, k) {
                    Err(e) => Err(e),
                    Ok(ts) => Ok(seq![t] + ts),
                }
            } else {
                Err(lex_err(LexErrorKind::UnexpectedCharacter, byte_pos(s, i)))
            },
        }
    }
}

/// What `tokenize` returns: the token stream of the whole input followed by
/// one `EOF` token whose empty range sits at the end of the encoded bytes.
pub open spec fn spec_tokenize(s: Seq<char>) -> Result<Seq<TokenModel>, LexErrorModel> {
    match spec_stream(s, 0) {
        Err(e) => Err(e),
        Ok(ts) => Ok(
            ts.push(tok(TokenTypeModel::EOF, byte_pos(s, s.len() as int), byte_pos(s, s.len() as int))),
        ),
    }
}

/// A character whose code point is below 128 takes one byte.
pub proof fn lemma_ascii_width(c: char)
    requires
        (c as u32) < 128,
    ensures
        char_width(c) == 1,
{
}

/// Byte positions across a run of one-byte characters advance by one per
/// character.
pub proof fn lemma_byte_pos_run_width1(s: Seq<char>, i: int, j: int)
    requires
        0 <= i <= j <= s.len(),
        forall|m: int| i <= m < j ==> char_width(#[trigger] s[m]) == 1,
    ensures
        byte_pos(s, j) == byte_pos(s, i) + (j - i),
    decreases j - i,
{
    if i < j {
        lemma_byte_pos_run_width1(s, i, j - 1);
        lemma_byte_pos_step(s, j - 1);
    }
}

fn ch_is_space(c: char) -> (b: bool)
    ensures
        b == is_space_char(c),
{
    c == ' ' || c == '\t'
}

fn ch_is_digit(c: char) -> (b: bool)
    ensures
        b == is_digit_char(c),
{
    let u: u32 = c as u32;
    '0' as u32 <= u && u <= '9' as u32
}

fn ch_is_word_start(c: char) -> (b: bool)
    ensures
        b == is_word_start_char(c),
{
    let u: u32 = c as u32;
    ('a' as u32 <= u && u <= 'z' as u32) || ('A' as u32 <= u && u <= 'Z' as u32) || c == '_'
}

fn ch_is_word(c: char) -> (b: bool)
    ensures
        b == is_word_char(c),
{
    ch_is_word_start(c) || ch_is_digit(c)
}

fn char_width_exec(c: char) -> (w: usize)
    ensures
        w as int == char_width(c),
        1 <= w <= 4,
{
    proof {
        char_is_scalar(c);
    }
    let u: u32 = c as u32;
    if u < 0x80 {
        1
    } else if u < 0x800 {
        2
    } else if u < 0x10000 {
        3
    } else {
        4
    }
}

/// First index at or after `i` whose character is not a decimal digit.
fn find_digit_run_end(s: &str, i: usize, n: usize) -> (e: usize)
    requires
        i <= n == s@.len(),
    ensures
        e as int == digit_run_end(s@, i as int),
        i <= e <= n,
        forall|m: int| i <= m < e ==> is_digit_char(#[trigger] s@[m]),
    decreases n - i,
{
    proof {
        lemma_digit_run(s@, i as int);
    }
    if i < n && ch_is_digit(s.get_char(i)) {
        find_digit_run_end(s, i + 1, n)
    } else {
        i
    }
}

/// First index at or after `i` whose character cannot continue a word.
fn find_word_run_end(s: &str, i: usize, n: usize) -> (e: usize)
    requires
        i <= n == s@.len(),
    ensures
        e as int == word_run_end(s@, i as int),
        i <= e <= n,
        forall|m: int| i <= m < e ==> is_word_char(#[trigger] s@[m]),
    decreases n - i,
{
    proof {
        lemma_word_run(s@, i as int);
    }
    if i < n && ch_is_word(s.get_char(i)) {
        find_word_run_end(s, i + 1, n)
    } else {
        i
    }
}

/// Scans a numeric literal: a maximal digit run, continued past one `.` only
/// when a digit follows, as `spec_number` describes.
fn scan_number(s: &str, i: usize, pos: usize, n: usize) -> (r: Result<
    (Token, usize, usize),
    LexError,
>)
    requires
        i < n == s@.len(),
        is_digit_char(s@[i as int]),
        pos as int == byte_pos(s@, i as int),
        encode_utf8(s@).len() <= usize::MAX,
    ensures
        match r {
            Ok((t, i2, pos2)) => spec_number(s@, i as int) == Ok::<(TokenModel, int), LexErrorModel>(
                (token_model(t), i2 as int),
            ) && i < i2 <= s@.len() && pos2 as int == byte_pos(s@, i2 as int),
            Err(e) => spec_number(s@, i as int) == Err::<(TokenModel, int), LexErrorModel>(
                lex_error_model(e),
            ),
        },
{
    proof {
        lemma_byte_pos_full(s@);
        lemma_digit_run(s@, i as int);
    }
    let e1 = find_digit_run_end(s, i, n);
    assert(e1 > i);
    proof {
        assert forall|m: int| i <= m < e1 implies char_width(#[trigger] s@[m]) == 1 by {
            lemma_ascii_width(s@[m]);
        }
        lemma_byte_pos_run_width1(s@, i as int, e1 as int);
        lemma_byte_pos_mono(s@, e1 as int, s@.len() as int);
    }
    let pos_e1 = pos + (e1 - i);
    if e1 < n && s.get_char(e1) == '.' && e1 + 1 < n && ch_is_digit(s.get_char(e1 + 1)) {
        let e2 = find_digit_run_end(s, e1 + 1, n);
        proof {
            lemma_ascii_width('.');
            assert forall|m: int| e1 <= m < e2 implies char_width(#[trigger] s@[m]) == 1 by {
                lemma_ascii_width(s@[m]);
            }
            lemma_byte_pos_run_width1(s@, e1 as int, e2 as int);
            lemma_byte_pos_mono(s@, e2 as int, s@.len() as int);
        }
        let pos_e2 = pos_e1 + (e2 - e1);
        let text = s.substring_char(i, e2).to_owned();
        let t = Token { ty: TokenType::Float(text), range: pos..pos_e2 };
        assert(token_model(t).ty =~= TokenTypeModel::Float(s@.subrange(i as int, e2 as int)));
        Ok((t, e2, pos_e2))
    } else {
        let ghost run = s@.subrange(i as int, e1 as int);
        let mut val: u64 = 0;
        let mut k = i;
        proof {
            assert(s@.subrange(i as int, i as int) =~= Seq::<char>::empty());
        }
        while k < e1
            invariant
                i <= k <= e1 <= n == s@.len(),
                forall|m: int| i <= m < e1 ==> is_digit_char(#[trigger] s@[m]),
                val as int == digits_val(s@.subrange(i as int, k as int)),
                val <= 0x7fff_ffff,
                pos as int == byte_pos(s@, i as int),
                e1 as int == digit_run_end(s@, i as int),
                run == s@.subrange(i as int, e1 as int),
                !((e1 as int) < s@.len() && s@[e1 as int] == '.' && e1 as int + 1 < s@.len()
                    && is_digit_char(s@[e1 as int + 1])),
            decreases e1 - k,
        {
            let c = s.get_char(k);
            let d: u32 = c as u32 - '0' as u32;
            val = val * 10 + (d as u64);
            proof {
                assert(s@.subrange(i as int, k + 1).drop_last() =~= s@.subrange(
                    i as int,
                    k as int,
                ));
                assert(s@.subrange(i as int, k + 1).last() == s@[k as int]);
            }
            if val > 0x7fff_ffff {
                proof {
                    assert(run.subrange(0, k + 1 - i) =~= s@.subrange(i as int, k + 1));
                    lemma_digits_val_prefix(run, k + 1 - i);
                    assert(digits_val(run) >= digits_val(s@.subrange(i as int, k + 1)));
                    assert(digits_val(run) > i32::MAX);
                    assert(spec_number(s@, i as int) == Err::<(TokenModel, int), LexErrorModel>(
                        lex_err(LexErrorKind::NumericOverflow, byte_pos(s@, i as int)),
                    ));
                }
                return Err(LexError { kind: LexErrorKind::NumericOverflow, pos });
            }
            k += 1;
        }
        let t = Token { ty: TokenType::Int(val as i32), range: pos..pos_e1 };
        Ok((t, e1, pos_e1))
    }
}

/// Scans a word and resolves it against the keyword table, as `spec_word`
/// describes.
fn scan_word(s: &str, i: usize, pos: usize, n: usize) -> (r: (Token, usize, usize))
    requires
        i < n == s@.len(),
        is_word_start_char(s@[i as int]),
        pos as int == byte_pos(s@, i as int),
        encode_utf8(s@).len() <= usize::MAX,
    ensures
        spec_word(s@, i as int) == (token_model(r.0), r.1 as int),
        i < r.1 <= s@.len(),
        r.2 as int == byte_pos(s@, r.1 as int),
{
    proof {
        lemma_byte_pos_full(s@);
        lemma_word_run(s@, i as int + 1);
    }
    let e = find_word_run_end(s, i + 1, n);
    proof {
        assert forall|m: int| i <= m < e implies char_width(#[trigger] s@[m]) == 1 by {
            lemma_ascii_width(s@[m]);
        }
        lemma_byte_pos_run_width1(s@, i as int, e as int);
        lemma_byte_pos_mono(s@, e as int, s@.len() as int);
    }
    let pos_e = pos + (e - i);
    let ghost text = s@.subrange(i as int, e as int);
    let len: usize = e - i;
    let ty: TokenType = if len == 2 && s.get_char(i) == 'i' && s.get_char(i + 1) == 'f' {
        proof {
            assert(text =~= seq!['i', 'f']);
        }
        TokenType::If
    } else if len == 4 && s.get_char(i) == 'e' && s.get_char(i + 1) == 'l' && s.get_char(i + 2)
        == 's' && s.get_char(i + 3) == 'e' {
        proof {
            assert(text =~= seq!['e', 'l', 's', 'e']);
        }
        TokenType::Else
    } else if len == 5 && s.get_char(i) == 'w' && s.get_char(i + 1) == 'h' && s.get_char(i + 2)
        == 'i' && s.get_char(i + 3) == 'l' && s.get_char(i + 4) == 'e' {
        proof {
            assert(text =~= seq!['w', 'h', 'i', 'l', 'e']);
        }
        TokenType::While
    } else if len == 3 && s.get_char(i) == 'a' && s.get_char(i + 1) == 'n' && s.get_char(i + 2)
        == 'd' {
        proof {
            assert(text =~= seq!['a', 'n', 'd']);
        }
        TokenType::And
    } else if len == 2 && s.get_char(i) == 'o' && s.get_char(i + 1) == 'r' {
        proof {
            assert(text =~= seq!['o', 'r']);
        }
        TokenType::Or
    } else if len == 3 && s.get_char(i) == 'n' && s.get_char(i + 1) == 'o' && s.get_char(i + 2)
        == 't' {
        proof {
            assert(text =~= seq!['n', 'o', 't']);
        }
        TokenType::Not
    } else {
        proof {
            assert(!(text =~= seq!['i', 'f']));
            assert(!(text =~= seq!['e', 'l', 's', 'e']));
            assert(!(text =~= seq!['w', 'h', 'i', 'l', 'e']));
            assert(!(text =~= seq!['a', 'n', 'd']));
            assert(!(text =~= seq!['o', 'r']));
            assert(!(text =~= seq!['n', 'o', 't']));
        }
        TokenType::Identifier(s.substring_char(i, e).to_owned())
    };
    let t = Token { ty, range: pos..pos_e };
    (t, e, pos_e)
}

/// Scans one operator or punctuation token, with one character of lookahead
/// for `==`, `!=`, `<=` and `>=`, as `spec_symbol` describes.
fn scan_symbol(s: &str, i: usize, pos: usize, n: usize) -> (r: Result<
    (Token, usize, usize),
    LexError,
>)
    requires
        i < n == s@.len(),
        pos as int == byte_pos(s@, i as int),
        encode_utf8(s@).len() <= usize::MAX,
    ensures
        match r {
            Ok((t, i2, pos2)) => spec_symbol(s@, i as int) == Ok::<(TokenModel, int), LexErrorModel>(
                (token_model(t), i2 as int),
            ) && i < i2 <= s@.len() && pos2 as int == byte_pos(s@, i2 as int),
            Err(e) => spec_symbol(s@, i as int) == Err::<(TokenModel, int), LexErrorModel>(
                lex_error_model(e),
            ),
        },
{
    proof {
        lemma_byte_pos_full(s@);
        lemma_byte_pos_step(s@, i as int);
        lemma_byte_pos_mono(s@, i as int + 1, s@.len() as int);
        if i as int + 2 <= s@.len() {
            lemma_byte_pos_step(s@, i as int + 1);
            lemma_byte_pos_mono(s@, i as int + 2, s@.len() as int);
        }
    }
    let c = s.get_char(i);
    let two = i + 1 < n && s.get_char(i + 1) == '=';
    proof {
        lemma_char_width(c);
        if two {
            lemma_ascii_width('=');
        }
    }
    if c == '=' || c == '!' || c == '<' || c == '>' {
        proof {
            lemma_ascii_width(c);
        }
        if two {
            let ty: TokenType = if c == '=' {
                TokenType::EqEq
            } else if c == '!' {
                TokenType::Neq
            } else if c == '<' {
                TokenType::Lte
            } else {
                TokenType::Gte
            };
            Ok((Token { ty, range: pos..pos + 2 }, i + 2, pos + 2))
        } else {
            let ty: TokenType = if c == '=' {
                TokenType::Eq
            } else if c == '!' {
                TokenType::Exclamation
            } else if c == '<' {
                TokenType::Lt
            } else {
                TokenType::Gt
            };
            Ok((Token { ty, range: pos..pos + 1 }, i + 1, pos + 1))
        }
    } else {
        let w = char_width_exec(c);
        let ty: Option<TokenType> = if c == '+' {
            Some(TokenType::Plus)
        } else if c == '-' {
            Some(TokenType::Minus)
        } else if c == '*' {
            Some(TokenType::Star)
        } else if c == '\u{2219}' {
            Some(TokenType::Dot)
        } else if c == '\u{d7}' {
            Some(TokenType::Cross)
        } else if c == '/' {
            Some(TokenType::Slash)
        } else if c == '\u{f7}' {
            Some(TokenType::Divide)
        } else if c == '%' {
            Some(TokenType::Percent)
        } else if c == '\u{b0}' {
            Some(TokenType::Degree)
        } else if c == '\u{221a}' {
            Some(TokenType::Sqrt)
        } else if c == '\u{221b}' {
            Some(TokenType::Cbrt)
        } else if c == '\u{221c}' {
            Some(TokenType::Fort)
        } else if c == '(' {
            Some(TokenType::LeftParen)
        } else if c == ')' {
            Some(TokenType::RightParen)
        } else if c == '{' {
            Some(TokenType::LeftBrace)
        } else if c == '}' {
            Some(TokenType::RightBrace)
        } else if c == '|' {
            Some(TokenType::Pipe)
        } else if c == '\u{230a}' {
            Some(TokenType::LeftFloor)
        } else if c == '\u{230b}' {
            Some(TokenType::RightFloor)
        } else if c == '\u{2308}' {
            Some(TokenType::LeftCeil)
        } else if c == '\u{2309}' {
            Some(TokenType::RightCeil)
        } else if c == ',' {
            Some(TokenType::Comma)
        } else {
            None
        };
        match ty {
            Some(ty) => Ok((Token { ty, range: pos..pos + w }, i + 1, pos + w)),
            None => Err(LexError { kind: LexErrorKind::UnexpectedCharacter, pos }),
        }
    }
}

/// Scans the token starting at index `i`, dispatching on its first
/// character as `spec_token` describes; `depth` counts enclosing
/// superscript regions.
fn next_token(s: &str, i: usize, pos: usize, depth: usize, n: usize) -> (r: Result<
    (Token, usize, usize),
    LexError,
>)
    requires
        i < n == s@.len(),
        pos as int == byte_pos(s@, i as int),
        depth <= MAX_SUPERSCRIPT_DEPTH,
        encode_utf8(s@).len() <= usize::MAX,
    ensures
        match r {
            Ok((t, i2, pos2)) => spec_token(s@, i as int, depth as int) == Ok::<
                (TokenModel, int),
                LexErrorModel,
            >((token_model(t), i2 as int)) && i < i2 <= s@.len() && pos2 as int == byte_pos(
                s@,
                i2 as int,
            ),
            Err(e) => spec_token(s@, i as int, depth as int) == Err::<
                (TokenModel, int),
                LexErrorModel,
            >(lex_error_model(e)),
        },
    decreases s@.len() - i, 0int,
{
    proof {
        lemma_byte_pos_full(s@);
    }
    let c = s.get_char(i);
    if c == '\n' {
        proof {
            lemma_ascii_width('\n');
            lemma_byte_pos_step(s@, i as int);
            lemma_byte_pos_mono(s@, i as int + 1, s@.len() as int);
        }
        Ok((Token { ty: TokenType::Newline, range: pos..pos + 1 }, i + 1, pos + 1))
    } else if ch_is_digit(c) {
        scan_number(s, i, pos, n)
    } else if ch_is_word_start(c) {
        Ok(scan_word(s, i, pos, n))
    } else if c == '^' {
        proof {
            lemma_ascii_width('^');
            lemma_byte_pos_step(s@, i as int);
            lemma_byte_pos_mono(s@, i as int + 1, s@.len() as int);
            if i as int + 2 <= s@.len() {
                lemma_byte_pos_step(s@, i as int + 1);
                lemma_byte_pos_mono(s@, i as int + 2, s@.len() as int);
            }
        }
        if depth >= MAX_SUPERSCRIPT_DEPTH {
            Err(LexError { kind: LexErrorKind::SuperscriptNestingTooDeep, pos })
        } else if i + 1 < n && s.get_char(i + 1) == '(' {
            proof {
                lemma_ascii_width('(');
                lemma_byte_pos_step(s@, i as int + 1);
            }
            match scan_region_exec(s, i + 2, pos + 2, depth + 1, 0, pos, n) {
                Err(e) => Err(e),
                Ok((v, i2, pos2)) => {
                    if v.len() == 0 {
                        proof {
                            assert(tokens_model_rec(v@) =~= Seq::<TokenModel>::empty());
                        }
                        Err(LexError { kind: LexErrorKind::UnexpectedCharacter, pos: pos2 - 1 })
                    } else {
                        proof {
                            crate::token::lemma_tokens_model_index(v@);
                        }
                        let t = Token { ty: TokenType::Superscript(v), range: pos..pos2 };
                        Ok((t, i2, pos2))
                    }
                },
            }
        } else if i + 1 < n && s.get_char(i + 1) == '-' {
            proof {
                lemma_ascii_width('-');
                lemma_byte_pos_step(s@, i as int + 1);
            }
            if i + 2 < n {
                match next_token(s, i + 2, pos + 2, depth + 1, n) {
                    Err(e) => Err(e),
                    Ok((t2, k, pos_k)) => {
                        let minus = Token { ty: TokenType::Minus, range: pos + 1..pos + 2 };
                        let mut v: Vec<Token> = Vec::new();
                        v.push(minus);
                        v.push(t2);
                        proof {
                            crate::token::lemma_tokens_model_index(v@);
                            assert(tokens_model_rec(v@) =~= seq![
                                token_model(minus),
                                token_model(t2),
                            ]);
                        }
                        let t = Token { ty: TokenType::Superscript(v), range: pos..pos_k };
                        Ok((t, k, pos_k))
                    },
                }
            } else {
                Err(LexError { kind: LexErrorKind::UnterminatedSuperscript, pos })
            }
        } else if i + 1 < n {
            match next_token(s, i + 1, pos + 1, depth + 1, n) {
                Err(e) => Err(e),
                Ok((t1, k, pos_k)) => {
                    let mut v: Vec<Token> = Vec::new();
                    v.push(t1);
                    proof {
                        crate::token::lemma_tokens_model_index(v@);
                        assert(tokens_model_rec(v@) =~= seq![token_model(t1)]);
                    }
                    let t = Token { ty: TokenType::Superscript(v), range: pos..pos_k };
                    Ok((t, k, pos_k))
                },
            }
        } else {
            Err(LexError { kind: LexErrorKind::UnterminatedSuperscript, pos })
        }
    } else {
        scan_symbol(s, i, pos, n)
    }
}

/// Scans a superscript region after `^(` through its closing `)`, as
/// `spec_region` describes. `sup_pos` is the byte offset of the `^`,
/// reported when the region never closes.
fn scan_region_exec(
    s: &str,
    i: usize,
    pos: usize,
    depth: usize,
    pdepth: usize,
    sup_pos: usize,
    n: usize,
) -> (r: Result<(Vec<Token>, usize, usize), LexError>)
    requires
        i <= n == s@.len(),
        pos as int == byte_pos(s@, i as int),
        depth <= MAX_SUPERSCRIPT_DEPTH,
        pdepth <= i,
        encode_utf8(s@).len() <= usize::MAX,
    ensures
        match r {
            Ok((v, i2, pos2)) => spec_region(
                s@,
                i as int,
                depth as int,
                pdepth as int,
                sup_pos as int,
            ) == Ok::<(Seq<TokenModel>, int), LexErrorModel>((tokens_model_rec(v@), i2 as int))
                && i < i2 <= s@.len() && pos2 as int == byte_pos(s@, i2 as int) && s@[i2 - 1] == ')'
                && pos2 >= 1 && byte_pos(s@, i2 - 1) == pos2 as int - 1,
            Err(e) => spec_region(s@, i as int, depth as int, pdepth as int, sup_pos as int)
                == Err::<(Seq<TokenModel>, int), LexErrorModel>(lex_error_model(e)),
        },
    decreases s@.len() - i, 1int,
{
    proof {
        lemma_byte_pos_full(s@);
    }
    if i >= n {
        return Err(LexError { kind: LexErrorKind::UnterminatedSuperscript, pos: sup_pos });
    }
    let c = s.get_char(i);
    if ch_is_space(c) {
        proof {
            lemma_ascii_width(c);
            lemma_byte_pos_step(s@, i as int);
            lemma_byte_pos_mono(s@, i as int + 1, s@.len() as int);
        }
        scan_region_exec(s, i + 1, pos + 1, depth, pdepth, sup_pos, n)
    } else if c == ')' && pdepth == 0 {
        proof {
            lemma_ascii_width(')');
            lemma_byte_pos_step(s@, i as int);
            lemma_byte_pos_mono(s@, i as int + 1, s@.len() as int);
        }
        let v: Vec<Token> = Vec::new();
        proof {
            assert(tokens_model_rec(v@) =~= Seq::<TokenModel>::empty());
        }
        Ok((v, i + 1, pos + 1))
    } else {
        match next_token(s, i, pos, depth, n) {
            Err(e) => Err(e),
            Ok((t, k, pos_k)) => {
                let pd: usize = if c == '(' {
                    pdepth + 1
                } else if c == ')' {
                    pdepth - 1
                } else {
                    pdepth
                };
                match scan_region_exec(s, k, pos_k, depth, pd, sup_pos, n) {
                    Err(e) => Err(e),
                    Ok((v, i2, pos2)) => {
                        let ghost rest = v@;
                        let mut v = v;
                        v.insert(0, t);
                        proof {
                            assert(v@ =~= seq![t] + rest);
                            crate::token::lemma_tokens_model_cons(t, rest);
                        }
                        Ok((v, i2, pos2))
                    },
                }
            },
        }
    }
}

/// Turns source text into its token stream: a token for each lexical unit in
/// order, ending in one `EOF` token at the end of the encoded bytes, or the
/// first lexical error. `spec_tokenize` states exactly which stream or error
/// every input yields.
#[verifier::rlimit(100)]
pub fn tokenize(s: &str) -> (r: Result<Vec<Token>, LexError>)
    ensures
        match r {
            Ok(v) => spec_tokenize(s@) == Ok::<Seq<TokenModel>, LexErrorModel>(
                tokens_model_rec(v@),
            ),
            Err(e) => spec_tokenize(s@) == Err::<Seq<TokenModel>, LexErrorModel>(
                lex_error_model(e),
            ),
        },
{
    let n = s.unicode_len();
    let bytes = s.as_bytes();
    let n_bytes = bytes.len();
    proof {
        assert(bytes@ == encode_utf8(s@));
        lemma_byte_pos_full(s@);
        lemma_byte_pos_zero(s@);
    }
    let mut acc: Vec<Token> = Vec::new();
    let mut i: usize = 0;
    let mut pos: usize = 0;
    proof {
        assert(tokens_model_rec(acc@) =~= Seq::<TokenModel>::empty());
        if spec_stream(s@, 0) is Ok {
            assert(tokens_model_rec(acc@) + spec_stream(s@, 0)->Ok_0 =~= spec_stream(s@, 0)->Ok_0);
        }
    }
    while i < n
        invariant
            i <= n == s@.len(),
            n_bytes == encode_utf8(s@).len(),
            pos as int == byte_pos(s@, i as int),
            spec_stream(s@, 0) == (match spec_stream(s@, i as int) {
                Ok(rest) => Ok::<Seq<TokenModel>, LexErrorModel>(tokens_model_rec(acc@) + rest),
                Err(e) => Err::<Seq<TokenModel>, LexErrorModel>(e),
            }),
        decreases n - i,
    {
        let c = s.get_char(i);
        if ch_is_space(c) {
            proof {
                lemma_ascii_width(c);
                lemma_byte_pos_full(s@);
                lemma_byte_pos_step(s@, i as int);
                lemma_byte_pos_mono(s@, i as int + 1, s@.len() as int);
            }
            i += 1;
            pos += 1;
        } else {
            match next_token(s, i, pos, 0, n) {
                Err(e) => {
                    return Err(e);
                },
                Ok((t, i2, pos2)) => {
                    proof {
                        let tm = token_model(t);
                        let accm = tokens_model_rec(acc@);
                        crate::token::lemma_tokens_model_push(acc@, t);
                        assert(accm + seq![tm] =~= accm.push(tm));
                        if spec_stream(s@, i2 as int) is Ok {
                            let rest2 = spec_stream(s@, i2 as int)->Ok_0;
                            assert(accm + (seq![tm] + rest2) =~= (accm + seq![tm]) + rest2);
                        }
                    }
                    acc.push(t);
                    i = i2;
                    pos = pos2;
                },
            }
        }
    }
    proof {
        assert(tokens_model_rec(acc@) + Seq::<TokenModel>::empty() =~= tokens_model_rec(acc@));
    }
    let eof = Token { ty: TokenType::EOF, range: n_bytes..n_bytes };
    proof {
        crate::token::lemma_tokens_model_push(acc@, eof);
    }
    acc.push(eof);
    Ok(acc)
}

} // verus!
