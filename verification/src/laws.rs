//! Stream-level laws of the tokenizer, proved from the scanner model alone:
//! the final `EOF` token, the ordering of byte ranges, and the round trip
//! from a token kind's rendering back through the scanner.

use crate::scan::{
    byte_pos, digit_run_end, digit_val, digits_val, is_digit_char, is_word_char,
    is_word_start_char, keyword_token, lemma_ascii_width, lemma_byte_pos_mono,
    lemma_byte_pos_run_width1, lemma_byte_pos_zero, lemma_digit_run, lemma_word_run, spec_number,
    spec_region, spec_stream, spec_token, spec_tokenize, spec_word, tok, word_run_end,
};
use crate::token::{digit_char, display_type_model, nat_digits, TokenModel, TokenTypeModel};
use vstd::prelude::*;

verus! {

/// Consecutive tokens cover ordered, non-overlapping byte ranges.
pub open spec fn ranges_monotonic(ts: Seq<TokenModel>) -> bool {
    forall|x: int| 0 <= x < ts.len() - 1 ==> #[trigger] ts[x].end <= ts[x + 1].start
}

/// A well-formed token has an ordered range; a superscript payload is
/// non-empty, well-formed in turn, and sits inside its token's range: each
/// nested token starts strictly after the `^` and ends no later than the
/// superscript itself. (The end is reached exactly by a single-token
/// exponent, as in `x^2`; a parenthesised region ends strictly earlier,
/// before its closing parenthesis.)
pub open spec fn token_wf(t: TokenModel) -> bool
    decreases t,
{
    &&& t.start <= t.end
    &&& match t.ty {
        TokenTypeModel::Superscript(ts) => {
            &&& ts.len() > 0
            &&& tokens_wf(ts)
            &&& forall|x: int|
                0 <= x < ts.len() ==> t.start < (#[trigger] ts[x]).start && ts[x].end <= t.end
        },
        _ => true,
    }
}

/// Every token of the sequence is well-formed.
pub open spec fn tokens_wf(ts: Seq<TokenModel>) -> bool
    decreases ts,
{
    if ts.len() == 0 {
        true
    } else {
        token_wf(ts[0]) && tokens_wf(ts.drop_first())
    }
}

pub proof fn lemma_tokens_wf_cons(t: TokenModel, ts: Seq<TokenModel>)
    requires
        token_wf(t),
        tokens_wf(ts),
    ensures
        tokens_wf(seq![t] + ts),
{
    assert((seq![t] + ts)[0] == t);
    assert((seq![t] + ts).drop_first() =~= ts);
}

pub proof fn lemma_tokens_wf_push(ts: Seq<TokenModel>, t: TokenModel)
    requires
        tokens_wf(ts),
        token_wf(t),
    ensures
        tokens_wf(ts.push(t)),
    decreases ts.len(),
{
    if ts.len() == 0 {
        reveal_with_fuel(tokens_wf, 2);
        assert(ts.push(t)[0] == t);
        assert(ts.push(t).drop_first() =~= Seq::<TokenModel>::empty());
    } else {
        assert(ts.push(t)[0] == ts[0]);
        assert(ts.push(t).drop_first() =~= ts.drop_first().push(t));
        lemma_tokens_wf_push(ts.drop_first(), t);
    }
}

/// A token scanned at `i` spans exactly the bytes of the characters it
/// consumed: it starts at the byte position of `i` and ends at the byte
/// position of the first character after it.
pub proof fn lemma_token_bounds(s: Seq<char>, i: int, depth: int)
    requires
        0 <= i < s.len(),
    ensures
        match spec_token(s, i, depth) {
            Ok((t, k)) => i < k <= s.len() && t.start == byte_pos(s, i) && t.end == byte_pos(s, k)
                && token_wf(t) && t.ty != TokenTypeModel::EOF,
            Err(_) => true,
        },
    decreases s.len() - i, 0int,
{
    let c = s[i];
    if c == '\n' {
        lemma_byte_pos_mono(s, i, i + 1);
    } else if is_digit_char(c) {
        lemma_digit_run(s, i);
        lemma_byte_pos_mono(s, i, digit_run_end(s, i));
        if spec_number(s, i) is Ok {
            let e1 = digit_run_end(s, i);
            if e1 < s.len() && s[e1] == '.' && e1 + 1 < s.len() && is_digit_char(s[e1 + 1]) {
                lemma_digit_run(s, e1 + 1);
                lemma_byte_pos_mono(s, i, digit_run_end(s, e1 + 1));
            }
        }
    } else if is_word_start_char(c) {
        lemma_word_run(s, i + 1);
        lemma_byte_pos_mono(s, i, word_run_end(s, i + 1));
    } else if c == '^' {
        if depth >= crate::scan::MAX_SUPERSCRIPT_DEPTH {
        } else if i + 1 < s.len() && s[i + 1] == '(' {
            lemma_region_bounds(s, i + 2, depth + 1, 0, byte_pos(s, i));
            if spec_region(s, i + 2, depth + 1, 0, byte_pos(s, i)) is Ok {
                let (ts, end) = spec_region(s, i + 2, depth + 1, 0, byte_pos(s, i))->Ok_0;
                lemma_byte_pos_mono(s, i, i + 2);
                lemma_byte_pos_mono(s, end - 1, end);
                lemma_byte_pos_mono(s, i, end);
                if ts.len() > 0 {
                    let t = tok(TokenTypeModel::Superscript(ts), byte_pos(s, i), byte_pos(s, end));
                    assert forall|x: int| 0 <= x < ts.len() implies t.start < (
                    #[trigger] ts[x]).start && ts[x].end <= t.end by {
                        assert(byte_pos(s, i + 2) <= ts[x].start);
                        assert(ts[x].end <= byte_pos(s, end - 1));
                    }
                    assert(token_wf(t));
                }
            }
        } else if i + 1 < s.len() && s[i + 1] == '-' {
            if i + 2 < s.len() {
                lemma_token_bounds(s, i + 2, depth + 1);
                lemma_byte_pos_mono(s, i, i + 1);
                lemma_byte_pos_mono(s, i + 1, i + 2);
                if spec_token(s, i + 2, depth + 1) is Ok {
                    let (t2, k) = spec_token(s, i + 2, depth + 1)->Ok_0;
                    lemma_byte_pos_mono(s, i + 2, k);
                    let minus = tok(TokenTypeModel::Minus, byte_pos(s, i + 1), byte_pos(s, i + 2));
                    let payload = seq![minus, t2];
                    reveal_with_fuel(tokens_wf, 3);
                    assert(payload.drop_first() =~= seq![t2]);
                    assert(seq![t2].drop_first() =~= Seq::<TokenModel>::empty());
                    assert(tokens_wf(payload));
                    assert(token_wf(
                        tok(TokenTypeModel::Superscript(payload), byte_pos(s, i), byte_pos(s, k)),
                    ));
                }
            }
        } else if i + 1 < s.len() {
            lemma_token_bounds(s, i + 1, depth + 1);
            lemma_byte_pos_mono(s, i, i + 1);
            if spec_token(s, i + 1, depth + 1) is Ok {
                let (t1, k) = spec_token(s, i + 1, depth + 1)->Ok_0;
                lemma_byte_pos_mono(s, i + 1, k);
                let payload = seq![t1];
                reveal_with_fuel(tokens_wf, 2);
                assert(payload.drop_first() =~= Seq::<TokenModel>::empty());
                assert(tokens_wf(payload));
                assert(token_wf(
                    tok(TokenTypeModel::Superscript(payload), byte_pos(s, i), byte_pos(s, k)),
                ));
            }
        }
    } else {
        lemma_byte_pos_mono(s, i, i + 1);
        if i + 2 <= s.len() {
            lemma_byte_pos_mono(s, i, i + 2);
        }
    }
}

/// The tokens of a superscript region are ordered and lie between the
/// region's start and its closing parenthesis.
pub proof fn lemma_region_bounds(s: Seq<char>, i: int, depth: int, pdepth: int, sup_pos: int)
    requires
        0 <= i <= s.len(),
    ensures
        match spec_region(s, i, depth, pdepth, sup_pos) {
            Ok((ts, end)) => i < end <= s.len() && ranges_monotonic(ts) && tokens_wf(ts) && (
            forall|x: int|
                0 <= x < ts.len() ==> byte_pos(s, i) <= #[trigger] ts[x].start && ts[x].end
                    <= byte_pos(s, end - 1)),
            Err(_) => true,
        },
    decreases s.len() - i, 1int,
{
    if i >= s.len() {
    } else if crate::scan::is_space_char(s[i]) {
        lemma_region_bounds(s, i + 1, depth, pdepth, sup_pos);
        lemma_byte_pos_mono(s, i, i + 1);
    } else if s[i] == ')' && pdepth == 0 {
    } else {
        lemma_token_bounds(s, i, depth);
        if spec_token(s, i, depth) is Ok {
            let (t, k) = spec_token(s, i, depth)->Ok_0;
            let pd = if s[i] == '(' {
                pdepth + 1
            } else if s[i] == ')' {
                pdepth - 1
            } else {
                pdepth
            };
            lemma_region_bounds(s, k, depth, pd, sup_pos);
            if spec_region(s, k, depth, pd, sup_pos) is Ok {
                let (rest, end) = spec_region(s, k, depth, pd, sup_pos)->Ok_0;
                let combined = seq![t] + rest;
                lemma_tokens_wf_cons(t, rest);
                lemma_byte_pos_mono(s, i, k);
                lemma_byte_pos_mono(s, k, end - 1);
                assert forall|x: int| 0 <= x < combined.len() - 1 implies combined[x].end
                    <= combined[x + 1].start by {
                    if x == 0 {
                        assert(combined[1] == rest[0]);
                        assert(byte_pos(s, k) <= rest[0].start);
                    } else {
                        assert(combined[x] == rest[x - 1]);
                        assert(combined[x + 1] == rest[x]);
                        assert(rest[x - 1].end <= rest[x].start);
                    }
                }
                assert forall|x: int| 0 <= x < combined.len() implies byte_pos(s, i)
                    <= #[trigger] combined[x].start && combined[x].end <= byte_pos(s, end - 1) by {
                    if x == 0 {
                        assert(combined[0] == t);
                    } else {
                        assert(combined[x] == rest[x - 1]);
                        assert(byte_pos(s, k) <= rest[x - 1].start);
                    }
                }
            }
        }
    }
}

/// The top-level tokens are ordered and lie between the byte position of `i`
/// and the end of the input.
pub proof fn lemma_stream_bounds(s: Seq<char>, i: int)
    requires
        0 <= i <= s.len(),
    ensures
        match spec_stream(s, i) {
            Ok(ts) => ranges_monotonic(ts) && tokens_wf(ts) && (forall|x: int|
                0 <= x < ts.len() ==> byte_pos(s, i) <= #[trigger] ts[x].start && ts[x].end
                    <= byte_pos(s, s.len() as int) && ts[x].ty != TokenTypeModel::EOF),
            Err(_) => true,
        },
    decreases s.len() - i, 1int,
{
    if i >= s.len() {
    } else if crate::scan::is_space_char(s[i]) {
        lemma_stream_bounds(s, i + 1);
        lemma_byte_pos_mono(s, i, i + 1);
    } else {
        lemma_token_bounds(s, i, 0);
        if spec_token(s, i, 0) is Ok {
            let (t, k) = spec_token(s, i, 0)->Ok_0;
            lemma_stream_bounds(s, k);
            if spec_stream(s, k) is Ok {
                let rest = spec_stream(s, k)->Ok_0;
                let combined = seq![t] + rest;
                lemma_tokens_wf_cons(t, rest);
                lemma_byte_pos_mono(s, i, k);
                lemma_byte_pos_mono(s, k, s.len() as int);
                assert forall|x: int| 0 <= x < combined.len() - 1 implies combined[x].end
                    <= combined[x + 1].start by {
                    if x == 0 {
                        assert(combined[1] == rest[0]);
                        assert(byte_pos(s, k) <= rest[0].start);
                    } else {
                        assert(combined[x] == rest[x - 1]);
                        assert(combined[x + 1] == rest[x]);
                        assert(rest[x - 1].end <= rest[x].start);
                    }
                }
                assert forall|x: int| 0 <= x < combined.len() implies byte_pos(s, i)
                    <= #[trigger] combined[x].start && combined[x].end <= byte_pos(
                    s,
                    s.len() as int,
                ) by {
                    if x == 0 {
                        assert(combined[0] == t);
                    } else {
                        assert(combined[x] == rest[x - 1]);
                        assert(byte_pos(s, k) <= rest[x - 1].start);
                    }
                }
            }
        }
    }
}

/// Whenever scanning succeeds, the stream ends in exactly one `EOF` token
/// whose empty range sits at the end of the input's encoded bytes, and the
/// token before it ends at or before that point.
pub proof fn lemma_tokenize_ends_with_eof(s: Seq<char>)
    requires
        spec_tokenize(s) is Ok,
    ensures
        ({
            let ts = spec_tokenize(s)->Ok_0;
            &&& ts.len() >= 1
            &&& ts.last().ty == TokenTypeModel::EOF
            &&& ts.last().start == byte_pos(s, s.len() as int)
            &&& ts.last().end == byte_pos(s, s.len() as int)
            &&& (ts.len() >= 2 ==> ts[ts.len() - 2].end <= ts.last().start)
            &&& (forall|x: int|
                0 <= x < ts.len() - 1 ==> (#[trigger] ts[x]).ty != TokenTypeModel::EOF)
        }),
{
    lemma_stream_bounds(s, 0);
    let inner = spec_stream(s, 0)->Ok_0;
    let ts = spec_tokenize(s)->Ok_0;
    let last = tok(
        TokenTypeModel::EOF,
        byte_pos(s, s.len() as int),
        byte_pos(s, s.len() as int),
    );
    assert(ts == inner.push(last));
    assert(ts.last() == last);
    if inner.len() > 0 {
        assert(byte_pos(s, 0) <= inner[inner.len() - 1].start);
        assert(inner[inner.len() - 1].end <= byte_pos(s, s.len() as int));
        assert(ts[ts.len() - 2] == inner[inner.len() - 1]);
    }
    assert forall|x: int| 0 <= x < ts.len() - 1 implies (#[trigger] ts[x]).ty
        != TokenTypeModel::EOF by {
        assert(ts[x] == inner[x]);
        assert(byte_pos(s, 0) <= inner[x].start);
    }
}

/// Every token of a successful scan is well-formed: its byte range is
/// ordered, and a superscript always holds a non-empty payload of
/// well-formed tokens lying inside its own range.
pub proof fn lemma_tokenize_tokens_wf(s: Seq<char>)
    requires
        spec_tokenize(s) is Ok,
    ensures
        tokens_wf(spec_tokenize(s)->Ok_0),
{
    lemma_stream_bounds(s, 0);
    let inner = spec_stream(s, 0)->Ok_0;
    let eof = tok(
        TokenTypeModel::EOF,
        byte_pos(s, s.len() as int),
        byte_pos(s, s.len() as int),
    );
    lemma_tokens_wf_push(inner, eof);
}

/// Consecutive top-level tokens cover ordered, non-overlapping byte ranges,
/// the final `EOF` included.
pub proof fn lemma_tokenize_ranges_monotonic(s: Seq<char>)
    requires
        spec_tokenize(s) is Ok,
    ensures
        ranges_monotonic(spec_tokenize(s)->Ok_0),
{
    lemma_stream_bounds(s, 0);
    let inner = spec_stream(s, 0)->Ok_0;
    let ts = spec_tokenize(s)->Ok_0;
    assert forall|x: int| 0 <= x < ts.len() - 1 implies ts[x].end <= ts[x + 1].start by {
        if x < inner.len() - 1 {
            assert(ts[x] == inner[x]);
            assert(ts[x + 1] == inner[x + 1]);
            assert(inner[x].end <= inner[x + 1].start);
        } else {
            assert(ts[x] == inner[x]);
            assert(byte_pos(s, 0) <= inner[x].start);
            assert(inner[x].end <= byte_pos(s, s.len() as int));
        }
    }
}

/// The decimal rendering of a non-negative integer consists of digits and
/// denotes the integer itself.
pub proof fn lemma_nat_digits_wf(n: int)
    requires
        n >= 0,
    ensures
        nat_digits(n).len() >= 1,
        forall|m: int| 0 <= m < nat_digits(n).len() ==> is_digit_char(#[trigger] nat_digits(n)[m]),
        digits_val(nat_digits(n)) == n,
    decreases n,
{
    if n < 10 {
        reveal_with_fuel(digits_val, 2);
        assert(seq![digit_char(n)].drop_last() =~= Seq::<char>::empty());
        assert(seq![digit_char(n)].last() == digit_char(n));
        assert(digits_val(seq![digit_char(n)]) == digit_val(digit_char(n)));
    } else {
        lemma_nat_digits_wf(n / 10);
        let prefix = nat_digits(n / 10);
        let d = digit_char(n % 10);
        assert(prefix.push(d).drop_last() =~= prefix);
        assert(prefix.push(d).last() == d);
        assert(digits_val(prefix.push(d)) == n / 10 * 10 + n % 10);
    }
}

/// Scanning a sequence made of digits alone reads it to the end.
pub proof fn lemma_all_digits_run(text: Seq<char>)
    requires
        forall|m: int| 0 <= m < text.len() ==> is_digit_char(#[trigger] text[m]),
    ensures
        digit_run_end(text, 0) == text.len(),
{
    lemma_digit_run(text, 0);
}

/// Re-lexing the rendering of a non-negative integer token yields the same
/// kind followed by `EOF`. A negative value renders with a leading sign,
/// which the scanner reads as `Minus` followed by the magnitude, so it is
/// left out here.
pub proof fn lemma_display_int_roundtrip(n: i32)
    requires
        0 <= n,
    ensures
        ({
            let text = display_type_model(TokenTypeModel::Int(n));
            spec_tokenize(text) == Ok::<Seq<TokenModel>, crate::scan::LexErrorModel>(
                seq![
                    tok(TokenTypeModel::Int(n), 0, text.len() as int),
                    tok(TokenTypeModel::EOF, text.len() as int, text.len() as int),
                ],
            )
        }),
{
    lemma_nat_digits_wf(n as int);
    let text = nat_digits(n as int);
    let len = text.len() as int;
    lemma_all_digits_run(text);
    lemma_byte_pos_zero(text);
    assert forall|m: int| 0 <= m < len implies crate::scan::char_width(#[trigger] text[m])
        == 1 by {
        lemma_ascii_width(text[m]);
    }
    lemma_byte_pos_run_width1(text, 0, len);
    assert(text.subrange(0, len) =~= text);
    assert(!crate::scan::is_space_char(text[0]));
    assert(spec_token(text, 0, 0) == Ok::<(TokenModel, int), crate::scan::LexErrorModel>(
        (tok(TokenTypeModel::Int(n), 0, len), len),
    ));
    assert(spec_stream(text, len) == Ok::<Seq<TokenModel>, crate::scan::LexErrorModel>(
        Seq::empty(),
    ));
    let t0 = tok(TokenTypeModel::Int(n), 0, len);
    assert(seq![t0] + Seq::<TokenModel>::empty() =~= seq![t0]);
    let eof = tok(TokenTypeModel::EOF, len, len);
    assert(seq![t0].push(eof) =~= seq![t0, eof]);
}

/// Re-lexing the rendering of a float token (its own literal text, digits
/// around one point) yields the same kind followed by `EOF`.
pub proof fn lemma_display_float_roundtrip(a: Seq<char>, b: Seq<char>)
    requires
        a.len() > 0,
        b.len() > 0,
        forall|m: int| 0 <= m < a.len() ==> is_digit_char(#[trigger] a[m]),
        forall|m: int| 0 <= m < b.len() ==> is_digit_char(#[trigger] b[m]),
    ensures
        ({
            let text = a + seq!['.'] + b;
            &&& display_type_model(TokenTypeModel::Float(text)) == text
            &&& spec_tokenize(text) == Ok::<Seq<TokenModel>, crate::scan::LexErrorModel>(
                seq![
                    tok(TokenTypeModel::Float(text), 0, text.len() as int),
                    tok(TokenTypeModel::EOF, text.len() as int, text.len() as int),
                ],
            )
        }),
{
    let text = a + seq!['.'] + b;
    let alen = a.len() as int;
    let len = text.len() as int;
    assert(text[alen] == '.');
    assert(forall|m: int| 0 <= m < alen ==> #[trigger] text[m] == a[m]);
    assert(forall|m: int| alen + 1 <= m < len ==> #[trigger] text[m] == b[m - alen - 1]);
    lemma_digit_run(text, 0);
    assert(digit_run_end(text, 0) == alen);
    lemma_digit_run(text, alen + 1);
    assert(digit_run_end(text, alen + 1) == len);
    lemma_byte_pos_zero(text);
    assert forall|m: int| 0 <= m < len implies crate::scan::char_width(#[trigger] text[m])
        == 1 by {
        lemma_ascii_width(text[m]);
    }
    lemma_byte_pos_run_width1(text, 0, len);
    assert(text.subrange(0, len) =~= text);
    assert(!crate::scan::is_space_char(text[0]));
    assert(spec_token(text, 0, 0) == Ok::<(TokenModel, int), crate::scan::LexErrorModel>(
        (tok(TokenTypeModel::Float(text), 0, len), len),
    ));
    assert(spec_stream(text, len) == Ok::<Seq<TokenModel>, crate::scan::LexErrorModel>(
        Seq::empty(),
    ));
    let t0 = tok(TokenTypeModel::Float(text), 0, len);
    assert(seq![t0] + Seq::<TokenModel>::empty() =~= seq![t0]);
    let eof = tok(TokenTypeModel::EOF, len, len);
    assert(seq![t0].push(eof) =~= seq![t0, eof]);
}

/// Re-lexing the rendering of an identifier token (its own text) yields the
/// same kind followed by `EOF`. The text must be a well-formed identifier
/// and no reserved word, exactly as the scanner produced it.
pub proof fn lemma_display_identifier_roundtrip(text: Seq<char>)
    requires
        text.len() > 0,
        is_word_start_char(text[0]),
        forall|m: int| 0 <= m < text.len() ==> is_word_char(#[trigger] text[m]),
        keyword_token(text) is None,
    ensures
        display_type_model(TokenTypeModel::Identifier(text)) == text,
        spec_tokenize(text) == Ok::<Seq<TokenModel>, crate::scan::LexErrorModel>(
            seq![
                tok(TokenTypeModel::Identifier(text), 0, text.len() as int),
                tok(TokenTypeModel::EOF, text.len() as int, text.len() as int),
            ],
        ),
{
    let len = text.len() as int;
    lemma_word_run(text, 1);
    assert(word_run_end(text, 1) == len);
    lemma_byte_pos_zero(text);
    assert forall|m: int| 0 <= m < len implies crate::scan::char_width(#[trigger] text[m])
        == 1 by {
        lemma_ascii_width(text[m]);
    }
    lemma_byte_pos_run_width1(text, 0, len);
    assert(text.subrange(0, len) =~= text);
    assert(!crate::scan::is_space_char(text[0]));
    assert(spec_word(text, 0) == (tok(TokenTypeModel::Identifier(text), 0, len), len));
    assert(spec_token(text, 0, 0) == Ok::<(TokenModel, int), crate::scan::LexErrorModel>(
        (tok(TokenTypeModel::Identifier(text), 0, len), len),
    ));
    assert(spec_stream(text, len) == Ok::<Seq<TokenModel>, crate::scan::LexErrorModel>(
        Seq::empty(),
    ));
    let t0 = tok(TokenTypeModel::Identifier(text), 0, len);
    assert(seq![t0] + Seq::<TokenModel>::empty() =~= seq![t0]);
    let eof = tok(TokenTypeModel::EOF, len, len);
    assert(seq![t0].push(eof) =~= seq![t0, eof]);
}

} // verus!
