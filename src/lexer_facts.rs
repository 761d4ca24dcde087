use vstd::prelude::*;
use vstd::utf8::*;

use crate::lexer::{
    alnum_run, begin_word, digit_run, digits_value, end_word, fails_with, if_word, is_alnum,
    is_alpha, is_digit, is_keyword, is_symbol, keyword_token, lemma_token_len_bound, lexes_to,
    overflows, proc_word, quoted_content, return_word, symbol_token, token_len, token_spans,
    var_word, LexError, NumericConstant, Span, Token, TokenKind, MAIN_FILE, QUOTE,
};

verus! {

proof fn lemma_digit_run_full(b: Seq<u8>, j: int)
    requires
        0 <= j <= b.len(),
        forall|i: int| j <= i < b.len() ==> is_digit(#[trigger] b[i]),
    ensures
        digit_run(b, j) == b.len() - j,
    decreases b.len() - j,
{
    if j < b.len() {
        lemma_digit_run_full(b, j + 1);
    }
}

proof fn lemma_alnum_run_full(b: Seq<u8>, j: int)
    requires
        0 <= j <= b.len(),
        forall|i: int| j <= i < b.len() ==> is_alnum(#[trigger] b[i]),
    ensures
        alnum_run(b, j) == b.len() - j,
    decreases b.len() - j,
{
    if j < b.len() {
        lemma_alnum_run_full(b, j + 1);
    }
}

/// A text that is one word (a letter, then letters and digits) is one token.
proof fn lemma_single_word(b: Seq<u8>)
    requires
        b.len() > 0,
        is_alpha(b[0]),
        forall|i: int| 0 <= i < b.len() ==> is_alnum(#[trigger] b[i]),
    ensures
        token_spans(b, 0) == seq![(0int, b.len() as int)],
{
    lemma_alnum_run_full(b, 1);
    assert(token_spans(b, b.len() as int) == Seq::<(int, int)>::empty());
}

proof fn lemma_keyword_letters(w: Seq<u8>)
    requires
        is_keyword(w),
    ensures
        w.len() > 0,
        is_alpha(w[0]),
        forall|i: int| 0 <= i < w.len() ==> is_alnum(#[trigger] w[i]),
{
    assert forall|i: int| 0 <= i < w.len() implies is_alnum(#[trigger] w[i]) by {
        if i == 0 {
        } else if i == 1 {
        } else if i == 2 {
        } else if i == 3 {
        } else if i == 4 {
        } else {
        }
    }
}

/// A text of digits alone lexes to one number token holding its value, and
/// fails where that value does not fit in an `i32`.
pub proof fn lemma_digits_only(b: Seq<u8>)
    requires
        b.len() > 0,
        forall|i: int| 0 <= i < b.len() ==> is_digit(#[trigger] b[i]),
    ensures
        token_spans(b, 0) == seq![(0int, b.len() as int)],
        forall|toks: Seq<Token>|
            lexes_to(b, toks) ==> {
                &&& digits_value(b) <= i32::MAX
                &&& toks.len() == 1
                &&& toks[0].kind == TokenKind::Number(NumericConstant::Integer(digits_value(b) as i32))
            },
        digits_value(b) <= i32::MAX ==> forall|e: LexError| !fails_with(b, e),
        digits_value(b) > i32::MAX ==> fails_with(
            b,
            LexError::IntegerOverflow(Span { start: 0, end: b.len() as usize, file: MAIN_FILE }),
        ),
{
    lemma_digit_run_full(b, 1);
    assert(token_spans(b, b.len() as int) == Seq::<(int, int)>::empty());
    assert(b.subrange(0, b.len() as int) =~= b);
    let spans = token_spans(b, 0);
    assert(spans[0] == (0int, b.len() as int));
}

/// Each reserved word alone lexes to its keyword token and never to a name.
pub proof fn lemma_keyword_alone(w: Seq<u8>)
    requires
        is_keyword(w),
    ensures
        forall|toks: Seq<Token>|
            lexes_to(w, toks) ==> toks.len() == 1 && toks[0].kind == keyword_token(w) && !(
            toks[0].kind is Name),
        forall|e: LexError| !fails_with(w, e),
{
    lemma_keyword_letters(w);
    lemma_single_word(w);
    assert(w.subrange(0, w.len() as int) =~= w);
    let spans = token_spans(w, 0);
    assert(spans[0] == (0int, w.len() as int));
}

/// A reserved word followed by one more letter or digit is one name, the
/// whole text, and no keyword.
pub proof fn lemma_keyword_with_suffix(w: Seq<u8>, c: u8)
    requires
        is_keyword(w),
        is_alnum(c),
    ensures
        !is_keyword(w.push(c)),
        forall|toks: Seq<Token>|
            lexes_to(w.push(c), toks) ==> toks.len() == 1 && (match toks[0].kind {
                TokenKind::Name(t) => t@ == decode_utf8(w.push(c)),
                _ => false,
            }),
        forall|e: LexError| !fails_with(w.push(c), e),
{
    let b = w.push(c);
    lemma_keyword_letters(w);
    assert forall|i: int| 0 <= i < b.len() implies is_alnum(#[trigger] b[i]) by {
        if i < w.len() {
            assert(b[i] == w[i]);
        }
    }
    lemma_single_word(b);
    assert(b.subrange(0, b.len() as int) =~= b);
    if b == proc_word() || b == var_word() || b == return_word() || b == if_word() || b
        == begin_word() || b == end_word() {
        assert(b[0] == w[0] && b[1] == w[1]);
        if w.len() >= 3 {
            assert(b[2] == w[2]);
        }
        if w.len() >= 4 {
            assert(b[3] == w[3]);
        }
        if w.len() >= 5 {
            assert(b[4] == w[4]);
        }
    }
    let spans = token_spans(b, 0);
    assert(spans[0] == (0int, b.len() as int));
}

/// Bytes that are no digit, letter, quote or symbol: spaces, tabs, newlines.
pub open spec fn is_blank(c: u8) -> bool {
    !is_digit(c) && !is_alpha(c) && c != QUOTE && !is_symbol(c)
}

proof fn lemma_blank_spans(b: Seq<u8>, j: int)
    requires
        0 <= j <= b.len(),
        forall|i: int| j <= i < b.len() ==> is_blank(#[trigger] b[i]),
    ensures
        token_spans(b, j) == Seq::<(int, int)>::empty(),
    decreases b.len() - j,
{
    if j < b.len() {
        lemma_blank_spans(b, j + 1);
    }
}

/// A text of whitespace alone (spaces, tabs, carriage returns, newlines) lexes
/// to no tokens.
pub proof fn lemma_whitespace_only(b: Seq<u8>)
    requires
        forall|i: int|
            0 <= i < b.len() ==> (#[trigger] b[i] == 32 || b[i] == 9 || b[i] == 10 || b[i] == 13),
    ensures
        token_spans(b, 0) == Seq::<(int, int)>::empty(),
        forall|toks: Seq<Token>| lexes_to(b, toks) ==> toks.len() == 0,
        forall|e: LexError| !fails_with(b, e),
{
    lemma_blank_spans(b, 0);
}

proof fn lemma_digit_run_digits(b: Seq<u8>, j: int)
    requires
        0 <= j,
    ensures
        forall|m: int| j <= m < j + digit_run(b, j) ==> is_digit(#[trigger] b[m]),
    decreases b.len() - j,
{
    if 0 <= j < b.len() && is_digit(b[j]) {
        lemma_digit_run_digits(b, j + 1);
    }
}

/// Every span of the model starts inside the text at a byte that begins a
/// token, and covers exactly that token.
proof fn lemma_span_shape(b: Seq<u8>, i: int)
    requires
        0 <= i,
    ensures
        forall|k: int|
            0 <= k < token_spans(b, i).len() ==> {
                let sp = #[trigger] token_spans(b, i)[k];
                &&& i <= sp.0 < b.len()
                &&& token_len(b, sp.0) > 0
                &&& sp.1 == sp.0 + token_len(b, sp.0)
                &&& sp.1 <= b.len()
            },
    decreases b.len() - i,
{
    if i < b.len() {
        lemma_token_len_bound(b, i);
        if token_len(b, i) == 0 {
            lemma_span_shape(b, i + 1);
            assert(token_spans(b, i) == token_spans(b, i + 1));
        } else {
            lemma_span_shape(b, i + token_len(b, i));
            let rest = token_spans(b, i + token_len(b, i));
            let all = token_spans(b, i);
            assert(all == seq![(i, i + token_len(b, i))] + rest);
            assert forall|k: int| 0 <= k < all.len() implies {
                let sp = #[trigger] all[k];
                &&& i <= sp.0 < b.len()
                &&& token_len(b, sp.0) > 0
                &&& sp.1 == sp.0 + token_len(b, sp.0)
                &&& sp.1 <= b.len()
            } by {
                if k > 0 {
                    assert(all[k] == rest[k - 1]);
                    lemma_token_len_bound(b, all[k].0);
                }
            }
        }
    }
}

/// The text of a token, read back from the source at its span.
pub open spec fn span_text_agrees(b: Seq<u8>, t: Token) -> bool {
    let s = t.span.start as int;
    let e = t.span.end as int;
    let w = b.subrange(s, e);
    &&& 0 <= s < e <= b.len()
    &&& match t.kind {
        TokenKind::Number(NumericConstant::Integer(v)) => {
            &&& forall|m: int| 0 <= m < w.len() ==> is_digit(#[trigger] w[m])
            &&& v as int == digits_value(w)
        },
        TokenKind::Name(x) => is_alpha(w[0]) && !is_keyword(w) && x@ == decode_utf8(w),
        TokenKind::QuotedString(x) => {
            let inner = quoted_content(b, s, e);
            &&& x@ == decode_utf8(inner)
            &&& (w == seq![QUOTE] + inner + seq![QUOTE] || w == seq![QUOTE] + inner)
        },
        _ => (is_keyword(w) && t.kind == keyword_token(w)) || (w.len() == 1 && is_symbol(w[0])
            && t.kind == symbol_token(w[0])),
    }
}

/// Slicing the source at any token's span gives back the text that decided
/// the token: the digits of a number, the letters of a name or reserved word,
/// a quoted string with its quotes, a symbol.
pub proof fn lemma_span_round_trip(b: Seq<u8>, toks: Seq<Token>, k: int)
    requires
        lexes_to(b, toks),
        0 <= k < toks.len(),
    ensures
        span_text_agrees(b, toks[k]),
{
    lemma_span_shape(b, 0);
    let spans = token_spans(b, 0);
    let sp = spans[k];
    let t = toks[k];
    let s = sp.0;
    let e = sp.1;
    let w = b.subrange(s, e);
    assert(!overflows(b, spans[k]));
    if is_digit(b[s]) {
        lemma_digit_run_digits(b, s + 1);
        assert forall|m: int| 0 <= m < w.len() implies is_digit(#[trigger] w[m]) by {
            assert(w[m] == b[s + m]);
        }
    } else if b[s] == QUOTE {
        let inner = quoted_content(b, s, e);
        if e - s >= 2 && b[e - 1] == QUOTE {
            assert(w =~= seq![QUOTE] + inner + seq![QUOTE]);
        } else {
            assert(w =~= seq![QUOTE] + inner);
        }
    } else if !is_alpha(b[s]) {
        assert(w.len() == 1);
        assert(w[0] == b[s]);
    }
}

} // verus!
