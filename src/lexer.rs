use vstd::prelude::*;
use vstd::utf8::*;

use crate::text::{
    copy_range, decode_text, lemma_after_ascii_boundary, lemma_ascii_boundary, lemma_valid_slice,
};

verus! {

/// Identity of the one source file that `lex` reads.
pub const MAIN_FILE: usize = 0;

/// A byte range `[start, end)` of one source file.
#[derive(Clone, Copy, Debug, PartialEq, Eq, Structural)]
pub struct Span {
    pub start: usize,
    pub end: usize,
    pub file: usize,
}

impl Span {
    /// A span is well formed when it does not end before it starts.
    pub open spec fn wf(&self) -> bool {
        self.start <= self.end
    }

    pub fn new(start: usize, end: usize, file: usize) -> (r: Span)
        requires
            start <= end,
        ensures
            r == (Span { start, end, file }),
            r.wf(),
    {
        Span { start, end, file }
    }

    /// Whether this span lies within `other`, in the same file.
    pub fn inside(&self, other: &Span) -> (r: bool)
        ensures
            r == (self.file == other.file && self.start >= other.start && self.end <= other.end),
    {
        self.file == other.file && self.start >= other.start && self.end <= other.end
    }
}

/// A numeric literal. Only integers are written in the language: a `.` ends
/// a run of digits and is a token of its own.
#[derive(Clone, Copy, Debug, PartialEq, Eq, Structural)]
pub enum NumericConstant {
    Integer(i32),
}

#[derive(Clone, Debug, PartialEq, Eq)]
pub enum TokenKind {
    Name(String),
    Number(NumericConstant),
    QuotedString(String),
    LParen,
    RParen,
    LCurly,
    RCurly,
    LBracket,
    RBracket,
    Plus,
    Minus,
    Divide,
    Multiply,
    Equals,
    Comma,
    Period,
    Semicolon,
    Colon,
    Proc,
    Var,
    Return,
    If,
    Begin,
    End,
}

#[derive(Clone, Debug)]
pub struct Token {
    pub span: Span,
    pub kind: TokenKind,
}

impl Token {
    pub fn new(kind: TokenKind, start: usize, end: usize, file: usize) -> (r: Token)
        requires
            start <= end,
        ensures
            r.span == (Span { start, end, file }),
            r.kind == kind,
    {
        Token { span: Span::new(start, end, file), kind }
    }
}

/// Why lexing stopped.
#[derive(Clone, Copy, Debug, PartialEq, Eq, Structural)]
pub enum LexError {
    /// A run of digits whose value does not fit in an `i32`; the span covers the run.
    IntegerOverflow(Span),
}

// ---------------------------------------------------------------------------
// The model: how a byte sequence splits into tokens.

pub const QUOTE: u8 = 34;

pub open spec fn is_digit(c: u8) -> bool {
    48 <= c <= 57
}

pub open spec fn is_alpha(c: u8) -> bool {
    (65 <= c <= 90) || (97 <= c <= 122)
}

pub open spec fn is_alnum(c: u8) -> bool {
    is_digit(c) || is_alpha(c)
}

/// The bytes that stand alone as one-character tokens.
pub open spec fn is_symbol(c: u8) -> bool {
    c == 123 || c == 125 || c == 43 || c == 45 || c == 47 || c == 42 || c == 91
        || c == 93 || c == 40 || c == 41 || c == 44 || c == 46 || c == 59 || c
        == 58 || c == 61
}

/// The number of digits in the run that begins at `j`.
pub open spec fn digit_run(b: Seq<u8>, j: int) -> nat
    decreases b.len() - j,
{
    if 0 <= j < b.len() && is_digit(b[j]) {
        1 + digit_run(b, j + 1)
    } else {
        0
    }
}

/// The number of letters and digits in the run that begins at `j`.
pub open spec fn alnum_run(b: Seq<u8>, j: int) -> nat
    decreases b.len() - j,
{
    if 0 <= j < b.len() && is_alnum(b[j]) {
        1 + alnum_run(b, j + 1)
    } else {
        0
    }
}

/// The number of bytes from `j` up to and including the next quote, or up to
/// the end of the text where no quote follows.
pub open spec fn quoted_tail(b: Seq<u8>, j: int) -> nat
    decreases b.len() - j,
{
    if j < 0 || j >= b.len() {
        0
    } else if b[j] == QUOTE {
        1
    } else {
        1 + quoted_tail(b, j + 1)
    }
}

/// The length of the token that begins at `i`; zero where the byte there
/// begins no token and is skipped.
pub open spec fn token_len(b: Seq<u8>, i: int) -> nat {
    if is_digit(b[i]) {
        1 + digit_run(b, i + 1)
    } else if is_alpha(b[i]) {
        1 + alnum_run(b, i + 1)
    } else if b[i] == QUOTE {
        1 + quoted_tail(b, i + 1)
    } else if is_symbol(b[i]) {
        1
    } else {
        0
    }
}

/// The spans `(start, end)` of the tokens of `b` from position `i` on.
pub open spec fn token_spans(b: Seq<u8>, i: int) -> Seq<(int, int)>
    decreases b.len() - i,
    via token_spans_decreases
{
    if i < 0 || i >= b.len() {
        seq![]
    } else if token_len(b, i) == 0 {
        token_spans(b, i + 1)
    } else {
        seq![(i, i + token_len(b, i))] + token_spans(b, i + token_len(b, i))
    }
}

proof fn lemma_digit_run_bound(b: Seq<u8>, j: int)
    requires
        0 <= j <= b.len(),
    ensures
        digit_run(b, j) <= b.len() - j,
    decreases b.len() - j,
{
    if j < b.len() {
        lemma_digit_run_bound(b, j + 1);
    }
}

proof fn lemma_alnum_run_bound(b: Seq<u8>, j: int)
    requires
        0 <= j <= b.len(),
    ensures
        alnum_run(b, j) <= b.len() - j,
    decreases b.len() - j,
{
    if j < b.len() {
        lemma_alnum_run_bound(b, j + 1);
    }
}

proof fn lemma_quoted_tail_bound(b: Seq<u8>, j: int)
    requires
        0 <= j <= b.len(),
    ensures
        quoted_tail(b, j) <= b.len() - j,
    decreases b.len() - j,
{
    if j < b.len() {
        lemma_quoted_tail_bound(b, j + 1);
    }
}

/// A token never runs past the end of the text.
pub proof fn lemma_token_len_bound(b: Seq<u8>, i: int)
    requires
        0 <= i < b.len(),
    ensures
        token_len(b, i) <= b.len() - i,
{
    lemma_digit_run_bound(b, i + 1);
    lemma_alnum_run_bound(b, i + 1);
    lemma_quoted_tail_bound(b, i + 1);
}

#[via_fn]
proof fn token_spans_decreases(b: Seq<u8>, i: int) {
    if 0 <= i < b.len() {
        lemma_token_len_bound(b, i);
    }
}

/// The value of a run of decimal digits.
pub open spec fn digits_value(s: Seq<u8>) -> nat
    decreases s.len(),
{
    if s.len() == 0 {
        0
    } else {
        digits_value(s.drop_last()) * 10 + (if s.last() >= 48 {
            (s.last() - 48) as nat
        } else {
            0
        })
    }
}

pub open spec fn proc_word() -> Seq<u8> {
    seq![112, 114, 111, 99]
}

pub open spec fn var_word() -> Seq<u8> {
    seq![118, 97, 114]
}

pub open spec fn return_word() -> Seq<u8> {
    seq![114, 101, 116, 117, 114, 110]
}

pub open spec fn if_word() -> Seq<u8> {
    seq![105, 102]
}

pub open spec fn begin_word() -> Seq<u8> {
    seq![98, 101, 103, 105, 110]
}

pub open spec fn end_word() -> Seq<u8> {
    seq![101, 110, 100]
}

pub open spec fn is_keyword(w: Seq<u8>) -> bool {
    w == proc_word() || w == var_word() || w == return_word() || w == if_word() || w
        == begin_word() || w == end_word()
}

/// The token kind of a reserved word.
pub open spec fn keyword_token(w: Seq<u8>) -> TokenKind {
    if w == proc_word() {
        TokenKind::Proc
    } else if w == var_word() {
        TokenKind::Var
    } else if w == return_word() {
        TokenKind::Return
    } else if w == if_word() {
        TokenKind::If
    } else if w == begin_word() {
        TokenKind::Begin
    } else {
        TokenKind::End
    }
}

/// The token kind of a one-character symbol.
pub open spec fn symbol_token(c: u8) -> TokenKind {
    if c == 123 {
        TokenKind::LCurly
    } else if c == 125 {
        TokenKind::RCurly
    } else if c == 43 {
        TokenKind::Plus
    } else if c == 45 {
        TokenKind::Minus
    } else if c == 47 {
        TokenKind::Divide
    } else if c == 42 {
        TokenKind::Multiply
    } else if c == 91 {
        TokenKind::LBracket
    } else if c == 93 {
        TokenKind::RBracket
    } else if c == 40 {
        TokenKind::LParen
    } else if c == 41 {
        TokenKind::RParen
    } else if c == 44 {
        TokenKind::Comma
    } else if c == 46 {
        TokenKind::Period
    } else if c == 59 {
        TokenKind::Semicolon
    } else if c == 58 {
        TokenKind::Colon
    } else {
        TokenKind::Equals
    }
}

/// The bytes between the quotes of the quoted string at `[s, e)`; where the
/// text ended before a closing quote, everything after the opening one.
pub open spec fn quoted_content(b: Seq<u8>, s: int, e: int) -> Seq<u8> {
    if e - s >= 2 && b[e - 1] == QUOTE {
        b.subrange(s + 1, e - 1)
    } else {
        b.subrange(s + 1, e)
    }
}

/// A run of digits at `[s, e)` whose value does not fit in an `i32`.
pub open spec fn overflows(b: Seq<u8>, sp: (int, int)) -> bool {
    is_digit(b[sp.0]) && digits_value(b.subrange(sp.0, sp.1)) > i32::MAX
}

/// The kind of the token at `[s, e)`, fixed by its first byte and its text.
pub open spec fn kind_matches(b: Seq<u8>, s: int, e: int, kind: TokenKind) -> bool {
    let w = b.subrange(s, e);
    if is_digit(b[s]) {
        kind == TokenKind::Number(NumericConstant::Integer(digits_value(w) as i32))
    } else if is_alpha(b[s]) {
        if is_keyword(w) {
            kind == keyword_token(w)
        } else {
            match kind {
                TokenKind::Name(t) => t@ == decode_utf8(w),
                _ => false,
            }
        }
    } else if b[s] == QUOTE {
        match kind {
            TokenKind::QuotedString(t) => t@ == decode_utf8(quoted_content(b, s, e)),
            _ => false,
        }
    } else {
        kind == symbol_token(b[s])
    }
}

pub open spec fn token_matches(b: Seq<u8>, t: Token, sp: (int, int)) -> bool {
    &&& t.span.start == sp.0
    &&& t.span.end == sp.1
    &&& t.span.file == MAIN_FILE
    &&& kind_matches(b, sp.0, sp.1, t.kind)
}

/// `toks` is the token sequence of `b`: every number fits, and each token has
/// the span and kind that the model gives.
pub open spec fn lexes_to(b: Seq<u8>, toks: Seq<Token>) -> bool {
    let spans = token_spans(b, 0);
    &&& forall|k: int| 0 <= k < spans.len() ==> !overflows(b, #[trigger] spans[k])
    &&& toks.len() == spans.len()
    &&& forall|k: int| 0 <= k < toks.len() ==> token_matches(b, #[trigger] toks[k], spans[k])
}

/// Lexing `b` stops at its first run of digits that does not fit, reported as `e`.
pub open spec fn fails_with(b: Seq<u8>, e: LexError) -> bool {
    let spans = token_spans(b, 0);
    exists|k: int|
        0 <= k < spans.len() && overflows(b, #[trigger] spans[k]) && (forall|j: int|
            0 <= j < k ==> !overflows(b, #[trigger] spans[j])) && e == LexError::IntegerOverflow(
            Span { start: spans[k].0 as usize, end: spans[k].1 as usize, file: MAIN_FILE },
        )
}

proof fn lemma_digits_value_step(b: Seq<u8>, s: int, k: int)
    requires
        0 <= s <= k < b.len(),
        is_digit(b[k]),
    ensures
        digits_value(b.subrange(s, k + 1)) == digits_value(b.subrange(s, k)) * 10 + (b[k] - 48),
{
    assert(b.subrange(s, k + 1).drop_last() =~= b.subrange(s, k));
}

// ---------------------------------------------------------------------------
// The scanners.

fn is_digit_byte(c: u8) -> (r: bool)
    ensures
        r == is_digit(c),
{
    48 <= c && c <= 57
}

fn is_alpha_byte(c: u8) -> (r: bool)
    ensures
        r == is_alpha(c),
{
    (65 <= c && c <= 90) || (97 <= c && c <= 122)
}

/// Scans the run of digits at `start`: its length, and its value where it
/// fits in an `i32`.
fn scan_number(b: &[u8], start: usize) -> (r: (usize, Option<i32>))
    requires
        start < b@.len(),
        is_digit(b@[start as int]),
    ensures
        r.0 == token_len(b@, start as int),
        start + r.0 <= b@.len(),
        ({
            let v = digits_value(b@.subrange(start as int, start + r.0));
            if v <= i32::MAX {
                r.1 == Some(v as i32)
            } else {
                r.1 is None
            }
        }),
{
    let n = b.len();
    let mut k: usize = start;
    let mut acc: u64 = 0;
    let mut big = false;
    while k < n && is_digit_byte(b[k])
        invariant
            start <= k <= n,
            n == b@.len(),
            is_digit(b@[start as int]),
            digit_run(b@, start as int) == (k - start) + digit_run(b@, k as int),
            !big ==> acc == digits_value(b@.subrange(start as int, k as int)) && acc <= i32::MAX,
            big ==> digits_value(b@.subrange(start as int, k as int)) > i32::MAX,
        decreases n - k,
    {
        proof {
            lemma_digits_value_step(b@, start as int, k as int);
        }
        if !big {
            let next = acc * 10 + (b[k] - 48) as u64;
            if next > 2147483647 {
                big = true;
            } else {
                acc = next;
            }
        }
        k += 1;
    }
    let len = k - start;
    if big {
        (len, None)
    } else {
        (len, Some(acc as i32))
    }
}

/// Scans the run of letters and digits at `start` and returns its length.
fn scan_word(b: &[u8], start: usize) -> (r: usize)
    requires
        start < b@.len(),
        is_alpha(b@[start as int]),
    ensures
        r == token_len(b@, start as int),
        start + r <= b@.len(),
        forall|m: int| start <= m < start + r ==> is_alnum(#[trigger] b@[m]),
{
    let n = b.len();
    let mut k: usize = start + 1;
    while k < n && (is_digit_byte(b[k]) || is_alpha_byte(b[k]))
        invariant
            start < k <= n,
            n == b@.len(),
            alnum_run(b@, start + 1) == (k - start - 1) + alnum_run(b@, k as int),
            forall|m: int| start <= m < k ==> is_alnum(#[trigger] b@[m]),
        decreases n - k,
    {
        k += 1;
    }
    k - start
}

/// Scans the quoted string at `start` and returns its length, both quotes
/// included.
fn scan_quoted(b: &[u8], start: usize) -> (r: usize)
    requires
        start < b@.len(),
        b@[start as int] == QUOTE,
    ensures
        r == token_len(b@, start as int),
        start + r <= b@.len(),
        start + r == b@.len() || (r >= 2 && b@[start + r - 1] == QUOTE),
{
    let n = b.len();
    let mut k: usize = start + 1;
    while k < n && b[k] != QUOTE
        invariant
            start < k <= n,
            n == b@.len(),
            quoted_tail(b@, start + 1) == (k - start - 1) + quoted_tail(b@, k as int),
        decreases n - k,
    {
        k += 1;
    }
    if k < n {
        k + 1 - start
    } else {
        k - start
    }
}

/// The kind of the word `w`: a reserved word, or a name.
fn word_kind(w: &Vec<u8>) -> (r: TokenKind)
    requires
        valid_utf8(w@),
    ensures
        is_keyword(w@) ==> r == keyword_token(w@),
        !is_keyword(w@) ==> (match r {
            TokenKind::Name(t) => t@ == decode_utf8(w@),
            _ => false,
        }),
{
    let n = w.len();
    if n == 4 && w[0] == 112 && w[1] == 114 && w[2] == 111 && w[3] == 99 {
        assert(w@ =~= proc_word());
        TokenKind::Proc
    } else if n == 3 && w[0] == 118 && w[1] == 97 && w[2] == 114 {
        assert(w@ =~= var_word());
        TokenKind::Var
    } else if n == 6 && w[0] == 114 && w[1] == 101 && w[2] == 116 && w[3] == 117 && w[4] == 114
        && w[5] == 110 {
        assert(w@ =~= return_word());
        TokenKind::Return
    } else if n == 2 && w[0] == 105 && w[1] == 102 {
        assert(w@ =~= if_word());
        TokenKind::If
    } else if n == 5 && w[0] == 98 && w[1] == 101 && w[2] == 103 && w[3] == 105 && w[4] == 110 {
        assert(w@ =~= begin_word());
        TokenKind::Begin
    } else if n == 3 && w[0] == 101 && w[1] == 110 && w[2] == 100 {
        assert(w@ =~= end_word());
        TokenKind::End
    } else {
        TokenKind::Name(decode_text(w.as_slice()))
    }
}

/// The kind of a one-character symbol.
fn symbol_kind(c: u8) -> (r: TokenKind)
    requires
        is_symbol(c),
    ensures
        r == symbol_token(c),
{
    if c == 123 {
        TokenKind::LCurly
    } else if c == 125 {
        TokenKind::RCurly
    } else if c == 43 {
        TokenKind::Plus
    } else if c == 45 {
        TokenKind::Minus
    } else if c == 47 {
        TokenKind::Divide
    } else if c == 42 {
        TokenKind::Multiply
    } else if c == 91 {
        TokenKind::LBracket
    } else if c == 93 {
        TokenKind::RBracket
    } else if c == 40 {
        TokenKind::LParen
    } else if c == 41 {
        TokenKind::RParen
    } else if c == 44 {
        TokenKind::Comma
    } else if c == 46 {
        TokenKind::Period
    } else if c == 59 {
        TokenKind::Semicolon
    } else if c == 58 {
        TokenKind::Colon
    } else {
        TokenKind::Equals
    }
}

fn is_symbol_byte(c: u8) -> (r: bool)
    ensures
        r == is_symbol(c),
{
    c == 123 || c == 125 || c == 43 || c == 45 || c == 47 || c == 42 || c == 91 || c == 93 || c
        == 40 || c == 41 || c == 44 || c == 46 || c == 59 || c == 58 || c == 61
}

/// Splits the source text `file` into tokens, left to right in one pass.
///
/// A digit starts a number, a letter starts a word (a reserved word or a
/// name), a double quote starts a quoted string that runs to the next double
/// quote or to the end of the text, and each of `{ } + - / * [ ] ( ) , . ; : =`
/// is a token of its own. Every other byte is skipped. Lexing fails at the
/// first number that does not fit in an `i32`.
pub fn lex(file: String) -> (r: Result<Vec<Token>, LexError>)
    ensures
        match r {
            Ok(toks) => lexes_to(encode_utf8(file@), toks@),
            Err(e) => fails_with(encode_utf8(file@), e),
        },
{
    let b = file.as_str().as_bytes();
    let ghost bs = b@;
    let ghost all = token_spans(bs, 0);
    proof {
        encode_utf8_valid_utf8(file@);
    }
    let n = b.len();
    let mut index: usize = 0;
    let mut tokens: Vec<Token> = Vec::new();
    while index < n
        invariant
            bs == b@,
            bs == encode_utf8(file@),
            valid_utf8(bs),
            n == bs.len(),
            index <= n,
            all == token_spans(bs, 0),
            tokens@.len() <= all.len(),
            all == all.subrange(0, tokens@.len() as int) + token_spans(bs, index as int),
            forall|k: int|
                0 <= k < tokens@.len() ==> token_matches(bs, #[trigger] tokens@[k], all[k]),
            forall|k: int| 0 <= k < tokens@.len() ==> !overflows(bs, #[trigger] all[k]),
        decreases n - index,
    {
        let c = b[index];
        let ghost before = tokens@.len() as int;
        if is_digit_byte(c) || is_alpha_byte(c) || c == QUOTE || is_symbol_byte(c) {
            let len: usize;
            let kind: TokenKind;
            if is_digit_byte(c) {
                let (l, v) = scan_number(b, index);
                len = l;
                match v {
                    Some(x) => {
                        kind = TokenKind::Number(NumericConstant::Integer(x));
                    },
                    None => {
                        assert(all[before] == (index as int, index + len));
                        assert(overflows(bs, all[before]));
                        let e = LexError::IntegerOverflow(Span::new(index, index + l, MAIN_FILE));
                        assert(forall|j: int| 0 <= j < before ==> !overflows(bs, #[trigger] all[j]));
                        assert(e == LexError::IntegerOverflow(
                            Span { start: all[before].0 as usize, end: all[before].1 as usize, file: MAIN_FILE },
                        ));
                        return Err(e);
                    },
                }
            } else if is_alpha_byte(c) {
                len = scan_word(b, index);
                let w = copy_range(b, index, index + len);
                proof {
                    lemma_ascii_boundary(bs, index as int);
                    lemma_after_ascii_boundary(bs, index + len - 1);
                    lemma_valid_slice(bs, index as int, index + len);
                }
                kind = word_kind(&w);
            } else if c == QUOTE {
                len = scan_quoted(b, index);
                let closed = len >= 2 && b[index + len - 1] == QUOTE;
                let stop = if closed { index + len - 1 } else { index + len };
                let w = copy_range(b, index + 1, stop);
                proof {
                    lemma_after_ascii_boundary(bs, index as int);
                    if closed {
                        lemma_ascii_boundary(bs, stop as int);
                    } else {
                        is_char_boundary_start_end_of_seq(bs);
                    }
                    lemma_valid_slice(bs, index + 1, stop as int);
                }
                kind = TokenKind::QuotedString(decode_text(w.as_slice()));
            } else {
                len = 1;
                kind = symbol_kind(c);
            }
            proof {
                assert(token_spans(bs, index as int) == seq![(index as int, index + len)]
                    + token_spans(bs, index + len));
            }
            tokens.push(Token::new(kind, index, index + len, MAIN_FILE));
            index += len;
            proof {
                assert(all.subrange(0, tokens@.len() as int) =~= all.subrange(0, before) + seq![
                    (index - len, index as int),
                ]);
            }
        } else {
            index += 1;
        }
    }
    proof {
        assert(token_spans(bs, index as int) == Seq::<(int, int)>::empty());
        assert(all.subrange(0, tokens@.len() as int) =~= all);
        assert(tokens@.len() == all.len());
    }
    Ok(tokens)
}

} // verus!
