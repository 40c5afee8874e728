//! The result-value expression language: integer, boolean and text
//! values, names, arithmetic, comparisons, boolean operators,
//! conditionals and bounded `roll("NdS")` dice literals.
//!
//! Sources are measured and located in UTF-8 bytes, as the text they
//! come from is stored.

use vstd::prelude::*;
use crate::text::{chars_of, decimal, digit_char, nat_digits, push_char, push_str, push_u64, string_from_range};

verus! {

broadcast use vstd::string::group_string_axioms;

/// Largest expression source accepted, in UTF-8 bytes.
pub const MAX_SOURCE_BYTES: usize = 4096;

/// Deepest syntax tree (and parenthesis nesting) accepted; a leaf is at
/// depth 1.
pub const MAX_AST_DEPTH: usize = 64;

/// The length of `c` in UTF-8.
pub open spec fn utf8_len(c: char) -> nat {
    if (c as u32) < 0x80 {
        1
    } else if (c as u32) < 0x800 {
        2
    } else if (c as u32) < 0x10000 {
        3
    } else {
        4
    }
}

/// The length of `s` in UTF-8.
pub open spec fn utf8_total(s: Seq<char>) -> nat
    decreases s.len(),
{
    if s.len() == 0 {
        0
    } else {
        utf8_total(s.drop_last()) + utf8_len(s.last())
    }
}

pub(crate) fn char_utf8_len(c: char) -> (n: usize)
    ensures
        n == utf8_len(c),
{
    let u = c as u32;
    if u < 0x80 {
        1
    } else if u < 0x800 {
        2
    } else if u < 0x10000 {
        3
    } else {
        4
    }
}

/// An error in an expression: where (a byte offset) and why.
#[derive(Debug, Clone, PartialEq)]
pub struct ExpressionError {
    pub offset: usize,
    pub reason: String,
}

/// An expression error as values.
pub struct Failure {
    pub offset: int,
    pub reason: Seq<char>,
}

impl View for ExpressionError {
    type V = Failure;

    open spec fn view(&self) -> Failure {
        Failure { offset: self.offset as int, reason: self.reason@ }
    }
}

pub open spec fn fail(offset: int, reason: Seq<char>) -> Failure {
    Failure { offset, reason }
}

/// ASCII whitespace: space, tab, line feed, form feed, carriage return.
pub open spec fn is_ascii_space(c: char) -> bool {
    c == ' ' || c == '\t' || c == '\n' || c == '\x0C' || c == '\r'
}

pub open spec fn is_ascii_digit(c: char) -> bool {
    '0' <= c <= '9'
}

pub open spec fn is_ascii_alpha(c: char) -> bool {
    ('a' <= c <= 'z') || ('A' <= c <= 'Z')
}

/// A character that may start a name.
pub open spec fn starts_name(c: char) -> bool {
    is_ascii_alpha(c) || c == '_'
}

/// A character that may continue a name.
pub open spec fn continues_name(c: char) -> bool {
    is_ascii_alpha(c) || is_ascii_digit(c) || c == '_'
}

/// A Unicode control character (category Cc).
pub open spec fn is_control(c: char) -> bool {
    (c as u32) <= 0x1F || (0x7F <= (c as u32) && (c as u32) <= 0x9F)
}

/// The kinds of tokens.
#[derive(Debug, Clone, PartialEq)]
pub enum TokenKind {
    Integer(i64),
    Text(String),
    Identifier(String),
    If,
    Then,
    Else,
    True,
    False,
    Roll,
    Equal,
    NotEqual,
    Less,
    LessEqual,
    Greater,
    GreaterEqual,
    Plus,
    Minus,
    Star,
    Slash,
    Percent,
    Bang,
    AmpAmp,
    PipePipe,
    LeftParen,
    RightParen,
}

/// A token and the byte range `[start, end)` it spans.
#[derive(Debug, Clone, PartialEq)]
pub struct Token {
    pub kind: TokenKind,
    pub start: usize,
    pub end: usize,
}

/// A token kind as values.
pub enum Tok {
    Integer(i64),
    Text(Seq<char>),
    Identifier(Seq<char>),
    If,
    Then,
    Else,
    True,
    False,
    Roll,
    Equal,
    NotEqual,
    Less,
    LessEqual,
    Greater,
    GreaterEqual,
    Plus,
    Minus,
    Star,
    Slash,
    Percent,
    Bang,
    AmpAmp,
    PipePipe,
    LeftParen,
    RightParen,
}

pub struct TokView {
    pub kind: Tok,
    pub start: int,
    pub end: int,
}

pub open spec fn kind_view(k: TokenKind) -> Tok {
    match k {
        TokenKind::Integer(v) => Tok::Integer(v),
        TokenKind::Text(s) => Tok::Text(s@),
        TokenKind::Identifier(s) => Tok::Identifier(s@),
        TokenKind::If => Tok::If,
        TokenKind::Then => Tok::Then,
        TokenKind::Else => Tok::Else,
        TokenKind::True => Tok::True,
        TokenKind::False => Tok::False,
        TokenKind::Roll => Tok::Roll,
        TokenKind::Equal => Tok::Equal,
        TokenKind::NotEqual => Tok::NotEqual,
        TokenKind::Less => Tok::Less,
        TokenKind::LessEqual => Tok::LessEqual,
        TokenKind::Greater => Tok::Greater,
        TokenKind::GreaterEqual => Tok::GreaterEqual,
        TokenKind::Plus => Tok::Plus,
        TokenKind::Minus => Tok::Minus,
        TokenKind::Star => Tok::Star,
        TokenKind::Slash => Tok::Slash,
        TokenKind::Percent => Tok::Percent,
        TokenKind::Bang => Tok::Bang,
        TokenKind::AmpAmp => Tok::AmpAmp,
        TokenKind::PipePipe => Tok::PipePipe,
        TokenKind::LeftParen => Tok::LeftParen,
        TokenKind::RightParen => Tok::RightParen,
    }
}

pub open spec fn tok_view(t: Token) -> TokView {
    TokView { kind: kind_view(t.kind), start: t.start as int, end: t.end as int }
}

pub open spec fn toks_view(ts: Seq<Token>) -> Seq<TokView> {
    ts.map_values(|t: Token| tok_view(t))
}

/// The value of a run of decimal digits.
pub open spec fn digits_value(s: Seq<char>) -> nat
    decreases s.len(),
{
    if s.len() == 0 {
        0
    } else {
        digits_value(s.drop_last()) * 10 + ((s.last() as u32) - ('0' as u32)) as nat
    }
}

/// The index just after the run of digits starting at `i`.
pub open spec fn digit_run_end(s: Seq<char>, i: int) -> int
    decreases s.len() - i,
{
    if 0 <= i < s.len() && is_ascii_digit(s[i]) {
        digit_run_end(s, i + 1)
    } else {
        i
    }
}

/// The index just after the run of name characters starting at `i`.
pub open spec fn name_run_end(s: Seq<char>, i: int) -> int
    decreases s.len() - i,
{
    if 0 <= i < s.len() && continues_name(s[i]) {
        name_run_end(s, i + 1)
    } else {
        i
    }
}

/// The character a string escape `\c` stands for.
pub open spec fn escaped(c: char) -> Option<char> {
    if c == '"' {
        Some('"')
    } else if c == '\\' {
        Some('\\')
    } else if c == 'n' {
        Some('\n')
    } else if c == 'r' {
        Some('\r')
    } else if c == 't' {
        Some('\t')
    } else {
        None
    }
}

/// Scan the body of a string literal from character `j` (byte `b`), the
/// literal having opened at byte `start`: its value, and the character
/// and byte just after the closing quote.
pub open spec fn scan_string(s: Seq<char>, j: int, b: int, start: int) -> Result<
    (Seq<char>, int, int),
    Failure,
>
    decreases s.len() - j,
{
    if j >= s.len() || j < 0 {
        Err(fail(start, "unterminated string literal"@))
    } else if s[j] == '"' {
        Ok((Seq::empty(), j + 1, b + 1))
    } else if s[j] == '\\' {
        if j + 1 < s.len() && escaped(s[j + 1]) is Some {
            match scan_string(s, j + 2, b + 2, start) {
                Ok((v, nj, nb)) => Ok((seq![escaped(s[j + 1]).unwrap()] + v, nj, nb)),
                Err(e) => Err(e),
            }
        } else {
            Err(fail(b, "unknown string escape"@))
        }
    } else if is_control(s[j]) {
        Err(fail(b, "raw control character in string literal"@))
    } else {
        match scan_string(s, j + 1, b + utf8_len(s[j]), start) {
            Ok((v, nj, nb)) => Ok((seq![s[j]] + v, nj, nb)),
            Err(e) => Err(e),
        }
    }
}

/// The token kind of a name or keyword.
pub open spec fn word_kind(w: Seq<char>) -> Tok {
    if w == "if"@ {
        Tok::If
    } else if w == "then"@ {
        Tok::Then
    } else if w == "else"@ {
        Tok::Else
    } else if w == "true"@ {
        Tok::True
    } else if w == "false"@ {
        Tok::False
    } else if w == "roll"@ {
        Tok::Roll
    } else {
        Tok::Identifier(w)
    }
}

/// The two-character operator spelled by `a` then `b`, if any.
pub open spec fn pair_kind(a: char, b: char) -> Option<Tok> {
    if a == '=' && b == '=' {
        Some(Tok::Equal)
    } else if a == '!' && b == '=' {
        Some(Tok::NotEqual)
    } else if a == '<' && b == '=' {
        Some(Tok::LessEqual)
    } else if a == '>' && b == '=' {
        Some(Tok::GreaterEqual)
    } else if a == '&' && b == '&' {
        Some(Tok::AmpAmp)
    } else if a == '|' && b == '|' {
        Some(Tok::PipePipe)
    } else {
        None
    }
}

/// The one-character operator or bracket spelled by `c`, if any.
pub open spec fn single_kind(c: char) -> Option<Tok> {
    if c == '<' {
        Some(Tok::Less)
    } else if c == '>' {
        Some(Tok::Greater)
    } else if c == '+' {
        Some(Tok::Plus)
    } else if c == '-' {
        Some(Tok::Minus)
    } else if c == '*' {
        Some(Tok::Star)
    } else if c == '/' {
        Some(Tok::Slash)
    } else if c == '%' {
        Some(Tok::Percent)
    } else if c == '!' {
        Some(Tok::Bang)
    } else if c == '(' {
        Some(Tok::LeftParen)
    } else if c == ')' {
        Some(Tok::RightParen)
    } else {
        None
    }
}

/// `t` put before the tokens of `r`.
pub open spec fn push_front(t: TokView, r: Result<Seq<TokView>, Failure>) -> Result<Seq<TokView>, Failure> {
    match r {
        Ok(ts) => Ok(seq![t] + ts),
        Err(e) => Err(e),
    }
}

/// The tokens of `s` from character `i`, which lies at byte `b`.
pub open spec fn lex(s: Seq<char>, i: int, b: int) -> Result<Seq<TokView>, Failure>
    decreases s.len() - i,
{
    if i >= s.len() || i < 0 {
        Ok(Seq::empty())
    } else {
        let c = s[i];
        if is_ascii_space(c) {
            lex(s, i + 1, b + 1)
        } else if is_ascii_digit(c) {
            let j = digit_run_end(s, i);
            if j <= i || j > s.len() {
                Ok(Seq::empty())
            } else {
                let v = digits_value(s.subrange(i, j));
                if v > i64::MAX {
                    Err(fail(b, "integer literal out of range"@))
                } else {
                    push_front(
                        TokView { kind: Tok::Integer(v as i64), start: b, end: b + (j - i) },
                        lex(s, j, b + (j - i)),
                    )
                }
            }
        } else if c == '"' {
            match scan_string(s, i + 1, b + 1, b) {
                Err(e) => Err(e),
                Ok((v, nj, nb)) => if nj <= i || nj > s.len() {
                    Ok(Seq::empty())
                } else {
                    push_front(TokView { kind: Tok::Text(v), start: b, end: nb }, lex(s, nj, nb))
                },
            }
        } else if starts_name(c) {
            let j = name_run_end(s, i);
            if j <= i || j > s.len() {
                Ok(Seq::empty())
            } else {
                push_front(
                    TokView { kind: word_kind(s.subrange(i, j)), start: b, end: b + (j - i) },
                    lex(s, j, b + (j - i)),
                )
            }
        } else if i + 1 < s.len() && pair_kind(c, s[i + 1]) is Some {
            push_front(
                TokView { kind: pair_kind(c, s[i + 1]).unwrap(), start: b, end: b + 2 },
                lex(s, i + 2, b + 2),
            )
        } else {
            match single_kind(c) {
                Some(k) => push_front(TokView { kind: k, start: b, end: b + 1 }, lex(s, i + 1, b + 1)),
                None => Err(fail(b, "unexpected character `"@ + seq![c] + "`"@)),
            }
        }
    }
}

/// `ts` put before the tokens of `r`.
pub open spec fn prepend_all(ts: Seq<TokView>, r: Result<Seq<TokView>, Failure>) -> Result<Seq<TokView>, Failure> {
    match r {
        Ok(x) => Ok(ts + x),
        Err(e) => Err(e),
    }
}

fn digit_end(s: &Vec<char>, i: usize) -> (j: usize)
    requires
        i <= s@.len(),
    ensures
        i <= j <= s@.len(),
        j == digit_run_end(s@, i as int),
{
    let mut j = i;
    while j < s.len() && '0' <= s[j] && s[j] <= '9'
        invariant
            i <= j <= s@.len(),
            digit_run_end(s@, i as int) == digit_run_end(s@, j as int),
        decreases s@.len() - j,
    {
        j = j + 1;
    }
    j
}

fn name_end(s: &Vec<char>, i: usize) -> (j: usize)
    requires
        i <= s@.len(),
    ensures
        i <= j <= s@.len(),
        j == name_run_end(s@, i as int),
{
    let mut j = i;
    while j < s.len() && (('a' <= s[j] && s[j] <= 'z') || ('A' <= s[j] && s[j] <= 'Z') || ('0' <= s[j]
        && s[j] <= '9') || s[j] == '_')
        invariant
            i <= j <= s@.len(),
            name_run_end(s@, i as int) == name_run_end(s@, j as int),
        decreases s@.len() - j,
    {
        j = j + 1;
    }
    j
}

proof fn lemma_digits_value_grows(s: Seq<char>, k: int)
    requires
        0 <= k <= s.len(),
        forall|x: int| 0 <= x < s.len() ==> is_ascii_digit(#[trigger] s[x]),
    ensures
        digits_value(s) >= digits_value(s.take(k)),
    decreases s.len() - k,
{
    if k < s.len() {
        lemma_digits_value_grows(s, k + 1);
        assert(s.take(k + 1).drop_last() =~= s.take(k));
        assert(s.take(k + 1).last() == s[k]);
    } else {
        assert(s.take(k) =~= s);
    }
}

/// The value of the digits `s[i..j]`, or nothing when it exceeds `i64`.
pub(crate) fn digits_i64(s: &Vec<char>, i: usize, j: usize) -> (r: Option<i64>)
    requires
        i <= j <= s@.len(),
        forall|x: int| i <= x < j ==> is_ascii_digit(#[trigger] s@[x]),
    ensures
        match r {
            Some(v) => v == digits_value(s@.subrange(i as int, j as int)),
            None => digits_value(s@.subrange(i as int, j as int)) > i64::MAX,
        },
{
    let ghost d = s@.subrange(i as int, j as int);
    let mut v: i64 = 0;
    let mut k: usize = i;
    assert(d.take(0) =~= Seq::<char>::empty());
    while k < j
        invariant
            i <= k <= j <= s@.len(),
            d == s@.subrange(i as int, j as int),
            forall|x: int| i <= x < j ==> is_ascii_digit(#[trigger] s@[x]),
            v == digits_value(d.take(k - i)),
            0 <= v,
        decreases j - k,
    {
        let c = s[k];
        assert(is_ascii_digit(s@[k as int]));
        let digit: i64 = (c as u32 - '0' as u32) as i64;
        assert(d.take(k - i + 1).drop_last() =~= d.take(k - i));
        assert(d.take(k - i + 1).last() == c);
        if v > (i64::MAX - digit) / 10 {
            proof {
                assert(v * 10 + digit > i64::MAX) by (nonlinear_arith)
                    requires
                        v > (i64::MAX - digit) / 10,
                        0 <= digit <= 9,
                ;
                assert forall|x: int| 0 <= x < d.len() implies is_ascii_digit(#[trigger] d[x]) by {
                    assert(d[x] == s@[i + x]);
                }
                lemma_digits_value_grows(d, k - i + 1);
            }
            return None;
        }
        v = v * 10 + digit;
        k = k + 1;
    }
    assert(d.take(j - i) =~= d);
    Some(v)
}

/// Scan a string literal's body from character `j0` (byte `b0`).
fn scan_string_exec(s: &Vec<char>, j0: usize, b0: usize, start: usize) -> (r: Result<
    (String, usize, usize),
    ExpressionError,
>)
    requires
        j0 <= s@.len(),
        b0 + 4 * (s@.len() - j0) <= usize::MAX,
    ensures
        match r {
            Ok((v, nj, nb)) => scan_string(s@, j0 as int, b0 as int, start as int) == Ok::<
                (Seq<char>, int, int),
                Failure,
            >((v@, nj as int, nb as int)) && j0 < nj <= s@.len() && nb <= b0 + 4 * (nj - j0),
            Err(e) => scan_string(s@, j0 as int, b0 as int, start as int) == Err::<
                (Seq<char>, int, int),
                Failure,
            >(e@),
        },
{
    let mut value = String::new();
    let mut j = j0;
    let mut b = b0;
    assert(value@ + Seq::<char>::empty() =~= Seq::<char>::empty());
    while j < s.len()
        invariant
            j0 <= j <= s@.len(),
            b0 <= b <= b0 + 4 * (j - j0),
            b0 + 4 * (s@.len() - j0) <= usize::MAX,
            match scan_string(s@, j as int, b as int, start as int) {
                Ok((v, nj, nb)) => scan_string(s@, j0 as int, b0 as int, start as int) == Ok::<
                    (Seq<char>, int, int),
                    Failure,
                >((value@ + v, nj, nb)),
                Err(e) => scan_string(s@, j0 as int, b0 as int, start as int) == Err::<
                    (Seq<char>, int, int),
                    Failure,
                >(e),
            },
        decreases s@.len() - j,
    {
        let ch = s[j];
        let ghost before = value@;
        if ch == '"' {
            assert(before + Seq::<char>::empty() =~= before);
            return Ok((value, j + 1, b + 1));
        }
        if ch == '\\' {
            if j + 1 < s.len() {
                let next = s[j + 1];
                let mapped: Option<char> = if next == '"' {
                    Some('"')
                } else if next == '\\' {
                    Some('\\')
                } else if next == 'n' {
                    Some('\n')
                } else if next == 'r' {
                    Some('\r')
                } else if next == 't' {
                    Some('\t')
                } else {
                    None
                };
                assert(mapped == escaped(next));
                match mapped {
                    Some(m) => {
                        push_char(&mut value, m);
                        proof {
                            match scan_string(s@, j + 2, b + 2, start as int) {
                                Ok((v, nj, nb)) => {
                                    assert(before + (seq![m] + v) =~= value@ + v);
                                },
                                Err(_) => {},
                            }
                        }
                        j = j + 2;
                        b = b + 2;
                        continue;
                    },
                    None => {
                        return Err(ExpressionError { offset: b, reason: "unknown string escape".to_owned() });
                    },
                }
            } else {
                return Err(ExpressionError { offset: b, reason: "unknown string escape".to_owned() });
            }
        }
        let u = ch as u32;
        if u <= 0x1F || (0x7F <= u && u <= 0x9F) {
            return Err(
                ExpressionError {
                    offset: b,
                    reason: "raw control character in string literal".to_owned(),
                },
            );
        }
        push_char(&mut value, ch);
        proof {
            match scan_string(s@, j + 1, b + utf8_len(ch), start as int) {
                Ok((v, nj, nb)) => {
                    assert(before + (seq![ch] + v) =~= value@ + v);
                },
                Err(_) => {},
            }
        }
        b = b + char_utf8_len(ch);
        j = j + 1;
    }
    Err(ExpressionError { offset: start, reason: "unterminated string literal".to_owned() })
}

fn word_token(w: String) -> (k: TokenKind)
    ensures
        kind_view(k) == word_kind(w@),
{
    if crate::text::str_equal(w.as_str(), "if") {
        TokenKind::If
    } else if crate::text::str_equal(w.as_str(), "then") {
        TokenKind::Then
    } else if crate::text::str_equal(w.as_str(), "else") {
        TokenKind::Else
    } else if crate::text::str_equal(w.as_str(), "true") {
        TokenKind::True
    } else if crate::text::str_equal(w.as_str(), "false") {
        TokenKind::False
    } else if crate::text::str_equal(w.as_str(), "roll") {
        TokenKind::Roll
    } else {
        TokenKind::Identifier(w)
    }
}

fn pair_token(a: char, b: char) -> (k: Option<TokenKind>)
    ensures
        match k {
            Some(t) => pair_kind(a, b) == Some(kind_view(t)),
            None => pair_kind(a, b) is None,
        },
{
    if a == '=' && b == '=' {
        Some(TokenKind::Equal)
    } else if a == '!' && b == '=' {
        Some(TokenKind::NotEqual)
    } else if a == '<' && b == '=' {
        Some(TokenKind::LessEqual)
    } else if a == '>' && b == '=' {
        Some(TokenKind::GreaterEqual)
    } else if a == '&' && b == '&' {
        Some(TokenKind::AmpAmp)
    } else if a == '|' && b == '|' {
        Some(TokenKind::PipePipe)
    } else {
        None
    }
}

fn single_token(c: char) -> (k: Option<TokenKind>)
    ensures
        match k {
            Some(t) => single_kind(c) == Some(kind_view(t)),
            None => single_kind(c) is None,
        },
{
    if c == '<' {
        Some(TokenKind::Less)
    } else if c == '>' {
        Some(TokenKind::Greater)
    } else if c == '+' {
        Some(TokenKind::Plus)
    } else if c == '-' {
        Some(TokenKind::Minus)
    } else if c == '*' {
        Some(TokenKind::Star)
    } else if c == '/' {
        Some(TokenKind::Slash)
    } else if c == '%' {
        Some(TokenKind::Percent)
    } else if c == '!' {
        Some(TokenKind::Bang)
    } else if c == '(' {
        Some(TokenKind::LeftParen)
    } else if c == ')' {
        Some(TokenKind::RightParen)
    } else {
        None
    }
}

proof fn lemma_push_token(all: Result<Seq<TokView>, Failure>, ts: Seq<TokView>, t: TokView, rest: Result<Seq<TokView>, Failure>)
    requires
        all == prepend_all(ts, push_front(t, rest)),
    ensures
        all == prepend_all(ts.push(t), rest),
{
    match rest {
        Ok(x) => {
            assert(ts + (seq![t] + x) =~= ts.push(t) + x);
        },
        Err(_) => {},
    }
}

/// Split `s` into tokens.
fn tokenize(s: &Vec<char>) -> (r: Result<Vec<Token>, ExpressionError>)
    requires
        s@.len() <= MAX_SOURCE_BYTES,
    ensures
        match r {
            Ok(ts) => lex(s@, 0, 0) == Ok::<Seq<TokView>, Failure>(toks_view(ts@)),
            Err(e) => lex(s@, 0, 0) == Err::<Seq<TokView>, Failure>(e@),
        },
{
    let mut tokens: Vec<Token> = Vec::new();
    let mut i: usize = 0;
    let mut b: usize = 0;
    assert(toks_view(tokens@) =~= Seq::<TokView>::empty());
    proof {
        match lex(s@, 0, 0) {
            Ok(x) => {
                assert(Seq::<TokView>::empty() + x =~= x);
            },
            Err(_) => {},
        }
    }
    while i < s.len()
        invariant
            i <= s@.len() <= MAX_SOURCE_BYTES,
            b <= 4 * i,
            lex(s@, 0, 0) == prepend_all(toks_view(tokens@), lex(s@, i as int, b as int)),
        decreases s@.len() - i,
    {
        let c = s[i];
        let ghost before = toks_view(tokens@);
        if c == ' ' || c == '\t' || c == '\n' || c == '\x0C' || c == '\r' {
            i = i + 1;
            b = b + 1;
            continue;
        }
        if '0' <= c && c <= '9' {
            let j = digit_end(s, i);
            proof {
                lemma_digit_run(s@, i as int);
                lemma_digit_run(s@, i + 1);
            }
            match digits_i64(s, i, j) {
                None => {
                    return Err(ExpressionError { offset: b, reason: "integer literal out of range".to_owned() });
                },
                Some(v) => {
                    let t = Token { kind: TokenKind::Integer(v), start: b, end: b + (j - i) };
                    tokens.push(t);
                    proof {
                        assert(toks_view(tokens@) =~= before.push(tok_view(t)));
                        lemma_push_token(lex(s@, 0, 0), before, tok_view(t), lex(s@, j as int, b + (j - i)));
                    }
                    b = b + (j - i);
                    i = j;
                    continue;
                },
            }
        }
        if c == '"' {
            match scan_string_exec(s, i + 1, b + 1, b) {
                Err(e) => {
                    return Err(e);
                },
                Ok((v, nj, nb)) => {
                    let t = Token { kind: TokenKind::Text(v), start: b, end: nb };
                    tokens.push(t);
                    proof {
                        assert(toks_view(tokens@) =~= before.push(tok_view(t)));
                        lemma_push_token(lex(s@, 0, 0), before, tok_view(t), lex(s@, nj as int, nb as int));
                    }
                    i = nj;
                    b = nb;
                    continue;
                },
            }
        }
        if ('a' <= c && c <= 'z') || ('A' <= c && c <= 'Z') || c == '_' {
            let j = name_end(s, i);
            proof {
                lemma_name_run(s@, i as int);
                lemma_name_run(s@, i + 1);
            }
            let w = string_from_range(s.as_slice(), i, j);
            let t = Token { kind: word_token(w), start: b, end: b + (j - i) };
            tokens.push(t);
            proof {
                assert(toks_view(tokens@) =~= before.push(tok_view(t)));
                lemma_push_token(lex(s@, 0, 0), before, tok_view(t), lex(s@, j as int, b + (j - i)));
            }
            b = b + (j - i);
            i = j;
            continue;
        }
        if i + 1 < s.len() {
            match pair_token(c, s[i + 1]) {
                Some(k) => {
                    let t = Token { kind: k, start: b, end: b + 2 };
                    tokens.push(t);
                    proof {
                        assert(toks_view(tokens@) =~= before.push(tok_view(t)));
                        lemma_push_token(lex(s@, 0, 0), before, tok_view(t), lex(s@, i + 2, b + 2));
                    }
                    i = i + 2;
                    b = b + 2;
                    continue;
                },
                None => {},
            }
        }
        match single_token(c) {
            Some(k) => {
                let t = Token { kind: k, start: b, end: b + 1 };
                tokens.push(t);
                proof {
                    assert(toks_view(tokens@) =~= before.push(tok_view(t)));
                    lemma_push_token(lex(s@, 0, 0), before, tok_view(t), lex(s@, i + 1, b + 1));
                }
                i = i + 1;
                b = b + 1;
            },
            None => {
                let mut reason = String::new();
                push_str(&mut reason, "unexpected character `");
                push_char(&mut reason, c);
                push_str(&mut reason, "`");
                assert(reason@ =~= "unexpected character `"@ + seq![c] + "`"@);
                return Err(ExpressionError { offset: b, reason });
            },
        }
    }
    assert(toks_view(tokens@) + Seq::<TokView>::empty() =~= toks_view(tokens@));
    Ok(tokens)
}

proof fn lemma_digit_run(s: Seq<char>, i: int)
    requires
        0 <= i <= s.len(),
    ensures
        i <= digit_run_end(s, i) <= s.len(),
        forall|x: int| i <= x < digit_run_end(s, i) ==> is_ascii_digit(#[trigger] s[x]),
    decreases s.len() - i,
{
    if i < s.len() && is_ascii_digit(s[i]) {
        lemma_digit_run(s, i + 1);
    }
}

proof fn lemma_all_digits_run(s: Seq<char>, i: int)
    requires
        0 <= i <= s.len(),
        forall|x: int| i <= x < s.len() ==> is_ascii_digit(#[trigger] s[x]),
    ensures
        digit_run_end(s, i) == s.len(),
    decreases s.len() - i,
{
    if i < s.len() {
        lemma_all_digits_run(s, i + 1);
    }
}

/// A law tying reading numbers to writing them: the value of the decimal
/// digits that write `n` is `n`, and they are all ASCII digits.
pub proof fn lemma_digits_value_of_numeral(n: nat)
    ensures
        digits_value(nat_digits(n)) == n,
        forall|x: int| 0 <= x < nat_digits(n).len() ==> is_ascii_digit(#[trigger] nat_digits(n)[x]),
        nat_digits(n).len() >= 1,
    decreases n,
{
    let d = n % 10;
    assert(is_ascii_digit(digit_char(d)) && (digit_char(d) as u32) - ('0' as u32) == d);
    if n >= 10 {
        lemma_digits_value_of_numeral(n / 10);
        let s = nat_digits(n);
        assert(s.drop_last() =~= nat_digits(n / 10));
        assert(s.last() == digit_char(d));
        assert((n / 10) * 10 + d == n);
        assert(digits_value(s) == digits_value(s.drop_last()) * 10 + d);
        assert forall|x: int| 0 <= x < s.len() implies is_ascii_digit(#[trigger] s[x]) by {
            if x < s.len() - 1 {
                assert(s[x] == nat_digits(n / 10)[x]);
            }
        }
    } else {
        assert(nat_digits(n).drop_last() =~= Seq::<char>::empty());
        assert(digits_value(nat_digits(n)) == digits_value(Seq::<char>::empty()) * 10 + d);
    }
}

/// A law of reading integer literals: the decimal numeral of any `n` up
/// to `i64::MAX` reads as exactly one integer token, of value `n`, that
/// spans the whole numeral.
pub proof fn lemma_numeral_lexes_to_its_value(n: nat)
    requires
        n <= i64::MAX,
    ensures
        lex(nat_digits(n), 0, 0) == Ok::<Seq<TokView>, Failure>(
            seq![TokView { kind: Tok::Integer(n as i64), start: 0, end: nat_digits(n).len() as int }],
        ),
{
    let s = nat_digits(n);
    lemma_digits_value_of_numeral(n);
    lemma_all_digits_run(s, 0);
    assert(s.subrange(0, s.len() as int) =~= s);
    assert(is_ascii_digit(s[0]));
    assert(lex(s, s.len() as int, s.len() as int) == Ok::<Seq<TokView>, Failure>(Seq::empty()));
    assert(seq![TokView { kind: Tok::Integer(n as i64), start: 0, end: s.len() as int }] + Seq::<TokView>::empty()
        =~= seq![TokView { kind: Tok::Integer(n as i64), start: 0, end: s.len() as int }]);
}

proof fn lemma_first_index_after_digits(digits: Seq<char>, rest: Seq<char>)
    requires
        forall|x: int| 0 <= x < digits.len() ==> is_ascii_digit(#[trigger] digits[x]),
    ensures
        first_index(digits + seq!['d'] + rest, 'd') == Some(digits.len() as int),
    decreases rest.len(),
{
    let s = digits + seq!['d'] + rest;
    if rest.len() > 0 {
        lemma_first_index_after_digits(digits, rest.drop_last());
        assert(s.drop_last() =~= digits + seq!['d'] + rest.drop_last());
    } else {
        assert(s.drop_last() =~= digits);
        assert(first_index(digits, 'd') is None) by {
            lemma_no_d_in_digits(digits);
        }
    }
}

proof fn lemma_no_d_in_digits(digits: Seq<char>)
    requires
        forall|x: int| 0 <= x < digits.len() ==> is_ascii_digit(#[trigger] digits[x]),
    ensures
        first_index(digits, 'd') is None,
    decreases digits.len(),
{
    if digits.len() > 0 {
        assert(is_ascii_digit(digits[digits.len() - 1]));
        lemma_no_d_in_digits(digits.drop_last());
    }
}

/// A law of dice literals: `CdS` written with the decimal numerals of a
/// count `C` in `1..=1000` and of sides `S` in `1..=1000000` reads back
/// as that count and those sides, and `dS` as one die of `S` sides.
pub proof fn lemma_dice_literal_round_trip(count: nat, sides: nat, offset: int)
    requires
        1 <= count <= 1000,
        1 <= sides <= 1_000_000,
    ensures
        dice_literal(nat_digits(count) + seq!['d'] + nat_digits(sides), offset) == Ok::<(u32, u32), Failure>(
            (count as u32, sides as u32),
        ),
        dice_literal(seq!['d'] + nat_digits(sides), offset) == Ok::<(u32, u32), Failure>((1u32, sides as u32)),
{
    reveal(dice_literal);
    lemma_digits_value_of_numeral(count);
    lemma_digits_value_of_numeral(sides);
    let c = nat_digits(count);
    let sd = nat_digits(sides);
    let lit = c + seq!['d'] + sd;
    lemma_first_index_after_digits(c, sd);
    assert(lit.take(c.len() as int) =~= c);
    assert(lit.skip((c.len() + 1) as int) =~= sd);
    assert forall|i: int| 0 <= i < lit.len() implies !is_ascii_space(#[trigger] lit[i]) && lit[i] != 'D' && (i
        > c.len() ==> lit[i] != 'd') by {
        if i < c.len() {
            assert(lit[i] == c[i]);
        } else if i > c.len() {
            assert(lit[i] == sd[i - c.len() - 1]);
        }
    }
    assert(!sd.contains('d')) by {
        if sd.contains('d') {
            let j = choose|j: int| 0 <= j < sd.len() && sd[j] == 'd';
            assert(is_ascii_digit(sd[j]));
        }
    }
    assert(!lit.contains('D'));
    let one = seq!['d'] + sd;
    lemma_first_index_after_digits(Seq::<char>::empty(), sd);
    assert(Seq::<char>::empty() + seq!['d'] + sd =~= one);
    assert(one.take(0) =~= Seq::<char>::empty());
    assert(one.skip(1) =~= sd);
    assert forall|i: int| 0 <= i < one.len() implies !is_ascii_space(#[trigger] one[i]) && one[i] != 'D' by {
        if i > 0 {
            assert(one[i] == sd[i - 1]);
        }
    }
    assert(!one.contains('D'));
}

proof fn lemma_name_run(s: Seq<char>, i: int)
    requires
        0 <= i <= s.len(),
    ensures
        i <= name_run_end(s, i) <= s.len(),
    decreases s.len() - i,
{
    if i < s.len() && continues_name(s[i]) {
        lemma_name_run(s, i + 1);
    }
}

/// Unary operators.
#[derive(Debug, Clone, Copy, PartialEq, Eq, Structural)]
pub enum UnaryOp {
    Neg,
    Not,
}

/// Binary operators.
#[derive(Debug, Clone, Copy, PartialEq, Eq, Structural)]
pub enum BinaryOp {
    Equal,
    NotEqual,
    Less,
    LessEqual,
    Greater,
    GreaterEqual,
    And,
    Or,
    Add,
    Sub,
    Mul,
    Div,
    Rem,
}

/// A syntax tree node and the byte range `[start, end)` it spans.
#[derive(Debug, PartialEq)]
pub struct ExprNode {
    pub kind: ExprKind,
    pub start: usize,
    pub end: usize,
}

/// What a syntax tree node is. A dice literal keeps its source text and
/// the count and sides it names.
#[derive(Debug, PartialEq)]
pub enum ExprKind {
    Integer(i64),
    Boolean(bool),
    Text(String),
    Variable(String),
    Unary { op: UnaryOp, operand: Box<ExprNode> },
    Dice { literal: String, count: u32, sides: u32 },
    Binary { op: BinaryOp, left: Box<ExprNode>, right: Box<ExprNode> },
    Conditional { cond: Box<ExprNode>, then_branch: Box<ExprNode>, else_branch: Box<ExprNode> },
}

/// A parsed expression.
#[derive(Debug, PartialEq)]
pub struct Expression {
    pub root: ExprNode,
}

/// A syntax tree node as values.
pub struct Node {
    pub kind: Ast,
    pub start: int,
    pub end: int,
}

pub enum Ast {
    Integer(i64),
    Boolean(bool),
    Text(Seq<char>),
    Variable(Seq<char>),
    Unary { op: UnaryOp, operand: Box<Node> },
    Dice { literal: Seq<char>, count: u32, sides: u32 },
    Binary { op: BinaryOp, left: Box<Node>, right: Box<Node> },
    Conditional { cond: Box<Node>, then_branch: Box<Node>, else_branch: Box<Node> },
}

/// The value form of a syntax tree.
pub open spec fn node_view(n: ExprNode) -> Node
    decreases n,
{
    Node {
        kind: match n.kind {
            ExprKind::Integer(v) => Ast::Integer(v),
            ExprKind::Boolean(v) => Ast::Boolean(v),
            ExprKind::Text(v) => Ast::Text(v@),
            ExprKind::Variable(v) => Ast::Variable(v@),
            ExprKind::Unary { op, operand } => Ast::Unary { op, operand: Box::new(node_view(*operand)) },
            ExprKind::Dice { literal, count, sides } => Ast::Dice { literal: literal@, count, sides },
            ExprKind::Binary { op, left, right } => Ast::Binary {
                op,
                left: Box::new(node_view(*left)),
                right: Box::new(node_view(*right)),
            },
            ExprKind::Conditional { cond, then_branch, else_branch } => Ast::Conditional {
                cond: Box::new(node_view(*cond)),
                then_branch: Box::new(node_view(*then_branch)),
                else_branch: Box::new(node_view(*else_branch)),
            },
        },
        start: n.start as int,
        end: n.end as int,
    }
}

pub open spec fn max2(a: nat, b: nat) -> nat {
    if a >= b {
        a
    } else {
        b
    }
}

/// The depth of a syntax tree; a leaf has depth 1.
pub open spec fn depth(n: Node) -> nat
    decreases n,
{
    match n.kind {
        Ast::Unary { operand, .. } => 1 + depth(*operand),
        Ast::Binary { left, right, .. } => 1 + max2(depth(*left), depth(*right)),
        Ast::Conditional { cond, then_branch, else_branch } => 1 + max2(
            depth(*cond),
            max2(depth(*then_branch), depth(*else_branch)),
        ),
        _ => 1,
    }
}

/// The kind of token `p`, if there is one.
pub open spec fn tok_at(ts: Seq<TokView>, p: int) -> Option<Tok> {
    if 0 <= p < ts.len() {
        Some(ts[p].kind)
    } else {
        None
    }
}

/// Where token `p` starts, or the end of the source when there is none.
pub open spec fn offset_at(ts: Seq<TokView>, src_len: int, p: int) -> int {
    if 0 <= p < ts.len() {
        ts[p].start
    } else {
        src_len
    }
}

/// How many more levels of nesting are allowed beyond `n`.
pub open spec fn room(n: int) -> nat {
    if n <= MAX_AST_DEPTH {
        (MAX_AST_DEPTH - n) as nat
    } else {
        0
    }
}

/// A parse outcome: the node (or failure) and the next token.
pub type Parsed = (Result<Node, Failure>, int);

pub open spec fn nesting_failure(ts: Seq<TokView>, src_len: int, p: int) -> Parsed {
    (Err(fail(offset_at(ts, src_len, p), "expression nesting exceeds depth limit"@)), p)
}

pub open spec fn depth_failure(start: int) -> Failure {
    fail(start, "expression tree exceeds depth limit"@)
}

/// A binary node of `left` and `right`, unless it is too deep.
pub open spec fn join(op: BinaryOp, left: Node, right: Node) -> Result<Node, Failure> {
    if 1 + max2(depth(left), depth(right)) > MAX_AST_DEPTH {
        Err(depth_failure(left.start))
    } else {
        Ok(Node { kind: Ast::Binary { op, left: Box::new(left), right: Box::new(right) }, start: left.start, end: right.end })
    }
}

/// A failure for a missing `what` at token `p`.
pub open spec fn expected(ts: Seq<TokView>, src_len: int, p: int, what: Seq<char>) -> Failure {
    fail(offset_at(ts, src_len, p), "expected "@ + what)
}

/// `expression := conditional`.
pub open spec fn p_expression(ts: Seq<TokView>, src_len: int, p: int, n: int) -> Parsed
    decreases room(n), ts.len() - p, 16nat,
{
    p_conditional(ts, src_len, p, n)
}

/// `conditional := "if" expression "then" expression "else" expression | disjunction`.
#[verifier::opaque]
pub open spec fn p_conditional(ts: Seq<TokView>, src_len: int, p: int, n: int) -> Parsed
    decreases room(n), ts.len() - p, 15nat,
{
    if tok_at(ts, p) == Some(Tok::If) {
        let if_start = ts[p].start;
        if n + 1 > MAX_AST_DEPTH {
            nesting_failure(ts, src_len, p + 1)
        } else {
            let c = p_expression(ts, src_len, p + 1, n + 1);
            match c.0 {
                Err(e) => (Err(e), c.1),
                Ok(cond) => if tok_at(ts, c.1) != Some(Tok::Then) {
                    (Err(expected(ts, src_len, c.1, "`then`"@)), c.1)
                } else {
                    let t = p_expression(ts, src_len, c.1 + 1, n + 1);
                    match t.0 {
                        Err(e) => (Err(e), t.1),
                        Ok(then_branch) => if tok_at(ts, t.1) != Some(Tok::Else) {
                            (Err(expected(ts, src_len, t.1, "`else`"@)), t.1)
                        } else {
                            let e = p_expression(ts, src_len, t.1 + 1, n + 1);
                            match e.0 {
                                Err(f) => (Err(f), e.1),
                                Ok(else_branch) => if 1 + max2(
                                    depth(cond),
                                    max2(depth(then_branch), depth(else_branch)),
                                ) > MAX_AST_DEPTH {
                                    (Err(depth_failure(if_start)), e.1)
                                } else {
                                    (
                                        Ok(
                                            Node {
                                                kind: Ast::Conditional {
                                                    cond: Box::new(cond),
                                                    then_branch: Box::new(then_branch),
                                                    else_branch: Box::new(else_branch),
                                                },
                                                start: if_start,
                                                end: else_branch.end,
                                            },
                                        ),
                                        e.1,
                                    )
                                },
                            }
                        },
                    }
                },
            }
        }
    } else {
        p_disjunction(ts, src_len, p, n)
    }
}

/// `disjunction := conjunction ("||" conjunction)*`.
#[verifier::opaque]
pub open spec fn p_disjunction(ts: Seq<TokView>, src_len: int, p: int, n: int) -> Parsed
    decreases room(n), ts.len() - p, 14nat,
{
    let c = p_conjunction(ts, src_len, p, n);
    match c.0 {
        Err(e) => (Err(e), c.1),
        Ok(left) => if p <= c.1 <= ts.len() {
            p_disjunction_rest(ts, src_len, c.1, n, left)
        } else {
            (Ok(left), c.1)
        },
    }
}

#[verifier::opaque]
pub open spec fn p_disjunction_rest(ts: Seq<TokView>, src_len: int, q: int, n: int, left: Node) -> Parsed
    decreases room(n), ts.len() - q, 13nat,
{
    if tok_at(ts, q) == Some(Tok::PipePipe) {
        let r = p_conjunction(ts, src_len, q + 1, n);
        match r.0 {
            Err(e) => (Err(e), r.1),
            Ok(right) => match join(BinaryOp::Or, left, right) {
                Err(e) => (Err(e), r.1),
                Ok(node) => if q < r.1 <= ts.len() {
                    p_disjunction_rest(ts, src_len, r.1, n, node)
                } else {
                    (Ok(node), r.1)
                },
            },
        }
    } else {
        (Ok(left), q)
    }
}

/// `conjunction := equality ("&&" equality)*`.
#[verifier::opaque]
pub open spec fn p_conjunction(ts: Seq<TokView>, src_len: int, p: int, n: int) -> Parsed
    decreases room(n), ts.len() - p, 12nat,
{
    let c = p_equality(ts, src_len, p, n);
    match c.0 {
        Err(e) => (Err(e), c.1),
        Ok(left) => if p <= c.1 <= ts.len() {
            p_conjunction_rest(ts, src_len, c.1, n, left)
        } else {
            (Ok(left), c.1)
        },
    }
}

#[verifier::opaque]
pub open spec fn p_conjunction_rest(ts: Seq<TokView>, src_len: int, q: int, n: int, left: Node) -> Parsed
    decreases room(n), ts.len() - q, 11nat,
{
    if tok_at(ts, q) == Some(Tok::AmpAmp) {
        let r = p_equality(ts, src_len, q + 1, n);
        match r.0 {
            Err(e) => (Err(e), r.1),
            Ok(right) => match join(BinaryOp::And, left, right) {
                Err(e) => (Err(e), r.1),
                Ok(node) => if q < r.1 <= ts.len() {
                    p_conjunction_rest(ts, src_len, r.1, n, node)
                } else {
                    (Ok(node), r.1)
                },
            },
        }
    } else {
        (Ok(left), q)
    }
}

/// The equality operator token `t` stands for, if any.
pub open spec fn equality_op(t: Option<Tok>) -> Option<BinaryOp> {
    match t {
        Some(Tok::Equal) => Some(BinaryOp::Equal),
        Some(Tok::NotEqual) => Some(BinaryOp::NotEqual),
        _ => None,
    }
}

/// The ordering operator token `t` stands for, if any.
pub open spec fn ordering_op(t: Option<Tok>) -> Option<BinaryOp> {
    match t {
        Some(Tok::Less) => Some(BinaryOp::Less),
        Some(Tok::LessEqual) => Some(BinaryOp::LessEqual),
        Some(Tok::Greater) => Some(BinaryOp::Greater),
        Some(Tok::GreaterEqual) => Some(BinaryOp::GreaterEqual),
        _ => None,
    }
}

/// The additive operator token `t` stands for, if any.
pub open spec fn sum_op(t: Option<Tok>) -> Option<BinaryOp> {
    match t {
        Some(Tok::Plus) => Some(BinaryOp::Add),
        Some(Tok::Minus) => Some(BinaryOp::Sub),
        _ => None,
    }
}

/// The multiplicative operator token `t` stands for, if any.
pub open spec fn product_op(t: Option<Tok>) -> Option<BinaryOp> {
    match t {
        Some(Tok::Star) => Some(BinaryOp::Mul),
        Some(Tok::Slash) => Some(BinaryOp::Div),
        Some(Tok::Percent) => Some(BinaryOp::Rem),
        _ => None,
    }
}

/// `equality := comparison (("==" | "!=") comparison)?`; a second
/// equality operator in a row is refused.
#[verifier::opaque]
pub open spec fn p_equality(ts: Seq<TokView>, src_len: int, p: int, n: int) -> Parsed
    decreases room(n), ts.len() - p, 10nat,
{
    let c = p_comparison(ts, src_len, p, n);
    match c.0 {
        Err(e) => (Err(e), c.1),
        Ok(left) => match equality_op(tok_at(ts, c.1)) {
            None => (Ok(left), c.1),
            Some(op) => if p <= c.1 < ts.len() {
                let r = p_comparison(ts, src_len, c.1 + 1, n);
                match r.0 {
                    Err(e) => (Err(e), r.1),
                    Ok(right) => if equality_op(tok_at(ts, r.1)) is Some {
                        (Err(fail(ts[r.1].start, "repeated equality comparison"@)), r.1)
                    } else {
                        (join(op, left, right), r.1)
                    },
                }
            } else {
                (Ok(left), c.1)
            },
        },
    }
}

/// `comparison := sum (("<" | "<=" | ">" | ">=") sum)?`; a second
/// ordering operator in a row is refused.
#[verifier::opaque]
pub open spec fn p_comparison(ts: Seq<TokView>, src_len: int, p: int, n: int) -> Parsed
    decreases room(n), ts.len() - p, 9nat,
{
    let c = p_sum(ts, src_len, p, n);
    match c.0 {
        Err(e) => (Err(e), c.1),
        Ok(left) => match ordering_op(tok_at(ts, c.1)) {
            None => (Ok(left), c.1),
            Some(op) => if p <= c.1 < ts.len() {
                let r = p_sum(ts, src_len, c.1 + 1, n);
                match r.0 {
                    Err(e) => (Err(e), r.1),
                    Ok(right) => if ordering_op(tok_at(ts, r.1)) is Some {
                        (Err(fail(ts[r.1].start, "repeated ordering comparison"@)), r.1)
                    } else {
                        (join(op, left, right), r.1)
                    },
                }
            } else {
                (Ok(left), c.1)
            },
        },
    }
}

/// `sum := product (("+" | "-") product)*`.
#[verifier::opaque]
pub open spec fn p_sum(ts: Seq<TokView>, src_len: int, p: int, n: int) -> Parsed
    decreases room(n), ts.len() - p, 8nat,
{
    let c = p_product(ts, src_len, p, n);
    match c.0 {
        Err(e) => (Err(e), c.1),
        Ok(left) => if p <= c.1 <= ts.len() {
            p_sum_rest(ts, src_len, c.1, n, left)
        } else {
            (Ok(left), c.1)
        },
    }
}

#[verifier::opaque]
pub open spec fn p_sum_rest(ts: Seq<TokView>, src_len: int, q: int, n: int, left: Node) -> Parsed
    decreases room(n), ts.len() - q, 7nat,
{
    match sum_op(tok_at(ts, q)) {
        None => (Ok(left), q),
        Some(op) => {
            let r = p_product(ts, src_len, q + 1, n);
            match r.0 {
                Err(e) => (Err(e), r.1),
                Ok(right) => match join(op, left, right) {
                    Err(e) => (Err(e), r.1),
                    Ok(node) => if q < r.1 <= ts.len() {
                        p_sum_rest(ts, src_len, r.1, n, node)
                    } else {
                        (Ok(node), r.1)
                    },
                },
            }
        },
    }
}

/// `product := unary (("*" | "/" | "%") unary)*`.
#[verifier::opaque]
pub open spec fn p_product(ts: Seq<TokView>, src_len: int, p: int, n: int) -> Parsed
    decreases room(n), ts.len() - p, 6nat,
{
    let c = p_unary(ts, src_len, p, n);
    match c.0 {
        Err(e) => (Err(e), c.1),
        Ok(left) => if p <= c.1 <= ts.len() {
            p_product_rest(ts, src_len, c.1, n, left)
        } else {
            (Ok(left), c.1)
        },
    }
}

#[verifier::opaque]
pub open spec fn p_product_rest(ts: Seq<TokView>, src_len: int, q: int, n: int, left: Node) -> Parsed
    decreases room(n), ts.len() - q, 5nat,
{
    match product_op(tok_at(ts, q)) {
        None => (Ok(left), q),
        Some(op) => {
            let r = p_unary(ts, src_len, q + 1, n);
            match r.0 {
                Err(e) => (Err(e), r.1),
                Ok(right) => match join(op, left, right) {
                    Err(e) => (Err(e), r.1),
                    Ok(node) => if q < r.1 <= ts.len() {
                        p_product_rest(ts, src_len, r.1, n, node)
                    } else {
                        (Ok(node), r.1)
                    },
                },
            }
        },
    }
}

/// The binary node `op` of `left` and `right`, spanning both.
pub open spec fn binary_node(op: BinaryOp, left: Node, right: Node) -> Node {
    Node { kind: Ast::Binary { op, left: Box::new(left), right: Box::new(right) }, start: left.start, end: right.end }
}

proof fn lemma_p_sum_rest_end(ts: Seq<TokView>, src_len: int, q: int, n: int, left: Node)
    requires
        sum_op(tok_at(ts, q)) is None,
    ensures
        p_sum_rest(ts, src_len, q, n, left) == (Ok::<Node, Failure>(left), q),
{
    reveal_with_fuel(p_sum_rest, 1);
}

proof fn lemma_p_sum_rest_step(
    ts: Seq<TokView>,
    src_len: int,
    q: int,
    n: int,
    left: Node,
    right: Node,
    r1: int,
    node: Node,
    out: Parsed,
)
    requires
        sum_op(tok_at(ts, q)) is Some,
        p_product(ts, src_len, q + 1, n) == (Ok::<Node, Failure>(right), r1),
        q < r1 <= ts.len(),
        join(sum_op(tok_at(ts, q))->Some_0, left, right) == Ok::<Node, Failure>(node),
        p_sum_rest(ts, src_len, r1, n, node) == out,
    ensures
        p_sum_rest(ts, src_len, q, n, left) == out,
{
    reveal_with_fuel(p_sum_rest, 1);
    reveal_with_fuel(p_product, 1);
}

proof fn lemma_p_sum_start(ts: Seq<TokView>, src_len: int, p: int, n: int, left: Node, q: int, out: Parsed)
    requires
        p_product(ts, src_len, p, n) == (Ok::<Node, Failure>(left), q),
        p <= q <= ts.len(),
        p_sum_rest(ts, src_len, q, n, left) == out,
    ensures
        p_sum(ts, src_len, p, n) == out,
{
    reveal_with_fuel(p_sum, 1);
    reveal_with_fuel(p_product, 1);
    reveal_with_fuel(p_sum_rest, 1);
}

proof fn lemma_p_product_rest_end(ts: Seq<TokView>, src_len: int, q: int, n: int, left: Node)
    requires
        product_op(tok_at(ts, q)) is None,
    ensures
        p_product_rest(ts, src_len, q, n, left) == (Ok::<Node, Failure>(left), q),
{
    reveal_with_fuel(p_product_rest, 1);
}

proof fn lemma_p_product_rest_step(
    ts: Seq<TokView>,
    src_len: int,
    q: int,
    n: int,
    left: Node,
    right: Node,
    r1: int,
    node: Node,
    out: Parsed,
)
    requires
        product_op(tok_at(ts, q)) is Some,
        p_unary(ts, src_len, q + 1, n) == (Ok::<Node, Failure>(right), r1),
        q < r1 <= ts.len(),
        join(product_op(tok_at(ts, q))->Some_0, left, right) == Ok::<Node, Failure>(node),
        p_product_rest(ts, src_len, r1, n, node) == out,
    ensures
        p_product_rest(ts, src_len, q, n, left) == out,
{
    reveal_with_fuel(p_product_rest, 1);
    reveal_with_fuel(p_unary, 1);
}

proof fn lemma_p_product_start(ts: Seq<TokView>, src_len: int, p: int, n: int, left: Node, q: int, out: Parsed)
    requires
        p_unary(ts, src_len, p, n) == (Ok::<Node, Failure>(left), q),
        p <= q <= ts.len(),
        p_product_rest(ts, src_len, q, n, left) == out,
    ensures
        p_product(ts, src_len, p, n) == out,
{
    reveal_with_fuel(p_product, 1);
    reveal_with_fuel(p_unary, 1);
    reveal_with_fuel(p_product_rest, 1);
}

/// A law of the grammar: `+` and `-` group to the left. Three operands
/// parsed one after another, joined by two additive operators and not
/// followed by a third, parse as the first two joined by the first
/// operator, then joined to the third by the second.
pub proof fn lemma_sums_group_left(
    ts: Seq<TokView>,
    src_len: int,
    p: int,
    n: int,
    x: Node,
    q1: int,
    y: Node,
    q2: int,
    z: Node,
    q3: int,
)
    requires
        0 <= p < q1 < q2 < q3 <= ts.len(),
        p_product(ts, src_len, p, n) == (Ok::<Node, Failure>(x), q1),
        sum_op(tok_at(ts, q1)) is Some,
        p_product(ts, src_len, q1 + 1, n) == (Ok::<Node, Failure>(y), q2),
        sum_op(tok_at(ts, q2)) is Some,
        p_product(ts, src_len, q2 + 1, n) == (Ok::<Node, Failure>(z), q3),
        sum_op(tok_at(ts, q3)) is None,
        depth(x) + 2 <= MAX_AST_DEPTH,
        depth(y) + 2 <= MAX_AST_DEPTH,
        depth(z) + 1 <= MAX_AST_DEPTH,
    ensures
        p_sum(ts, src_len, p, n) == (
            Ok::<Node, Failure>(
                binary_node(
                    sum_op(tok_at(ts, q2))->Some_0,
                    binary_node(sum_op(tok_at(ts, q1))->Some_0, x, y),
                    z,
                ),
            ),
            q3,
        ),
{
    let xy = binary_node(sum_op(tok_at(ts, q1))->Some_0, x, y);
    let xyz = binary_node(sum_op(tok_at(ts, q2))->Some_0, xy, z);
    assert(depth(xy) == 1 + max2(depth(x), depth(y)));
    assert(join(sum_op(tok_at(ts, q1))->Some_0, x, y) == Ok::<Node, Failure>(xy));
    assert(join(sum_op(tok_at(ts, q2))->Some_0, xy, z) == Ok::<Node, Failure>(xyz));
    lemma_p_sum_rest_end(ts, src_len, q3, n, xyz);
    lemma_p_sum_rest_step(ts, src_len, q2, n, xy, z, q3, xyz, (Ok::<Node, Failure>(xyz), q3));
    lemma_p_sum_rest_step(ts, src_len, q1, n, x, y, q2, xy, (Ok::<Node, Failure>(xyz), q3));
    lemma_p_sum_start(ts, src_len, p, n, x, q1, (Ok::<Node, Failure>(xyz), q3));
}

/// A law of the grammar: `*`, `/` and `%` group to the left. Three
/// operands parsed one after another, joined by two multiplicative
/// operators and not followed by a third, parse as the first two joined
/// by the first operator, then joined to the third by the second.
pub proof fn lemma_products_group_left(
    ts: Seq<TokView>,
    src_len: int,
    p: int,
    n: int,
    x: Node,
    q1: int,
    y: Node,
    q2: int,
    z: Node,
    q3: int,
)
    requires
        0 <= p < q1 < q2 < q3 <= ts.len(),
        p_unary(ts, src_len, p, n) == (Ok::<Node, Failure>(x), q1),
        product_op(tok_at(ts, q1)) is Some,
        p_unary(ts, src_len, q1 + 1, n) == (Ok::<Node, Failure>(y), q2),
        product_op(tok_at(ts, q2)) is Some,
        p_unary(ts, src_len, q2 + 1, n) == (Ok::<Node, Failure>(z), q3),
        product_op(tok_at(ts, q3)) is None,
        depth(x) + 2 <= MAX_AST_DEPTH,
        depth(y) + 2 <= MAX_AST_DEPTH,
        depth(z) + 1 <= MAX_AST_DEPTH,
    ensures
        p_product(ts, src_len, p, n) == (
            Ok::<Node, Failure>(
                binary_node(
                    product_op(tok_at(ts, q2))->Some_0,
                    binary_node(product_op(tok_at(ts, q1))->Some_0, x, y),
                    z,
                ),
            ),
            q3,
        ),
{
    let xy = binary_node(product_op(tok_at(ts, q1))->Some_0, x, y);
    let xyz = binary_node(product_op(tok_at(ts, q2))->Some_0, xy, z);
    assert(depth(xy) == 1 + max2(depth(x), depth(y)));
    assert(join(product_op(tok_at(ts, q1))->Some_0, x, y) == Ok::<Node, Failure>(xy));
    assert(join(product_op(tok_at(ts, q2))->Some_0, xy, z) == Ok::<Node, Failure>(xyz));
    lemma_p_product_rest_end(ts, src_len, q3, n, xyz);
    lemma_p_product_rest_step(ts, src_len, q2, n, xy, z, q3, xyz, (Ok::<Node, Failure>(xyz), q3));
    lemma_p_product_rest_step(ts, src_len, q1, n, x, y, q2, xy, (Ok::<Node, Failure>(xyz), q3));
    lemma_p_product_start(ts, src_len, p, n, x, q1, (Ok::<Node, Failure>(xyz), q3));
}

/// The unary operator token `t` stands for, if any.
pub open spec fn unary_op(t: Option<Tok>) -> Option<UnaryOp> {
    match t {
        Some(Tok::Minus) => Some(UnaryOp::Neg),
        Some(Tok::Bang) => Some(UnaryOp::Not),
        _ => None,
    }
}

/// `unary := ("-" | "!") unary | primary`; each operator nests one level.
#[verifier::opaque]
pub open spec fn p_unary(ts: Seq<TokView>, src_len: int, p: int, n: int) -> Parsed
    decreases room(n), ts.len() - p, 4nat,
{
    match unary_op(tok_at(ts, p)) {
        None => p_primary(ts, src_len, p, n),
        Some(op) => {
            let start = ts[p].start;
            if n + 1 > MAX_AST_DEPTH {
                nesting_failure(ts, src_len, p + 1)
            } else {
                let o = p_unary(ts, src_len, p + 1, n + 1);
                match o.0 {
                    Err(e) => (Err(e), o.1),
                    Ok(operand) => if 1 + depth(operand) > MAX_AST_DEPTH {
                        (Err(depth_failure(start)), o.1)
                    } else {
                        (
                            Ok(
                                Node {
                                    kind: Ast::Unary { op, operand: Box::new(operand) },
                                    start,
                                    end: operand.end,
                                },
                            ),
                            o.1,
                        )
                    },
                }
            }
        },
    }
}

/// `primary := integer | string | "true" | "false" | name | "(" expression ")"
///           | "roll" "(" string ")"`.
#[verifier::opaque]
pub open spec fn p_primary(ts: Seq<TokView>, src_len: int, p: int, n: int) -> Parsed
    decreases room(n), ts.len() - p, 3nat,
{
    if p < 0 || p >= ts.len() {
        (Err(fail(src_len, "expected an expression"@)), p)
    } else {
        let t = ts[p];
        let leaf = |k: Ast| (Ok(Node { kind: k, start: t.start, end: t.end }), p + 1);
        match t.kind {
            Tok::Integer(v) => leaf(Ast::Integer(v)),
            Tok::Text(v) => leaf(Ast::Text(v)),
            Tok::True => leaf(Ast::Boolean(true)),
            Tok::False => leaf(Ast::Boolean(false)),
            Tok::Identifier(v) => leaf(Ast::Variable(v)),
            Tok::LeftParen => if n + 1 > MAX_AST_DEPTH {
                nesting_failure(ts, src_len, p + 1)
            } else {
                let inner = p_expression(ts, src_len, p + 1, n + 1);
                match inner.0 {
                    Err(e) => (Err(e), inner.1),
                    Ok(x) => if tok_at(ts, inner.1) == Some(Tok::RightParen) {
                        (Ok(x), inner.1 + 1)
                    } else {
                        (Err(expected(ts, src_len, inner.1, "`)`"@)), inner.1)
                    },
                }
            },
            Tok::Roll => if tok_at(ts, p + 1) != Some(Tok::LeftParen) {
                (Err(expected(ts, src_len, p + 1, "`(` after `roll`"@)), p + 1)
            } else {
                match tok_at(ts, p + 2) {
                    Some(Tok::Text(lit)) => if tok_at(ts, p + 3) != Some(Tok::RightParen) {
                        (Err(expected(ts, src_len, p + 3, "`)`"@)), p + 3)
                    } else {
                        match dice_literal(lit, ts[p + 2].start) {
                            Err(e) => (Err(e), p + 4),
                            Ok((count, sides)) => (
                                Ok(
                                    Node {
                                        kind: Ast::Dice { literal: lit, count, sides },
                                        start: t.start,
                                        end: ts[p + 3].end,
                                    },
                                ),
                                p + 4,
                            ),
                        }
                    },
                    _ => (
                        Err(
                            fail(
                                offset_at(ts, src_len, p + 2),
                                "`roll()` requires a string literal"@,
                            ),
                        ),
                        p + 2,
                    ),
                }
            },
            _ => (Err(fail(t.start, "expected an expression"@)), p + 1),
        }
    }
}

/// All characters of `s` are ASCII digits.
pub open spec fn all_digits(s: Seq<char>) -> bool {
    forall|i: int| 0 <= i < s.len() ==> is_ascii_digit(#[trigger] s[i])
}

/// Index of the first `c` in `s`, if any.
pub open spec fn first_index(s: Seq<char>, c: char) -> Option<int>
    decreases s.len(),
{
    if s.len() == 0 {
        None
    } else {
        match first_index(s.drop_last(), c) {
            Some(i) => Some(i),
            None => if s.last() == c {
                Some(s.len() - 1)
            } else {
                None
            },
        }
    }
}

/// A failure about dice literal `lit` at `offset`.
pub open spec fn dice_failure(lit: Seq<char>, offset: int, why: Seq<char>) -> Failure {
    fail(offset, "invalid dice literal `"@ + lit + "`: "@ + why)
}

/// Check a `roll("...")` literal against the bounded `[N]dS` form: the
/// count (1 when left out) and sides it names.
#[verifier::opaque]
pub open spec fn dice_literal(lit: Seq<char>, offset: int) -> Result<(u32, u32), Failure> {
    if exists|i: int| 0 <= i < lit.len() && is_ascii_space(#[trigger] lit[i]) {
        Err(dice_failure(lit, offset, "no internal whitespace allowed"@))
    } else {
        match first_index(lit, 'd') {
            None => Err(dice_failure(lit, offset, "expected `[N]dS` form"@)),
            Some(d) => {
                let count_text = lit.take(d);
                let sides_text = lit.skip(d + 1);
                if sides_text.contains('d') || lit.contains('D') {
                    Err(dice_failure(lit, offset, "expected `[N]dS` form"@))
                } else if !all_digits(sides_text) || sides_text.len() == 0 {
                    Err(dice_failure(lit, offset, "sides must be ASCII decimal digits"@))
                } else if !all_digits(count_text) {
                    Err(dice_failure(lit, offset, "count must be ASCII decimal digits"@))
                } else if count_text.len() > 0 && digits_value(count_text) > u32::MAX {
                    Err(dice_failure(lit, offset, "count must be ASCII decimal digits"@))
                } else if digits_value(sides_text) > u32::MAX {
                    Err(dice_failure(lit, offset, "sides must be ASCII decimal digits"@))
                } else {
                    let count: nat = if count_text.len() == 0 {
                        1
                    } else {
                        digits_value(count_text)
                    };
                    let sides = digits_value(sides_text);
                    if !(1 <= count <= 1000) {
                        Err(dice_failure(lit, offset, "count must be 1-1000"@))
                    } else if !(1 <= sides <= 1_000_000) {
                        Err(dice_failure(lit, offset, "sides must be 1-1000000"@))
                    } else {
                        Ok((count as u32, sides as u32))
                    }
                }
            },
        }
    }
}

/// Parse the source `s`: at most [`MAX_SOURCE_BYTES`] bytes, tokens that
/// form one expression with nothing after it.
pub open spec fn parse_spec(s: Seq<char>) -> Result<Node, Failure> {
    if utf8_total(s) > MAX_SOURCE_BYTES {
        Err(fail(MAX_SOURCE_BYTES as int, "expression source exceeds size limit"@))
    } else {
        match lex(s, 0, 0) {
            Err(e) => Err(e),
            Ok(ts) => {
                let r = p_expression(ts, utf8_total(s) as int, 0, 1);
                match r.0 {
                    Err(e) => Err(e),
                    Ok(root) => if 0 <= r.1 < ts.len() {
                        Err(fail(ts[r.1].start, "unexpected trailing input"@))
                    } else {
                        Ok(root)
                    },
                }
            },
        }
    }
}

/// Parse an expression source.
pub fn parse(source: &str) -> (r: Result<Expression, ExpressionError>)
    ensures
        match r {
            Ok(x) => parse_spec(source@) == Ok::<Node, Failure>(node_view(x.root)),
            Err(e) => parse_spec(source@) == Err::<Node, Failure>(e@),
        },
        r matches Ok(x) ==> depth(node_view(x.root)) <= MAX_AST_DEPTH,
{
    let cs = chars_of(source);
    let total = match crate::parser::source_bytes(&cs) {
        Some(b) => b,
        None => {
            return Err(crate::parser::error_at(MAX_SOURCE_BYTES, "expression source exceeds size limit"));
        },
    };
    proof {
        crate::parser::lemma_utf8_total_at_least_len(cs@);
    }
    let tokens = match tokenize(&cs) {
        Ok(t) => t,
        Err(e) => {
            return Err(e);
        },
    };
    let mut pos: usize = 0;
    let root = match crate::parser::parse_expression(&tokens, total, &mut pos, 1) {
        Ok(x) => x,
        Err(e) => {
            return Err(e);
        },
    };
    if pos < tokens.len() {
        return Err(crate::parser::error_at(tokens[pos].start, "unexpected trailing input"));
    }
    Ok(Expression { root })
}

} // verus!
