//! Tokenizer for the Cypher subset. Works on the query's bytes, reading
//! each byte as the character with the same number; every token carries
//! the byte offset where it starts.
//!
//! The language of tokens is given by [`lex_spec`]: keywords (any case),
//! identifiers, `$` parameters, integer and decimal literals (with an
//! optional leading `-`), quoted strings with the escapes `\\`, `\'`,
//! `\"`, `\n`, `\t`, and punctuation, `=` and `==` being the same token
//! and `->` one token.

use vstd::prelude::*;
use crate::text::{latin1_chars, latin1_string, str_eq};
use vstd::std_specs::cmp::PartialEqSpecImpl;
use crate::float::{decimal_to_f64_bits, p10};

verus! {

broadcast use vstd::utf8::group_utf8_lib;

#[derive(Debug)]
pub enum Token {
    Create,
    Match,
    Merge,
    Where,
    Return,
    Delete,
    Detach,
    Limit,
    Order,
    By,
    Asc,
    Desc,
    And,
    Or,
    Not,
    True,
    False,
    Null,
    Ident(String),
    Param(String),
    Integer(i64),
    /// A decimal literal, as the bit pattern of the nearest double.
    Float(u64),
    String(String),
    LParen,
    RParen,
    LBrace,
    RBrace,
    LBracket,
    RBracket,
    Comma,
    Colon,
    Dot,
    Star,
    Dash,
    Arrow,
    Eq,
    NotEq,
    Lt,
    Gt,
    LtEq,
    GtEq,
}

/// Model of a [`Token`].
pub enum Tok {
    Create,
    Match,
    Merge,
    Where,
    Return,
    Delete,
    Detach,
    Limit,
    Order,
    By,
    Asc,
    Desc,
    And,
    Or,
    Not,
    True,
    False,
    Null,
    Ident(Seq<char>),
    Param(Seq<char>),
    Integer(i64),
    Float(u64),
    Str(Seq<char>),
    LParen,
    RParen,
    LBrace,
    RBrace,
    LBracket,
    RBracket,
    Comma,
    Colon,
    Dot,
    Star,
    Dash,
    Arrow,
    Eq,
    NotEq,
    Lt,
    Gt,
    LtEq,
    GtEq,
}

impl View for Token {
    type V = Tok;

    open spec fn view(&self) -> Tok {
        match self {
            Token::Create => Tok::Create,
            Token::Match => Tok::Match,
            Token::Merge => Tok::Merge,
            Token::Where => Tok::Where,
            Token::Return => Tok::Return,
            Token::Delete => Tok::Delete,
            Token::Detach => Tok::Detach,
            Token::Limit => Tok::Limit,
            Token::Order => Tok::Order,
            Token::By => Tok::By,
            Token::Asc => Tok::Asc,
            Token::Desc => Tok::Desc,
            Token::And => Tok::And,
            Token::Or => Tok::Or,
            Token::Not => Tok::Not,
            Token::True => Tok::True,
            Token::False => Tok::False,
            Token::Null => Tok::Null,
            Token::Ident(s) => Tok::Ident(s@),
            Token::Param(s) => Tok::Param(s@),
            Token::Integer(i) => Tok::Integer(*i),
            Token::Float(b) => Tok::Float(*b),
            Token::String(s) => Tok::Str(s@),
            Token::LParen => Tok::LParen,
            Token::RParen => Tok::RParen,
            Token::LBrace => Tok::LBrace,
            Token::RBrace => Tok::RBrace,
            Token::LBracket => Tok::LBracket,
            Token::RBracket => Tok::RBracket,
            Token::Comma => Tok::Comma,
            Token::Colon => Tok::Colon,
            Token::Dot => Tok::Dot,
            Token::Star => Tok::Star,
            Token::Dash => Tok::Dash,
            Token::Arrow => Tok::Arrow,
            Token::Eq => Tok::Eq,
            Token::NotEq => Tok::NotEq,
            Token::Lt => Tok::Lt,
            Token::Gt => Tok::Gt,
            Token::LtEq => Tok::LtEq,
            Token::GtEq => Tok::GtEq,
        }
    }
}

/// A token and the byte offset where it starts.
#[derive(Debug)]
pub struct Spanned {
    pub token: Token,
    pub offset: usize,
}

impl View for Spanned {
    type V = (Tok, int);

    open spec fn view(&self) -> (Tok, int) {
        (self.token@, self.offset as int)
    }
}

/// Models of a token stream.
pub open spec fn spans_view(s: Seq<Spanned>) -> Seq<(Tok, int)> {
    s.map_values(|x: Spanned| x@)
}

#[derive(Debug, Clone, Copy, PartialEq, Eq, Structural)]
pub enum LexError {
    /// A character that starts no token.
    Unexpected { ch: char, offset: usize },
    /// A string literal with no closing quote.
    UnterminatedString { offset: usize },
    /// A backslash followed by no escape this lexer knows.
    InvalidEscape { offset: usize },
    /// A malformed number, or one out of range.
    InvalidNumber { offset: usize },
}

// ---------- character classes ----------

/// Whitespace, as `char::is_whitespace` says of the character with the
/// byte's number.
pub open spec fn is_ws(c: u8) -> bool {
    c == 9 || c == 10 || c == 11 || c == 12 || c == 13 || c == 32 || c == 0x85 || c == 0xa0
}

pub open spec fn is_digit(c: u8) -> bool {
    48 <= c <= 57
}

pub open spec fn is_alpha(c: u8) -> bool {
    (65 <= c <= 90) || (97 <= c <= 122)
}

pub open spec fn is_ident_start(c: u8) -> bool {
    is_alpha(c) || c == 95
}

pub open spec fn is_ident_continue(c: u8) -> bool {
    is_alpha(c) || is_digit(c) || c == 95
}

/// The character with the byte's number.
pub open spec fn ch(c: u8) -> char {
    (c as u32) as char
}

// ---------- runs ----------

/// The end of the run of identifier characters from `i`.
pub open spec fn ident_end(b: Seq<u8>, i: int) -> int
    decreases b.len() - i,
{
    if 0 <= i < b.len() && is_ident_continue(b[i]) {
        ident_end(b, i + 1)
    } else {
        i
    }
}

/// The end of the run of digits from `i`.
pub open spec fn digits_end(b: Seq<u8>, i: int) -> int
    decreases b.len() - i,
{
    if 0 <= i < b.len() && is_digit(b[i]) {
        digits_end(b, i + 1)
    } else {
        i
    }
}

/// The number the digits `b[i..j]` spell.
pub open spec fn digits_value(b: Seq<u8>, i: int, j: int) -> int
    decreases j - i,
{
    if j <= i {
        0
    } else {
        digits_value(b, i, j - 1) * 10 + (b[j - 1] - 48)
    }
}

// ---------- keywords ----------

/// ASCII upper case of a byte.
pub open spec fn upper(c: u8) -> u8 {
    if 97 <= c <= 122 {
        (c - 32) as u8
    } else {
        c
    }
}

/// `b[i..j]` spells `w` (upper case) in any case.
pub open spec fn word_is(b: Seq<u8>, i: int, j: int, w: Seq<u8>) -> bool {
    j - i == w.len() && forall|k: int| 0 <= k < w.len() ==> upper(#[trigger] b[i + k]) == w[k]
}

/// The keyword `b[i..j]` spells, in any case, if any; else an identifier.
pub open spec fn keyword_or_ident(b: Seq<u8>, i: int, j: int) -> Tok {
    if word_is(b, i, j, seq![67u8, 82, 69, 65, 84, 69]) {
        Tok::Create
    } else if word_is(b, i, j, seq![77u8, 65, 84, 67, 72]) {
        Tok::Match
    } else if word_is(b, i, j, seq![77u8, 69, 82, 71, 69]) {
        Tok::Merge
    } else if word_is(b, i, j, seq![87u8, 72, 69, 82, 69]) {
        Tok::Where
    } else if word_is(b, i, j, seq![82u8, 69, 84, 85, 82, 78]) {
        Tok::Return
    } else if word_is(b, i, j, seq![68u8, 69, 76, 69, 84, 69]) {
        Tok::Delete
    } else if word_is(b, i, j, seq![68u8, 69, 84, 65, 67, 72]) {
        Tok::Detach
    } else if word_is(b, i, j, seq![76u8, 73, 77, 73, 84]) {
        Tok::Limit
    } else if word_is(b, i, j, seq![79u8, 82, 68, 69, 82]) {
        Tok::Order
    } else if word_is(b, i, j, seq![66u8, 89]) {
        Tok::By
    } else if word_is(b, i, j, seq![65u8, 83, 67]) {
        Tok::Asc
    } else if word_is(b, i, j, seq![68u8, 69, 83, 67]) {
        Tok::Desc
    } else if word_is(b, i, j, seq![65u8, 78, 68]) {
        Tok::And
    } else if word_is(b, i, j, seq![79u8, 82]) {
        Tok::Or
    } else if word_is(b, i, j, seq![78u8, 79, 84]) {
        Tok::Not
    } else if word_is(b, i, j, seq![84u8, 82, 85, 69]) {
        Tok::True
    } else if word_is(b, i, j, seq![70u8, 65, 76, 83, 69]) {
        Tok::False
    } else if word_is(b, i, j, seq![78u8, 85, 76, 76]) {
        Tok::Null
    } else {
        Tok::Ident(latin1_chars(b.subrange(i, j)))
    }
}

// ---------- strings ----------

/// Reads a string literal's body from `i` up to the closing `quote`,
/// after the characters already in `acc`; `start` is the opening quote's
/// offset. Gives the characters and the offset after the closing quote.
pub open spec fn scan_str(b: Seq<u8>, i: int, quote: u8, acc: Seq<char>, start: int) -> Result<
    (Seq<char>, int),
    LexError,
>
    decreases b.len() - i,
{
    if i < 0 || i >= b.len() {
        Err(LexError::UnterminatedString { offset: start as usize })
    } else if b[i] == quote {
        Ok((acc, i + 1))
    } else if b[i] == 92 {
        if i + 1 >= b.len() {
            Err(LexError::InvalidEscape { offset: i as usize })
        } else {
            let e = b[i + 1];
            if e == 92 {
                scan_str(b, i + 2, quote, acc.push('\\'), start)
            } else if e == 39 {
                scan_str(b, i + 2, quote, acc.push('\''), start)
            } else if e == 34 {
                scan_str(b, i + 2, quote, acc.push('"'), start)
            } else if e == 110 {
                scan_str(b, i + 2, quote, acc.push('\n'), start)
            } else if e == 116 {
                scan_str(b, i + 2, quote, acc.push('\t'), start)
            } else {
                Err(LexError::InvalidEscape { offset: i as usize })
            }
        }
    } else {
        scan_str(b, i + 1, quote, acc.push(ch(b[i])), start)
    }
}

// ---------- numbers ----------

/// Longest decimal literal this lexer turns into a double: at most 19
/// digits after the point, and all its digits, read as one integer,
/// within `u64`.
pub open spec fn decimal_fits(d: int, flen: int) -> bool {
    flen <= 19 && d <= u64::MAX
}

/// The number token at `start` (a digit, or `-` before a digit) and the
/// offset after it.
pub open spec fn number_spec(b: Seq<u8>, start: int) -> Result<(Tok, int), LexError> {
    let neg = b[start] == 45;
    let i0 = if neg {
        start + 1
    } else {
        start
    };
    let j = digits_end(b, i0);
    if j == i0 {
        Err(LexError::InvalidNumber { offset: start as usize })
    } else if j < b.len() && b[j] == 46 {
        let k = digits_end(b, j + 1);
        if k == j + 1 {
            Err(LexError::InvalidNumber { offset: start as usize })
        } else {
            let flen = k - (j + 1);
            let d = digits_value(b, i0, j) * p10(flen as nat) + digits_value(b, j + 1, k);
            if decimal_fits(d, flen) {
                Ok(
                    (
                        Tok::Float(crate::float::ratio_bits(neg, d, p10(flen as nat)) as u64),
                        k,
                    ),
                )
            } else {
                Err(LexError::InvalidNumber { offset: start as usize })
            }
        }
    } else {
        let v = digits_value(b, i0, j);
        let sv = if neg {
            -v
        } else {
            v
        };
        if i64::MIN <= sv <= i64::MAX {
            Ok((Tok::Integer(sv as i64), j))
        } else {
            Err(LexError::InvalidNumber { offset: start as usize })
        }
    }
}

// ---------- tokens ----------

/// One step of the lexer at `i` (`i` inside the input): `None` for
/// whitespace, else the token and the offset after it.
pub open spec fn step_spec(b: Seq<u8>, i: int) -> Result<Option<(Tok, int)>, LexError> {
    let c = b[i];
    let next_eq = i + 1 < b.len() && b[i + 1] == 61;
    if is_ws(c) {
        Ok(None)
    } else if c == 40 {
        Ok(Some((Tok::LParen, i + 1)))
    } else if c == 41 {
        Ok(Some((Tok::RParen, i + 1)))
    } else if c == 123 {
        Ok(Some((Tok::LBrace, i + 1)))
    } else if c == 125 {
        Ok(Some((Tok::RBrace, i + 1)))
    } else if c == 91 {
        Ok(Some((Tok::LBracket, i + 1)))
    } else if c == 93 {
        Ok(Some((Tok::RBracket, i + 1)))
    } else if c == 44 {
        Ok(Some((Tok::Comma, i + 1)))
    } else if c == 58 {
        Ok(Some((Tok::Colon, i + 1)))
    } else if c == 46 {
        Ok(Some((Tok::Dot, i + 1)))
    } else if c == 42 {
        Ok(Some((Tok::Star, i + 1)))
    } else if c == 61 {
        if next_eq {
            Ok(Some((Tok::Eq, i + 2)))
        } else {
            Ok(Some((Tok::Eq, i + 1)))
        }
    } else if c == 33 {
        if next_eq {
            Ok(Some((Tok::NotEq, i + 2)))
        } else {
            Err(LexError::Unexpected { ch: '!', offset: i as usize })
        }
    } else if c == 60 {
        if next_eq {
            Ok(Some((Tok::LtEq, i + 2)))
        } else {
            Ok(Some((Tok::Lt, i + 1)))
        }
    } else if c == 62 {
        if next_eq {
            Ok(Some((Tok::GtEq, i + 2)))
        } else {
            Ok(Some((Tok::Gt, i + 1)))
        }
    } else if c == 34 || c == 39 {
        match scan_str(b, i + 1, c, Seq::empty(), i) {
            Ok((s, e)) => Ok(Some((Tok::Str(s), e))),
            Err(x) => Err(x),
        }
    } else if c == 36 {
        let e = ident_end(b, i + 1);
        if e == i + 1 {
            Err(LexError::Unexpected { ch: '$', offset: i as usize })
        } else {
            Ok(Some((Tok::Param(latin1_chars(b.subrange(i + 1, e))), e)))
        }
    } else if c == 45 && i + 1 < b.len() && b[i + 1] == 62 {
        Ok(Some((Tok::Arrow, i + 2)))
    } else if is_digit(c) || (c == 45 && i + 1 < b.len() && is_digit(b[i + 1])) {
        match number_spec(b, i) {
            Ok((t, e)) => Ok(Some((t, e))),
            Err(x) => Err(x),
        }
    } else if c == 45 {
        Ok(Some((Tok::Dash, i + 1)))
    } else if is_ident_start(c) {
        let e = ident_end(b, i);
        Ok(Some((keyword_or_ident(b, i, e), e)))
    } else {
        Err(LexError::Unexpected { ch: ch(c), offset: i as usize })
    }
}

/// The tokens of `b` from `i` on, after those in `acc`, each with its
/// offset; or the first error.
pub open spec fn lex_from(b: Seq<u8>, i: int, acc: Seq<(Tok, int)>) -> Result<Seq<(Tok, int)>, LexError>
    decreases b.len() - i,
{
    if i < 0 || i >= b.len() {
        Ok(acc)
    } else {
        match step_spec(b, i) {
            Err(e) => Err(e),
            Ok(None) => lex_from(b, i + 1, acc),
            Ok(Some((t, j))) => if j <= i || j > b.len() {
                Err(LexError::Unexpected { ch: ch(b[i]), offset: i as usize })
            } else {
                lex_from(b, j, acc.push((t, i)))
            },
        }
    }
}

/// The tokens of a whole input.
pub open spec fn lex_spec(b: Seq<u8>) -> Result<Seq<(Tok, int)>, LexError> {
    lex_from(b, 0, Seq::empty())
}

/// From `i` on, every byte is a letter, digit or underscore, so the
/// identifier run goes to the end.
proof fn lemma_ident_run_to_end(b: Seq<u8>, i: int)
    requires
        0 <= i <= b.len(),
        forall|k: int|
            i <= k < b.len() ==> (65 <= #[trigger] b[k] <= 90) || (97 <= b[k] <= 122) || (48 <= b[k] <= 57) || b[k]
                == 95,
    ensures
        ident_end(b, i) == b.len(),
    decreases b.len() - i,
{
    if i < b.len() {
        lemma_ident_run_to_end(b, i + 1);
    }
}

/// A word that ends in a digit spells no keyword.
proof fn lemma_not_word(b: Seq<u8>, n: int, w: Seq<u8>)
    requires
        1 <= n <= b.len(),
        w.len() > 0,
        w[w.len() - 1] >= 65,
        48 <= b[n - 1] <= 57,
    ensures
        !word_is(b, 0, n, w),
{
    if word_is(b, 0, n, w) {
        let k = w.len() - 1;
        assert(upper(b[0 + k]) == w[k]);
    }
}

/// An identifier runs over every letter, digit and underscore after its
/// first character: a word that starts with a letter or underscore, goes
/// on with letters, digits and underscores and ends in a digit lexes as a
/// single identifier token holding the whole word.
pub proof fn lemma_identifier_with_digits(b: Seq<u8>)
    requires
        b.len() >= 2,
        (65 <= b[0] <= 90) || (97 <= b[0] <= 122) || b[0] == 95,
        forall|k: int|
            1 <= k < b.len() ==> (65 <= #[trigger] b[k] <= 90) || (97 <= b[k] <= 122) || (48 <= b[k] <= 57) || b[k]
                == 95,
        48 <= b[b.len() - 1] <= 57,
    ensures
        lex_spec(b) == Ok::<Seq<(Tok, int)>, LexError>(seq![(Tok::Ident(latin1_chars(b)), 0int)]),
{
    let n = b.len() as int;
    lemma_ident_run_to_end(b, 0);
    assert(upper(b[n - 1]) == b[n - 1]);
    assert(b.subrange(0, n) =~= b);
    let t = keyword_or_ident(b, 0, n);
    lemma_not_word(b, n, seq![67u8, 82, 69, 65, 84, 69]);
    lemma_not_word(b, n, seq![77u8, 65, 84, 67, 72]);
    lemma_not_word(b, n, seq![77u8, 69, 82, 71, 69]);
    lemma_not_word(b, n, seq![87u8, 72, 69, 82, 69]);
    lemma_not_word(b, n, seq![82u8, 69, 84, 85, 82, 78]);
    lemma_not_word(b, n, seq![68u8, 69, 76, 69, 84, 69]);
    lemma_not_word(b, n, seq![68u8, 69, 84, 65, 67, 72]);
    lemma_not_word(b, n, seq![76u8, 73, 77, 73, 84]);
    lemma_not_word(b, n, seq![79u8, 82, 68, 69, 82]);
    lemma_not_word(b, n, seq![66u8, 89]);
    lemma_not_word(b, n, seq![65u8, 83, 67]);
    lemma_not_word(b, n, seq![68u8, 69, 83, 67]);
    lemma_not_word(b, n, seq![65u8, 78, 68]);
    lemma_not_word(b, n, seq![79u8, 82]);
    lemma_not_word(b, n, seq![78u8, 79, 84]);
    lemma_not_word(b, n, seq![84u8, 82, 85, 69]);
    lemma_not_word(b, n, seq![70u8, 65, 76, 83, 69]);
    lemma_not_word(b, n, seq![78u8, 85, 76, 76]);
    assert(t == Tok::Ident(latin1_chars(b)));
    assert(step_spec(b, 0) == Ok::<Option<(Tok, int)>, LexError>(Some((t, n))));
    assert(lex_from(b, n, seq![(t, 0int)]) == Ok::<Seq<(Tok, int)>, LexError>(seq![(t, 0int)]));
    assert(Seq::<(Tok, int)>::empty().push((t, 0int)) =~= seq![(t, 0int)]);
}

/// A parameter name runs over every letter, digit and underscore after
/// the `$`: `$` followed by letters, digits and underscores lexes as a
/// single parameter token naming all of them.
pub proof fn lemma_parameter_name(b: Seq<u8>)
    requires
        b.len() >= 2,
        b[0] == 36,
        forall|k: int|
            1 <= k < b.len() ==> (65 <= #[trigger] b[k] <= 90) || (97 <= b[k] <= 122) || (48 <= b[k] <= 57) || b[k]
                == 95,
    ensures
        lex_spec(b) == Ok::<Seq<(Tok, int)>, LexError>(seq![(Tok::Param(latin1_chars(b.subrange(1, b.len() as int))), 0int)]),
{
    let n = b.len() as int;
    lemma_ident_run_to_end(b, 1);
    let t = Tok::Param(latin1_chars(b.subrange(1, n)));
    assert(step_spec(b, 0) == Ok::<Option<(Tok, int)>, LexError>(Some((t, n))));
    assert(lex_from(b, n, seq![(t, 0int)]) == Ok::<Seq<(Tok, int)>, LexError>(seq![(t, 0int)]));
    assert(Seq::<(Tok, int)>::empty().push((t, 0int)) =~= seq![(t, 0int)]);
}

// ---------- the lexer ----------

fn is_ws_byte(c: u8) -> (r: bool)
    ensures
        r == is_ws(c),
{
    c == 9 || c == 10 || c == 11 || c == 12 || c == 13 || c == 32 || c == 0x85 || c == 0xa0
}

fn is_digit_byte(c: u8) -> (r: bool)
    ensures
        r == is_digit(c),
{
    48 <= c && c <= 57
}

fn is_ident_start_byte(c: u8) -> (r: bool)
    ensures
        r == is_ident_start(c),
{
    (65 <= c && c <= 90) || (97 <= c && c <= 122) || c == 95
}

fn is_ident_continue_byte(c: u8) -> (r: bool)
    ensures
        r == is_ident_continue(c),
{
    (65 <= c && c <= 90) || (97 <= c && c <= 122) || (48 <= c && c <= 57) || c == 95
}

fn scan_ident_end(b: &[u8], i: usize) -> (r: usize)
    requires
        i <= b@.len(),
    ensures
        r == ident_end(b@, i as int),
        i <= r <= b@.len(),
        i < b@.len() && is_ident_continue(b@[i as int]) ==> i < r,
{
    let mut j = i;
    while j < b.len() && is_ident_continue_byte(b[j])
        invariant
            i <= j <= b@.len(),
            ident_end(b@, i as int) == ident_end(b@, j as int),
        decreases b@.len() - j,
    {
        j = j + 1;
    }
    j
}

/// A cap above every value that fits in `u64`.
pub open spec fn cap_u64(v: int) -> int {
    if v > 0x1_0000_0000_0000_0000 {
        0x1_0000_0000_0000_0000
    } else {
        v
    }
}

proof fn lemma_digits_value_nonneg(b: Seq<u8>, i: int, j: int)
    requires
        forall|k: int| i <= k < j ==> is_digit(#[trigger] b[k]),
    ensures
        digits_value(b, i, j) >= 0,
    decreases j - i,
{
    if j > i {
        lemma_digits_value_nonneg(b, i, j - 1);
    }
}

/// The end of the digit run at `i` and its value, capped.
fn scan_digits(b: &[u8], i: usize) -> (r: (usize, u128))
    requires
        i <= b@.len(),
    ensures
        r.0 == digits_end(b@, i as int),
        i <= r.0 <= b@.len(),
        r.1 == cap_u64(digits_value(b@, i as int, r.0 as int)),
{
    let mut j = i;
    let mut acc: u128 = 0;
    while j < b.len() && is_digit_byte(b[j])
        invariant
            i <= j <= b@.len(),
            digits_end(b@, i as int) == digits_end(b@, j as int),
            forall|k: int| i <= k < j ==> is_digit(#[trigger] b@[k]),
            acc == cap_u64(digits_value(b@, i as int, j as int)),
        decreases b@.len() - j,
    {
        let d = (b[j] - 48) as u128;
        proof {
            lemma_digits_value_nonneg(b@, i as int, j as int);
        }
        if acc >= 0x1_0000_0000_0000_0000 {
            acc = 0x1_0000_0000_0000_0000;
        } else {
            acc = acc * 10 + d;
            if acc > 0x1_0000_0000_0000_0000 {
                acc = 0x1_0000_0000_0000_0000;
            }
        }
        j = j + 1;
    }
    (j, acc)
}

fn word_eq(b: &[u8], i: usize, j: usize, w: &[u8]) -> (r: bool)
    requires
        i <= j <= b@.len(),
    ensures
        r == word_is(b@, i as int, j as int, w@),
{
    if j - i != w.len() {
        return false;
    }
    let mut k: usize = 0;
    while k < w.len()
        invariant
            j - i == w@.len(),
            i <= j <= b@.len(),
            k <= w@.len(),
            forall|t: int| 0 <= t < k ==> upper(#[trigger] b@[i + t]) == w@[t],
        decreases w@.len() - k,
    {
        let c = b[i + k];
        let u: u8 = if 97 <= c && c <= 122 {
            c - 32
        } else {
            c
        };
        if u != w[k] {
            proof {
                assert(upper(b@[i + k]) != w@[k as int]);
            }
            return false;
        }
        k = k + 1;
    }
    true
}

/// The keyword `b[i..j]` spells, or the identifier.
fn keyword_or_ident_exec(b: &[u8], i: usize, j: usize) -> (r: Token)
    requires
        i <= j <= b@.len(),
    ensures
        r@ == keyword_or_ident(b@, i as int, j as int),
{
    let w: [u8; 6] = [67u8, 82, 69, 65, 84, 69];
    proof {
        assert(w@ =~= seq![67u8, 82, 69, 65, 84, 69]);
    }
    if word_eq(b, i, j, &w) {
        return Token::Create;
    }
    let w: [u8; 5] = [77u8, 65, 84, 67, 72];
    proof {
        assert(w@ =~= seq![77u8, 65, 84, 67, 72]);
    }
    if word_eq(b, i, j, &w) {
        return Token::Match;
    }
    let w: [u8; 5] = [77u8, 69, 82, 71, 69];
    proof {
        assert(w@ =~= seq![77u8, 69, 82, 71, 69]);
    }
    if word_eq(b, i, j, &w) {
        return Token::Merge;
    }
    let w: [u8; 5] = [87u8, 72, 69, 82, 69];
    proof {
        assert(w@ =~= seq![87u8, 72, 69, 82, 69]);
    }
    if word_eq(b, i, j, &w) {
        return Token::Where;
    }
    let w: [u8; 6] = [82u8, 69, 84, 85, 82, 78];
    proof {
        assert(w@ =~= seq![82u8, 69, 84, 85, 82, 78]);
    }
    if word_eq(b, i, j, &w) {
        return Token::Return;
    }
    let w: [u8; 6] = [68u8, 69, 76, 69, 84, 69];
    proof {
        assert(w@ =~= seq![68u8, 69, 76, 69, 84, 69]);
    }
    if word_eq(b, i, j, &w) {
        return Token::Delete;
    }
    let w: [u8; 6] = [68u8, 69, 84, 65, 67, 72];
    proof {
        assert(w@ =~= seq![68u8, 69, 84, 65, 67, 72]);
    }
    if word_eq(b, i, j, &w) {
        return Token::Detach;
    }
    let w: [u8; 5] = [76u8, 73, 77, 73, 84];
    proof {
        assert(w@ =~= seq![76u8, 73, 77, 73, 84]);
    }
    if word_eq(b, i, j, &w) {
        return Token::Limit;
    }
    let w: [u8; 5] = [79u8, 82, 68, 69, 82];
    proof {
        assert(w@ =~= seq![79u8, 82, 68, 69, 82]);
    }
    if word_eq(b, i, j, &w) {
        return Token::Order;
    }
    let w: [u8; 2] = [66u8, 89];
    proof {
        assert(w@ =~= seq![66u8, 89]);
    }
    if word_eq(b, i, j, &w) {
        return Token::By;
    }
    let w: [u8; 3] = [65u8, 83, 67];
    proof {
        assert(w@ =~= seq![65u8, 83, 67]);
    }
    if word_eq(b, i, j, &w) {
        return Token::Asc;
    }
    let w: [u8; 4] = [68u8, 69, 83, 67];
    proof {
        assert(w@ =~= seq![68u8, 69, 83, 67]);
    }
    if word_eq(b, i, j, &w) {
        return Token::Desc;
    }
    let w: [u8; 3] = [65u8, 78, 68];
    proof {
        assert(w@ =~= seq![65u8, 78, 68]);
    }
    if word_eq(b, i, j, &w) {
        return Token::And;
    }
    let w: [u8; 2] = [79u8, 82];
    proof {
        assert(w@ =~= seq![79u8, 82]);
    }
    if word_eq(b, i, j, &w) {
        return Token::Or;
    }
    let w: [u8; 3] = [78u8, 79, 84];
    proof {
        assert(w@ =~= seq![78u8, 79, 84]);
    }
    if word_eq(b, i, j, &w) {
        return Token::Not;
    }
    let w: [u8; 4] = [84u8, 82, 85, 69];
    proof {
        assert(w@ =~= seq![84u8, 82, 85, 69]);
    }
    if word_eq(b, i, j, &w) {
        return Token::True;
    }
    let w: [u8; 5] = [70u8, 65, 76, 83, 69];
    proof {
        assert(w@ =~= seq![70u8, 65, 76, 83, 69]);
    }
    if word_eq(b, i, j, &w) {
        return Token::False;
    }
    let w: [u8; 4] = [78u8, 85, 76, 76];
    proof {
        assert(w@ =~= seq![78u8, 85, 76, 76]);
    }
    if word_eq(b, i, j, &w) {
        return Token::Null;
    }
    Token::Ident(latin1_string(b, i, j))
}

fn scan_string(b: &[u8], start: usize, quote: u8) -> (r: Result<(String, usize), LexError>)
    requires
        start < b@.len(),
    ensures
        match (r, scan_str(b@, start + 1, quote, Seq::empty(), start as int)) {
            (Ok((s, e)), Ok((ms, me))) => s@ == ms && e == me && start < e <= b@.len(),
            (Err(x), Err(y)) => x == y,
            _ => false,
        },
{
    let n = b.len();
    let mut i = start + 1;
    let mut out = String::new();
    while i < b.len()
        invariant
            start < i <= b@.len(),
            scan_str(b@, start + 1, quote, Seq::empty(), start as int) == scan_str(
                b@,
                i as int,
                quote,
                out@,
                start as int,
            ),
        decreases b@.len() - i,
    {
        let c = b[i];
        if c == quote {
            return Ok((out, i + 1));
        }
        if c == 92 {
            if i + 1 >= b.len() {
                return Err(LexError::InvalidEscape { offset: i });
            }
            let e = b[i + 1];
            if e == 92 {
                out.push('\\');
            } else if e == 39 {
                out.push('\'');
            } else if e == 34 {
                out.push('"');
            } else if e == 110 {
                out.push('\n');
            } else if e == 116 {
                out.push('\t');
            } else {
                return Err(LexError::InvalidEscape { offset: i });
            }
            i = i + 2;
        } else {
            out.push(c as char);
            i = i + 1;
        }
    }
    Err(LexError::UnterminatedString { offset: start })
}

proof fn lemma_digits_value_bound(b: Seq<u8>, i: int, j: int)
    requires
        i <= j,
        forall|k: int| i <= k < j ==> is_digit(#[trigger] b[k]),
    ensures
        0 <= digits_value(b, i, j) < p10((j - i) as nat),
    decreases j - i,
{
    if j > i {
        lemma_digits_value_bound(b, i, j - 1);
        assert(p10((j - i) as nat) == 10 * p10((j - 1 - i) as nat));
    }
}

proof fn lemma_digits_run(b: Seq<u8>, i: int)
    requires
        0 <= i <= b.len(),
    ensures
        i <= digits_end(b, i) <= b.len(),
        forall|k: int| i <= k < digits_end(b, i) ==> is_digit(#[trigger] b[k]),
    decreases b.len() - i,
{
    if 0 <= i < b.len() && is_digit(b[i]) {
        lemma_digits_run(b, i + 1);
    }
}

fn pow10_u128(k: usize) -> (r: u128)
    requires
        k <= 19,
    ensures
        r == p10(k as nat),
        1 <= r <= 10_000_000_000_000_000_000u128,
{
    let mut q: u128 = 1;
    let mut i: usize = 0;
    while i < k
        invariant
            i <= k <= 19,
            q == p10(i as nat),
            1 <= q <= 10_000_000_000_000_000_000u128,
        decreases k - i,
    {
        proof {
            crate::float::lemma_p10_bound(i as nat);
        }
        q = q * 10;
        i = i + 1;
    }
    q
}

fn scan_number(b: &[u8], start: usize) -> (r: Result<(Token, usize), LexError>)
    requires
        start < b@.len(),
        is_digit(b@[start as int]) || (b@[start as int] == 45 && start + 1 < b@.len() && is_digit(
            b@[start + 1],
        )),
    ensures
        match (r, number_spec(b@, start as int)) {
            (Ok((t, e)), Ok((mt, me))) => t@ == mt && e == me && start < e <= b@.len(),
            (Err(x), Err(y)) => x == y,
            _ => false,
        },
{
    let n = b.len();
    let neg = b[start] == 45;
    let i0 = if neg {
        start + 1
    } else {
        start
    };
    let (j, iv) = scan_digits(b, i0);
    proof {
        lemma_digits_run(b@, i0 as int);
        lemma_digits_value_nonneg(b@, i0 as int, j as int);
    }
    if j == i0 {
        return Err(LexError::InvalidNumber { offset: start });
    }
    if j < n && b[j] == 46 {
        let (k, fv) = scan_digits(b, j + 1);
        proof {
            lemma_digits_run(b@, j + 1);
        }
        if k == j + 1 {
            return Err(LexError::InvalidNumber { offset: start });
        }
        let flen = k - (j + 1);
        let ghost int_v = digits_value(b@, i0 as int, j as int);
        let ghost frac_v = digits_value(b@, j + 1, k as int);
        let ghost d_spec = int_v * p10(flen as nat) + frac_v;
        if flen > 19 {
            return Err(LexError::InvalidNumber { offset: start });
        }
        proof {
            lemma_digits_value_bound(b@, j + 1, k as int);
            crate::float::lemma_p10_mono(flen as nat, 19);
            reveal_with_fuel(p10, 20);
            assert(frac_v < 0x1_0000_0000_0000_0000);
            crate::float::lemma_p10_mono(0, flen as nat);
        }
        if iv >= 0x1_0000_0000_0000_0000 {
            proof {
                assert(int_v >= 0x1_0000_0000_0000_0000);
                assert(int_v * p10(flen as nat) >= int_v) by (nonlinear_arith)
                    requires int_v >= 0, p10(flen as nat) >= 1;
            }
            return Err(LexError::InvalidNumber { offset: start });
        }
        let q10 = pow10_u128(flen);
        proof {
            assert(iv * q10 <= 0xffff_ffff_ffff_ffffu128 * 10_000_000_000_000_000_000u128) by (nonlinear_arith)
                requires iv <= 0xffff_ffff_ffff_ffffu128, q10 <= 10_000_000_000_000_000_000u128, iv >= 0, q10 >= 1;
        }
        let d: u128 = iv * q10 + fv;
        if d > 0xffff_ffff_ffff_ffff {
            return Err(LexError::InvalidNumber { offset: start });
        }
        let bits = decimal_to_f64_bits(neg, d as u64, flen as u32);
        Ok((Token::Float(bits), k))
    } else {
        if neg {
            if iv > 0x8000_0000_0000_0000 {
                return Err(LexError::InvalidNumber { offset: start });
            }
            let v: i64 = if iv == 0x8000_0000_0000_0000 {
                i64::MIN
            } else {
                -(iv as i64)
            };
            Ok((Token::Integer(v), j))
        } else {
            if iv > 0x7fff_ffff_ffff_ffff {
                return Err(LexError::InvalidNumber { offset: start });
            }
            Ok((Token::Integer(iv as i64), j))
        }
    }
}

fn lex_step(b: &[u8], i: usize) -> (r: Result<Option<(Token, usize)>, LexError>)
    requires
        i < b@.len(),
    ensures
        match (r, step_spec(b@, i as int)) {
            (Ok(None), Ok(None)) => true,
            (Ok(Some((t, j))), Ok(Some((mt, mj)))) => t@ == mt && j == mj && i < j <= b@.len(),
            (Err(x), Err(y)) => x == y,
            _ => false,
        },
{
    let n = b.len();
    let c = b[i];
    let next_eq = i + 1 < n && b[i + 1] == 61;
    if is_ws_byte(c) {
        Ok(None)
    } else if c == 40 {
        Ok(Some((Token::LParen, i + 1)))
    } else if c == 41 {
        Ok(Some((Token::RParen, i + 1)))
    } else if c == 123 {
        Ok(Some((Token::LBrace, i + 1)))
    } else if c == 125 {
        Ok(Some((Token::RBrace, i + 1)))
    } else if c == 91 {
        Ok(Some((Token::LBracket, i + 1)))
    } else if c == 93 {
        Ok(Some((Token::RBracket, i + 1)))
    } else if c == 44 {
        Ok(Some((Token::Comma, i + 1)))
    } else if c == 58 {
        Ok(Some((Token::Colon, i + 1)))
    } else if c == 46 {
        Ok(Some((Token::Dot, i + 1)))
    } else if c == 42 {
        Ok(Some((Token::Star, i + 1)))
    } else if c == 61 {
        if next_eq {
            Ok(Some((Token::Eq, i + 2)))
        } else {
            Ok(Some((Token::Eq, i + 1)))
        }
    } else if c == 33 {
        if next_eq {
            Ok(Some((Token::NotEq, i + 2)))
        } else {
            Err(LexError::Unexpected { ch: '!', offset: i })
        }
    } else if c == 60 {
        if next_eq {
            Ok(Some((Token::LtEq, i + 2)))
        } else {
            Ok(Some((Token::Lt, i + 1)))
        }
    } else if c == 62 {
        if next_eq {
            Ok(Some((Token::GtEq, i + 2)))
        } else {
            Ok(Some((Token::Gt, i + 1)))
        }
    } else if c == 34 || c == 39 {
        match scan_string(b, i, c) {
            Ok((s, e)) => Ok(Some((Token::String(s), e))),
            Err(x) => Err(x),
        }
    } else if c == 36 {
        let e = scan_ident_end(b, i + 1);
        if e == i + 1 {
            Err(LexError::Unexpected { ch: '$', offset: i })
        } else {
            Ok(Some((Token::Param(latin1_string(b, i + 1, e)), e)))
        }
    } else if c == 45 && i + 1 < n && b[i + 1] == 62 {
        Ok(Some((Token::Arrow, i + 2)))
    } else if is_digit_byte(c) || (c == 45 && i + 1 < n && is_digit_byte(b[i + 1])) {
        match scan_number(b, i) {
            Ok((t, e)) => Ok(Some((t, e))),
            Err(x) => Err(x),
        }
    } else if c == 45 {
        Ok(Some((Token::Dash, i + 1)))
    } else if is_ident_start_byte(c) {
        let e = scan_ident_end(b, i);
        let t = keyword_or_ident_exec(b, i, e);
        Ok(Some((t, e)))
    } else {
        Err(LexError::Unexpected { ch: c as char, offset: i })
    }
}

/// Splits a query into tokens, each with the byte offset where it starts.
pub fn lex(input: &str) -> (r: Result<Vec<Spanned>, LexError>)
    ensures
        match (r, lex_spec(vstd::utf8::encode_utf8(input@))) {
            (Ok(v), Ok(m)) => spans_view(v@) == m,
            (Err(x), Err(y)) => x == y,
            _ => false,
        },
{
    let b = input.as_bytes();
    let mut out: Vec<Spanned> = Vec::new();
    let mut i: usize = 0;
    proof {
        assert(spans_view(out@) =~= Seq::<(Tok, int)>::empty());
        assert(b@ == vstd::utf8::encode_utf8(input@));
    }
    while i < b.len()
        invariant
            i <= b@.len(),
            b@ == vstd::utf8::encode_utf8(input@),
            lex_spec(b@) == lex_from(b@, i as int, spans_view(out@)),
        decreases b@.len() - i,
    {
        match lex_step(b, i) {
            Err(e) => {
                proof {
                    assert(lex_from(b@, i as int, spans_view(out@)) == Err::<Seq<(Tok, int)>, LexError>(e));
                }
                return Err(e);
            },
            Ok(None) => {
                i = i + 1;
            },
            Ok(Some((t, j))) => {
                let ghost tv = t@;
                let ghost before = out@;
                out.push(Spanned { token: t, offset: i });
                proof {
                    assert(spans_view(out@) =~= spans_view(before).push((tv, i as int)));
                }
                i = j;
            },
        }
    }
    Ok(out)
}


/// Token equality: same kind and same payload (a decimal literal by its
/// bit pattern).
pub fn token_equals(a: &Token, b: &Token) -> (r: bool)
    ensures
        r == (a@ == b@),
{
    match (a, b) {
        (Token::Create, Token::Create) => true,
        (Token::Match, Token::Match) => true,
        (Token::Merge, Token::Merge) => true,
        (Token::Where, Token::Where) => true,
        (Token::Return, Token::Return) => true,
        (Token::Delete, Token::Delete) => true,
        (Token::Detach, Token::Detach) => true,
        (Token::Limit, Token::Limit) => true,
        (Token::Order, Token::Order) => true,
        (Token::By, Token::By) => true,
        (Token::Asc, Token::Asc) => true,
        (Token::Desc, Token::Desc) => true,
        (Token::And, Token::And) => true,
        (Token::Or, Token::Or) => true,
        (Token::Not, Token::Not) => true,
        (Token::True, Token::True) => true,
        (Token::False, Token::False) => true,
        (Token::Null, Token::Null) => true,
        (Token::LParen, Token::LParen) => true,
        (Token::RParen, Token::RParen) => true,
        (Token::LBrace, Token::LBrace) => true,
        (Token::RBrace, Token::RBrace) => true,
        (Token::LBracket, Token::LBracket) => true,
        (Token::RBracket, Token::RBracket) => true,
        (Token::Comma, Token::Comma) => true,
        (Token::Colon, Token::Colon) => true,
        (Token::Dot, Token::Dot) => true,
        (Token::Star, Token::Star) => true,
        (Token::Dash, Token::Dash) => true,
        (Token::Arrow, Token::Arrow) => true,
        (Token::Eq, Token::Eq) => true,
        (Token::NotEq, Token::NotEq) => true,
        (Token::Lt, Token::Lt) => true,
        (Token::Gt, Token::Gt) => true,
        (Token::LtEq, Token::LtEq) => true,
        (Token::GtEq, Token::GtEq) => true,
        (Token::Ident(x), Token::Ident(y)) => str_eq(x.as_str(), y.as_str()),
        (Token::Param(x), Token::Param(y)) => str_eq(x.as_str(), y.as_str()),
        (Token::String(x), Token::String(y)) => str_eq(x.as_str(), y.as_str()),
        (Token::Integer(x), Token::Integer(y)) => *x == *y,
        (Token::Float(x), Token::Float(y)) => *x == *y,
        _ => false,
    }
}

impl PartialEq for Token {
    fn eq(&self, other: &Token) -> (r: bool) {
        token_equals(self, other)
    }
}

impl PartialEqSpecImpl for Token {
    open spec fn obeys_eq_spec() -> bool {
        true
    }

    open spec fn eq_spec(&self, other: &Token) -> bool {
        self@ == other@
    }
}

} // verus!
