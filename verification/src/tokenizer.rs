//! The lexer: a single left-to-right scan over the source bytes, recursing
//! into the text enclosed by matched brace and bracket pairs.
//!
//! [`spec_lex`] is the specification: a recursive definition of the token
//! sequence (or lexical error) a source text denotes. [`tokenize`] is the
//! executable lexer, proved to return exactly `spec_lex` of its input.

use vstd::prelude::*;

use crate::errors::LexError;
use crate::tokens::{Tok, Token};

verus! {

// ---------------------------------------------------------------------------
// Character classes
// ---------------------------------------------------------------------------
/// A lowercase letter: the body of identifiers and labels.
pub open spec fn is_lower(b: u8) -> bool {
    ('a' as u8) <= b <= ('z' as u8)
}

/// A decimal digit.
pub open spec fn is_digit(b: u8) -> bool {
    ('0' as u8) <= b <= ('9' as u8)
}

/// A hexadecimal digit, either case.
pub open spec fn is_hex_digit(b: u8) -> bool {
    is_digit(b) || (('a' as u8) <= b <= ('f' as u8)) || (('A' as u8) <= b <= ('F' as u8))
}

/// A character of a float numeral: a digit or a dot.
pub open spec fn is_float_char(b: u8) -> bool {
    is_digit(b) || b == ('.' as u8)
}

/// ASCII whitespace, as the scanner skips it.
pub open spec fn is_space(b: u8) -> bool {
    b == 0x20 || (0x09 <= b <= 0x0d)
}

/// The numeric value of a hex digit.
pub open spec fn hex_digit_val(b: u8) -> nat {
    if is_digit(b) {
        (b - ('0' as u8)) as nat
    } else if ('a' as u8) <= b <= ('f' as u8) {
        (b - ('a' as u8) + 10) as nat
    } else if ('A' as u8) <= b <= ('F' as u8) {
        (b - ('A' as u8) + 10) as nat
    } else {
        0
    }
}

/// The numeric value of a decimal digit.
pub open spec fn dec_digit_val(b: u8) -> nat {
    if is_digit(b) {
        (b - ('0' as u8)) as nat
    } else {
        0
    }
}

// ---------------------------------------------------------------------------
// Runs and numerals
// ---------------------------------------------------------------------------
/// The length of the longest prefix of `s` whose bytes all satisfy `f`.
pub open spec fn run_len(s: Seq<u8>, f: spec_fn(u8) -> bool) -> nat
    decreases s.len(),
{
    if s.len() == 0 || !f(s[0]) {
        0
    } else {
        1 + run_len(s.skip(1), f)
    }
}

/// The value of a big-endian string of hex digits.
pub open spec fn hex_val(s: Seq<u8>) -> nat
    decreases s.len(),
{
    if s.len() == 0 {
        0
    } else {
        hex_val(s.drop_last()) * 16 + hex_digit_val(s.last())
    }
}

/// The value of a big-endian string of decimal digits.
pub open spec fn dec_val(s: Seq<u8>) -> nat
    decreases s.len(),
{
    if s.len() == 0 {
        0
    } else {
        dec_val(s.drop_last()) * 10 + dec_digit_val(s.last())
    }
}

/// How many bytes of `s` satisfy `f`.
pub open spec fn count_matching(s: Seq<u8>, f: spec_fn(u8) -> bool) -> nat
    decreases s.len(),
{
    if s.len() == 0 {
        0
    } else {
        count_matching(s.drop_last(), f) + (if f(s.last()) {
            1nat
        } else {
            0nat
        })
    }
}

/// The length of the leading run of lowercase letters.
pub open spec fn lower_run(s: Seq<u8>) -> nat {
    run_len(s, |b: u8| is_lower(b))
}

/// The length of the leading run of hex digits.
pub open spec fn hex_run(s: Seq<u8>) -> nat {
    run_len(s, |b: u8| is_hex_digit(b))
}

/// The length of the leading run of decimal digits.
pub open spec fn digit_run(s: Seq<u8>) -> nat {
    run_len(s, |b: u8| is_digit(b))
}

/// The length of the leading run of float-numeral characters.
pub open spec fn float_run(s: Seq<u8>) -> nat {
    run_len(s, |b: u8| is_float_char(b))
}

/// The length of the leading run of bytes other than a slash.
pub open spec fn nonslash_run(s: Seq<u8>) -> nat {
    run_len(s, |b: u8| b != ('/' as u8))
}

/// The length of the leading run of bytes other than a double quote.
pub open spec fn nonquote_run(s: Seq<u8>) -> nat {
    run_len(s, |b: u8| b != ('"' as u8))
}

/// How many bytes of `t` are decimal digits.
pub open spec fn digit_count(t: Seq<u8>) -> nat {
    count_matching(t, |b: u8| is_digit(b))
}

/// How many bytes of `t` are dots.
pub open spec fn dot_count(t: Seq<u8>) -> nat {
    count_matching(t, |b: u8| b == ('.' as u8))
}

/// A well-formed float numeral: at least one digit, at most one dot.
pub open spec fn float_numeral_ok(t: Seq<u8>) -> bool {
    digit_count(t) >= 1 && dot_count(t) <= 1
}

// ---------------------------------------------------------------------------
// Delimiters
// ---------------------------------------------------------------------------
/// The index of the `close` delimiter matching `depth` opens already seen,
/// scanning from `i`; `None` if the input ends first. Purely a count of
/// balanced delimiters, with no awareness of the grammar between them.
pub open spec fn find_close(s: Seq<u8>, i: int, depth: int, open: u8, close: u8) -> Option<int>
    decreases s.len() - i,
{
    if i < 0 || i >= s.len() {
        None
    } else if s[i] == close {
        if depth <= 1 {
            Some(i)
        } else {
            find_close(s, i + 1, depth - 1, open, close)
        }
    } else if s[i] == open {
        find_close(s, i + 1, depth + 1, open, close)
    } else {
        find_close(s, i + 1, depth, open, close)
    }
}

/// A matching close delimiter lies within the input.
pub proof fn lemma_find_close_bounds(s: Seq<u8>, i: int, depth: int, open: u8, close: u8)
    ensures
        find_close(s, i, depth, open, close) matches Some(j) ==> i <= j < s.len(),
    decreases s.len() - i,
{
    if 0 <= i < s.len() {
        lemma_find_close_bounds(s, i + 1, depth - 1, open, close);
        lemma_find_close_bounds(s, i + 1, depth + 1, open, close);
        lemma_find_close_bounds(s, i + 1, depth, open, close);
    }
}

// ---------------------------------------------------------------------------
// Small shape helpers
// ---------------------------------------------------------------------------
/// `t` padded with null bytes to exactly eight.
pub open spec fn pad8(t: Seq<u8>) -> Seq<u8> {
    t + Seq::new(if t.len() <= 8 {
        (8 - t.len()) as nat
    } else {
        0nat
    }, |i: int| 0u8)
}

/// Every token of `ts` is a byte literal.
pub open spec fn all_bytes(ts: Seq<Tok>) -> bool {
    forall|i: int| 0 <= i < ts.len() ==> ts[i] is Byte
}

/// The byte payload of each token of `ts`.
pub open spec fn bytes_of(ts: Seq<Tok>) -> Seq<u8> {
    Seq::new(ts.len(), |i: int| ts[i]->Byte_0)
}

/// The same error, its position moved `k` bytes to the right: how an error
/// inside a block or array is reported against the enclosing text.
pub open spec fn shift_err(e: LexError, k: int) -> LexError {
    match e {
        LexError::UnexpectedChar(p) => LexError::UnexpectedChar((p + k) as usize),
        LexError::BadNumber(p) => LexError::BadNumber((p + k) as usize),
        LexError::VarOutOfRange(p) => LexError::VarOutOfRange((p + k) as usize),
        LexError::BadFloat(p) => LexError::BadFloat((p + k) as usize),
        LexError::StringOverflow(p) => LexError::StringOverflow((p + k) as usize),
        LexError::UnterminatedString(p) => LexError::UnterminatedString((p + k) as usize),
        LexError::UnexpectedEnd(p) => LexError::UnexpectedEnd((p + k) as usize),
        LexError::BadArray(p) => LexError::BadArray((p + k) as usize),
    }
}

// ---------------------------------------------------------------------------
// The lexer specification
// ---------------------------------------------------------------------------
/// The token sequence denoted by the source text `s`, or the first lexical
/// error. Positions in errors are byte offsets into `s`.
pub open spec fn spec_lex(s: Seq<u8>) -> Result<Seq<Tok>, LexError>
    decreases s.len(), 1int,
    via spec_lex_decreases
{
    if s.len() == 0 {
        Ok(Seq::empty())
    } else {
        let c = s[0];
        if c == ('/' as u8) {
            // a comment runs to the next slash, inclusive
            let k = nonslash_run(s.skip(1));
            if 1 + k as int >= s.len() {
                Err(LexError::UnexpectedEnd(0))
            } else {
                lex_cont(s, 2 + k as int, Seq::empty())
            }
        } else if is_lower(c) {
            let k = lower_run(s);
            lex_cont(s, k as int, seq![Tok::Ident(s.take(k as int))])
        } else if c == ('!' as u8) {
            let k = lower_run(s.skip(1));
            lex_cont(s, 1 + k as int, seq![Tok::Label(s.subrange(1, 1 + k as int))])
        } else if c == ('$' as u8) {
            let k = hex_run(s.skip(1));
            let v = hex_val(s.subrange(1, 1 + k as int));
            if k == 0 || v > i64::MAX as nat {
                Err(LexError::BadNumber(0))
            } else if v > 255 {
                Err(LexError::VarOutOfRange(0))
            } else {
                lex_cont(s, 1 + k as int, seq![Tok::Var(v as u8)])
            }
        } else if c == ('@' as u8) {
            let k = hex_run(s.skip(1));
            let v = hex_val(s.subrange(1, 1 + k as int));
            if k == 0 || v > i64::MAX as nat {
                Err(LexError::BadNumber(0))
            } else {
                lex_cont(s, 1 + k as int, seq![Tok::Num(v as i64)])
            }
        } else if c == ('#' as u8) {
            let k = float_run(s.skip(1));
            let t = s.subrange(1, 1 + k as int);
            if float_numeral_ok(t) {
                lex_cont(s, 1 + k as int, seq![Tok::Float(t)])
            } else {
                Err(LexError::BadFloat(0))
            }
        } else if c == ('+' as u8) {
            if s.len() < 3 {
                Err(LexError::UnexpectedEnd(0))
            } else if is_hex_digit(s[1]) && is_hex_digit(s[2]) {
                lex_cont(
                    s,
                    3,
                    seq![Tok::Byte((hex_digit_val(s[1]) * 16 + hex_digit_val(s[2])) as u8)],
                )
            } else {
                Err(LexError::BadNumber(0))
            }
        } else if is_digit(c) || c == ('-' as u8) {
            let neg = c == ('-' as u8);
            let off: int = if neg {
                1
            } else {
                0
            };
            let k = digit_run(s.skip(off));
            let v = dec_val(s.subrange(off, off + k as int));
            if neg && k == 0 {
                Err(LexError::BadNumber(0))
            } else if neg {
                if v > 0x8000_0000_0000_0000nat {
                    Err(LexError::BadNumber(0))
                } else {
                    lex_cont(s, off + k as int, seq![Tok::Num((-(v as int)) as i64)])
                }
            } else {
                if v > i64::MAX as nat {
                    Err(LexError::BadNumber(0))
                } else {
                    lex_cont(s, off + k as int, seq![Tok::Num(v as i64)])
                }
            }
        } else if c == ('"' as u8) {
            let k = nonquote_run(s.skip(1));
            if k > 8 {
                Err(LexError::StringOverflow(0))
            } else if 1 + k as int >= s.len() {
                Err(LexError::UnterminatedString(0))
            } else {
                lex_cont(s, 2 + k as int, seq![Tok::Str(pad8(s.subrange(1, 1 + k as int)))])
            }
        } else if c == ('{' as u8) {
            match find_close(s, 1, 1, ('{' as u8), ('}' as u8)) {
                None => Err(LexError::UnexpectedEnd(0)),
                Some(j) => match spec_lex(s.subrange(1, j)) {
                    Err(e) => Err(shift_err(e, 1)),
                    Ok(ts) => lex_cont(s, j + 1, seq![Tok::Block(ts)]),
                },
            }
        } else if c == ('[' as u8) {
            match find_close(s, 1, 1, ('[' as u8), (']' as u8)) {
                None => Err(LexError::UnexpectedEnd(0)),
                Some(j) => match spec_lex(s.subrange(1, j)) {
                    Err(e) => Err(shift_err(e, 1)),
                    Ok(ts) => if ts.len() == 8 && all_bytes(ts) {
                        lex_cont(s, j + 1, seq![Tok::Array(bytes_of(ts))])
                    } else {
                        Err(LexError::BadArray(0))
                    },
                },
            }
        } else if c == (';' as u8) {
            lex_cont(s, 1, seq![Tok::EndL])
        } else if is_space(c) {
            lex_cont(s, 1, Seq::empty())
        } else {
            Err(LexError::UnexpectedChar(0))
        }
    }
}

#[via_fn]
proof fn spec_lex_decreases(s: Seq<u8>) {
    lemma_find_close_bounds(s, 1, 1, ('{' as u8), ('}' as u8));
    lemma_find_close_bounds(s, 1, 1, ('[' as u8), (']' as u8));
}

/// The tokens of the rest of the text, after `n` bytes were consumed and
/// `first` already produced; errors in the rest are shifted by `n`.
pub open spec fn lex_cont(s: Seq<u8>, n: int, first: Seq<Tok>) -> Result<Seq<Tok>, LexError>
    decreases s.len(), 0int,
{
    if s.len() == 0 {
        Ok(first)
    } else {
        let m: int = if n < 1 {
            1
        } else if n > s.len() {
            s.len() as int
        } else {
            n
        };
        match spec_lex(s.skip(m)) {
            Ok(ts) => Ok(first + ts),
            Err(e) => Err(shift_err(e, m)),
        }
    }
}

} // verus!
// The lemmas below support the executable lexer's proofs.

verus! {

// ---------------------------------------------------------------------------
// Run characterization
// ---------------------------------------------------------------------------
/// Class codes for the scanner: which character class a run collects.
pub const CLS_LOWER: u8 = 0;

pub const CLS_HEX: u8 = 1;

pub const CLS_DIGIT: u8 = 2;

pub const CLS_FLOAT: u8 = 3;

pub const CLS_NONSLASH: u8 = 4;

pub const CLS_NONQUOTE: u8 = 5;

/// Whether `b` belongs to the class named by `cls`.
pub open spec fn class_pred_at(cls: u8, b: u8) -> bool {
    if cls == CLS_LOWER {
        is_lower(b)
    } else if cls == CLS_HEX {
        is_hex_digit(b)
    } else if cls == CLS_DIGIT {
        is_digit(b)
    } else if cls == CLS_FLOAT {
        is_float_char(b)
    } else if cls == CLS_NONSLASH {
        b != ('/' as u8)
    } else {
        b != ('"' as u8)
    }
}

/// The leading run of the class named by `cls`.
pub open spec fn class_run(cls: u8, s: Seq<u8>) -> nat {
    if cls == CLS_LOWER {
        lower_run(s)
    } else if cls == CLS_HEX {
        hex_run(s)
    } else if cls == CLS_DIGIT {
        digit_run(s)
    } else if cls == CLS_FLOAT {
        float_run(s)
    } else if cls == CLS_NONSLASH {
        nonslash_run(s)
    } else {
        nonquote_run(s)
    }
}

proof fn lemma_lower_run_is(s: Seq<u8>, m: int)
    requires
        0 <= m <= s.len(),
        forall|i: int| 0 <= i < m ==> is_lower(s[i]),
        m == s.len() || !is_lower(s[m]),
    ensures
        lower_run(s) == m,
    decreases s.len(),
{
    if m > 0 {
        lemma_lower_run_is(s.skip(1), m - 1);
    }
}

proof fn lemma_hex_run_is(s: Seq<u8>, m: int)
    requires
        0 <= m <= s.len(),
        forall|i: int| 0 <= i < m ==> is_hex_digit(s[i]),
        m == s.len() || !is_hex_digit(s[m]),
    ensures
        hex_run(s) == m,
    decreases s.len(),
{
    if m > 0 {
        lemma_hex_run_is(s.skip(1), m - 1);
    }
}

proof fn lemma_digit_run_is(s: Seq<u8>, m: int)
    requires
        0 <= m <= s.len(),
        forall|i: int| 0 <= i < m ==> is_digit(s[i]),
        m == s.len() || !is_digit(s[m]),
    ensures
        digit_run(s) == m,
    decreases s.len(),
{
    if m > 0 {
        lemma_digit_run_is(s.skip(1), m - 1);
    }
}

proof fn lemma_float_run_is(s: Seq<u8>, m: int)
    requires
        0 <= m <= s.len(),
        forall|i: int| 0 <= i < m ==> is_float_char(s[i]),
        m == s.len() || !is_float_char(s[m]),
    ensures
        float_run(s) == m,
    decreases s.len(),
{
    if m > 0 {
        lemma_float_run_is(s.skip(1), m - 1);
    }
}

proof fn lemma_nonslash_run_is(s: Seq<u8>, m: int)
    requires
        0 <= m <= s.len(),
        forall|i: int| 0 <= i < m ==> s[i] != ('/' as u8),
        m == s.len() || s[m] == ('/' as u8),
    ensures
        nonslash_run(s) == m,
    decreases s.len(),
{
    if m > 0 {
        lemma_nonslash_run_is(s.skip(1), m - 1);
    }
}

proof fn lemma_nonquote_run_is(s: Seq<u8>, m: int)
    requires
        0 <= m <= s.len(),
        forall|i: int| 0 <= i < m ==> s[i] != ('"' as u8),
        m == s.len() || s[m] == ('"' as u8),
    ensures
        nonquote_run(s) == m,
    decreases s.len(),
{
    if m > 0 {
        lemma_nonquote_run_is(s.skip(1), m - 1);
    }
}

/// The class run is the unique boundary: every byte before it is in the
/// class, and the byte at it (if any) is not.
proof fn lemma_class_run_is(cls: u8, s: Seq<u8>, m: int)
    requires
        0 <= m <= s.len(),
        forall|i: int| 0 <= i < m ==> class_pred_at(cls, s[i]),
        m == s.len() || !class_pred_at(cls, s[m]),
    ensures
        class_run(cls, s) == m,
{
    if cls == CLS_LOWER {
        lemma_lower_run_is(s, m);
    } else if cls == CLS_HEX {
        lemma_hex_run_is(s, m);
    } else if cls == CLS_DIGIT {
        lemma_digit_run_is(s, m);
    } else if cls == CLS_FLOAT {
        lemma_float_run_is(s, m);
    } else if cls == CLS_NONSLASH {
        lemma_nonslash_run_is(s, m);
    } else {
        lemma_nonquote_run_is(s, m);
    }
}

// ---------------------------------------------------------------------------
// Numeral value bounds
// ---------------------------------------------------------------------------
/// Extending a hex digit string can only grow its value.
proof fn lemma_hex_val_take(d: Seq<u8>, j: int)
    requires
        0 <= j <= d.len(),
    ensures
        hex_val(d) >= hex_val(d.take(j)),
    decreases d.len() - j,
{
    if j == d.len() {
        assert(d.take(j) =~= d);
    } else {
        lemma_hex_val_take(d, j + 1);
        assert(d.take(j + 1).drop_last() =~= d.take(j));
        assert(hex_val(d.take(j + 1)) >= hex_val(d.take(j)));
    }
}

/// Extending a decimal digit string can only grow its value.
proof fn lemma_dec_val_take(d: Seq<u8>, j: int)
    requires
        0 <= j <= d.len(),
    ensures
        dec_val(d) >= dec_val(d.take(j)),
    decreases d.len() - j,
{
    if j == d.len() {
        assert(d.take(j) =~= d);
    } else {
        lemma_dec_val_take(d, j + 1);
        assert(d.take(j + 1).drop_last() =~= d.take(j));
        assert(dec_val(d.take(j + 1)) >= dec_val(d.take(j)));
    }
}

// ---------------------------------------------------------------------------
// Error positions
// ---------------------------------------------------------------------------
/// The byte offset an error reports.
pub open spec fn err_pos(e: LexError) -> nat {
    match e {
        LexError::UnexpectedChar(p) => p as nat,
        LexError::BadNumber(p) => p as nat,
        LexError::VarOutOfRange(p) => p as nat,
        LexError::BadFloat(p) => p as nat,
        LexError::StringOverflow(p) => p as nat,
        LexError::UnterminatedString(p) => p as nat,
        LexError::UnexpectedEnd(p) => p as nat,
        LexError::BadArray(p) => p as nat,
    }
}

/// Two shifts compose, as long as nothing truncates.
proof fn lemma_shift_shift(e: LexError, a: int, b: int)
    requires
        0 <= a,
        0 <= b,
        err_pos(e) + a + b <= usize::MAX,
    ensures
        shift_err(shift_err(e, a), b) == shift_err(e, a + b),
{
}

/// A lexical error always points inside the text that produced it.
proof fn lemma_lex_err_pos(s: Seq<u8>)
    ensures
        spec_lex(s) matches Err(e) ==> err_pos(e) <= s.len(),
    decreases s.len(), 1int,
{
    if s.len() > 0 {
        let c = s[0];
        if c == ('{' as u8) {
            lemma_find_close_bounds(s, 1, 1, ('{' as u8), ('}' as u8));
            if let Some(j) = find_close(s, 1, 1, ('{' as u8), ('}' as u8)) {
                lemma_lex_err_pos(s.subrange(1, j));
                lemma_lex_cont_err_pos(s, j + 1);
                match spec_lex(s.subrange(1, j)) {
                    Err(e) => {
                        assert(spec_lex(s) == Err::<Seq<Tok>, LexError>(shift_err(e, 1)));
                        assert(err_pos(shift_err(e, 1)) <= s.len());
                    },
                    Ok(ts) => {
                        assert(spec_lex(s) == lex_cont(s, j + 1, seq![Tok::Block(ts)]));
                    },
                }
            }
        } else if c == ('[' as u8) {
            lemma_find_close_bounds(s, 1, 1, ('[' as u8), (']' as u8));
            if let Some(j) = find_close(s, 1, 1, ('[' as u8), (']' as u8)) {
                lemma_lex_err_pos(s.subrange(1, j));
                lemma_lex_cont_err_pos(s, j + 1);
                match spec_lex(s.subrange(1, j)) {
                    Err(e) => {
                        assert(spec_lex(s) == Err::<Seq<Tok>, LexError>(shift_err(e, 1)));
                        assert(err_pos(shift_err(e, 1)) <= s.len());
                    },
                    Ok(ts) => {
                        if ts.len() == 8 && all_bytes(ts) {
                            assert(spec_lex(s) == lex_cont(s, j + 1, seq![Tok::Array(bytes_of(ts))]));
                        }
                    },
                }
            }
        } else if c == ('/' as u8) {
            let k = nonslash_run(s.skip(1));
            lemma_lex_cont_err_pos(s, 2 + k as int);
            if (1 + k as int) < s.len() {
                assert(spec_lex(s) == lex_cont(s, 2 + k as int, Seq::<Tok>::empty()));
            }
        } else if is_lower(c) {
            let k = lower_run(s);
            lemma_lex_cont_err_pos(s, k as int);
            assert(spec_lex(s) == lex_cont(s, k as int, seq![Tok::Ident(s.take(k as int))]));
        } else if c == ('!' as u8) {
            let k = lower_run(s.skip(1));
            lemma_lex_cont_err_pos(s, 1 + k as int);
            assert(spec_lex(s) == lex_cont(
                s,
                1 + k as int,
                seq![Tok::Label(s.subrange(1, 1 + k as int))],
            ));
        } else if c == ('$' as u8) || c == ('@' as u8) {
            let k = hex_run(s.skip(1));
            let v = hex_val(s.subrange(1, 1 + k as int));
            lemma_lex_cont_err_pos(s, 1 + k as int);
            if !(k == 0 || v > i64::MAX as nat) {
                if c == ('$' as u8) && v <= 255 {
                    assert(spec_lex(s) == lex_cont(s, 1 + k as int, seq![Tok::Var(v as u8)]));
                }
                if c == ('@' as u8) {
                    assert(spec_lex(s) == lex_cont(s, 1 + k as int, seq![Tok::Num(v as i64)]));
                }
            }
        } else if c == ('#' as u8) {
            let k = float_run(s.skip(1));
            lemma_lex_cont_err_pos(s, 1 + k as int);
            if float_numeral_ok(s.subrange(1, 1 + k as int)) {
                assert(spec_lex(s) == lex_cont(
                    s,
                    1 + k as int,
                    seq![Tok::Float(s.subrange(1, 1 + k as int))],
                ));
            }
        } else if c == ('+' as u8) {
            lemma_lex_cont_err_pos(s, 3);
            if s.len() >= 3 && is_hex_digit(s[1]) && is_hex_digit(s[2]) {
                assert(spec_lex(s) == lex_cont(
                    s,
                    3,
                    seq![Tok::Byte((hex_digit_val(s[1]) * 16 + hex_digit_val(s[2])) as u8)],
                ));
            }
        } else if is_digit(c) || c == ('-' as u8) {
            let neg = c == ('-' as u8);
            let off: int = if neg {
                1
            } else {
                0
            };
            let k = digit_run(s.skip(off));
            let v = dec_val(s.subrange(off, off + k as int));
            lemma_lex_cont_err_pos(s, off + k as int);
            if neg && k == 0 {
            } else if neg {
                if v <= 0x8000_0000_0000_0000nat {
                    assert(spec_lex(s) == lex_cont(
                        s,
                        off + k as int,
                        seq![Tok::Num((-(v as int)) as i64)],
                    ));
                }
            } else {
                if v <= i64::MAX as nat {
                    assert(spec_lex(s) == lex_cont(s, off + k as int, seq![Tok::Num(v as i64)]));
                }
            }
        } else if c == ('"' as u8) {
            let k = nonquote_run(s.skip(1));
            lemma_lex_cont_err_pos(s, 2 + k as int);
            if k <= 8 && (1 + k as int) < s.len() {
                assert(spec_lex(s) == lex_cont(
                    s,
                    2 + k as int,
                    seq![Tok::Str(pad8(s.subrange(1, 1 + k as int)))],
                ));
            }
        } else if c == (';' as u8) {
            lemma_lex_cont_err_pos(s, 1);
            assert(spec_lex(s) == lex_cont(s, 1, seq![Tok::EndL]));
        } else if is_space(c) {
            lemma_lex_cont_err_pos(s, 1);
            assert(spec_lex(s) == lex_cont(s, 1, Seq::<Tok>::empty()));
        } else {
        }
    }
}

/// Helper for [`lemma_lex_err_pos`]: the continuation's errors stay inside.
proof fn lemma_lex_cont_err_pos(s: Seq<u8>, n: int)
    ensures
        forall|first: Seq<Tok>|
            (#[trigger] lex_cont(s, n, first)) matches Err(e) ==> err_pos(e) <= s.len(),
    decreases s.len(), 0int,
{
    if s.len() > 0 {
        let m: int = if n < 1 {
            1
        } else if n > s.len() {
            s.len() as int
        } else {
            n
        };
        lemma_lex_err_pos(s.skip(m));
    }
}

} // verus!
// The executable lexer.

verus! {

use vstd::slice::{slice_subrange, slice_to_vec};

use crate::tokens::{lemma_toks_view, lemma_toks_view_push, toks_view};

/// The scanner's progress: with `done` already produced and `i` bytes
/// consumed, finishing the rest reproduces `spec_lex` of the whole text.
pub open spec fn lex_resumes(full: Seq<u8>, i: int, done: Seq<Tok>) -> bool {
    match spec_lex(full.skip(i)) {
        Ok(ts) => spec_lex(full) == Ok::<Seq<Tok>, LexError>(done + ts),
        Err(e) => spec_lex(full) == Err::<Seq<Tok>, LexError>(shift_err(e, i)),
    }
}

/// Shifting by nothing changes nothing.
proof fn lemma_shift_zero(e: LexError)
    ensures
        shift_err(e, 0) == e,
{
}

/// One scanner step: consuming `n` more bytes that denote `first` keeps
/// the scan on course.
proof fn lemma_resume_step(full: Seq<u8>, i: int, n: int, done: Seq<Tok>, first: Seq<Tok>)
    requires
        0 <= i,
        1 <= n,
        i + n <= full.len(),
        full.len() <= usize::MAX,
        lex_resumes(full, i, done),
        spec_lex(full.skip(i)) == lex_cont(full.skip(i), n, first),
    ensures
        lex_resumes(full, i + n, done + first),
{
    let rest = full.skip(i);
    assert(rest.skip(n) =~= full.skip(i + n));
    lemma_lex_err_pos(full.skip(i + n));
    match spec_lex(full.skip(i + n)) {
        Ok(ts) => {
            assert(lex_cont(rest, n, first) == Ok::<Seq<Tok>, LexError>(first + ts));
            assert(done + (first + ts) =~= (done + first) + ts);
        },
        Err(e) => {
            assert(lex_cont(rest, n, first) == Err::<Seq<Tok>, LexError>(shift_err(e, n)));
            lemma_shift_shift(e, n, i);
        },
    }
}

/// Whether `b` is in the scanner class `cls`.
fn in_class(cls: u8, b: u8) -> (r: bool)
    ensures
        r == class_pred_at(cls, b),
{
    if cls == CLS_LOWER {
        ('a' as u8) <= b && b <= ('z' as u8)
    } else if cls == CLS_HEX {
        (('0' as u8) <= b && b <= ('9' as u8)) || (('a' as u8) <= b && b <= ('f' as u8)) || (('A'
            as u8) <= b && b <= ('F' as u8))
    } else if cls == CLS_DIGIT {
        ('0' as u8) <= b && b <= ('9' as u8)
    } else if cls == CLS_FLOAT {
        (('0' as u8) <= b && b <= ('9' as u8)) || b == ('.' as u8)
    } else if cls == CLS_NONSLASH {
        b != ('/' as u8)
    } else {
        b != ('"' as u8)
    }
}

/// The end of the run of class `cls` starting at `from`.
fn scan_class(s: &[u8], from: usize, cls: u8) -> (j: usize)
    requires
        from <= s@.len(),
    ensures
        from <= j <= s@.len(),
        j - from == class_run(cls, s@.skip(from as int)),
        forall|q: int| from <= q < j ==> class_pred_at(cls, s@[q]),
        j < s@.len() ==> !class_pred_at(cls, s@[j as int]),
{
    let n = s.len();
    let mut j = from;
    while j < n && in_class(cls, s[j])
        invariant
            from <= j <= n,
            n == s@.len(),
            forall|q: int| from <= q < j ==> class_pred_at(cls, s@[q]),
        decreases n - j,
    {
        j = j + 1;
    }
    proof {
        let sub = s@.skip(from as int);
        assert(forall|q: int| 0 <= q < j - from ==> class_pred_at(cls, sub[q]));
        lemma_class_run_is(cls, sub, j - from);
    }
    j
}

/// The numeric value of one hex digit.
fn hex_digit_value_x(b: u8) -> (v: u8)
    requires
        is_hex_digit(b),
    ensures
        v as nat == hex_digit_val(b),
        v <= 15,
{
    if ('0' as u8) <= b && b <= ('9' as u8) {
        b - ('0' as u8)
    } else if ('a' as u8) <= b && b <= ('f' as u8) {
        b - ('a' as u8) + 10
    } else {
        b - ('A' as u8) + 10
    }
}

/// The value of the hex digits `s[from..to]`, unless it exceeds `i64::MAX`.
fn hex_value_of(s: &[u8], from: usize, to: usize) -> (r: Option<u64>)
    requires
        from <= to <= s@.len(),
        forall|q: int| from <= q < to ==> is_hex_digit(s@[q]),
    ensures
        ({
            let d = s@.subrange(from as int, to as int);
            match r {
                Some(v) => v as nat == hex_val(d) && hex_val(d) <= i64::MAX as nat,
                None => hex_val(d) > i64::MAX as nat,
            }
        }),
{
    let ghost d = s@.subrange(from as int, to as int);
    let mut acc: u64 = 0;
    let mut j = from;
    while j < to
        invariant
            from <= j <= to,
            to <= s@.len(),
            forall|q: int| from <= q < to ==> is_hex_digit(s@[q]),
            d == s@.subrange(from as int, to as int),
            acc as nat == hex_val(d.take(j - from)),
            acc <= 0x7fff_ffff_ffff_ffff,
        decreases to - j,
    {
        proof {
            assert(d.take(j - from + 1).drop_last() =~= d.take(j - from));
            assert(d.take(j - from + 1).last() == s@[j as int]);
        }
        if acc >= 0x0800_0000_0000_0000u64 {
            proof {
                lemma_hex_val_take(d, j - from + 1);
            }
            return None;
        }
        let dv = hex_digit_value_x(s[j]);
        acc = acc * 16 + (dv as u64);
        j = j + 1;
    }
    proof {
        assert(d.take(to - from) =~= d);
    }
    Some(acc)
}

/// The value of the decimal digits `s[from..to]`, unless it exceeds `2^63`.
fn dec_value_of(s: &[u8], from: usize, to: usize) -> (r: Option<u64>)
    requires
        from <= to <= s@.len(),
        forall|q: int| from <= q < to ==> is_digit(s@[q]),
    ensures
        ({
            let d = s@.subrange(from as int, to as int);
            match r {
                Some(v) => v as nat == dec_val(d) && dec_val(d) <= 0x8000_0000_0000_0000nat,
                None => dec_val(d) > 0x8000_0000_0000_0000nat,
            }
        }),
{
    let ghost d = s@.subrange(from as int, to as int);
    let mut acc: u64 = 0;
    let mut j = from;
    while j < to
        invariant
            from <= j <= to,
            to <= s@.len(),
            forall|q: int| from <= q < to ==> is_digit(s@[q]),
            d == s@.subrange(from as int, to as int),
            acc as nat == dec_val(d.take(j - from)),
            acc <= 0x8000_0000_0000_0001,
        decreases to - j,
    {
        proof {
            assert(d.take(j - from + 1).drop_last() =~= d.take(j - from));
            assert(d.take(j - from + 1).last() == s@[j as int]);
        }
        if acc > 0x0ccc_cccc_cccc_ccccu64 {
            proof {
                lemma_dec_val_take(d, j - from + 1);
            }
            return None;
        }
        let b = s[j];
        let dv = b - ('0' as u8);
        acc = acc * 10 + (dv as u64);
        j = j + 1;
    }
    proof {
        assert(d.take(to - from) =~= d);
    }
    if acc > 0x8000_0000_0000_0000u64 {
        None
    } else {
        Some(acc)
    }
}

/// `find_close` over a suffix is `find_close` over the whole, shifted.
proof fn lemma_find_close_shift(s: Seq<u8>, d: int, i: int, depth: int, open: u8, close: u8)
    requires
        0 <= d <= s.len(),
        0 <= i,
    ensures
        find_close(s, d + i, depth, open, close) matches Some(j) ==> find_close(
            s.skip(d),
            i,
            depth,
            open,
            close,
        ) == Some(j - d),
        find_close(s, d + i, depth, open, close) is None ==> find_close(
            s.skip(d),
            i,
            depth,
            open,
            close,
        ) is None,
    decreases s.len() - d - i,
{
    if d + i < s.len() {
        lemma_find_close_shift(s, d, i + 1, depth - 1, open, close);
        lemma_find_close_shift(s, d, i + 1, depth + 1, open, close);
        lemma_find_close_shift(s, d, i + 1, depth, open, close);
    }
}

/// The matching close delimiter for one already-open pair, from `from` on.
fn scan_close(s: &[u8], from: usize, open: u8, close: u8) -> (r: Option<usize>)
    requires
        1 <= from <= s@.len(),
    ensures
        r matches Some(j) ==> find_close(s@, from as int, 1, open, close) == Some(j as int) && from
            <= j < s@.len(),
        r is None ==> find_close(s@, from as int, 1, open, close) is None,
{
    let n = s.len();
    let mut j = from;
    let mut depth: usize = 1;
    while j < n
        invariant
            1 <= from <= j <= n,
            n == s@.len(),
            1 <= depth,
            depth <= 1 + (j - from),
            find_close(s@, from as int, 1, open, close) == find_close(
                s@,
                j as int,
                depth as int,
                open,
                close,
            ),
        decreases n - j,
    {
        let c = s[j];
        if c == close {
            if depth == 1 {
                return Some(j);
            }
            depth = depth - 1;
        } else if c == open {
            depth = depth + 1;
        }
        j = j + 1;
    }
    None
}

/// Whether `s[from..to]` is a well-formed float numeral.
fn float_shape_ok(s: &[u8], from: usize, to: usize) -> (r: bool)
    requires
        from <= to <= s@.len(),
    ensures
        r == float_numeral_ok(s@.subrange(from as int, to as int)),
{
    let ghost t = s@.subrange(from as int, to as int);
    let mut digits: usize = 0;
    let mut dots: usize = 0;
    let mut j = from;
    while j < to
        invariant
            from <= j <= to,
            to <= s@.len(),
            t == s@.subrange(from as int, to as int),
            digits as nat == digit_count(t.take(j - from)),
            dots as nat == dot_count(t.take(j - from)),
            digits <= j - from,
            dots <= j - from,
        decreases to - j,
    {
        proof {
            assert(t.take(j - from + 1).drop_last() =~= t.take(j - from));
            assert(t.take(j - from + 1).last() == s@[j as int]);
        }
        let b = s[j];
        if ('0' as u8) <= b && b <= ('9' as u8) {
            digits = digits + 1;
        } else if b == ('.' as u8) {
            dots = dots + 1;
        }
        j = j + 1;
    }
    proof {
        assert(t.take(to - from) =~= t);
    }
    digits >= 1 && dots <= 1
}

/// The eight-slot buffer of a string literal: `k` bytes from `from`,
/// null-padded.
fn read_str_payload(s: &[u8], from: usize, k: usize) -> (a: [u8; 8])
    requires
        from + k <= s@.len(),
        k <= 8,
    ensures
        a@ == pad8(s@.subrange(from as int, (from + k) as int)),
{
    let a: [u8; 8] = [
        if 0 < k {
            s[from]
        } else {
            0
        },
        if 1 < k {
            s[from + 1]
        } else {
            0
        },
        if 2 < k {
            s[from + 2]
        } else {
            0
        },
        if 3 < k {
            s[from + 3]
        } else {
            0
        },
        if 4 < k {
            s[from + 4]
        } else {
            0
        },
        if 5 < k {
            s[from + 5]
        } else {
            0
        },
        if 6 < k {
            s[from + 6]
        } else {
            0
        },
        if 7 < k {
            s[from + 7]
        } else {
            0
        },
    ];
    proof {
        assert(a@ =~= pad8(s@.subrange(from as int, (from + k) as int)));
    }
    a
}

/// The eight byte payloads of an array body, if every token is a byte.
fn array_payload(v: &Vec<Token>) -> (r: Option<[u8; 8]>)
    requires
        v@.len() == 8,
    ensures
        ({
            let ts = toks_view(v@);
            match r {
                Some(a) => all_bytes(ts) && a@ == bytes_of(ts),
                None => !all_bytes(ts),
            }
        }),
{
    proof {
        lemma_toks_view(v@);
    }
    let mut bs: Vec<u8> = Vec::new();
    let mut w: usize = 0;
    while w < 8
        invariant
            w <= 8,
            v@.len() == 8,
            bs@.len() == w,
            toks_view(v@).len() == 8,
            forall|q: int| 0 <= q < v@.len() ==> toks_view(v@)[q] == crate::tokens::tok_view(
                v@[q],
            ),
            forall|q: int| 0 <= q < w ==> toks_view(v@)[q] is Byte,
            forall|q: int| 0 <= q < w ==> bs@[q] == toks_view(v@)[q]->Byte_0,
        decreases 8 - w,
    {
        match &v[w] {
            Token::Byte(b) => {
                bs.push(*b);
            },
            _ => {
                proof {
                    assert(!(toks_view(v@)[w as int] is Byte));
                }
                return None;
            },
        }
        w = w + 1;
    }
    let a: [u8; 8] = [bs[0], bs[1], bs[2], bs[3], bs[4], bs[5], bs[6], bs[7]];
    proof {
        assert(all_bytes(toks_view(v@)));
        assert(a@ =~= bytes_of(toks_view(v@)));
    }
    Some(a)
}

/// An error from `k` bytes into the scan, reported against the whole text.
fn shift_lex_error(e: LexError, k: usize) -> (r: LexError)
    requires
        err_pos(e) + k <= usize::MAX,
    ensures
        r == shift_err(e, k as int),
{
    match e {
        LexError::UnexpectedChar(p) => LexError::UnexpectedChar(p + k),
        LexError::BadNumber(p) => LexError::BadNumber(p + k),
        LexError::VarOutOfRange(p) => LexError::VarOutOfRange(p + k),
        LexError::BadFloat(p) => LexError::BadFloat(p + k),
        LexError::StringOverflow(p) => LexError::StringOverflow(p + k),
        LexError::UnterminatedString(p) => LexError::UnterminatedString(p + k),
        LexError::UnexpectedEnd(p) => LexError::UnexpectedEnd(p + k),
        LexError::BadArray(p) => LexError::BadArray(p + k),
    }
}

} // verus!
// The scanner steps, one per construct, and the entry point.

verus! {

use crate::tokens::tok_view;

/// Errors step through `lex_resumes` unchanged but for the shift.
proof fn lemma_resume_err(full: Seq<u8>, i: int, done: Seq<Tok>, e0: LexError)
    requires
        0 <= i <= full.len(),
        lex_resumes(full, i, done),
        spec_lex(full.skip(i)) == Err::<Seq<Tok>, LexError>(e0),
    ensures
        spec_lex(full) == Err::<Seq<Tok>, LexError>(shift_err(e0, i)),
{
}

/// What every scanner step guarantees: some input was consumed and the
/// scan is still on course.
pub open spec fn step_ok(file: &[u8], i: usize, j: usize, done: Seq<Tok>) -> bool {
    i < j <= file@.len() && lex_resumes(file@, j as int, done)
}

/// A comment: everything up to and including the next slash is dropped.
fn step_comment(file: &[u8], i: usize, out: &mut Vec<Token>) -> (r: Result<usize, LexError>)
    requires
        i < file@.len(),
        file@[i as int] == ('/' as u8),
        lex_resumes(file@, i as int, toks_view(old(out)@)),
    ensures
        final(out)@ == old(out)@,
        match r {
            Ok(j) => step_ok(file, i, j, toks_view(final(out)@)),
            Err(e) => spec_lex(file@) == Err::<Seq<Tok>, LexError>(e),
        },
{
    let ghost full = file@;
    let ghost rest = full.skip(i as int);
    let ghost done = toks_view(out@);
    let n = file.len();
    let j = scan_class(file, i + 1, CLS_NONSLASH);
    proof {
        assert(rest[0] == full[i as int]);
        assert(rest.skip(1) =~= full.skip(i + 1));
    }
    if j >= n {
        proof {
            assert(spec_lex(rest) == Err::<Seq<Tok>, LexError>(LexError::UnexpectedEnd(0)));
            lemma_resume_err(full, i as int, done, LexError::UnexpectedEnd(0));
        }
        return Err(LexError::UnexpectedEnd(i));
    }
    proof {
        let k = nonslash_run(rest.skip(1));
        assert(k == j - i - 1);
        assert(spec_lex(rest) == lex_cont(rest, 2 + k as int, Seq::<Tok>::empty()));
        lemma_resume_step(full, i as int, j - i + 1, done, Seq::<Tok>::empty());
        assert(done + Seq::<Tok>::empty() =~= done);
    }
    Ok(j + 1)
}

/// An identifier: a run of lowercase letters.
fn step_ident(file: &[u8], i: usize, out: &mut Vec<Token>) -> (j: usize)
    requires
        i < file@.len(),
        is_lower(file@[i as int]),
        lex_resumes(file@, i as int, toks_view(old(out)@)),
    ensures
        step_ok(file, i, j, toks_view(final(out)@)),
{
    let ghost full = file@;
    let ghost rest = full.skip(i as int);
    let ghost done = toks_view(out@);
    let n = file.len();
    proof {
        assert(full.len() == n as int);
    }
    let j = scan_class(file, i, CLS_LOWER);
    let v = slice_to_vec(slice_subrange(file, i, j));
    let ghost vv = v@;
    let ghost k = lower_run(rest);
    proof {
        assert(rest[0] == full[i as int]);
        assert(k == j - i);
        assert(k >= 1);
        assert(rest.take(k as int) =~= full.subrange(i as int, j as int));
        assert(vv == rest.take(k as int));
    }
    let ghost first = seq![Tok::Ident(rest.take(k as int))];
    let ghost out0 = out@;
    out.push(Token::Ident(v));
    proof {
        lemma_toks_view_push(out0, out@.last());
        assert(tok_view(out@.last()) == first[0]);
        assert(spec_lex(rest) == lex_cont(rest, k as int, first));
        lemma_resume_step(full, i as int, k as int, done, first);
        assert(toks_view(out@) =~= done + first);
    }
    j
}

/// A label declaration: a bang, then a run of lowercase letters.
fn step_label(file: &[u8], i: usize, out: &mut Vec<Token>) -> (j: usize)
    requires
        i < file@.len(),
        file@[i as int] == ('!' as u8),
        lex_resumes(file@, i as int, toks_view(old(out)@)),
    ensures
        step_ok(file, i, j, toks_view(final(out)@)),
{
    let ghost full = file@;
    let ghost rest = full.skip(i as int);
    let ghost done = toks_view(out@);
    let n = file.len();
    proof {
        assert(full.len() == n as int);
    }
    let j = scan_class(file, i + 1, CLS_LOWER);
    let v = slice_to_vec(slice_subrange(file, i + 1, j));
    let ghost vv = v@;
    let ghost k = lower_run(rest.skip(1));
    proof {
        assert(rest[0] == full[i as int]);
        assert(rest.skip(1) =~= full.skip(i + 1));
        assert(k == j - i - 1);
        assert(rest.subrange(1, 1 + k as int) =~= full.subrange(i + 1, j as int));
        assert(vv == rest.subrange(1, 1 + k as int));
    }
    let ghost first = seq![Tok::Label(rest.subrange(1, 1 + k as int))];
    let ghost out0 = out@;
    out.push(Token::Label(v));
    proof {
        lemma_toks_view_push(out0, out@.last());
        assert(tok_view(out@.last()) == first[0]);
        assert(spec_lex(rest) == lex_cont(rest, 1 + k as int, first));
        lemma_resume_step(full, i as int, 1 + k as int, done, first);
        assert(toks_view(out@) =~= done + first);
    }
    j
}

/// A variable reference or a hex integer: a sigil, then hex digits.
fn step_hex_number(file: &[u8], i: usize, out: &mut Vec<Token>) -> (r: Result<usize, LexError>)
    requires
        i < file@.len(),
        file@[i as int] == ('$' as u8) || file@[i as int] == ('@' as u8),
        lex_resumes(file@, i as int, toks_view(old(out)@)),
    ensures
        match r {
            Ok(j) => step_ok(file, i, j, toks_view(final(out)@)),
            Err(e) => spec_lex(file@) == Err::<Seq<Tok>, LexError>(e),
        },
{
    let ghost full = file@;
    let ghost rest = full.skip(i as int);
    let ghost done = toks_view(out@);
    let n = file.len();
    proof {
        assert(full.len() == n as int);
    }
    let c = file[i];
    let j = scan_class(file, i + 1, CLS_HEX);
    let ghost k = hex_run(rest.skip(1));
    proof {
        assert(rest[0] == full[i as int]);
        assert(rest.skip(1) =~= full.skip(i + 1));
        assert(k == j - i - 1);
        assert(rest.subrange(1, 1 + k as int) =~= full.subrange(i + 1, j as int));
    }
    let ghost v_spec = hex_val(rest.subrange(1, 1 + k as int));
    if j == i + 1 {
        proof {
            assert(spec_lex(rest) == Err::<Seq<Tok>, LexError>(LexError::BadNumber(0)));
            lemma_resume_err(full, i as int, done, LexError::BadNumber(0));
        }
        return Err(LexError::BadNumber(i));
    }
    match hex_value_of(file, i + 1, j) {
        None => {
            proof {
                assert(v_spec > i64::MAX as nat);
                assert(spec_lex(rest) == Err::<Seq<Tok>, LexError>(LexError::BadNumber(0)));
                lemma_resume_err(full, i as int, done, LexError::BadNumber(0));
            }
            Err(LexError::BadNumber(i))
        },
        Some(v) => {
            proof {
                assert(v as nat == v_spec);
            }
            if c == ('$' as u8) {
                if v > 255 {
                    proof {
                        assert(spec_lex(rest) == Err::<Seq<Tok>, LexError>(
                            LexError::VarOutOfRange(0),
                        ));
                        lemma_resume_err(full, i as int, done, LexError::VarOutOfRange(0));
                    }
                    return Err(LexError::VarOutOfRange(i));
                }
                let ghost first = seq![Tok::Var(v_spec as u8)];
                let ghost out0 = out@;
                out.push(Token::Var(v as u8));
                proof {
                    lemma_toks_view_push(out0, out@.last());
                    assert(tok_view(out@.last()) == first[0]);
                    assert(spec_lex(rest) == lex_cont(rest, 1 + k as int, first));
                    lemma_resume_step(full, i as int, 1 + k as int, done, first);
                    assert(toks_view(out@) =~= done + first);
                }
            } else {
                let ghost first = seq![Tok::Num(v_spec as i64)];
                let ghost out0 = out@;
                out.push(Token::Num(v as i64));
                proof {
                    lemma_toks_view_push(out0, out@.last());
                    assert(tok_view(out@.last()) == first[0]);
                    assert(spec_lex(rest) == lex_cont(rest, 1 + k as int, first));
                    lemma_resume_step(full, i as int, 1 + k as int, done, first);
                    assert(toks_view(out@) =~= done + first);
                }
            }
            Ok(j)
        },
    }
}

/// A float literal: a hash, then its numeral text, kept as written.
fn step_float(file: &[u8], i: usize, out: &mut Vec<Token>) -> (r: Result<usize, LexError>)
    requires
        i < file@.len(),
        file@[i as int] == ('#' as u8),
        lex_resumes(file@, i as int, toks_view(old(out)@)),
    ensures
        match r {
            Ok(j) => step_ok(file, i, j, toks_view(final(out)@)),
            Err(e) => spec_lex(file@) == Err::<Seq<Tok>, LexError>(e),
        },
{
    let ghost full = file@;
    let ghost rest = full.skip(i as int);
    let ghost done = toks_view(out@);
    let n = file.len();
    proof {
        assert(full.len() == n as int);
    }
    let j = scan_class(file, i + 1, CLS_FLOAT);
    let ghost k = float_run(rest.skip(1));
    proof {
        assert(rest[0] == full[i as int]);
        assert(rest.skip(1) =~= full.skip(i + 1));
        assert(k == j - i - 1);
        assert(rest.subrange(1, 1 + k as int) =~= full.subrange(i + 1, j as int));
    }
    let ok = float_shape_ok(file, i + 1, j);
    if !ok {
        proof {
            assert(spec_lex(rest) == Err::<Seq<Tok>, LexError>(LexError::BadFloat(0)));
            lemma_resume_err(full, i as int, done, LexError::BadFloat(0));
        }
        return Err(LexError::BadFloat(i));
    }
    let v = slice_to_vec(slice_subrange(file, i + 1, j));
    let ghost vv = v@;
    let ghost first = seq![Tok::Float(rest.subrange(1, 1 + k as int))];
    let ghost out0 = out@;
    out.push(Token::Float(v));
    proof {
        assert(vv == rest.subrange(1, 1 + k as int));
        lemma_toks_view_push(out0, out@.last());
        assert(tok_view(out@.last()) == first[0]);
        assert(spec_lex(rest) == lex_cont(rest, 1 + k as int, first));
        lemma_resume_step(full, i as int, 1 + k as int, done, first);
        assert(toks_view(out@) =~= done + first);
    }
    Ok(j)
}

/// A byte literal: a plus, then exactly two hex digits.
fn step_byte(file: &[u8], i: usize, out: &mut Vec<Token>) -> (r: Result<usize, LexError>)
    requires
        i < file@.len(),
        file@[i as int] == ('+' as u8),
        lex_resumes(file@, i as int, toks_view(old(out)@)),
    ensures
        match r {
            Ok(j) => step_ok(file, i, j, toks_view(final(out)@)),
            Err(e) => spec_lex(file@) == Err::<Seq<Tok>, LexError>(e),
        },
{
    let ghost full = file@;
    let ghost rest = full.skip(i as int);
    let ghost done = toks_view(out@);
    let n = file.len();
    proof {
        assert(rest[0] == full[i as int]);
        assert(rest.len() == n - i);
    }
    if n - i < 3 {
        proof {
            assert(spec_lex(rest) == Err::<Seq<Tok>, LexError>(LexError::UnexpectedEnd(0)));
            lemma_resume_err(full, i as int, done, LexError::UnexpectedEnd(0));
        }
        return Err(LexError::UnexpectedEnd(i));
    }
    let b1 = file[i + 1];
    let b2 = file[i + 2];
    proof {
        assert(rest[1] == full[i + 1]);
        assert(rest[2] == full[i + 2]);
    }
    if !(in_class(CLS_HEX, b1) && in_class(CLS_HEX, b2)) {
        proof {
            assert(spec_lex(rest) == Err::<Seq<Tok>, LexError>(LexError::BadNumber(0)));
            lemma_resume_err(full, i as int, done, LexError::BadNumber(0));
        }
        return Err(LexError::BadNumber(i));
    }
    let val = hex_digit_value_x(b1) * 16 + hex_digit_value_x(b2);
    let ghost first = seq![Tok::Byte((hex_digit_val(rest[1]) * 16 + hex_digit_val(rest[2])) as u8)];
    let ghost out0 = out@;
    out.push(Token::Byte(val));
    proof {
        lemma_toks_view_push(out0, out@.last());
        assert(tok_view(out@.last()) == first[0]);
        assert(spec_lex(rest) == lex_cont(rest, 3, first));
        lemma_resume_step(full, i as int, 3, done, first);
        assert(toks_view(out@) =~= done + first);
    }
    Ok(i + 3)
}

/// A decimal integer, optionally negative.
fn step_decimal(file: &[u8], i: usize, out: &mut Vec<Token>) -> (r: Result<usize, LexError>)
    requires
        i < file@.len(),
        is_digit(file@[i as int]) || file@[i as int] == ('-' as u8),
        lex_resumes(file@, i as int, toks_view(old(out)@)),
    ensures
        match r {
            Ok(j) => step_ok(file, i, j, toks_view(final(out)@)),
            Err(e) => spec_lex(file@) == Err::<Seq<Tok>, LexError>(e),
        },
{
    let ghost full = file@;
    let ghost rest = full.skip(i as int);
    let ghost done = toks_view(out@);
    let n = file.len();
    proof {
        assert(full.len() == n as int);
    }
    let c = file[i];
    let neg = c == ('-' as u8);
    let start = if neg {
        i + 1
    } else {
        i
    };
    let j = scan_class(file, start, CLS_DIGIT);
    let ghost off: int = if neg {
        1int
    } else {
        0int
    };
    let ghost k = digit_run(rest.skip(off));
    proof {
        assert(rest[0] == full[i as int]);
        assert(rest.skip(off) =~= full.skip(start as int));
        assert(k == j - start);
        assert(rest.subrange(off, off + k as int) =~= full.subrange(start as int, j as int));
    }
    let ghost v_spec = dec_val(rest.subrange(off, off + k as int));
    if neg && j == start {
        proof {
            assert(spec_lex(rest) == Err::<Seq<Tok>, LexError>(LexError::BadNumber(0)));
            lemma_resume_err(full, i as int, done, LexError::BadNumber(0));
        }
        return Err(LexError::BadNumber(i));
    }
    match dec_value_of(file, start, j) {
        None => {
            proof {
                assert(v_spec > 0x8000_0000_0000_0000nat);
                assert(spec_lex(rest) == Err::<Seq<Tok>, LexError>(LexError::BadNumber(0)));
                lemma_resume_err(full, i as int, done, LexError::BadNumber(0));
            }
            Err(LexError::BadNumber(i))
        },
        Some(v) => {
            proof {
                assert(v as nat == v_spec);
                assert(!neg ==> k >= 1);
            }
            if neg {
                let value: i64 = if v == 0x8000_0000_0000_0000u64 {
                    i64::MIN
                } else {
                    -(v as i64)
                };
                let ghost first = seq![Tok::Num((-(v_spec as int)) as i64)];
                let ghost out0 = out@;
                out.push(Token::Num(value));
                proof {
                    lemma_toks_view_push(out0, out@.last());
                    assert(tok_view(out@.last()) == first[0]);
                    assert(spec_lex(rest) == lex_cont(rest, off + k as int, first));
                    lemma_resume_step(full, i as int, off + k as int, done, first);
                    assert(toks_view(out@) =~= done + first);
                }
                Ok(j)
            } else {
                if v > 0x7fff_ffff_ffff_ffffu64 {
                    proof {
                        assert(spec_lex(rest) == Err::<Seq<Tok>, LexError>(LexError::BadNumber(0)));
                        lemma_resume_err(full, i as int, done, LexError::BadNumber(0));
                    }
                    return Err(LexError::BadNumber(i));
                }
                let ghost first = seq![Tok::Num(v_spec as i64)];
                let ghost out0 = out@;
                out.push(Token::Num(v as i64));
                proof {
                    lemma_toks_view_push(out0, out@.last());
                    assert(tok_view(out@.last()) == first[0]);
                    assert(spec_lex(rest) == lex_cont(rest, off + k as int, first));
                    lemma_resume_step(full, i as int, off + k as int, done, first);
                    assert(toks_view(out@) =~= done + first);
                }
                Ok(j)
            }
        },
    }
}

/// A string literal: at most eight characters, null-padded to eight.
fn step_string(file: &[u8], i: usize, out: &mut Vec<Token>) -> (r: Result<usize, LexError>)
    requires
        i < file@.len(),
        file@[i as int] == ('"' as u8),
        lex_resumes(file@, i as int, toks_view(old(out)@)),
    ensures
        match r {
            Ok(j) => step_ok(file, i, j, toks_view(final(out)@)),
            Err(e) => spec_lex(file@) == Err::<Seq<Tok>, LexError>(e),
        },
{
    let ghost full = file@;
    let ghost rest = full.skip(i as int);
    let ghost done = toks_view(out@);
    let n = file.len();
    let j = scan_class(file, i + 1, CLS_NONQUOTE);
    let ghost k = nonquote_run(rest.skip(1));
    proof {
        assert(rest[0] == full[i as int]);
        assert(rest.skip(1) =~= full.skip(i + 1));
        assert(k == j - i - 1);
    }
    if j - i - 1 > 8 {
        proof {
            assert(spec_lex(rest) == Err::<Seq<Tok>, LexError>(LexError::StringOverflow(0)));
            lemma_resume_err(full, i as int, done, LexError::StringOverflow(0));
        }
        return Err(LexError::StringOverflow(i));
    }
    if j >= n {
        proof {
            assert(spec_lex(rest) == Err::<Seq<Tok>, LexError>(LexError::UnterminatedString(0)));
            lemma_resume_err(full, i as int, done, LexError::UnterminatedString(0));
        }
        return Err(LexError::UnterminatedString(i));
    }
    let a = read_str_payload(file, i + 1, j - i - 1);
    proof {
        assert(rest.subrange(1, 1 + k as int) == full.subrange(i + 1, j as int)) by {
            assert(rest.subrange(1, 1 + k as int) =~= full.subrange(i + 1, j as int));
        }
    }
    let ghost first = seq![Tok::Str(pad8(rest.subrange(1, 1 + k as int)))];
    let ghost out0 = out@;
    out.push(Token::Str(a));
    proof {
        lemma_toks_view_push(out0, out@.last());
        assert(tok_view(out@.last()) == first[0]);
        assert(spec_lex(rest) == lex_cont(rest, 2 + k as int, first));
        lemma_resume_step(full, i as int, 2 + k as int, done, first);
        assert(toks_view(out@) =~= done + first);
    }
    Ok(j + 1)
}

} // verus!
// Nested constructs and the entry point.

verus! {

/// A block: the brace-enclosed text, recursively tokenized.
fn step_block(file: &[u8], i: usize, out: &mut Vec<Token>) -> (r: Result<usize, LexError>)
    requires
        i < file@.len(),
        file@[i as int] == ('{' as u8),
        lex_resumes(file@, i as int, toks_view(old(out)@)),
    ensures
        match r {
            Ok(j) => step_ok(file, i, j, toks_view(final(out)@)),
            Err(e) => spec_lex(file@) == Err::<Seq<Tok>, LexError>(e),
        },
    decreases file@.len(), 0int,
{
    let ghost full = file@;
    let ghost rest = full.skip(i as int);
    let ghost done = toks_view(out@);
    let n = file.len();
    proof {
        assert(rest[0] == full[i as int]);
    }
    let sc = scan_close(file, i + 1, '{' as u8, '}' as u8);
    proof {
        lemma_find_close_shift(full, i as int, 1, 1, '{' as u8, '}' as u8);
    }
    match sc {
        None => {
            proof {
                assert(spec_lex(rest) == Err::<Seq<Tok>, LexError>(LexError::UnexpectedEnd(0)));
                lemma_resume_err(full, i as int, done, LexError::UnexpectedEnd(0));
            }
            Err(LexError::UnexpectedEnd(i))
        },
        Some(j) => {
            let inner = slice_subrange(file, i + 1, j);
            proof {
                assert(find_close(rest, 1, 1, '{' as u8, '}' as u8) == Some(j - i));
                assert(inner@ == rest.subrange(1, j - i)) by {
                    assert(inner@ =~= rest.subrange(1, j - i));
                }
            }
            match tokenize(inner) {
                Err(e) => {
                    proof {
                        lemma_lex_err_pos(inner@);
                        assert(spec_lex(rest) == Err::<Seq<Tok>, LexError>(shift_err(e, 1)));
                        lemma_resume_err(full, i as int, done, shift_err(e, 1));
                        lemma_shift_shift(e, 1, i as int);
                    }
                    Err(shift_lex_error(e, i + 1))
                },
                Ok(v) => {
                    let ghost ts = toks_view(v@);
                    let ghost first = seq![Tok::Block(ts)];
                    let ghost out0 = out@;
                    out.push(Token::Block(v));
                    proof {
                        lemma_toks_view_push(out0, out@.last());
                        assert(tok_view(out@.last()) == first[0]);
                        assert(spec_lex(rest) == lex_cont(rest, j - i + 1, first));
                        lemma_resume_step(full, i as int, j - i + 1, done, first);
                        assert(toks_view(out@) =~= done + first);
                    }
                    Ok(j + 1)
                },
            }
        },
    }
}

/// A sprite array: the bracket-enclosed text must reduce to exactly eight
/// byte literals.
fn step_array(file: &[u8], i: usize, out: &mut Vec<Token>) -> (r: Result<usize, LexError>)
    requires
        i < file@.len(),
        file@[i as int] == ('[' as u8),
        lex_resumes(file@, i as int, toks_view(old(out)@)),
    ensures
        match r {
            Ok(j) => step_ok(file, i, j, toks_view(final(out)@)),
            Err(e) => spec_lex(file@) == Err::<Seq<Tok>, LexError>(e),
        },
    decreases file@.len(), 0int,
{
    let ghost full = file@;
    let ghost rest = full.skip(i as int);
    let ghost done = toks_view(out@);
    let n = file.len();
    proof {
        assert(rest[0] == full[i as int]);
    }
    let sc = scan_close(file, i + 1, '[' as u8, ']' as u8);
    proof {
        lemma_find_close_shift(full, i as int, 1, 1, '[' as u8, ']' as u8);
    }
    match sc {
        None => {
            proof {
                assert(spec_lex(rest) == Err::<Seq<Tok>, LexError>(LexError::UnexpectedEnd(0)));
                lemma_resume_err(full, i as int, done, LexError::UnexpectedEnd(0));
            }
            Err(LexError::UnexpectedEnd(i))
        },
        Some(j) => {
            let inner = slice_subrange(file, i + 1, j);
            proof {
                assert(find_close(rest, 1, 1, '[' as u8, ']' as u8) == Some(j - i));
                assert(inner@ == rest.subrange(1, j - i)) by {
                    assert(inner@ =~= rest.subrange(1, j - i));
                }
            }
            match tokenize(inner) {
                Err(e) => {
                    proof {
                        lemma_lex_err_pos(inner@);
                        assert(spec_lex(rest) == Err::<Seq<Tok>, LexError>(shift_err(e, 1)));
                        lemma_resume_err(full, i as int, done, shift_err(e, 1));
                        lemma_shift_shift(e, 1, i as int);
                    }
                    Err(shift_lex_error(e, i + 1))
                },
                Ok(v) => {
                    proof {
                        lemma_toks_view(v@);
                    }
                    let ghost ts = toks_view(v@);
                    if v.len() != 8 {
                        proof {
                            assert(ts.len() != 8);
                            assert(spec_lex(rest) == Err::<Seq<Tok>, LexError>(
                                LexError::BadArray(0),
                            ));
                            lemma_resume_err(full, i as int, done, LexError::BadArray(0));
                        }
                        return Err(LexError::BadArray(i));
                    }
                    match array_payload(&v) {
                        None => {
                            proof {
                                assert(spec_lex(rest) == Err::<Seq<Tok>, LexError>(
                                    LexError::BadArray(0),
                                ));
                                lemma_resume_err(full, i as int, done, LexError::BadArray(0));
                            }
                            Err(LexError::BadArray(i))
                        },
                        Some(a) => {
                            let ghost first = seq![Tok::Array(bytes_of(ts))];
                            let ghost out0 = out@;
                            out.push(Token::Array(a));
                            proof {
                                lemma_toks_view_push(out0, out@.last());
                                assert(tok_view(out@.last()) == first[0]);
                                assert(spec_lex(rest) == lex_cont(rest, j - i + 1, first));
                                lemma_resume_step(full, i as int, j - i + 1, done, first);
                                assert(toks_view(out@) =~= done + first);
                            }
                            Ok(j + 1)
                        },
                    }
                },
            }
        },
    }
}

/// The lexer: the token tree denoted by `file`, or the first lexical error
/// with its byte offset. Returns exactly [`spec_lex`] of the input.
pub fn tokenize(file: &[u8]) -> (r: Result<Vec<Token>, LexError>)
    ensures
        match spec_lex(file@) {
            Ok(ts) => r matches Ok(v) && toks_view(v@) == ts,
            Err(e) => r matches Err(e2) && e2 == e,
        },
    decreases file@.len(), 1int,
{
    let ghost full = file@;
    let n = file.len();
    let mut out: Vec<Token> = Vec::new();
    let mut i: usize = 0;
    proof {
        assert(full.skip(0) =~= full);
        if let Err(e) = spec_lex(full) {
            lemma_shift_zero(e);
        }
        if let Ok(ts) = spec_lex(full) {
            assert(Seq::<Tok>::empty() + ts =~= ts);
        }
        assert(toks_view(out@) =~= Seq::<Tok>::empty());
        assert(lex_resumes(full, 0, toks_view(out@)));
    }
    while i < n
        invariant
            i <= n,
            n == full.len(),
            full == file@,
            lex_resumes(full, i as int, toks_view(out@)),
        decreases n - i,
    {
        let ghost rest = full.skip(i as int);
        let ghost done = toks_view(out@);
        proof {
            assert(rest.len() == n - i);
            assert(rest[0] == full[i as int]);
        }
        let c = file[i];
        if c == ('/' as u8) {
            match step_comment(file, i, &mut out) {
                Ok(j) => {
                    i = j;
                },
                Err(e) => {
                    return Err(e);
                },
            }
        } else if in_class(CLS_LOWER, c) {
            i = step_ident(file, i, &mut out);
        } else if c == ('!' as u8) {
            i = step_label(file, i, &mut out);
        } else if c == ('$' as u8) || c == ('@' as u8) {
            match step_hex_number(file, i, &mut out) {
                Ok(j) => {
                    i = j;
                },
                Err(e) => {
                    return Err(e);
                },
            }
        } else if c == ('#' as u8) {
            match step_float(file, i, &mut out) {
                Ok(j) => {
                    i = j;
                },
                Err(e) => {
                    return Err(e);
                },
            }
        } else if c == ('+' as u8) {
            match step_byte(file, i, &mut out) {
                Ok(j) => {
                    i = j;
                },
                Err(e) => {
                    return Err(e);
                },
            }
        } else if in_class(CLS_DIGIT, c) || c == ('-' as u8) {
            match step_decimal(file, i, &mut out) {
                Ok(j) => {
                    i = j;
                },
                Err(e) => {
                    return Err(e);
                },
            }
        } else if c == ('"' as u8) {
            match step_string(file, i, &mut out) {
                Ok(j) => {
                    i = j;
                },
                Err(e) => {
                    return Err(e);
                },
            }
        } else if c == ('{' as u8) {
            match step_block(file, i, &mut out) {
                Ok(j) => {
                    i = j;
                },
                Err(e) => {
                    return Err(e);
                },
            }
        } else if c == ('[' as u8) {
            match step_array(file, i, &mut out) {
                Ok(j) => {
                    i = j;
                },
                Err(e) => {
                    return Err(e);
                },
            }
        } else if c == (';' as u8) {
            let ghost first = seq![Tok::EndL];
            let ghost out0 = out@;
            out.push(Token::EndL);
            proof {
                lemma_toks_view_push(out0, out@.last());
                assert(tok_view(out@.last()) == first[0]);
                assert(spec_lex(rest) == lex_cont(rest, 1, first));
                lemma_resume_step(full, i as int, 1, done, first);
                assert(toks_view(out@) =~= done + first);
            }
            i = i + 1;
        } else if c == 0x20 || (0x09 <= c && c <= 0x0d) {
            proof {
                assert(spec_lex(rest) == lex_cont(rest, 1, Seq::<Tok>::empty()));
                lemma_resume_step(full, i as int, 1, done, Seq::<Tok>::empty());
                assert(done + Seq::<Tok>::empty() =~= done);
            }
            i = i + 1;
        } else {
            proof {
                assert(spec_lex(rest) == Err::<Seq<Tok>, LexError>(LexError::UnexpectedChar(0)));
                lemma_resume_err(full, i as int, done, LexError::UnexpectedChar(0));
            }
            return Err(LexError::UnexpectedChar(i));
        }
    }
    proof {
        assert(full.skip(n as int) =~= Seq::<u8>::empty());
        assert(spec_lex(full.skip(n as int)) == Ok::<Seq<Tok>, LexError>(Seq::empty()));
        if let Ok(ts) = spec_lex(full) {
            assert(toks_view(out@) + Seq::<Tok>::empty() =~= toks_view(out@));
        }
    }
    Ok(out)
}

} // verus!
// Round-trip laws: a literal's payload, serialized back to source text and
// tokenized again, denotes the same value. The lexer loses nothing of a
// literal.

verus! {

/// The hex digit character of a value below sixteen.
pub open spec fn hex_char(d: nat) -> u8 {
    if d < 10 {
        (('0' as u8) + d) as u8
    } else {
        (('a' as u8) + (d - 10)) as u8
    }
}

/// The two-hex-digit text of one byte, as a byte literal writes it.
pub open spec fn ser_byte_digits(b: u8) -> Seq<u8> {
    seq![hex_char((b >> 4) as nat), hex_char((b & 0x0f) as nat)]
}

/// The decimal digit string of a natural number, most significant first.
pub open spec fn dec_print(n: nat) -> Seq<u8>
    decreases n,
{
    if n < 10 {
        seq![(('0' as u8) + n) as u8]
    } else {
        dec_print(n / 10).push((('0' as u8) + n % 10) as u8)
    }
}

proof fn lemma_hex_char(d: nat)
    requires
        d < 16,
    ensures
        is_hex_digit(hex_char(d)),
        hex_digit_val(hex_char(d)) == d,
{
}

proof fn lemma_dec_print(n: nat)
    ensures
        dec_print(n).len() >= 1,
        forall|q: int| 0 <= q < dec_print(n).len() ==> is_digit(#[trigger] dec_print(n)[q]),
        dec_val(dec_print(n)) == n,
    decreases n,
{
    if n < 10 {
        assert(dec_val(dec_print(n).drop_last()) == 0) by {
            assert(dec_print(n).drop_last() =~= Seq::<u8>::empty());
        }
    } else {
        lemma_dec_print(n / 10);
        assert(dec_print(n).drop_last() =~= dec_print(n / 10));
        assert(dec_print(n).last() == (('0' as u8) + n % 10) as u8);
    }
}

/// Byte literal round trip: the two hex digits a byte's payload writes
/// tokenize back to exactly that byte.
pub proof fn lemma_byte_round_trip(b: u8)
    ensures
        spec_lex(seq![('+' as u8)] + ser_byte_digits(b)) == Ok::<Seq<Tok>, LexError>(
            seq![Tok::Byte(b)],
        ),
{
    let s = seq![('+' as u8)] + ser_byte_digits(b);
    let hi = (b >> 4) as nat;
    let lo = (b & 0x0f) as nat;
    assert((b >> 4) < 16 && (b & 0x0f) < 16) by (bit_vector);
    assert((b >> 4) * 16 + (b & 0x0f) == b) by (bit_vector);
    lemma_hex_char(hi);
    lemma_hex_char(lo);
    assert(s.len() == 3);
    assert(s[0] == ('+' as u8));
    assert(s[1] == hex_char(hi));
    assert(s[2] == hex_char(lo));
    assert((hex_digit_val(s[1]) * 16 + hex_digit_val(s[2])) as u8 == b);
    assert(spec_lex(s) == lex_cont(s, 3, seq![Tok::Byte(b)]));
    assert(s.skip(3) =~= Seq::<u8>::empty());
    assert(lex_cont(s, 3, seq![Tok::Byte(b)]) == Ok::<Seq<Tok>, LexError>(
        seq![Tok::Byte(b)] + Seq::<Tok>::empty(),
    ));
    assert(seq![Tok::Byte(b)] + Seq::<Tok>::empty() =~= seq![Tok::Byte(b)]);
}

/// Variable reference round trip: the two hex digits of a variable's
/// address tokenize back to exactly that reference.
pub proof fn lemma_var_round_trip(v: u8)
    ensures
        spec_lex(seq![('$' as u8)] + ser_byte_digits(v)) == Ok::<Seq<Tok>, LexError>(
            seq![Tok::Var(v)],
        ),
{
    let s = seq![('$' as u8)] + ser_byte_digits(v);
    let hi = (v >> 4) as nat;
    let lo = (v & 0x0f) as nat;
    assert((v >> 4) < 16 && (v & 0x0f) < 16) by (bit_vector);
    assert((v >> 4) * 16 + (v & 0x0f) == v) by (bit_vector);
    lemma_hex_char(hi);
    lemma_hex_char(lo);
    assert(s.len() == 3);
    assert(s[0] == ('$' as u8));
    let d = s.skip(1);
    assert(d.len() == 2);
    assert(d[0] == hex_char(hi));
    assert(d[1] == hex_char(lo));
    lemma_hex_run_is(d, 2);
    assert(s.subrange(1, 3) =~= d);
    let d1 = seq![hex_char(hi)];
    assert(d.drop_last() =~= d1);
    assert(d.last() == hex_char(lo));
    assert(d1.drop_last() =~= Seq::<u8>::empty());
    assert(d1.last() == hex_char(hi));
    assert(hex_val(Seq::<u8>::empty()) == 0);
    assert(hex_val(d1) == hex_digit_val(hex_char(hi)));
    assert(hex_val(d) == hex_digit_val(hex_char(hi)) * 16 + hex_digit_val(hex_char(lo)));
    assert(hex_val(d) == v);
    assert(spec_lex(s) == lex_cont(s, 3, seq![Tok::Var(v)]));
    assert(s.skip(3) =~= Seq::<u8>::empty());
    assert(seq![Tok::Var(v)] + Seq::<Tok>::empty() =~= seq![Tok::Var(v)]);
}

/// Integer literal round trip: the decimal text of any 64-bit integer,
/// negative sign included, tokenizes back to exactly that integer.
pub proof fn lemma_int_round_trip(n: i64)
    ensures
        spec_lex(
            if n >= 0 {
                dec_print(n as nat)
            } else {
                seq![('-' as u8)] + dec_print((-(n as int)) as nat)
            },
        ) == Ok::<Seq<Tok>, LexError>(seq![Tok::Num(n)]),
{
    if n >= 0 {
        let s = dec_print(n as nat);
        lemma_dec_print(n as nat);
        lemma_digit_run_is(s, s.len() as int);
        assert(is_digit(s[0]));
        assert(!is_lower(s[0]));
        assert(s.subrange(0, s.len() as int) =~= s);
        assert(s.skip(0) =~= s);
        assert(dec_val(s.subrange(0, 0 + digit_run(s.skip(0)) as int)) == n as nat);
        assert(spec_lex(s) == lex_cont(s, s.len() as int, seq![Tok::Num(n)]));
        assert(s.skip(s.len() as int) =~= Seq::<u8>::empty());
        assert(seq![Tok::Num(n)] + Seq::<Tok>::empty() =~= seq![Tok::Num(n)]);
    } else {
        let mag = (-(n as int)) as nat;
        let d = dec_print(mag);
        let s = seq![('-' as u8)] + d;
        lemma_dec_print(mag);
        assert(s[0] == ('-' as u8));
        assert(!is_digit(('-' as u8)));
        assert(!is_lower(('-' as u8)));
        assert(s.skip(1) =~= d);
        lemma_digit_run_is(d, d.len() as int);
        assert(s.subrange(1, 1 + d.len() as int) =~= d);
        assert(mag <= 0x8000_0000_0000_0000nat);
        assert((-(mag as int)) as i64 == n);
        assert(spec_lex(s) == lex_cont(s, 1 + d.len() as int, seq![Tok::Num(n)]));
        assert(s.skip(1 + d.len() as int) =~= Seq::<u8>::empty());
        assert(seq![Tok::Num(n)] + Seq::<Tok>::empty() =~= seq![Tok::Num(n)]);
    }
}

/// Float literal round trip: any well-formed numeral text, re-serialized
/// behind its hash sigil, tokenizes back to a float literal carrying
/// exactly that numeral, so the value it denotes is unchanged.
pub proof fn lemma_float_round_trip(t: Seq<u8>)
    requires
        float_numeral_ok(t),
        forall|q: int| 0 <= q < t.len() ==> is_float_char(#[trigger] t[q]),
    ensures
        spec_lex(seq![('#' as u8)] + t) == Ok::<Seq<Tok>, LexError>(seq![Tok::Float(t)]),
{
    let s = seq![('#' as u8)] + t;
    assert(s[0] == ('#' as u8));
    assert(s.skip(1) =~= t);
    lemma_float_run_is(t, t.len() as int);
    assert(s.subrange(1, 1 + t.len() as int) =~= t);
    assert(spec_lex(s) == lex_cont(s, 1 + t.len() as int, seq![Tok::Float(t)]));
    assert(s.skip(1 + t.len() as int) =~= Seq::<u8>::empty());
    assert(seq![Tok::Float(t)] + Seq::<Tok>::empty() =~= seq![Tok::Float(t)]);
}

} // verus!
// Parse laws for written hex literals: what any hex run denotes, over the
// whole range of values that can be written.

verus! {

/// A written variable reference, in general: `$` followed by any nonempty
/// run of hex digits. A value up to 255 tokenizes to exactly that
/// reference; a value above 255 that still fits a signed 64-bit integer
/// is the address-range error; a value beyond that range is the
/// malformed-number error, where integer parsing itself gives out.
pub proof fn lemma_var_hex_parse(h: Seq<u8>)
    requires
        h.len() >= 1,
        forall|q: int| 0 <= q < h.len() ==> is_hex_digit(#[trigger] h[q]),
    ensures
        hex_val(h) <= 255 ==> spec_lex(seq![('$' as u8)] + h) == Ok::<Seq<Tok>, LexError>(
            seq![Tok::Var(hex_val(h) as u8)],
        ),
        255 < hex_val(h) <= i64::MAX as nat ==> spec_lex(seq![('$' as u8)] + h) == Err::<
            Seq<Tok>,
            LexError,
        >(LexError::VarOutOfRange(0)),
        hex_val(h) > i64::MAX as nat ==> spec_lex(seq![('$' as u8)] + h) == Err::<
            Seq<Tok>,
            LexError,
        >(LexError::BadNumber(0)),
{
    let s = seq![('$' as u8)] + h;
    assert(s[0] == ('$' as u8));
    assert(s.skip(1) =~= h);
    lemma_hex_run_is(h, h.len() as int);
    assert(s.subrange(1, 1 + h.len() as int) =~= h);
    if hex_val(h) <= 255 {
        assert(spec_lex(s) == lex_cont(s, 1 + h.len() as int, seq![Tok::Var(hex_val(h) as u8)]));
        assert(s.skip(1 + h.len() as int) =~= Seq::<u8>::empty());
        assert(seq![Tok::Var(hex_val(h) as u8)] + Seq::<Tok>::empty() =~= seq![
            Tok::Var(hex_val(h) as u8),
        ]);
    }
}

/// A written hex integer, in general: `@` followed by any nonempty run of
/// hex digits. A value that fits a signed 64-bit integer tokenizes to
/// exactly that integer; a larger one is the malformed-number error.
pub proof fn lemma_int_hex_parse(h: Seq<u8>)
    requires
        h.len() >= 1,
        forall|q: int| 0 <= q < h.len() ==> is_hex_digit(#[trigger] h[q]),
    ensures
        hex_val(h) <= i64::MAX as nat ==> spec_lex(seq![('@' as u8)] + h) == Ok::<
            Seq<Tok>,
            LexError,
        >(seq![Tok::Num(hex_val(h) as i64)]),
        hex_val(h) > i64::MAX as nat ==> spec_lex(seq![('@' as u8)] + h) == Err::<
            Seq<Tok>,
            LexError,
        >(LexError::BadNumber(0)),
{
    let s = seq![('@' as u8)] + h;
    assert(s[0] == ('@' as u8));
    assert(s.skip(1) =~= h);
    lemma_hex_run_is(h, h.len() as int);
    assert(s.subrange(1, 1 + h.len() as int) =~= h);
    if hex_val(h) <= i64::MAX as nat {
        assert(spec_lex(s) == lex_cont(s, 1 + h.len() as int, seq![Tok::Num(hex_val(h) as i64)]));
        assert(s.skip(1 + h.len() as int) =~= Seq::<u8>::empty());
        assert(seq![Tok::Num(hex_val(h) as i64)] + Seq::<Tok>::empty() =~= seq![
            Tok::Num(hex_val(h) as i64),
        ]);
    }
}

} // verus!
