//! The token vocabulary shared by the lexer and the code generator.

use vstd::prelude::*;

verus! {

/// A lexical token of the ASC source language.
///
/// Text payloads (identifiers, labels, float numerals) are byte strings:
/// the source language is an ASCII subset, so the lexer works on bytes.
/// A float literal keeps its numeral text (digits and at most one dot);
/// the code generator maps the numeral to its eight payload bytes through
/// an evaluation table supplied by the caller, because the verifier does
/// not admit floating-point arithmetic.
#[derive(Debug, PartialEq)]
pub enum Token {
    /// A run of lowercase letters: a mnemonic or a routine name.
    Ident(Vec<u8>),
    /// `!name`: a jump target declaration.
    Label(Vec<u8>),
    /// `"…"`: up to eight characters, null-padded to exactly eight.
    Str([u8; 8]),
    /// `$XX`: a variable address, at most 255.
    Var(u8),
    /// `@XX` or decimal: a 64-bit signed integer.
    Num(i64),
    /// `+XX`: a single byte.
    Byte(u8),
    /// `#digits.digits`: the numeral text of a float literal.
    Float(Vec<u8>),
    /// `[…]`: exactly eight byte literals.
    Array([u8; 8]),
    /// `{…}`: a recursively tokenized block.
    Block(Vec<Token>),
    /// `;`: a statement separator.
    EndL,
}

/// The mathematical image of a [`Token`]: the same tree over `Seq`.
pub ghost enum Tok {
    Ident(Seq<u8>),
    Label(Seq<u8>),
    Str(Seq<u8>),
    Var(u8),
    Num(i64),
    Byte(u8),
    Float(Seq<u8>),
    Array(Seq<u8>),
    Block(Seq<Tok>),
    EndL,
}

/// The abstraction of one token.
pub open spec fn tok_view(t: Token) -> Tok
    decreases t,
{
    match t {
        Token::Ident(s) => Tok::Ident(s@),
        Token::Label(s) => Tok::Label(s@),
        Token::Str(a) => Tok::Str(a@),
        Token::Var(v) => Tok::Var(v),
        Token::Num(n) => Tok::Num(n),
        Token::Byte(b) => Tok::Byte(b),
        Token::Float(s) => Tok::Float(s@),
        Token::Array(a) => Tok::Array(a@),
        Token::Block(b) => Tok::Block(toks_view(b@)),
        Token::EndL => Tok::EndL,
    }
}

/// The abstraction of a token sequence, element by element.
pub open spec fn toks_view(s: Seq<Token>) -> Seq<Tok>
    decreases s,
{
    if s.len() == 0 {
        Seq::empty()
    } else {
        seq![tok_view(s[0])] + toks_view(s.skip(1))
    }
}

/// `toks_view` maps the sequence pointwise.
pub proof fn lemma_toks_view(s: Seq<Token>)
    ensures
        toks_view(s).len() == s.len(),
        forall|i: int| 0 <= i < s.len() ==> toks_view(s)[i] == tok_view(s[i]),
    decreases s.len(),
{
    if s.len() > 0 {
        lemma_toks_view(s.skip(1));
    }
}

/// Appending one token appends its view.
pub proof fn lemma_toks_view_push(s: Seq<Token>, t: Token)
    ensures
        toks_view(s.push(t)) == toks_view(s).push(tok_view(t)),
{
    lemma_toks_view(s.push(t));
    lemma_toks_view(s);
    assert(toks_view(s.push(t)) =~= toks_view(s).push(tok_view(t)));
}

/// A structural copy of one token: same shape, same payloads.
pub fn copy_token(t: &Token) -> (r: Token)
    ensures
        tok_view(r) == tok_view(*t),
    decreases *t,
{
    match t {
        Token::Ident(s) => {
            let mut v: Vec<u8> = Vec::new();
            v.extend_from_slice(s.as_slice());
            proof {
                assert(v@ =~= s@);
            }
            Token::Ident(v)
        },
        Token::Label(s) => {
            let mut v: Vec<u8> = Vec::new();
            v.extend_from_slice(s.as_slice());
            proof {
                assert(v@ =~= s@);
            }
            Token::Label(v)
        },
        Token::Str(a) => Token::Str(*a),
        Token::Var(v) => Token::Var(*v),
        Token::Num(n) => Token::Num(*n),
        Token::Byte(b) => Token::Byte(*b),
        Token::Float(s) => {
            let mut v: Vec<u8> = Vec::new();
            v.extend_from_slice(s.as_slice());
            proof {
                assert(v@ =~= s@);
            }
            Token::Float(v)
        },
        Token::Array(a) => Token::Array(*a),
        Token::Block(b) => {
            let n = b.len();
            let mut v: Vec<Token> = Vec::new();
            let mut i: usize = 0;
            proof {
                lemma_toks_view(b@);
            }
            while i < n
                invariant
                    *t == Token::Block(*b),
                    i <= n,
                    n == b@.len(),
                    v@.len() == i,
                    forall|q: int| 0 <= q < b@.len() ==> toks_view(b@)[q] == tok_view(b@[q]),
                    toks_view(b@).len() == b@.len(),
                    forall|q: int| 0 <= q < i ==> tok_view(v@[q]) == toks_view(b@)[q],
                decreases n - i,
            {
                let ghost v0 = v@;
                proof {
                    assert(*t == Token::Block(*b));
                    assert(decreases_to!(*t => (*t)->Block_0));
                    assert((*t)->Block_0 == *b);
                    assert(decreases_to!(*b => b@));
                    assert(decreases_to!(b@ => b@[i as int]));
                }
                v.push(copy_token(&b[i]));
                proof {
                    lemma_toks_view_push(v0, v@.last());
                }
                i = i + 1;
            }
            proof {
                lemma_toks_view(v@);
                assert(toks_view(v@) =~= toks_view(b@));
            }
            Token::Block(v)
        },
        Token::EndL => Token::EndL,
    }
}

/// A structural copy of a token sequence.
pub fn copy_tokens(ts: &Vec<Token>) -> (r: Vec<Token>)
    ensures
        toks_view(r@) == toks_view(ts@),
{
    let n = ts.len();
    let mut v: Vec<Token> = Vec::new();
    let mut i: usize = 0;
    proof {
        lemma_toks_view(ts@);
    }
    while i < n
        invariant
            i <= n,
            n == ts@.len(),
            v@.len() == i,
            forall|q: int| 0 <= q < ts@.len() ==> toks_view(ts@)[q] == tok_view(ts@[q]),
            toks_view(ts@).len() == ts@.len(),
            forall|q: int| 0 <= q < i ==> tok_view(v@[q]) == toks_view(ts@)[q],
        decreases n - i,
    {
        let ghost v0 = v@;
        v.push(copy_token(&ts[i]));
        proof {
            lemma_toks_view_push(v0, v@.last());
        }
        i = i + 1;
    }
    proof {
        lemma_toks_view(v@);
        assert(toks_view(v@) =~= toks_view(ts@));
    }
    v
}

impl Token {
    /// The raw byte image of a literal token's payload: the bytes the code
    /// generator embeds in a `var`/`let` assignment. Only tokens that carry
    /// a fixed-width payload can be converted; a float numeral has no byte
    /// image without an evaluation table, and the remaining variants carry
    /// no payload at all.
    pub fn to_bytes(self) -> (r: Vec<u8>)
        requires
            self is Str || self is Byte || self is Var || self is Num,
        ensures
            tok_view(self) matches Tok::Str(s) ==> r@ == s,
            tok_view(self) matches Tok::Byte(b) ==> r@ == seq![b],
            tok_view(self) matches Tok::Var(v) ==> r@ == seq![v],
            tok_view(self) matches Tok::Num(n) ==> r@ == vstd::bytes::spec_u64_to_le_bytes(
                n as u64,
            ),
    {
        match self {
            Token::Str(a) => {
                let mut v: Vec<u8> = Vec::new();
                let mut i: usize = 0;
                while i < 8
                    invariant
                        i <= 8,
                        v@ == a@.take(i as int),
                    decreases 8 - i,
                {
                    v.push(a[i]);
                    i = i + 1;
                }
                proof {
                    assert(v@ =~= a@);
                }
                v
            },
            Token::Byte(b) => {
                let mut v: Vec<u8> = Vec::new();
                v.push(b);
                v
            },
            Token::Var(a) => {
                let mut v: Vec<u8> = Vec::new();
                v.push(a);
                v
            },
            Token::Num(n) => vstd::bytes::u64_to_le_bytes(n as u64),
            _ => {
                // unreachable under the precondition
                Vec::new()
            },
        }
    }
}

} // verus!
