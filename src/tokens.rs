//! The first, smaller lexer of the language: keywords are matched in lower
//! case only, and the only punctuation is braces, dot and comma.
use vstd::prelude::*;
use vstd::string::*;
use std::ops::Range;
use crate::parser::token::{
    byte_is_digit, byte_is_ident_start, digit_run_end, digits_end, ident_end, ident_run_end,
    is_digit, is_ident_start, lemma_ascii_run_boundaries, skip_space, slice_span, space_end,
};

verus! {

broadcast use vstd::utf8::encode_utf8_valid_utf8;

/// The lexical categories of the smaller lexer.
#[derive(Debug, PartialEq, Eq, Structural, Clone, Copy)]
pub enum TokenKind {
    Whitespace,
    Mapper,
    As,
    Identifier,
    Number,
    OpenBrace,
    CloseBrace,
    Dot,
    Comma,
}

impl TokenKind {
    /// How the kind is shown: the keyword or symbol itself, or a lower-case word.
    pub open spec fn spec_name(&self) -> Seq<char> {
        match self {
            TokenKind::Whitespace => "whitespace"@,
            TokenKind::Mapper => "map"@,
            TokenKind::As => "as"@,
            TokenKind::Identifier => "identifier"@,
            TokenKind::Number => "number"@,
            TokenKind::OpenBrace => "{"@,
            TokenKind::CloseBrace => "}"@,
            TokenKind::Dot => "."@,
            TokenKind::Comma => ","@,
        }
    }

    /// How the kind is shown.
    pub fn name(&self) -> (r: &'static str)
        ensures
            r@ == self.spec_name(),
    {
        match self {
            TokenKind::Whitespace => "whitespace",
            TokenKind::Mapper => "map",
            TokenKind::As => "as",
            TokenKind::Identifier => "identifier",
            TokenKind::Number => "number",
            TokenKind::OpenBrace => "{",
            TokenKind::CloseBrace => "}",
            TokenKind::Dot => ".",
            TokenKind::Comma => ",",
        }
    }
}

/// The kind of a one-byte punctuation token: `{`, `}`, `.` or `,`.
pub open spec fn punct_kind(c: u8) -> Option<TokenKind> {
    if c == 0x7bu8 {
        Some(TokenKind::OpenBrace)
    } else if c == 0x7du8 {
        Some(TokenKind::CloseBrace)
    } else if c == 0x2eu8 {
        Some(TokenKind::Dot)
    } else if c == 0x2cu8 {
        Some(TokenKind::Comma)
    } else {
        None
    }
}

/// The kind of a whole identifier-shaped word: `map` and `as`, exactly in
/// lower case, are keywords; any other word is an identifier.
pub open spec fn word_kind(w: Seq<u8>) -> TokenKind {
    if w == seq![0x6du8, 0x61u8, 0x70u8] {
        TokenKind::Mapper
    } else if w == seq![0x61u8, 0x73u8] {
        TokenKind::As
    } else {
        TokenKind::Identifier
    }
}

/// The next lexeme after cursor `p`, as (kind, start, end), once whitespace
/// is skipped; `None` at the end of the text or before a byte no rule accepts.
pub open spec fn lexeme_at(b: Seq<u8>, p: int) -> Option<(TokenKind, int, int)> {
    let s = skip_space(b, p);
    if s < 0 || s >= b.len() {
        None
    } else if is_ident_start(b[s]) {
        let e = ident_end(b, s + 1);
        Some((word_kind(b.subrange(s, e)), s, e))
    } else if is_digit(b[s]) {
        Some((TokenKind::Number, s, digits_end(b, s + 1)))
    } else {
        match punct_kind(b[s]) {
            Some(k) => Some((k, s, s + 1)),
            None => None,
        }
    }
}

/// The whole token sequence that lexing from cursor `p` produces.
pub open spec fn lex_from(b: Seq<u8>, p: int) -> Seq<(TokenKind, int, int)>
    decreases b.len() - p,
{
    match lexeme_at(b, p) {
        Some(t) => if p < t.2 <= b.len() {
            seq![t] + lex_from(b, t.2)
        } else {
            Seq::empty()
        },
        None => Seq::empty(),
    }
}

fn punct_kind_of(c: u8) -> (r: Option<TokenKind>)
    ensures
        r == punct_kind(c),
{
    if c == 0x7bu8 {
        Some(TokenKind::OpenBrace)
    } else if c == 0x7du8 {
        Some(TokenKind::CloseBrace)
    } else if c == 0x2eu8 {
        Some(TokenKind::Dot)
    } else if c == 0x2cu8 {
        Some(TokenKind::Comma)
    } else {
        None
    }
}

/// The kind of the word `b[s..e]`.
fn word_kind_of(b: &[u8], s: usize, e: usize) -> (r: TokenKind)
    requires
        s <= e <= b@.len(),
    ensures
        r == word_kind(b@.subrange(s as int, e as int)),
{
    let ghost w = b@.subrange(s as int, e as int);
    if e - s == 3 && b[s] == 0x6du8 && b[s + 1] == 0x61u8 && b[s + 2] == 0x70u8 {
        assert(w =~= seq![0x6du8, 0x61u8, 0x70u8]);
        TokenKind::Mapper
    } else if e - s == 2 && b[s] == 0x61u8 && b[s + 1] == 0x73u8 {
        assert(w =~= seq![0x61u8, 0x73u8]);
        TokenKind::As
    } else {
        proof {
            assert(w.len() == e - s);
            if w == seq![0x6du8, 0x61u8, 0x70u8] {
                assert(w[0] == 0x6du8 && w[1] == 0x61u8 && w[2] == 0x70u8);
                assert(w[0] == b@[s as int] && w[1] == b@[s + 1] && w[2] == b@[s + 2]);
            }
            if w == seq![0x61u8, 0x73u8] {
                assert(w[0] == 0x61u8 && w[1] == 0x73u8);
                assert(w[0] == b@[s as int] && w[1] == b@[s + 1]);
            }
        }
        TokenKind::Identifier
    }
}

/// The next lexeme after cursor `p`, computed; see `lexeme_at`.
fn scan(b: &[u8], p: usize) -> (r: Option<(TokenKind, usize, usize)>)
    requires
        p <= b@.len(),
    ensures
        match r {
            Some(t) => lexeme_at(b@, p as int) == Some((t.0, t.1 as int, t.2 as int)) && p <= t.1
                < t.2 <= b@.len() && forall|j: int| t.1 <= j < t.2 ==> b@[j] < 0x80u8,
            None => lexeme_at(b@, p as int) is None,
        },
{
    let s = space_end(b, p);
    if s >= b.len() {
        return None;
    }
    let c = b[s];
    if byte_is_ident_start(c) {
        let e = ident_run_end(b, s + 1);
        Some((word_kind_of(b, s, e), s, e))
    } else if byte_is_digit(c) {
        Some((TokenKind::Number, s, digit_run_end(b, s + 1)))
    } else {
        match punct_kind_of(c) {
            Some(k) => Some((k, s, s + 1)),
            None => None,
        }
    }
}

/// One token of the smaller lexer: its kind, its text and its byte span.
#[derive(Debug, PartialEq)]
pub struct LqToken<'a> {
    pub kind: TokenKind,
    pub at: &'a str,
    pub span: Range<usize>,
}

impl<'a> LqToken<'a> {
    /// (kind, start, end) of the token.
    pub open spec fn triple(&self) -> (TokenKind, int, int) {
        (self.kind, self.span.start as int, self.span.end as int)
    }
}

/// A forward-only lexer over one source text.
pub struct LqTokenizer<'a> {
    source: &'a str,
    pos: usize,
}

impl<'a> LqTokenizer<'a> {
    pub closed spec fn spec_source(&self) -> &'a str {
        self.source
    }

    /// The byte offset of the cursor.
    pub closed spec fn spec_pos(&self) -> int {
        self.pos as int
    }

    /// The cursor lies within the text.
    pub open spec fn wf(&self) -> bool {
        0 <= self.spec_pos() <= self.spec_source().spec_bytes().len()
    }

    /// Tokens that lexing the rest of the text yields.
    pub open spec fn remaining(&self) -> Seq<(TokenKind, int, int)> {
        lex_from(self.spec_source().spec_bytes(), self.spec_pos())
    }

    pub fn new(source: &'a str) -> (r: Self)
        ensures
            r.spec_source() == source,
            r.spec_pos() == 0,
            r.wf(),
    {
        LqTokenizer { source, pos: 0 }
    }

    /// Reads the next token and moves the cursor past it. At the end of the
    /// text, or before a byte that no rule accepts, yields nothing and stays.
    pub fn next(&mut self) -> (r: Option<LqToken<'a>>)
        requires
            old(self).wf(),
        ensures
            final(self).wf(),
            final(self).spec_source() == old(self).spec_source(),
            match lexeme_at(old(self).spec_source().spec_bytes(), old(self).spec_pos()) {
                Some(t) => {
                    &&& r matches Some(tok)
                    &&& tok.triple() == t
                    &&& tok.at.spec_bytes() == old(self).spec_source().spec_bytes().subrange(
                        t.1,
                        t.2,
                    )
                    &&& final(self).spec_pos() == t.2
                    &&& old(self).spec_pos() < t.2
                },
                None => r is None && final(self).spec_pos() == old(self).spec_pos(),
            },
    {
        let b = self.source.as_bytes();
        match scan(b, self.pos) {
            Some((kind, s, e)) => {
                proof {
                    lemma_ascii_run_boundaries(b@, s as int, e as int);
                }
                let at = slice_span(self.source, s, e);
                self.pos = e;
                Some(LqToken { kind, at, span: s..e })
            },
            None => None,
        }
    }

    /// Reads every remaining token, in order.
    pub fn collect_tokens(self) -> (r: Vec<LqToken<'a>>)
        requires
            self.wf(),
        ensures
            r@.len() == self.remaining().len(),
            forall|i: int|
                0 <= i < r@.len() ==> {
                    &&& (#[trigger] r@[i]).triple() == self.remaining()[i]
                    &&& r@[i].at.spec_bytes() == self.spec_source().spec_bytes().subrange(
                        self.remaining()[i].1,
                        self.remaining()[i].2,
                    )
                },
    {
        let ghost all = self.remaining();
        let mut lexer = self;
        let mut out: Vec<LqToken<'a>> = Vec::new();
        loop
            invariant
                lexer.spec_source() == self.spec_source(),
                lexer.wf(),
                all == self.remaining(),
                out@.len() + lexer.remaining().len() == all.len(),
                forall|i: int| 0 <= i < lexer.remaining().len()
                    ==> #[trigger] lexer.remaining()[i] == all[out@.len() + i],
                forall|i: int|
                    0 <= i < out@.len() ==> {
                        &&& (#[trigger] out@[i]).triple() == all[i]
                        &&& out@[i].at.spec_bytes() == self.spec_source().spec_bytes().subrange(
                            all[i].1,
                            all[i].2,
                        )
                    },
            decreases self.spec_source().spec_bytes().len() - lexer.spec_pos(),
        {
            let ghost before = lexer.remaining();
            match lexer.next() {
                Some(tok) => {
                    proof {
                        assert(before == seq![tok.triple()] + lexer.remaining());
                        assert(all[out@.len() as int] == before[0]);
                    }
                    out.push(tok);
                    proof {
                        assert forall|i: int| 0 <= i < lexer.remaining().len() implies
                            #[trigger] lexer.remaining()[i] == all[out@.len() + i] by {
                            assert(lexer.remaining()[i] == before[i + 1]);
                        }
                    }
                },
                None => {
                    return out;
                },
            }
        }
    }
}

} // verus!
