use vstd::prelude::*;
use vstd::string::*;
use vstd::utf8::*;
use std::ops::Range;
use crate::parser::error::{decimal, decimal_string};

verus! {

broadcast use vstd::utf8::encode_utf8_valid_utf8;

/// The lexical categories of the query language.
#[derive(Debug, PartialEq, Eq, Structural, Clone, Copy)]
pub enum TokenKind {
    Whitespace,
    Mapper,
    As,
    Pipe,
    Select,
    Identifier,
    Number,
    OpenParen,
    CloseParen,
    OpenBrace,
    CloseBrace,
    OpenBracket,
    CloseBracket,
    Dot,
    Comma,
}

impl TokenKind {
    /// The display name of the kind.
    pub open spec fn spec_name(&self) -> Seq<char> {
        match self {
            TokenKind::Whitespace => "Whitespace"@,
            TokenKind::Mapper => "Mapper"@,
            TokenKind::As => "As"@,
            TokenKind::Pipe => "Pipe"@,
            TokenKind::Select => "Select"@,
            TokenKind::Identifier => "Identifier"@,
            TokenKind::Number => "Number"@,
            TokenKind::OpenParen => "OpenParen"@,
            TokenKind::CloseParen => "CloseParen"@,
            TokenKind::OpenBrace => "OpenBrace"@,
            TokenKind::CloseBrace => "CloseBrace"@,
            TokenKind::OpenBracket => "OpenBracket"@,
            TokenKind::CloseBracket => "CloseBracket"@,
            TokenKind::Dot => "Dot"@,
            TokenKind::Comma => "Comma"@,
        }
    }

    /// The display name of the kind.
    pub fn name(&self) -> (r: &'static str)
        ensures
            r@ == self.spec_name(),
    {
        match self {
            TokenKind::Whitespace => "Whitespace",
            TokenKind::Mapper => "Mapper",
            TokenKind::As => "As",
            TokenKind::Pipe => "Pipe",
            TokenKind::Select => "Select",
            TokenKind::Identifier => "Identifier",
            TokenKind::Number => "Number",
            TokenKind::OpenParen => "OpenParen",
            TokenKind::CloseParen => "CloseParen",
            TokenKind::OpenBrace => "OpenBrace",
            TokenKind::CloseBrace => "CloseBrace",
            TokenKind::OpenBracket => "OpenBracket",
            TokenKind::CloseBracket => "CloseBracket",
            TokenKind::Dot => "Dot",
            TokenKind::Comma => "Comma",
        }
    }
}

/// Space, tab, carriage return, line feed or form feed.
pub open spec fn is_space(c: u8) -> bool {
    c == 0x20u8 || c == 0x09u8 || c == 0x0du8 || c == 0x0au8 || c == 0x0cu8
}

/// An ASCII letter.
pub open spec fn is_letter(c: u8) -> bool {
    (0x61u8 <= c && c <= 0x7au8) || (0x41u8 <= c && c <= 0x5au8)
}

/// An ASCII decimal digit.
pub open spec fn is_digit(c: u8) -> bool {
    0x30u8 <= c && c <= 0x39u8
}

/// A byte that can start an identifier: a letter or `_`.
pub open spec fn is_ident_start(c: u8) -> bool {
    is_letter(c) || c == 0x5fu8
}

/// A byte that can continue an identifier: a letter, a digit or `_`.
pub open spec fn is_ident_char(c: u8) -> bool {
    is_ident_start(c) || is_digit(c)
}

/// ASCII lower-casing of one byte.
pub open spec fn lower(c: u8) -> u8 {
    if 0x41u8 <= c && c <= 0x5au8 {
        (c + 32) as u8
    } else {
        c
    }
}

/// The kind of a one-byte punctuation token: `|`, `(`, `)`, `{`, `}`, `[`,
/// `]`, `.` or `,`.
pub open spec fn punct_kind(c: u8) -> Option<TokenKind> {
    if c == 0x7cu8 {
        Some(TokenKind::Pipe)
    } else if c == 0x28u8 {
        Some(TokenKind::OpenParen)
    } else if c == 0x29u8 {
        Some(TokenKind::CloseParen)
    } else if c == 0x7bu8 {
        Some(TokenKind::OpenBrace)
    } else if c == 0x7du8 {
        Some(TokenKind::CloseBrace)
    } else if c == 0x5bu8 {
        Some(TokenKind::OpenBracket)
    } else if c == 0x5du8 {
        Some(TokenKind::CloseBracket)
    } else if c == 0x2eu8 {
        Some(TokenKind::Dot)
    } else if c == 0x2cu8 {
        Some(TokenKind::Comma)
    } else {
        None
    }
}

/// `w` spells `kw` when ASCII case is ignored.
pub open spec fn folds_to(w: Seq<u8>, kw: Seq<u8>) -> bool {
    w.len() == kw.len() && forall|i: int| 0 <= i < w.len() ==> lower(#[trigger] w[i]) == kw[i]
}

/// The keyword texts, in lower case: `map`, `as` and `select`.
pub open spec fn keyword_text(k: TokenKind) -> Seq<u8> {
    match k {
        TokenKind::Mapper => seq![0x6du8, 0x61u8, 0x70u8],
        TokenKind::As => seq![0x61u8, 0x73u8],
        TokenKind::Select => seq![0x73u8, 0x65u8, 0x6cu8, 0x65u8, 0x63u8, 0x74u8],
        _ => Seq::empty(),
    }
}

/// The kinds that keywords give.
pub open spec fn is_keyword(k: TokenKind) -> bool {
    k == TokenKind::Mapper || k == TokenKind::As || k == TokenKind::Select
}

/// The kind of a whole identifier-shaped word: a keyword when it spells one
/// in any letter case, otherwise an identifier.
pub open spec fn word_kind(w: Seq<u8>) -> TokenKind {
    if folds_to(w, keyword_text(TokenKind::Mapper)) {
        TokenKind::Mapper
    } else if folds_to(w, keyword_text(TokenKind::As)) {
        TokenKind::As
    } else if folds_to(w, keyword_text(TokenKind::Select)) {
        TokenKind::Select
    } else {
        TokenKind::Identifier
    }
}

/// The first position at or after `p` that does not start a whitespace run.
pub open spec fn skip_space(b: Seq<u8>, p: int) -> int
    decreases b.len() - p,
{
    if 0 <= p < b.len() && is_space(b[p]) {
        skip_space(b, p + 1)
    } else {
        p
    }
}

/// The end of the run of identifier characters that starts at `p`.
pub open spec fn ident_end(b: Seq<u8>, p: int) -> int
    decreases b.len() - p,
{
    if 0 <= p < b.len() && is_ident_char(b[p]) {
        ident_end(b, p + 1)
    } else {
        p
    }
}

/// The end of the run of digits that starts at `p`.
pub open spec fn digits_end(b: Seq<u8>, p: int) -> int
    decreases b.len() - p,
{
    if 0 <= p < b.len() && is_digit(b[p]) {
        digits_end(b, p + 1)
    } else {
        p
    }
}

/// The next lexeme after cursor `p`, as (kind, start, end), once whitespace is
/// skipped; `None` at the end of the text or before a byte that no rule accepts.
/// Words and digit runs are taken whole (longest match).
pub open spec fn lexeme_at(b: Seq<u8>, p: int) -> Option<(TokenKind, int, int)> {
    let s = skip_space(b, p);
    if s < 0 || s >= b.len() {
        None
    } else if is_ident_start(b[s]) {
        let e = ident_end(b, s + 1);
        Some((word_kind(b.subrange(s, e)), s, e))
    } else if is_digit(b[s]) {
        Some((TokenKind::Number, s, digits_end(b, s + 1)))
    } else {
        match punct_kind(b[s]) {
            Some(k) => Some((k, s, s + 1)),
            None => None,
        }
    }
}

/// The whole token sequence that lexing from cursor `p` produces.
pub open spec fn lex_from(b: Seq<u8>, p: int) -> Seq<(TokenKind, int, int)>
    decreases b.len() - p,
{
    match lexeme_at(b, p) {
        Some(t) => if p < t.2 <= b.len() {
            seq![t] + lex_from(b, t.2)
        } else {
            Seq::empty()
        },
        None => Seq::empty(),
    }
}

/// The token sequence of a whole text.
pub open spec fn lex(b: Seq<u8>) -> Seq<(TokenKind, int, int)> {
    lex_from(b, 0)
}

/// A byte that no lexing rule accepts.
pub open spec fn is_unrecognized(c: u8) -> bool {
    !is_space(c) && !is_ident_char(c) && punct_kind(c) is None
}

proof fn lemma_skip_space_bounds(b: Seq<u8>, p: int, u: int)
    requires
        0 <= p,
    ensures
        skip_space(b, p) >= p,
        p <= u < b.len() && !is_space(b[u]) ==> skip_space(b, p) <= u,
    decreases b.len() - p,
{
    if 0 <= p < b.len() && is_space(b[p]) {
        lemma_skip_space_bounds(b, p + 1, u);
    }
}

proof fn lemma_ident_end_bounds(b: Seq<u8>, p: int, u: int)
    requires
        0 <= p <= b.len(),
    ensures
        p <= ident_end(b, p) <= b.len(),
        p <= u < b.len() && !is_ident_char(b[u]) ==> ident_end(b, p) <= u,
        (forall|j: int| p <= j < b.len() ==> is_ident_char(#[trigger] b[j])) ==> ident_end(b, p)
            == b.len(),
    decreases b.len() - p,
{
    if p < b.len() && is_ident_char(b[p]) {
        lemma_ident_end_bounds(b, p + 1, u);
    }
}

proof fn lemma_digits_end_bounds(b: Seq<u8>, p: int, u: int)
    requires
        0 <= p <= b.len(),
    ensures
        p <= digits_end(b, p) <= b.len(),
        p <= u < b.len() && !is_digit(b[u]) ==> digits_end(b, p) <= u,
    decreases b.len() - p,
{
    if p < b.len() && is_digit(b[p]) {
        lemma_digits_end_bounds(b, p + 1, u);
    }
}

/// A lexeme starts at or after the cursor and is a non-empty range of the
/// text; when the byte at `u` is accepted by no rule, a lexeme found at a
/// cursor up to `u` ends by `u`.
proof fn lemma_lexeme_bounds(b: Seq<u8>, p: int, u: int)
    requires
        0 <= p,
    ensures
        lexeme_at(b, p) matches Some(t) ==> p <= t.1 < t.2 <= b.len(),
        lexeme_at(b, p) matches Some(t) ==> (p <= u < b.len() && is_unrecognized(b[u])
            ==> t.2 <= u),
{
    let s = skip_space(b, p);
    lemma_skip_space_bounds(b, p, u);
    if 0 <= s < b.len() {
        lemma_ident_end_bounds(b, s + 1, u);
        lemma_digits_end_bounds(b, s + 1, u);
    }
}

/// Spans of the tokens lexed from a cursor lie after it, are non-empty, and
/// each ends no later than the next one starts.
proof fn lemma_spans_from(b: Seq<u8>, p: int)
    requires
        0 <= p,
    ensures
        forall|i: int|
            0 <= i < lex_from(b, p).len() ==> p <= (#[trigger] lex_from(b, p)[i]).1 < lex_from(
                b,
                p,
            )[i].2 <= b.len(),
        forall|i: int, j: int|
            0 <= i < j < lex_from(b, p).len() ==> (#[trigger] lex_from(b, p)[i]).2 <= (
            #[trigger] lex_from(b, p)[j]).1,
    decreases b.len() - p,
{
    lemma_lexeme_bounds(b, p, 0);
    if let Some(t) = lexeme_at(b, p) {
        if p < t.2 <= b.len() {
            lemma_spans_from(b, t.2);
            let ts = lex_from(b, p);
            let rest = lex_from(b, t.2);
            assert(ts == seq![t] + rest);
            assert forall|i: int| 0 <= i < ts.len() implies p <= (#[trigger] ts[i]).1 < ts[i].2
                <= b.len() by {
                if i > 0 {
                    assert(ts[i] == rest[i - 1]);
                }
            }
            assert forall|i: int, j: int| 0 <= i < j < ts.len() implies (#[trigger] ts[i]).2 <= (
            #[trigger] ts[j]).1 by {
                assert(ts[j] == rest[j - 1]);
                if i > 0 {
                    assert(ts[i] == rest[i - 1]);
                }
            }
        }
    }
}

/// Token spans over a whole lexed text are non-empty, lie inside the text,
/// follow each other in order and never overlap.
pub proof fn lemma_spans_ordered(b: Seq<u8>)
    ensures
        forall|i: int|
            0 <= i < lex(b).len() ==> 0 <= (#[trigger] lex(b)[i]).1 < lex(b)[i].2 <= b.len(),
        forall|i: int, j: int|
            0 <= i < j < lex(b).len() ==> (#[trigger] lex(b)[i]).2 <= (#[trigger] lex(b)[j]).1,
{
    lemma_spans_from(b, 0);
}

proof fn lemma_stops_from(b: Seq<u8>, p: int, u: int)
    requires
        0 <= p <= u < b.len(),
        is_unrecognized(b[u]),
    ensures
        forall|i: int| 0 <= i < lex_from(b, p).len() ==> (#[trigger] lex_from(b, p)[i]).2 <= u,
    decreases b.len() - p,
{
    lemma_lexeme_bounds(b, p, u);
    if let Some(t) = lexeme_at(b, p) {
        if p < t.2 <= b.len() {
            let ts = lex_from(b, p);
            let rest = lex_from(b, t.2);
            if t.2 <= u {
                lemma_stops_from(b, t.2, u);
            }
            assert forall|i: int| 0 <= i < ts.len() implies (#[trigger] ts[i]).2 <= u by {
                if i > 0 {
                    assert(ts[i] == rest[i - 1]);
                }
            }
        }
    }
}

/// Lexing ends before a byte that no rule accepts: no token reaches past it.
pub proof fn lemma_stops_before_unrecognized(b: Seq<u8>, u: int)
    requires
        0 <= u < b.len(),
        is_unrecognized(b[u]),
    ensures
        forall|i: int| 0 <= i < lex(b).len() ==> (#[trigger] lex(b)[i]).2 <= u,
{
    lemma_stops_from(b, 0, u);
}

proof fn lemma_runs_in_prefix(b: Seq<u8>, u: int, p: int)
    requires
        0 <= p <= u < b.len(),
    ensures
        !is_space(b[u]) ==> skip_space(b, p) == skip_space(b.subrange(0, u), p),
        !is_ident_char(b[u]) ==> ident_end(b, p) == ident_end(b.subrange(0, u), p),
        !is_digit(b[u]) ==> digits_end(b, p) == digits_end(b.subrange(0, u), p),
    decreases u - p,
{
    let a = b.subrange(0, u);
    if p < u {
        assert(a[p] == b[p]);
        lemma_runs_in_prefix(b, u, p + 1);
    }
}

proof fn lemma_lex_prefix_from(b: Seq<u8>, u: int, p: int)
    requires
        0 <= p <= u < b.len(),
        is_unrecognized(b[u]),
    ensures
        lex_from(b, p) == lex_from(b.subrange(0, u), p),
    decreases u - p,
{
    let a = b.subrange(0, u);
    lemma_runs_in_prefix(b, u, p);
    lemma_skip_space_bounds(b, p, u);
    let st = skip_space(b, p);
    if st < u {
        assert(a[st] == b[st]);
        lemma_runs_in_prefix(b, u, st + 1);
        lemma_ident_end_bounds(b, st + 1, u);
        lemma_digits_end_bounds(b, st + 1, u);
        let e = ident_end(b, st + 1);
        assert(a.subrange(st, e) =~= b.subrange(st, e));
    }
    assert(lexeme_at(b, p) == lexeme_at(a, p));
    lemma_lexeme_bounds(b, p, u);
    if let Some(t) = lexeme_at(b, p) {
        if p < t.2 {
            lemma_lex_prefix_from(b, u, t.2);
        }
    }
}

/// Lexing stops silently at a byte that no rule accepts: the tokens of the
/// whole text are exactly those of the text before that byte.
pub proof fn lemma_lex_stops_at_unrecognized(b: Seq<u8>, u: int)
    requires
        0 <= u < b.len(),
        is_unrecognized(b[u]),
    ensures
        lex(b) == lex(b.subrange(0, u)),
{
    lemma_lex_prefix_from(b, u, 0);
}

/// A text that spells a keyword in any mix of letter cases lexes to that
/// keyword alone, never to an identifier.
pub proof fn lemma_keyword_any_case(w: Seq<u8>, k: TokenKind)
    requires
        is_keyword(k),
        folds_to(w, keyword_text(k)),
    ensures
        lex(w) == seq![(k, 0int, w.len() as int)],
{
    let kw = keyword_text(k);
    assert forall|j: int| 0 <= j < w.len() implies is_ident_char(#[trigger] w[j]) by {
        assert(lower(w[j]) == kw[j]);
    }
    assert(lower(w[0]) == kw[0]);
    lemma_ident_end_bounds(w, 1, 0);
    assert(w.subrange(0, w.len() as int) =~= w);
    assert(lexeme_at(w, w.len() as int) is None);
    assert(lex_from(w, w.len() as int) =~= Seq::empty());
}

/// Two lexings of texts with the same bytes give the same tokens.
pub proof fn lemma_lex_deterministic(s1: &str, s2: &str)
    requires
        s1@ == s2@,
    ensures
        lex(s1.spec_bytes()) == lex(s2.spec_bytes()),
{
}

/// In valid UTF-8 the byte after an ASCII byte starts a character.
proof fn lemma_boundary_after_ascii(b: Seq<u8>, i: int)
    requires
        valid_utf8(b),
        0 < i <= b.len(),
        b[i - 1] < 0x80u8,
    ensures
        is_char_boundary(b, i),
    decreases b.len(),
{
    let w = length_of_first_scalar(b);
    let rest = pop_first_scalar(b);
    assert(valid_first_scalar(b) && valid_utf8(rest));
    assert(1 <= w <= b.len());
    assert(i >= w);
    assert(rest.len() == b.len() - w);
    assert(is_char_boundary(rest, 0));
    if i > w {
        assert(rest[i - w - 1] == b[i - 1]);
        lemma_boundary_after_ascii(rest, i - w);
    }
    assert(is_char_boundary(b, i) == is_char_boundary(rest, i - w));
}

/// Every byte of an ASCII byte run starts a character, and so does the byte after it.
pub(crate) proof fn lemma_ascii_run_boundaries(b: Seq<u8>, s: int, e: int)
    requires
        valid_utf8(b),
        0 <= s < e <= b.len(),
        forall|j: int| s <= j < e ==> b[j] < 0x80u8,
    ensures
        is_char_boundary(b, s),
        is_char_boundary(b, e),
{
    if s > 0 {
        is_char_boundary_iff_not_is_continuation_byte(b, s);
    }
    lemma_boundary_after_ascii(b, e);
}

/// The part of `source` between two character boundaries.
pub(crate) fn slice_span<'a>(source: &'a str, s: usize, e: usize) -> (r: &'a str)
    requires
        s <= e <= source.spec_bytes().len(),
        is_char_boundary(source.spec_bytes(), s as int),
        is_char_boundary(source.spec_bytes(), e as int),
    ensures
        r.spec_bytes() == source.spec_bytes().subrange(s as int, e as int),
{
    let b = Ghost(source.spec_bytes());
    let (head, _) = source.split_at(e);
    proof {
        let hb = head.spec_bytes();
        assert(hb.len() == e);
        if s == e {
            is_char_boundary_start_end_of_seq(hb);
        } else if s > 0 {
            assert(hb[s as int] == b@[s as int]);
            is_char_boundary_iff_not_is_continuation_byte(b@, s as int);
            is_char_boundary_iff_not_is_continuation_byte(hb, s as int);
        }
    }
    let (_, r) = head.split_at(s);
    proof {
        assert(r.spec_bytes() =~= source.spec_bytes().subrange(s as int, e as int));
    }
    r
}

/// How a token is shown: its kind and its span.
pub open spec fn describe_text(kind: TokenKind, start: usize, end: usize) -> Seq<char> {
    kind.spec_name() + " at "@ + decimal(start as nat) + ".."@ + decimal(end as nat)
}

/// One token: its kind, the text it was read from, its own text and its
/// half-open byte span in that text.
#[derive(Debug, PartialEq)]
pub struct LqToken<'a> {
    pub source: &'a str,
    pub kind: TokenKind,
    pub at: &'a str,
    pub span: Range<usize>,
}

impl<'a> LqToken<'a> {
    /// (kind, start, end) of the token.
    pub open spec fn triple(&self) -> (TokenKind, int, int) {
        (self.kind, self.span.start as int, self.span.end as int)
    }

    /// The bytes of the source that the span covers.
    pub open spec fn lexeme(&self) -> Seq<u8> {
        self.source.spec_bytes().subrange(self.span.start as int, self.span.end as int)
    }

    /// The span is a range of whole characters of the source.
    pub open spec fn span_ok(&self) -> bool {
        &&& self.span.start <= self.span.end <= self.source.spec_bytes().len()
        &&& is_char_boundary(self.source.spec_bytes(), self.span.start as int)
        &&& is_char_boundary(self.source.spec_bytes(), self.span.end as int)
    }

    /// What the lexer guarantees of its tokens: the span is a non-empty range
    /// of whole characters of the source, and `at` holds exactly its bytes.
    pub open spec fn wf(&self) -> bool {
        &&& self.span_ok()
        &&& self.span.start < self.span.end
        &&& self.at.spec_bytes() == self.lexeme()
    }

    /// The kind and span of the token, as `Identifier at 4..7`.
    pub fn describe(&self) -> (r: String)
        ensures
            r@ == describe_text(self.kind, self.span.start, self.span.end),
    {
        let mut r = String::from_str(self.kind.name());
        r.append(" at ");
        let start = decimal_string(self.span.start);
        r.append(start.as_str());
        r.append("..");
        let end = decimal_string(self.span.end);
        r.append(end.as_str());
        r
    }

    /// The text of the token, sliced from the source by its span.
    pub fn text(&self) -> (r: &'a str)
        requires
            self.span_ok(),
        ensures
            r.spec_bytes() == self.lexeme(),
            self.wf() ==> r.spec_bytes() == self.at.spec_bytes(),
    {
        slice_span(self.source, self.span.start, self.span.end)
    }
}

/// A forward-only lexer over one source text.
pub struct LqTokenizer<'a> {
    source: &'a str,
    pos: usize,
}

impl<'a> LqTokenizer<'a> {
    pub closed spec fn spec_source(&self) -> &'a str {
        self.source
    }

    /// The byte offset of the cursor.
    pub closed spec fn spec_pos(&self) -> int {
        self.pos as int
    }

    /// The cursor lies within the text.
    pub open spec fn wf(&self) -> bool {
        0 <= self.spec_pos() <= self.spec_source().spec_bytes().len()
    }

    /// Tokens that lexing the rest of the text yields.
    pub open spec fn remaining(&self) -> Seq<(TokenKind, int, int)> {
        lex_from(self.spec_source().spec_bytes(), self.spec_pos())
    }

    pub fn new(source: &'a str) -> (r: Self)
        ensures
            r.spec_source() == source,
            r.spec_pos() == 0,
            r.wf(),
    {
        LqTokenizer { source, pos: 0 }
    }
}

fn byte_is_space(c: u8) -> (r: bool)
    ensures
        r == is_space(c),
{
    c == 0x20u8 || c == 0x09u8 || c == 0x0du8 || c == 0x0au8 || c == 0x0cu8
}

pub(crate) fn byte_is_digit(c: u8) -> (r: bool)
    ensures
        r == is_digit(c),
{
    0x30u8 <= c && c <= 0x39u8
}

pub(crate) fn byte_is_ident_start(c: u8) -> (r: bool)
    ensures
        r == is_ident_start(c),
{
    (0x61u8 <= c && c <= 0x7au8) || (0x41u8 <= c && c <= 0x5au8) || c == 0x5fu8
}

fn byte_is_ident_char(c: u8) -> (r: bool)
    ensures
        r == is_ident_char(c),
{
    byte_is_ident_start(c) || byte_is_digit(c)
}

fn lower_byte(c: u8) -> (r: u8)
    ensures
        r == lower(c),
{
    if 0x41u8 <= c && c <= 0x5au8 {
        c + 32
    } else {
        c
    }
}

fn punct_kind_of(c: u8) -> (r: Option<TokenKind>)
    ensures
        r == punct_kind(c),
{
    if c == 0x7cu8 {
        Some(TokenKind::Pipe)
    } else if c == 0x28u8 {
        Some(TokenKind::OpenParen)
    } else if c == 0x29u8 {
        Some(TokenKind::CloseParen)
    } else if c == 0x7bu8 {
        Some(TokenKind::OpenBrace)
    } else if c == 0x7du8 {
        Some(TokenKind::CloseBrace)
    } else if c == 0x5bu8 {
        Some(TokenKind::OpenBracket)
    } else if c == 0x5du8 {
        Some(TokenKind::CloseBracket)
    } else if c == 0x2eu8 {
        Some(TokenKind::Dot)
    } else if c == 0x2cu8 {
        Some(TokenKind::Comma)
    } else {
        None
    }
}

/// Whether `b[s..e]` spells `kw` in any letter case.
fn spells(b: &[u8], s: usize, e: usize, kw: &[u8]) -> (r: bool)
    requires
        s <= e <= b@.len(),
    ensures
        r == folds_to(b@.subrange(s as int, e as int), kw@),
{
    let ghost w = b@.subrange(s as int, e as int);
    if e - s != kw.len() {
        return false;
    }
    let mut i: usize = 0;
    while i < kw.len()
        invariant
            e - s == kw@.len(),
            s <= e <= b@.len(),
            w == b@.subrange(s as int, e as int),
            0 <= i <= kw@.len(),
            forall|j: int| 0 <= j < i ==> lower(#[trigger] w[j]) == kw@[j],
        decreases kw@.len() - i,
    {
        if lower_byte(b[s + i]) != kw[i] {
            assert(lower(w[i as int]) != kw@[i as int]);
            return false;
        }
        i = i + 1;
    }
    true
}

/// The kind of the word `b[s..e]`.
fn word_kind_of(b: &[u8], s: usize, e: usize) -> (r: TokenKind)
    requires
        s <= e <= b@.len(),
    ensures
        r == word_kind(b@.subrange(s as int, e as int)),
{
    let map_kw: [u8; 3] = [0x6du8, 0x61u8, 0x70u8];
    let as_kw: [u8; 2] = [0x61u8, 0x73u8];
    let select_kw: [u8; 6] = [0x73u8, 0x65u8, 0x6cu8, 0x65u8, 0x63u8, 0x74u8];
    assert(map_kw@ =~= keyword_text(TokenKind::Mapper));
    assert(as_kw@ =~= keyword_text(TokenKind::As));
    assert(select_kw@ =~= keyword_text(TokenKind::Select));
    if spells(b, s, e, map_kw.as_slice()) {
        TokenKind::Mapper
    } else if spells(b, s, e, as_kw.as_slice()) {
        TokenKind::As
    } else if spells(b, s, e, select_kw.as_slice()) {
        TokenKind::Select
    } else {
        TokenKind::Identifier
    }
}

/// The first position at or after `p` that does not start a whitespace run.
pub(crate) fn space_end(b: &[u8], p: usize) -> (r: usize)
    requires
        p <= b@.len(),
    ensures
        r == skip_space(b@, p as int),
        p <= r <= b@.len(),
{
    let mut s: usize = p;
    while s < b.len() && byte_is_space(b[s])
        invariant
            p <= s <= b@.len(),
            skip_space(b@, s as int) == skip_space(b@, p as int),
        decreases b@.len() - s,
    {
        s = s + 1;
    }
    s
}

/// The end of the run of identifier characters from `p`; all of it is ASCII.
pub(crate) fn ident_run_end(b: &[u8], p: usize) -> (r: usize)
    requires
        p <= b@.len(),
    ensures
        r == ident_end(b@, p as int),
        p <= r <= b@.len(),
        forall|j: int| p <= j < r ==> b@[j] < 0x80u8,
{
    let mut e: usize = p;
    while e < b.len() && byte_is_ident_char(b[e])
        invariant
            p <= e <= b@.len(),
            ident_end(b@, e as int) == ident_end(b@, p as int),
            forall|j: int| p <= j < e ==> b@[j] < 0x80u8,
        decreases b@.len() - e,
    {
        e = e + 1;
    }
    e
}

/// The end of the run of digits from `p`; all of it is ASCII.
pub(crate) fn digit_run_end(b: &[u8], p: usize) -> (r: usize)
    requires
        p <= b@.len(),
    ensures
        r == digits_end(b@, p as int),
        p <= r <= b@.len(),
        forall|j: int| p <= j < r ==> b@[j] < 0x80u8,
{
    let mut e: usize = p;
    while e < b.len() && byte_is_digit(b[e])
        invariant
            p <= e <= b@.len(),
            digits_end(b@, e as int) == digits_end(b@, p as int),
            forall|j: int| p <= j < e ==> b@[j] < 0x80u8,
        decreases b@.len() - e,
    {
        e = e + 1;
    }
    e
}

/// The next lexeme after cursor `p`, computed; see `lexeme_at`.
fn scan(b: &[u8], p: usize) -> (r: Option<(TokenKind, usize, usize)>)
    requires
        p <= b@.len(),
    ensures
        match r {
            Some(t) => lexeme_at(b@, p as int) == Some((t.0, t.1 as int, t.2 as int)) && p <= t.1
                < t.2 <= b@.len() && forall|j: int| t.1 <= j < t.2 ==> b@[j] < 0x80u8,
            None => lexeme_at(b@, p as int) is None,
        },
{
    let s = space_end(b, p);
    if s >= b.len() {
        return None;
    }
    let c = b[s];
    if byte_is_ident_start(c) {
        let e = ident_run_end(b, s + 1);
        Some((word_kind_of(b, s, e), s, e))
    } else if byte_is_digit(c) {
        Some((TokenKind::Number, s, digit_run_end(b, s + 1)))
    } else {
        match punct_kind_of(c) {
            Some(k) => Some((k, s, s + 1)),
            None => None,
        }
    }
}

impl<'a> LqTokenizer<'a> {
    /// Reads the next token and moves the cursor past it. At the end of the
    /// text, or before a byte that no rule accepts, yields nothing and stays.
    pub fn next(&mut self) -> (r: Option<LqToken<'a>>)
        requires
            old(self).wf(),
        ensures
            final(self).wf(),
            final(self).spec_source() == old(self).spec_source(),
            match lexeme_at(old(self).spec_source().spec_bytes(), old(self).spec_pos()) {
                Some(t) => {
                    &&& r matches Some(tok)
                    &&& tok.triple() == t
                    &&& tok.source == old(self).spec_source()
                    &&& tok.wf()
                    &&& final(self).spec_pos() == t.2
                    &&& old(self).spec_pos() < t.2
                },
                None => r is None && final(self).spec_pos() == old(self).spec_pos(),
            },
    {
        let b = self.source.as_bytes();
        match scan(b, self.pos) {
            Some((kind, s, e)) => {
                proof {
                    lemma_ascii_run_boundaries(b@, s as int, e as int);
                }
                let at = slice_span(self.source, s, e);
                self.pos = e;
                Some(LqToken { source: self.source, kind, at, span: s..e })
            },
            None => None,
        }
    }

    /// Reads every remaining token, in order.
    pub fn collect_tokens(self) -> (r: Vec<LqToken<'a>>)
        requires
            self.wf(),
        ensures
            r@.len() == self.remaining().len(),
            forall|i: int|
                0 <= i < r@.len() ==> {
                    &&& (#[trigger] r@[i]).triple() == self.remaining()[i]
                    &&& r@[i].source == self.spec_source()
                    &&& r@[i].wf()
                },
    {
        let ghost all = self.remaining();
        let mut lexer = self;
        let mut out: Vec<LqToken<'a>> = Vec::new();
        loop
            invariant
                lexer.spec_source() == self.spec_source(),
                lexer.wf(),
                all == self.remaining(),
                out@.len() + lexer.remaining().len() == all.len(),
                forall|i: int| 0 <= i < lexer.remaining().len()
                    ==> #[trigger] lexer.remaining()[i] == all[out@.len() + i],
                forall|i: int|
                    0 <= i < out@.len() ==> {
                        &&& (#[trigger] out@[i]).triple() == all[i]
                        &&& out@[i].source == self.spec_source()
                        &&& out@[i].wf()
                    },
            decreases self.spec_source().spec_bytes().len() - lexer.spec_pos(),
        {
            let ghost before = lexer.remaining();
            match lexer.next() {
                Some(tok) => {
                    proof {
                        assert(before == seq![tok.triple()] + lexer.remaining());
                        assert(all[out@.len() as int] == before[0]);
                    }
                    out.push(tok);
                    proof {
                        assert forall|i: int| 0 <= i < lexer.remaining().len() implies
                            #[trigger] lexer.remaining()[i] == all[out@.len() + i] by {
                            assert(lexer.remaining()[i] == before[i + 1]);
                        }
                    }
                },
                None => {
                    return out;
                },
            }
        }
    }
}

} // verus!
