use vstd::prelude::*;
use vstd::string::*;
use vstd::utf8::*;
use crate::parser::error::PError;
use crate::parser::token::{LqToken, TokenKind};
use crate::parser::{Input, PResult};

verus! {

/// The token at cursor `pos`, if there is one, has a span that can be sliced.
pub open spec fn span_ok_at(toks: Seq<LqToken>, pos: int) -> bool {
    0 <= pos < toks.len() ==> toks[pos].span_ok()
}

/// The next token, at cursor `pos`, has kind `kind`.
pub open spec fn kind_at(toks: Seq<LqToken>, pos: int, kind: TokenKind) -> bool {
    0 <= pos < toks.len() && toks[pos].kind == kind
}

/// The error of `match_token(kind)` at cursor `pos`.
pub open spec fn kind_error(toks: Seq<LqToken>, pos: int, kind: TokenKind) -> PError {
    if 0 <= pos < toks.len() {
        PError::Expected { expected: kind, found: toks[pos].kind, at: toks[pos].span.start }
    } else {
        PError::Exhausted { expected: kind }
    }
}

/// Reads one token of kind `kind`.
pub fn match_token<'a>(kind: TokenKind, input: Input<'a>, pos: usize) -> (r: PResult<
    &'a LqToken<'a>,
>)
    ensures
        r is Ok <==> kind_at(input@, pos as int, kind),
        r matches Ok((q, t)) ==> q == pos + 1 && *t == input@[pos as int],
        r matches Err(e) ==> e == kind_error(input@, pos as int, kind),
{
    if pos < input.len() {
        let token = &input[pos];
        if token.kind == kind {
            Ok((pos + 1, token))
        } else {
            Err(PError::Expected { expected: kind, found: token.kind, at: token.span.start })
        }
    } else {
        Err(PError::Exhausted { expected: kind })
    }
}

fn same_bytes(a: &[u8], b: &[u8]) -> (r: bool)
    ensures
        r == (a@ == b@),
{
    if a.len() != b.len() {
        return false;
    }
    let mut i: usize = 0;
    while i < a.len()
        invariant
            a@.len() == b@.len(),
            0 <= i <= a@.len(),
            forall|j: int| 0 <= j < i ==> a@[j] == b@[j],
        decreases a@.len() - i,
    {
        if a[i] != b[i] {
            return false;
        }
        i = i + 1;
    }
    assert(a@ =~= b@);
    true
}

/// Reads one token whose text is exactly `text`, whatever its kind.
pub fn match_text<'a>(text: &str, input: Input<'a>, pos: usize) -> (r: PResult<&'a LqToken<'a>>)
    requires
        span_ok_at(input@, pos as int),
    ensures
        r is Ok <==> pos < input@.len() && input@[pos as int].lexeme() == text.spec_bytes(),
        r matches Ok((q, t)) ==> q == pos + 1 && *t == input@[pos as int],
        r matches Err(e) ==> e matches PError::TextMismatch { text: t } && t@ == text@,
{
    if pos < input.len() {
        let token = &input[pos];
        if same_bytes(token.text().as_bytes(), text.as_bytes()) {
            return Ok((pos + 1, token));
        }
    }
    Err(PError::TextMismatch { text: text.to_owned() })
}

/// Reads one identifier and returns its text.
pub fn label_identifier<'a>(input: Input<'a>, pos: usize) -> (r: PResult<String>)
    requires
        span_ok_at(input@, pos as int),
    ensures
        r is Ok <==> kind_at(input@, pos as int, TokenKind::Identifier),
        r matches Ok((q, s)) ==> q == pos + 1 && encode_utf8(s@) == input@[pos as int].lexeme(),
        r matches Err(e) ==> e == kind_error(input@, pos as int, TokenKind::Identifier),
{
    match match_token(TokenKind::Identifier, input, pos) {
        Ok((q, token)) => {
                Ok((q, token.text().to_owned()))
        },
        Err(e) => Err(e),
    }
}

/// The cursor after an optional filler token at `p`. The lexer never yields
/// one, so on lexed input this is `p`; tokens built by other means may hold it.
pub open spec fn filler_skip(toks: Seq<LqToken>, p: usize) -> usize {
    if kind_at(toks, p as int, TokenKind::Whitespace) {
        (p + 1) as usize
    } else {
        p
    }
}

fn skip_filler<'a>(input: Input<'a>, p: usize) -> (r: usize)
    ensures
        r == filler_skip(input@, p),
{
    if p < input.len() && input[p].kind == TokenKind::Whitespace {
        p + 1
    } else {
        p
    }
}

/// Where the element with index `k` of a list starts: at `start` for the
/// first, after the separator that follows the element before it otherwise.
pub open spec fn item_start(toks: Seq<LqToken>, start: usize, ends: Seq<usize>, k: int) -> usize {
    if k == 0 {
        start
    } else {
        (filler_skip(toks, ends[k - 1]) + 1) as usize
    }
}

/// The elements `vs` were read one after another from `start`, with a
/// separator between each two: element `k` was read by `f` after optional
/// filler at its start, and `f` ended it at `ends[k]`.
pub open spec fn items_trace<'a, O, F: Fn(Input<'a>, usize) -> PResult<O>>(
    f: F,
    input: Input<'a>,
    sep: TokenKind,
    start: usize,
    vs: Seq<O>,
    ends: Seq<usize>,
) -> bool {
    &&& vs.len() == ends.len()
    &&& forall|k: int|
        0 <= k < vs.len() ==> #[trigger] f.ensures(
            (input, filler_skip(input@, item_start(input@, start, ends, k))),
            Ok((ends[k], vs[k])),
        )
    &&& forall|k: int|
        0 <= k < vs.len() - 1 ==> kind_at(input@, #[trigger] filler_skip(input@, ends[k]) as int, sep)
}

/// The elements end at `stop`: no separator follows, or `f` fails on what
/// follows the separator.
pub open spec fn list_ends<'a, O, F: Fn(Input<'a>, usize) -> PResult<O>>(
    f: F,
    input: Input<'a>,
    sep: TokenKind,
    stop: usize,
) -> bool {
    ||| !kind_at(input@, stop as int, sep)
    ||| exists|e: PError|
        #[trigger] f.ensures((input, filler_skip(input@, (stop + 1) as usize)), Err::<(usize, O), PError>(e))
}

/// Where the closer is looked for once the elements end at `stop`: after
/// one trailing separator, if there is one.
pub open spec fn close_at(toks: Seq<LqToken>, sep: TokenKind, stop: usize) -> usize {
    if kind_at(toks, stop as int, sep) {
        (stop + 1) as usize
    } else {
        stop
    }
}

/// The elements `vs`, ending at `ends`, form the whole of a list's body from
/// `start`: at least one element, and the list stops where no further element follows.
pub open spec fn list_body<'a, O, F: Fn(Input<'a>, usize) -> PResult<O>>(
    f: F,
    input: Input<'a>,
    sep: TokenKind,
    start: usize,
    vs: Seq<O>,
    ends: Seq<usize>,
) -> bool {
    &&& vs.len() >= 1
    &&& items_trace(f, input, sep, start, vs, ends)
    &&& list_ends(f, input, sep, filler_skip(input@, ends.last()))
}

/// Reads `opener`, one or more elements with `element_parser` separated by
/// `sep`, an optional trailing `sep`, and `closer`; returns the elements in
/// order. An empty list is rejected: when no element can be read after the
/// opener, the whole list fails. A separator after which no element can
/// be read is taken as the trailing one.
pub fn separated_list<'a, F, O>(
    opener: TokenKind,
    closer: TokenKind,
    sep: TokenKind,
    element_parser: F,
    _wherein: &str,
    _expected: &str,
    input: Input<'a>,
    pos: usize,
) -> (r: PResult<Vec<O>>) where F: Fn(Input<'a>, usize) -> PResult<O>
    requires
        forall|p: usize| #[trigger] element_parser.requires((input, p)),
        forall|p: usize, res: PResult<O>|
            #[trigger] element_parser.ensures((input, p), res) ==> (res matches Ok((q, _)) ==> p <= q),
    ensures
        !kind_at(input@, pos as int, opener) ==> r == Err::<(usize, Vec<O>), PError>(
            kind_error(input@, pos as int, opener),
        ),
        (forall|res: PResult<O>|
            #[trigger] element_parser.ensures(
                (input, filler_skip(input@, (pos + 1) as usize)),
                res,
            ) ==> res is Err) ==> r is Err,
        r matches Ok((q, vs)) ==> {
            &&& kind_at(input@, pos as int, opener)
            &&& vs@.len() >= 1
            &&& exists|end: usize|
                #[trigger] element_parser.ensures(
                    (input, filler_skip(input@, (pos + 1) as usize)),
                    Ok((end, vs@[0])),
                )
            &&& exists|ends: Seq<usize>|
                {
                    &&& #[trigger] list_body(element_parser, input, sep, (pos + 1) as usize, vs@, ends)
                    &&& kind_at(
                        input@,
                        close_at(input@, sep, filler_skip(input@, ends.last())) as int,
                        closer,
                    )
                    &&& q == close_at(input@, sep, filler_skip(input@, ends.last())) + 1
                }
        },
        r matches Err(e) ==> {
            ||| !kind_at(input@, pos as int, opener) && e == kind_error(input@, pos as int, opener)
            ||| kind_at(input@, pos as int, opener) && element_parser.ensures(
                (input, filler_skip(input@, (pos + 1) as usize)),
                Err::<(usize, O), PError>(e),
            )
            ||| kind_at(input@, pos as int, opener) && exists|vs: Seq<O>, ends: Seq<usize>|
                {
                    &&& #[trigger] list_body(element_parser, input, sep, (pos + 1) as usize, vs, ends)
                    &&& !kind_at(
                        input@,
                        close_at(input@, sep, filler_skip(input@, ends.last())) as int,
                        closer,
                    )
                    &&& e == kind_error(
                        input@,
                        close_at(input@, sep, filler_skip(input@, ends.last())) as int,
                        closer,
                    )
                }
        },
{
    let start = match match_token(opener, input, pos) {
        Ok((p, _)) => p,
        Err(e) => {
            return Err(e);
        },
    };
    let first_at = skip_filler(input, start);
    let (end, first) = match element_parser(input, first_at) {
        Ok(x) => x,
        Err(e) => {
            return Err(e);
        },
    };
    let mut items: Vec<O> = Vec::new();
    items.push(first);
    let ghost mut ends: Seq<usize> = seq![end];
    let mut stop = skip_filler(input, end);
    loop
        invariant
            forall|p: usize| #[trigger] element_parser.requires((input, p)),
            forall|p: usize, res: PResult<O>|
                #[trigger] element_parser.ensures((input, p), res) ==> (res matches Ok((q, _)) ==> p
                    <= q),
            start == pos + 1,
            items@.len() >= 1,
            items_trace(element_parser, input, sep, start, items@, ends),
            stop == filler_skip(input@, ends.last()),
        ensures
            items@.len() >= 1,
            items_trace(element_parser, input, sep, start, items@, ends),
            stop == filler_skip(input@, ends.last()),
            list_ends(element_parser, input, sep, stop),
        decreases usize::MAX - stop,
    {
        if stop < input.len() && input[stop].kind == sep {
            let next_at = skip_filler(input, stop + 1);
            match element_parser(input, next_at) {
                Ok((end, v)) => {
                    let ghost old_items = items@;
                    let ghost old_ends = ends;
                    items.push(v);
                    proof {
                        ends = ends.push(end);
                        assert(item_start(input@, start, ends, ends.len() - 1) == stop + 1);
                        assert forall|k: int| 0 <= k < items@.len() implies #[trigger] element_parser.ensures(
                            (input, filler_skip(input@, item_start(input@, start, ends, k))),
                            Ok((ends[k], items@[k])),
                        ) by {
                            if k < old_items.len() {
                                assert(ends[k] == old_ends[k] && items@[k] == old_items[k]);
                                assert(item_start(input@, start, ends, k) == item_start(
                                    input@,
                                    start,
                                    old_ends,
                                    k,
                                ));
                            }
                        }
                        assert forall|k: int| 0 <= k < items@.len() - 1 implies kind_at(
                            input@,
                            #[trigger] filler_skip(input@, ends[k]) as int,
                            sep,
                        ) by {
                            if k < old_items.len() - 1 {
                                assert(ends[k] == old_ends[k]);
                            } else {
                                assert(ends[k] == old_ends.last());
                            }
                        }
                    }
                    stop = skip_filler(input, end);
                },
                Err(e) => {
                    assert(element_parser.ensures(
                        (input, filler_skip(input@, (stop + 1) as usize)),
                        Err::<(usize, O), PError>(e),
                    ));
                    break ;
                },
            }
        } else {
            break ;
        }
    }
    assert(list_body(element_parser, input, sep, start, items@, ends));
    let close = if stop < input.len() && input[stop].kind == sep {
        stop + 1
    } else {
        stop
    };
    assert(close == close_at(input@, sep, filler_skip(input@, ends.last())));
    match match_token(closer, input, close) {
        Ok((q, _)) => {
            assert(item_start(input@, start, ends, 0) == start);
            assert(element_parser.ensures(
                (input, filler_skip(input@, (pos + 1) as usize)),
                Ok((ends[0], items@[0])),
            ));
            assert(exists|ends2: Seq<usize>|
                {
                    &&& #[trigger] list_body(element_parser, input, sep, (pos + 1) as usize, items@, ends2)
                    &&& kind_at(
                        input@,
                        close_at(input@, sep, filler_skip(input@, ends2.last())) as int,
                        closer,
                    )
                    &&& q == close_at(input@, sep, filler_skip(input@, ends2.last())) + 1
                });
            let r = Ok((q, items));
            assert(r matches Ok((q2, vs)) && vs@ == items@);
            r
        },
        Err(e) => Err(e),
    }
}

} // verus!
