//! The parser: ordered-choice recursive descent over the token stream.
//!
//! Item alternatives are tried in a fixed priority — text, comment,
//! expression, `let`, `scope`, `for`, `if`, `match`, `macro`, `call` — and the
//! first that consumes a non-failing prefix wins. When every alternative
//! fails, the error that failed furthest into the source is kept; two
//! candidates failing at the same span merge their expected sets.
//!
//! Each executable function is proved equal to a specification mirror
//! (`spec_parse_*`), and those mirrors are what the rest of the pipeline's
//! contracts compose with.

use vstd::prelude::*;

use crate::ast::{
    spec_decompose, Ast, Item, SpecAst, SpecItem,
};
use crate::chars::{
    eq_chars, starts_with_chars, subvec, to_chars, trim_chars, trim_spec, trim_start_chars,
    trim_start_spec,
};
use crate::diag::{
    exps_view, merge_expected, spec_merge, BlockFilter, Error, Expected, SpecBlockFilter,
    SpecError, SpecExpected,
};
use crate::lexer::spans_wf;
use crate::span::{Span, Spanned};
use crate::token::Token;

verus! {

/// The characters of the source under a span.
pub open spec fn slice_of(src: Seq<char>, sp: Span) -> Seq<char> {
    src.subrange(sp.start as int, sp.end as int)
}

/// The source under a span, with surrounding whitespace removed.
pub open spec fn trimmed(src: Seq<char>, sp: Span) -> Seq<char> {
    trim_spec(slice_of(src, sp))
}

/// `p` is a prefix of `a`.
pub open spec fn starts_with_spec(a: Seq<char>, p: Seq<char>) -> bool {
    a.len() >= p.len() && a.subrange(0, p.len() as int) == p
}

/// The error raised at end of input or on a wrong token.
pub open spec fn spec_exact(
    src: Seq<char>,
    toks: Seq<Spanned<Token>>,
    pos: int,
    token: Token,
) -> Result<(int, Span), SpecError> {
    if pos < toks.len() {
        let t = toks[pos];
        if t.node == token {
            Ok((pos + 1, t.span))
        } else {
            Err(
                SpecError {
                    span: t.span,
                    token: Some(t.node),
                    expected: seq![SpecExpected::Token(token)],
                },
            )
        }
    } else {
        Err(
            SpecError {
                span: Span { start: src.len() as usize, end: src.len() as usize },
                token: None,
                expected: seq![SpecExpected::Token(token)],
            },
        )
    }
}

/// Consumes one whitespace-only text token, if one is next.
pub open spec fn spec_skip_empty(src: Seq<char>, toks: Seq<Spanned<Token>>, pos: int) -> int {
    if 0 <= pos < toks.len() && toks[pos].node == Token::Other && trimmed(src, toks[pos].span).len()
        == 0 {
        pos + 1
    } else {
        pos
    }
}

/// A diagnostic with its expected set replaced.
pub open spec fn with_expected(e: SpecError, s: Seq<SpecExpected>) -> SpecError {
    SpecError { span: e.span, token: e.token, expected: s }
}

/// The value of an unreachable branch kept only for termination checking.
pub open spec fn abort_error() -> SpecError {
    SpecError { span: Span { start: 0, end: 0 }, token: None, expected: Seq::empty() }
}

/// Order on spans: by start offset, then by end offset.
pub open spec fn span_lt(a: Span, b: Span) -> bool {
    a.start < b.start || (a.start == b.start && a.end < b.end)
}

/// Furthest-progress choice between two failed (or succeeded) alternatives:
/// the first success wins; among failures the later span wins, and equal
/// spans merge their expected sets.
pub open spec fn spec_alt(
    a: Result<(int, SpecItem), SpecError>,
    b: Result<(int, SpecItem), SpecError>,
) -> Result<(int, SpecItem), SpecError> {
    match a {
        Ok(_) => a,
        Err(e1) => match b {
            Ok(_) => b,
            Err(e2) => {
                if span_lt(e2.span, e1.span) {
                    Err(e1)
                } else if span_lt(e1.span, e2.span) {
                    Err(e2)
                } else {
                    Err(
                        SpecError {
                            span: e1.span,
                            token: e1.token,
                            expected: spec_merge(e1.expected, e2.expected),
                        },
                    )
                }
            },
        },
    }
}

/// The index of the first `c` in `s`, or `s.len()` if there is none.
pub open spec fn find_ch(s: Seq<char>, c: char) -> int
    decreases s.len(),
{
    if s.len() == 0 {
        0
    } else if s[0] == c {
        0
    } else {
        1 + find_ch(s.drop_first(), c)
    }
}

pub proof fn lemma_find_ch(s: Seq<char>, c: char)
    ensures
        0 <= find_ch(s, c) <= s.len(),
        forall|i: int| 0 <= i < find_ch(s, c) ==> s[i] != c,
        find_ch(s, c) < s.len() ==> s[find_ch(s, c)] == c,
    decreases s.len(),
{
    if s.len() > 0 && s[0] != c {
        let d = s.drop_first();
        lemma_find_ch(d, c);
        assert forall|i: int| 0 <= i < find_ch(s, c) implies s[i] != c by {
            if i > 0 {
                assert(s[i] == d[i - 1]);
            }
        }
        if find_ch(s, c) < s.len() {
            assert(s[find_ch(s, c)] == d[find_ch(d, c)]);
        }
    }
}

/// The position of the rightmost `@{` in `s`, or `-1` if there is none.
pub open spec fn rfind_fmt(s: Seq<char>) -> int
    decreases s.len(),
{
    if s.len() < 2 {
        -1
    } else if s[s.len() - 2] == '@' && s[s.len() - 1] == '{' {
        s.len() - 2
    } else {
        rfind_fmt(s.drop_last())
    }
}

pub proof fn lemma_rfind_fmt(s: Seq<char>)
    ensures
        -1 <= rfind_fmt(s) < s.len(),
        rfind_fmt(s) >= 0 ==> rfind_fmt(s) <= s.len() - 2 && s[rfind_fmt(s)] == '@' && s[rfind_fmt(
            s,
        ) + 1] == '{',
        forall|i: int|
            rfind_fmt(s) < i && 0 <= i < s.len() - 1 ==> !(#[trigger] s[i] == '@' && s[i + 1]
                == '{'),
    decreases s.len(),
{
    if s.len() >= 2 && !(s[s.len() - 2] == '@' && s[s.len() - 1] == '{') {
        let d = s.drop_last();
        lemma_rfind_fmt(d);
        assert forall|i: int|
            rfind_fmt(s) < i && 0 <= i < s.len() - 1 implies !(#[trigger] s[i] == '@' && s[i + 1]
                == '{') by {
            if i < s.len() - 2 {
                assert(d[i] == s[i] && d[i + 1] == s[i + 1]);
            }
        }
        if rfind_fmt(s) >= 0 {
            assert(s[rfind_fmt(s)] == d[rfind_fmt(d)]);
            assert(s[rfind_fmt(s) + 1] == d[rfind_fmt(d) + 1]);
        }
    }
}

/// Splitting of `t` on commas that sit outside `{}`, `[]` and `()` groups,
/// scanned from position `i` with the three bracket balances and the start of
/// the current segment; each finished segment is trimmed, and an empty final
/// rest is dropped.
pub open spec fn split_bal(
    t: Seq<char>,
    i: int,
    seg: int,
    b0: int,
    b1: int,
    b2: int,
    acc: Seq<Seq<char>>,
) -> Seq<Seq<char>>
    decreases t.len() - i,
{
    if i < 0 || i >= t.len() || seg > i {
        let rest = trim_spec(t.subrange(seg, t.len() as int));
        if rest.len() > 0 {
            acc.push(rest)
        } else {
            acc
        }
    } else {
        let c = t[i];
        if c == '{' {
            split_bal(t, i + 1, seg, b0 + 1, b1, b2, acc)
        } else if c == '}' {
            split_bal(t, i + 1, seg, b0 - 1, b1, b2, acc)
        } else if c == '[' {
            split_bal(t, i + 1, seg, b0, b1 + 1, b2, acc)
        } else if c == ']' {
            split_bal(t, i + 1, seg, b0, b1 - 1, b2, acc)
        } else if c == '(' {
            split_bal(t, i + 1, seg, b0, b1, b2 + 1, acc)
        } else if c == ')' {
            split_bal(t, i + 1, seg, b0, b1, b2 - 1, acc)
        } else if c == ',' && b0 == 0 && b1 == 0 && b2 == 0 {
            split_bal(t, i + 1, i + 1, b0, b1, b2, acc.push(trim_spec(t.subrange(seg, i))))
        } else {
            split_bal(t, i + 1, seg, b0, b1, b2, acc)
        }
    }
}

/// Strips the enclosing pair `start`/`end` from `t` and splits the inside on
/// balanced commas; `None` when the enclosure is missing.
pub open spec fn spec_untuple(start: Seq<char>, t: Seq<char>, end: Seq<char>) -> Option<
    Seq<Seq<char>>,
> {
    if !starts_with_spec(t, start) {
        None
    } else {
        let t1 = t.skip(start.len() as int);
        if !(t1.len() >= end.len() && t1.subrange(t1.len() - end.len(), t1.len() as int) == end) {
            None
        } else {
            let t2 = t1.take(t1.len() - end.len());
            Some(split_bal(t2, 0, 0, 0, 0, 0, Seq::empty()))
        }
    }
}

/// The `UnclosedComment` diagnostic: at end of input, wanting `#}`.
pub open spec fn unclosed_comment(src: Seq<char>) -> SpecError {
    SpecError {
        span: Span { start: src.len() as usize, end: src.len() as usize },
        token: None,
        expected: seq![SpecExpected::Token(Token::CommentEnd)],
    }
}

/// Mirror of text parsing: one plain-text token becomes a structured text
/// item.
pub open spec fn spec_parse_text(src: Seq<char>, toks: Seq<Spanned<Token>>, pos: int) -> Result<
    (int, SpecItem),
    SpecError,
> {
    match spec_exact(src, toks, pos, Token::Other) {
        Ok((p, sp)) => Ok((p, SpecItem::Text(spec_decompose(slice_of(src, sp))))),
        Err(e) => Err(e),
    }
}

/// Mirror of the comment body scan: nesting depth is tracked, every interior
/// token is opaque content, and running out of input is fatal.
pub open spec fn spec_comment_scan(
    src: Seq<char>,
    toks: Seq<Spanned<Token>>,
    pos: int,
    depth: int,
    start: usize,
    endp: usize,
) -> Result<(int, SpecItem), SpecError>
    decreases toks.len() - pos,
{
    if pos < 0 || pos >= toks.len() {
        Err(unclosed_comment(src))
    } else {
        let t = toks[pos];
        let d2 = if t.node == Token::CommentStart {
            depth + 1
        } else if t.node == Token::CommentEnd {
            depth - 1
        } else {
            depth
        };
        let e2 = if t.node == Token::CommentStart || t.node == Token::CommentEnd {
            endp
        } else {
            t.span.end
        };
        if d2 == 0 {
            Ok((pos + 1, SpecItem::Comment(src.subrange(start as int, e2 as int))))
        } else {
            spec_comment_scan(src, toks, pos + 1, d2, start, e2)
        }
    }
}

/// Mirror of comment parsing.
pub open spec fn spec_parse_comment(src: Seq<char>, toks: Seq<Spanned<Token>>, pos: int) -> Result<
    (int, SpecItem),
    SpecError,
> {
    match spec_exact(src, toks, pos, Token::CommentStart) {
        Err(e) => Err(e),
        Ok((p, _)) => {
            if p >= toks.len() {
                Err(unclosed_comment(src))
            } else {
                spec_comment_scan(src, toks, p, 1, toks[p].span.start, toks[p].span.start)
            }
        },
    }
}

/// Mirror of expression parsing: the content between `{{` and `}}`, trimmed;
/// split at the rightmost `@{` into expression and format, with `{}` as the
/// default format.
pub open spec fn spec_parse_expr(src: Seq<char>, toks: Seq<Spanned<Token>>, pos: int) -> Result<
    (int, SpecItem),
    SpecError,
> {
    match spec_exact(src, toks, pos, Token::ExprStart) {
        Err(e) => Err(e),
        Ok((p1, _)) => match spec_exact(src, toks, p1, Token::Other) {
            Err(e) => Err(e),
            Ok((p2, sp)) => match spec_exact(src, toks, p2, Token::ExprEnd) {
                Err(e) => Err(e),
                Ok((p3, _)) => {
                    let e = trimmed(src, sp);
                    let k = rfind_fmt(e);
                    if k >= 0 {
                        Ok((p3, SpecItem::Expr(e.take(k), e.skip(k + 1))))
                    } else {
                        Ok((p3, SpecItem::Expr(e, "{}"@)))
                    }
                },
            },
        },
    }
}

/// Mirror of block-header parsing: `{%`, content, `%}`, with the trimmed
/// content held against the filter. Any failure reports the block kind, not a
/// raw token.
pub open spec fn spec_parse_block(
    src: Seq<char>,
    toks: Seq<Spanned<Token>>,
    pos: int,
    f: SpecBlockFilter,
) -> Result<(int, Seq<char>), SpecError> {
    let eset = seq![SpecExpected::Block(f)];
    match spec_exact(src, toks, pos, Token::BlockStart) {
        Err(e) => Err(with_expected(e, eset)),
        Ok((p1, _)) => match spec_exact(src, toks, p1, Token::Other) {
            Err(e) => Err(with_expected(e, eset)),
            Ok((p2, sp)) => match spec_exact(src, toks, p2, Token::BlockEnd) {
                Err(e) => Err(with_expected(e, eset)),
                Ok((p3, _)) => {
                    let content = trimmed(src, sp);
                    let matches = match f {
                        SpecBlockFilter::Equals(k) => content == k,
                        SpecBlockFilter::StartsWith(k) => starts_with_spec(content, k),
                    };
                    if matches {
                        Ok((p3, content))
                    } else {
                        Err(
                            SpecError {
                                span: sp,
                                token: Some(Token::BlockStart),
                                expected: eset,
                            },
                        )
                    }
                },
            },
        },
    }
}

/// Mirror of `let` parsing: the whole statement is carried through unparsed.
pub open spec fn spec_parse_let(src: Seq<char>, toks: Seq<Spanned<Token>>, pos: int) -> Result<
    (int, SpecItem),
    SpecError,
> {
    match spec_parse_block(src, toks, pos, SpecBlockFilter::StartsWith("let"@)) {
        Ok((p, c)) => Ok((p, SpecItem::Let(c))),
        Err(e) => Err(e),
    }
}

/// Mirror of `scope` parsing.
pub open spec fn spec_parse_scope(src: Seq<char>, toks: Seq<Spanned<Token>>, pos: int) -> Result<
    (int, SpecItem),
    SpecError,
>
    decreases toks.len() - pos, 0int,
{
    match spec_parse_block(src, toks, pos, SpecBlockFilter::Equals("scope"@)) {
        Err(e) => Err(e),
        Ok((p1, _)) => {
            if !(pos < p1 <= toks.len()) {
                Err(abort_error())
            } else {
                let (p2, items, _e) = spec_parse_ast(src, toks, p1);
                match spec_parse_block(src, toks, p2, SpecBlockFilter::Equals("endscope"@)) {
                    Err(e) => Err(e),
                    Ok((p3, _)) => Ok((p3, SpecItem::Scope(SpecAst { items }))),
                }
            }
        },
    }
}

/// Mirror of `for` parsing: header, body, optional `else` body, end marker.
pub open spec fn spec_parse_for(src: Seq<char>, toks: Seq<Spanned<Token>>, pos: int) -> Result<
    (int, SpecItem),
    SpecError,
>
    decreases toks.len() - pos, 0int,
{
    match spec_parse_block(src, toks, pos, SpecBlockFilter::StartsWith("for"@)) {
        Err(e) => Err(e),
        Ok((p1, head)) => {
            if !(pos < p1 <= toks.len()) {
                Err(abort_error())
            } else {
                let (p2, items, _e) = spec_parse_ast(src, toks, p1);
                if !(pos < p2 <= toks.len()) {
                    Err(abort_error())
                } else {
                    let (p3, els) = match spec_parse_else(src, toks, p2) {
                        Ok((q, a)) => (q, Some(a)),
                        Err(_) => (p2, None),
                    };
                    match spec_parse_block(src, toks, p3, SpecBlockFilter::Equals("endfor"@)) {
                        Err(e) => Err(e),
                        Ok((p4, _)) => Ok(
                            (
                                p4,
                                SpecItem::For {
                                    for_: head,
                                    pre: None,
                                    body: SpecAst { items },
                                    else_: els,
                                },
                            ),
                        ),
                    }
                }
            }
        },
    }
}

/// Mirror of `if` parsing: first branch, `else if` branches, optional `else`,
/// end marker.
pub open spec fn spec_parse_if(src: Seq<char>, toks: Seq<Spanned<Token>>, pos: int) -> Result<
    (int, SpecItem),
    SpecError,
>
    decreases toks.len() - pos, 0int,
{
    match spec_parse_block(src, toks, pos, SpecBlockFilter::StartsWith("if"@)) {
        Err(e) => Err(e),
        Ok((p1, head)) => {
            if !(pos < p1 <= toks.len()) {
                Err(abort_error())
            } else {
                let (p2, items, _e) = spec_parse_ast(src, toks, p1);
                if !(pos < p2 <= toks.len()) {
                    Err(abort_error())
                } else {
                    let (p3, eifs) = spec_parse_else_ifs(src, toks, p2);
                    if !(pos < p3 <= toks.len()) {
                        Err(abort_error())
                    } else {
                        let (p4, els) = match spec_parse_else(src, toks, p3) {
                            Ok((q, a)) => (q, Some(a)),
                            Err(_) => (p3, None),
                        };
                        match spec_parse_block(src, toks, p4, SpecBlockFilter::Equals("endif"@)) {
                            Err(e) => Err(e),
                            Ok((p5, _)) => Ok(
                                (
                                    p5,
                                    SpecItem::If {
                                        if_: (head, SpecAst { items }),
                                        else_ifs: eifs,
                                        else_: els,
                                    },
                                ),
                            ),
                        }
                    }
                }
            }
        },
    }
}

/// Mirror of the `else if` branch list: collected while they parse.
pub open spec fn spec_parse_else_ifs(src: Seq<char>, toks: Seq<Spanned<Token>>, pos: int) -> (
    int,
    Seq<(Seq<char>, SpecAst)>,
)
    decreases toks.len() - pos, 1int,
{
    match spec_parse_else_if(src, toks, pos) {
        Err(_) => (pos, Seq::empty()),
        Ok((p, pair)) => {
            if pos < p <= toks.len() {
                let (p2, rest) = spec_parse_else_ifs(src, toks, p);
                (p2, seq![pair] + rest)
            } else {
                (pos, Seq::empty())
            }
        },
    }
}

/// Mirror of one `else if` branch: header and body.
pub open spec fn spec_parse_else_if(src: Seq<char>, toks: Seq<Spanned<Token>>, pos: int) -> Result<
    (int, (Seq<char>, SpecAst)),
    SpecError,
>
    decreases toks.len() - pos, 0int,
{
    match spec_parse_block(src, toks, pos, SpecBlockFilter::StartsWith("else if"@)) {
        Err(e) => Err(e),
        Ok((p1, head)) => {
            if !(pos < p1 <= toks.len()) {
                Err(abort_error())
            } else {
                let (p2, items, _e) = spec_parse_ast(src, toks, p1);
                Ok((p2, (head, SpecAst { items })))
            }
        },
    }
}

/// Mirror of an `else` clause: marker and body.
pub open spec fn spec_parse_else(src: Seq<char>, toks: Seq<Spanned<Token>>, pos: int) -> Result<
    (int, SpecAst),
    SpecError,
>
    decreases toks.len() - pos, 0int,
{
    match spec_parse_block(src, toks, pos, SpecBlockFilter::Equals("else"@)) {
        Err(e) => Err(e),
        Ok((p1, _)) => {
            if !(pos < p1 <= toks.len()) {
                Err(abort_error())
            } else {
                let (p2, items, _e) = spec_parse_ast(src, toks, p1);
                Ok((p2, SpecAst { items }))
            }
        },
    }
}

/// Mirror of `match` parsing: header, arms, end marker.
pub open spec fn spec_parse_match(src: Seq<char>, toks: Seq<Spanned<Token>>, pos: int) -> Result<
    (int, SpecItem),
    SpecError,
>
    decreases toks.len() - pos, 0int,
{
    match spec_parse_block(src, toks, pos, SpecBlockFilter::StartsWith("match"@)) {
        Err(e) => Err(e),
        Ok((p1, head)) => {
            if !(pos < p1 <= toks.len()) {
                Err(abort_error())
            } else {
                let (p2, ws) = spec_parse_wheres(src, toks, p1);
                match spec_parse_block(src, toks, p2, SpecBlockFilter::Equals("endmatch"@)) {
                    Err(e) => Err(e),
                    Ok((p3, _)) => Ok((p3, SpecItem::Match { match_: head, wheres: ws })),
                }
            }
        },
    }
}

/// Mirror of the arm list: whitespace-only filler is skipped around each arm,
/// and arms are collected while they parse.
pub open spec fn spec_parse_wheres(src: Seq<char>, toks: Seq<Spanned<Token>>, pos: int) -> (
    int,
    Seq<(Seq<char>, SpecAst)>,
)
    decreases toks.len() - pos, 1int,
{
    let p0 = spec_skip_empty(src, toks, pos);
    match spec_parse_where(src, toks, p0) {
        Err(_) => (spec_skip_empty(src, toks, p0), Seq::empty()),
        Ok((p1, pair)) => {
            if p0 < p1 <= toks.len() {
                let p2 = spec_skip_empty(src, toks, p1);
                let (p3, rest) = spec_parse_wheres(src, toks, p2);
                (p3, seq![pair] + rest)
            } else {
                (p0, Seq::empty())
            }
        },
    }
}

/// Mirror of one arm: `where` header (pattern and optional guard), body, end
/// marker.
pub open spec fn spec_parse_where(src: Seq<char>, toks: Seq<Spanned<Token>>, pos: int) -> Result<
    (int, (Seq<char>, SpecAst)),
    SpecError,
>
    decreases toks.len() - pos, 0int,
{
    match spec_parse_block(src, toks, pos, SpecBlockFilter::StartsWith("where"@)) {
        Err(e) => Err(e),
        Ok((p1, head)) => {
            if !(pos < p1 <= toks.len()) {
                Err(abort_error())
            } else {
                let arm = trim_start_spec(head.skip(5));
                let (p2, items, _e) = spec_parse_ast(src, toks, p1);
                match spec_parse_block(src, toks, p2, SpecBlockFilter::Equals("endwhere"@)) {
                    Err(e) => Err(e),
                    Ok((p3, _)) => Ok((p3, (arm, SpecAst { items }))),
                }
            }
        },
    }
}

/// The diagnostic for a malformed macro or call header.
pub open spec fn header_error(
    toks: Seq<Spanned<Token>>,
    pos: int,
    kw: Seq<char>,
) -> SpecError {
    SpecError {
        span: if 0 <= pos < toks.len() {
            toks[pos].span
        } else {
            Span { start: 0, end: 0 }
        },
        token: Some(Token::BlockStart),
        expected: seq![SpecExpected::Block(SpecBlockFilter::StartsWith(kw))],
    }
}

/// Mirror of `macro` parsing: `name |param, …|` header, body, end marker. A
/// missing `|…|` pair is fatal.
pub open spec fn spec_parse_macro(src: Seq<char>, toks: Seq<Spanned<Token>>, pos: int) -> Result<
    (int, SpecItem),
    SpecError,
>
    decreases toks.len() - pos, 0int,
{
    match spec_parse_block(src, toks, pos, SpecBlockFilter::StartsWith("macro"@)) {
        Err(e) => Err(e),
        Ok((p1, content)) => {
            let merr = header_error(toks, pos, "macro"@);
            let m = trim_spec(content.skip(5));
            let k = find_ch(m, '|');
            if k >= m.len() {
                Err(merr)
            } else {
                let name = trim_spec(m.take(k));
                let ps = trim_spec(m.skip(k));
                match spec_untuple("|"@, ps, "|"@) {
                    None => Err(merr),
                    Some(params) => {
                        if !(pos < p1 <= toks.len()) {
                            Err(abort_error())
                        } else {
                            let (p2, items, _e) = spec_parse_ast(src, toks, p1);
                            match spec_parse_block(
                                src,
                                toks,
                                p2,
                                SpecBlockFilter::Equals("endmacro"@),
                            ) {
                                Err(e) => Err(e),
                                Ok((p3, _)) => Ok(
                                    (
                                        p3,
                                        SpecItem::Macro { name, params, body: SpecAst { items } },
                                    ),
                                ),
                            }
                        }
                    },
                }
            }
        },
    }
}

/// Mirror of `call` parsing: `name(arg, …)`; missing parentheses are fatal.
pub open spec fn spec_parse_call(src: Seq<char>, toks: Seq<Spanned<Token>>, pos: int) -> Result<
    (int, SpecItem),
    SpecError,
> {
    match spec_parse_block(src, toks, pos, SpecBlockFilter::StartsWith("call"@)) {
        Err(e) => Err(e),
        Ok((p1, content)) => {
            let cerr = header_error(toks, pos, "call"@);
            let m = trim_spec(content.skip(4));
            let k = find_ch(m, '(');
            if k >= m.len() {
                Err(cerr)
            } else {
                let name = trim_spec(m.take(k));
                let args_src = trim_spec(m.skip(k));
                match spec_untuple("("@, args_src, ")"@) {
                    None => Err(cerr),
                    Some(args) => Ok((p1, SpecItem::Call { name, args, ind: 0 })),
                }
            }
        },
    }
}

/// Mirror of one item: the ten alternatives in priority order, combined by
/// furthest progress.
pub open spec fn spec_parse_item(src: Seq<char>, toks: Seq<Spanned<Token>>, pos: int) -> Result<
    (int, SpecItem),
    SpecError,
>
    decreases toks.len() - pos, 2int,
{
    let r = spec_parse_text(src, toks, pos);
    let r = spec_alt(r, spec_parse_comment(src, toks, pos));
    let r = spec_alt(r, spec_parse_expr(src, toks, pos));
    let r = spec_alt(r, spec_parse_let(src, toks, pos));
    let r = spec_alt(r, spec_parse_scope(src, toks, pos));
    let r = spec_alt(r, spec_parse_for(src, toks, pos));
    let r = spec_alt(r, spec_parse_if(src, toks, pos));
    let r = spec_alt(r, spec_parse_match(src, toks, pos));
    let r = spec_alt(r, spec_parse_macro(src, toks, pos));
    let r = spec_alt(r, spec_parse_call(src, toks, pos));
    r
}

/// Mirror of the item list: items are collected until one fails, and the
/// stopping error is kept for the caller's diagnostics.
pub open spec fn spec_parse_ast(src: Seq<char>, toks: Seq<Spanned<Token>>, pos: int) -> (
    int,
    Seq<SpecItem>,
    SpecError,
)
    decreases toks.len() - pos, 3int,
{
    match spec_parse_item(src, toks, pos) {
        Err(e) => (pos, Seq::empty(), e),
        Ok((p, it)) => {
            if pos < p <= toks.len() {
                let (p2, items, e) = spec_parse_ast(src, toks, p);
                (p2, seq![it] + items, e)
            } else {
                (pos, Seq::empty(), abort_error())
            }
        },
    }
}

/// Mirror of the top-level parse: the whole token stream must be consumed;
/// leftover input fails with the error that stopped the item list.
pub open spec fn spec_parse(src: Seq<char>, toks: Seq<Spanned<Token>>) -> Result<
    SpecAst,
    SpecError,
> {
    let (p, items, e) = spec_parse_ast(src, toks, 0);
    if p == toks.len() {
        Ok(SpecAst { items })
    } else {
        Err(e)
    }
}


/// The model of an item-parse result.
pub open spec fn lift_item(r: Result<(usize, Item), Error>) -> Result<(int, SpecItem), SpecError> {
    match r {
        Ok((p, it)) => Ok((p as int, it@)),
        Err(e) => Err(e@),
    }
}

/// The model of a token-match result.
pub open spec fn lift_span(r: Result<(usize, Span), Error>) -> Result<(int, Span), SpecError> {
    match r {
        Ok((p, sp)) => Ok((p as int, sp)),
        Err(e) => Err(e@),
    }
}

/// The model of a block-content result.
pub open spec fn lift_content(r: Result<(usize, Vec<char>), Error>) -> Result<
    (int, Seq<char>),
    SpecError,
> {
    match r {
        Ok((p, c)) => Ok((p as int, c@)),
        Err(e) => Err(e@),
    }
}

/// The model of a `(header, body)` result.
pub open spec fn lift_pair(r: Result<(usize, (Vec<char>, Ast)), Error>) -> Result<
    (int, (Seq<char>, SpecAst)),
    SpecError,
> {
    match r {
        Ok((p, pair)) => Ok((p as int, (pair.0@, crate::ast::ast_view(pair.1)))),
        Err(e) => Err(e@),
    }
}

/// The model of an `else`-body result.
pub open spec fn lift_body(r: Result<(usize, Ast), Error>) -> Result<(int, SpecAst), SpecError> {
    match r {
        Ok((p, a)) => Ok((p as int, crate::ast::ast_view(a))),
        Err(e) => Err(e@),
    }
}

/// The models of a vector of character vectors.
pub open spec fn vecs_view(v: Vec<Vec<char>>) -> Seq<Seq<char>> {
    v@.map_values(|x: Vec<char>| x@)
}

/// The model of an untuple result.
pub open spec fn lift_untuple(r: Option<Vec<Vec<char>>>) -> Option<Seq<Seq<char>>> {
    match r {
        Some(v) => Some(vecs_view(v)),
        None => None,
    }
}

/// Exec mirror of [`span_lt`].
fn span_lt_exec(a: Span, b: Span) -> (r: bool)
    ensures
        r == span_lt(a, b),
{
    a.start < b.start || (a.start == b.start && a.end < b.end)
}

/// A filter matching a header exactly.
fn mk_filter_eq(s: &str) -> (r: BlockFilter)
    ensures
        r@ == SpecBlockFilter::Equals(s@),
{
    BlockFilter::Equals(to_chars(s))
}

/// A filter matching a header by its leading keyword.
fn mk_filter_sw(s: &str) -> (r: BlockFilter)
    ensures
        r@ == SpecBlockFilter::StartsWith(s@),
{
    BlockFilter::StartsWith(to_chars(s))
}

/// A copy of a filter.
fn filter_clone(f: &BlockFilter) -> (r: BlockFilter)
    ensures
        r@ == f@,
{
    match f {
        BlockFilter::Equals(s) => {
            let c = subvec(s.as_slice(), 0, s.len());
            proof {
                assert(c@ =~= s@);
            }
            BlockFilter::Equals(c)
        },
        BlockFilter::StartsWith(s) => {
            let c = subvec(s.as_slice(), 0, s.len());
            proof {
                assert(c@ =~= s@);
            }
            BlockFilter::StartsWith(c)
        },
    }
}

/// A singleton expectation set naming a block kind.
fn one_block(f: &BlockFilter) -> (r: Vec<Expected>)
    ensures
        exps_view(r) =~= seq![SpecExpected::Block(f@)],
{
    let mut r: Vec<Expected> = Vec::new();
    r.push(Expected::Block(filter_clone(f)));
    r
}

/// A diagnostic with its expected set replaced by one block kind.
fn replace_expected(e: Error, f: &BlockFilter) -> (r: Error)
    ensures
        r@ == with_expected(e@, seq![SpecExpected::Block(f@)]),
{
    Error { span: e.span, token: e.token, expected: one_block(f) }
}

/// Matches one token of the given kind, or reports what was found instead.
pub fn exact(src: &[char], toks: &[Spanned<Token>], pos: usize, token: Token) -> (r: Result<
    (usize, Span),
    Error,
>)
    requires
        pos <= toks@.len(),
    ensures
        lift_span(r) == spec_exact(src@, toks@, pos as int, token),
        (match r {
            Ok((p, _)) => p == pos + 1,
            Err(_) => true,
        }),
{
    if pos < toks.len() {
        let t = toks[pos];
        if t.node == token {
            Ok((pos + 1, t.span))
        } else {
            Err(Error::new(t.span, Some(t.node), crate::diag::one_token(token)))
        }
    } else {
        Err(
            Error::new(
                Span { start: src.len(), end: src.len() },
                None,
                crate::diag::one_token(token),
            ),
        )
    }
}

/// Consumes one whitespace-only text token, if one is next.
pub fn skip_empty_other(src: &[char], toks: &[Spanned<Token>], pos: usize) -> (r: usize)
    requires
        crate::lexer::tokens_wf(toks@, src@.len() as int),
        pos <= toks@.len(),
    ensures
        r as int == spec_skip_empty(src@, toks@, pos as int),
        pos <= r <= toks@.len(),
{
    if pos < toks.len() {
        let t = toks[pos];
        if t.node == Token::Other {
            proof {
                assert(toks@[pos as int].span.start <= toks@[pos as int].span.end <= src@.len());
            }
            let c = trim_chars(subvec(src, t.span.start, t.span.end).as_slice());
            if c.len() == 0 {
                return pos + 1;
            }
        }
    }
    pos
}

/// Exec mirror of [`find_ch`].
fn find_ch_exec(v: &[char], c: char) -> (r: usize)
    ensures
        r as int == find_ch(v@, c),
        r <= v@.len(),
{
    let n = v.len();
    let mut i: usize = 0;
    proof {
        assert(v@.skip(0) =~= v@);
        lemma_find_ch(v@, c);
    }
    while i < n
        invariant
            i <= n,
            n == v@.len(),
            find_ch(v@, c) == i + find_ch(v@.skip(i as int), c),
        decreases n - i,
    {
        proof {
            assert(v@.skip(i as int)[0] == v@[i as int]);
            assert(v@.skip(i as int).drop_first() =~= v@.skip(i + 1));
        }
        if v[i] == c {
            proof {
                lemma_find_ch(v@, c);
            }
            return i;
        }
        i = i + 1;
    }
    proof {
        assert(v@.skip(i as int).len() == 0);
        lemma_find_ch(v@, c);
    }
    i
}

/// Exec mirror of [`rfind_fmt`].
fn rfind_fmt_exec(v: &[char]) -> (r: Option<usize>)
    ensures
        (match r {
            Some(k) => k as int == rfind_fmt(v@) && k + 2 <= v@.len(),
            None => rfind_fmt(v@) == -1,
        }),
{
    let mut i: usize = v.len();
    proof {
        assert(v@.take(i as int) =~= v@);
    }
    while i >= 2
        invariant
            i <= v@.len(),
            rfind_fmt(v@) == rfind_fmt(v@.take(i as int)),
        decreases i,
    {
        proof {
            assert(v@.take(i as int)[i - 2] == v@[i - 2]);
            assert(v@.take(i as int)[i - 1] == v@[i - 1]);
            assert(v@.take(i as int).drop_last() =~= v@.take(i - 1));
        }
        if v[i - 2] == '@' && v[i - 1] == '{' {
            return Some(i - 2);
        }
        i = i - 1;
    }
    proof {
        assert(v@.take(i as int).len() < 2);
    }
    None
}

/// Strips the enclosing pair and splits on balanced commas; mirror of
/// [`spec_untuple`].
pub fn untuple(start: &str, t: &Vec<char>, end: &str) -> (r: Option<Vec<Vec<char>>>)
    ensures
        lift_untuple(r) == spec_untuple(start@, t@, end@),
{
    let sv = to_chars(start);
    if !starts_with_chars(t.as_slice(), sv.as_slice()) {
        return None;
    }
    let t1 = subvec(t.as_slice(), sv.len(), t.len());
    proof {
        assert(t1@ =~= t@.skip(start@.len() as int));
    }
    let ev = to_chars(end);
    if t1.len() < ev.len() {
        return None;
    }
    let suffix = subvec(t1.as_slice(), t1.len() - ev.len(), t1.len());
    if !eq_chars(suffix.as_slice(), ev.as_slice()) {
        return None;
    }
    let t2 = subvec(t1.as_slice(), 0, t1.len() - ev.len());
    proof {
        assert(t2@ =~= t@.skip(start@.len() as int).take(
            t@.skip(start@.len() as int).len() - end@.len(),
        ));
    }
    let n = t2.len();
    let mut acc: Vec<Vec<char>> = Vec::new();
    let mut seg: usize = 0;
    let mut b0: i128 = 0;
    let mut b1: i128 = 0;
    let mut b2: i128 = 0;
    let mut i: usize = 0;
    proof {
        assert(vecs_view(acc) =~= Seq::<Seq<char>>::empty());
    }
    while i < n
        invariant
            seg <= i <= n,
            n == t2@.len(),
            -(i as int) <= b0 <= i as int,
            -(i as int) <= b1 <= i as int,
            -(i as int) <= b2 <= i as int,
            split_bal(t2@, 0, 0, 0, 0, 0, Seq::empty()) == split_bal(
                t2@,
                i as int,
                seg as int,
                b0 as int,
                b1 as int,
                b2 as int,
                vecs_view(acc),
            ),
        decreases n - i,
    {
        let ghost acc0 = vecs_view(acc);
        let c = t2[i];
        if c == '{' {
            b0 = b0 + 1;
        } else if c == '}' {
            b0 = b0 - 1;
        } else if c == '[' {
            b1 = b1 + 1;
        } else if c == ']' {
            b1 = b1 - 1;
        } else if c == '(' {
            b2 = b2 + 1;
        } else if c == ')' {
            b2 = b2 - 1;
        } else if c == ',' && b0 == 0 && b1 == 0 && b2 == 0 {
            let piece = trim_chars(subvec(t2.as_slice(), seg, i).as_slice());
            acc.push(piece);
            proof {
                assert(vecs_view(acc) =~= acc0.push(trim_spec(t2@.subrange(seg as int, i as int))));
            }
            seg = i + 1;
        }
        i = i + 1;
    }
    let rest = trim_chars(subvec(t2.as_slice(), seg, n).as_slice());
    if rest.len() > 0 {
        let ghost acc0 = vecs_view(acc);
        acc.push(rest);
        proof {
            assert(vecs_view(acc) =~= acc0.push(trim_spec(t2@.subrange(seg as int, n as int))));
        }
    }
    Some(acc)
}

/// The `UnclosedComment` diagnostic.
fn unclosed_exec(src: &[char]) -> (r: Error)
    ensures
        r@ == unclosed_comment(src@),
{
    Error::new(
        Span { start: src.len(), end: src.len() },
        None,
        crate::diag::one_token(Token::CommentEnd),
    )
}

/// The diagnostic for a malformed macro or call header.
fn header_err_exec(toks: &[Spanned<Token>], pos: usize, kw: &str) -> (r: Error)
    requires
        pos <= toks@.len(),
    ensures
        r@ == header_error(toks@, pos as int, kw@),
{
    let sp = if pos < toks.len() {
        toks[pos].span
    } else {
        Span { start: 0, end: 0 }
    };
    let mut es: Vec<Expected> = Vec::new();
    es.push(Expected::Block(BlockFilter::StartsWith(to_chars(kw))));
    proof {
        assert(exps_view(es) =~= seq![
            SpecExpected::Block(SpecBlockFilter::StartsWith(kw@)),
        ]);
    }
    Error::new(sp, Some(Token::BlockStart), es)
}

/// Parses one plain-text token into a structured text item.
pub fn parse_text(src: &[char], toks: &[Spanned<Token>], pos: usize) -> (r: Result<
    (usize, Item),
    Error,
>)
    requires
        crate::lexer::tokens_wf(toks@, src@.len() as int),
        pos <= toks@.len(),
    ensures
        lift_item(r) == spec_parse_text(src@, toks@, pos as int),
        (match r {
            Ok((p, _)) => pos < p <= toks@.len(),
            Err(_) => true,
        }),
{
    match exact(src, toks, pos, Token::Other) {
        Err(e) => Err(e),
        Ok((p, sp)) => {
            proof {
                assert(toks@[pos as int].span.start <= toks@[pos as int].span.end <= src@.len());
            }
            let content = subvec(src, sp.start, sp.end);
            let t = crate::ast::decompose(content.as_slice());
            Ok((p, Item::Text(t)))
        },
    }
}

/// Parses a comment: nested openers and closers are tracked, every interior
/// token is opaque, and an unclosed comment is a fatal error.
pub fn parse_comment(src: &[char], toks: &[Spanned<Token>], pos: usize) -> (r: Result<
    (usize, Item),
    Error,
>)
    requires
        crate::lexer::tokens_wf(toks@, src@.len() as int),
        pos <= toks@.len(),
    ensures
        lift_item(r) == spec_parse_comment(src@, toks@, pos as int),
        (match r {
            Ok((p, _)) => pos < p <= toks@.len(),
            Err(_) => true,
        }),
{
    match exact(src, toks, pos, Token::CommentStart) {
        Err(e) => Err(e),
        Ok((p, _)) => {
            if p >= toks.len() {
                Err(unclosed_exec(src))
            } else {
                let start = toks[p].span.start;
                let mut cur: usize = p;
                let mut depth: usize = 1;
                let mut endp: usize = start;
                proof {
                    assert(toks@[p as int].span.start <= toks@[p as int].span.end <= src@.len());
                }
                while cur < toks.len()
                    invariant
                        crate::lexer::tokens_wf(toks@, src@.len() as int),
                        p <= cur <= toks@.len(),
                        1 <= p < toks@.len(),
                        pos < p,
                        1 <= depth <= 1 + cur - p,
                        start == toks@[p as int].span.start,
                        start <= endp <= src@.len(),
                        spec_parse_comment(src@, toks@, pos as int) == spec_comment_scan(
                            src@,
                            toks@,
                            p as int,
                            1,
                            start,
                            start,
                        ),
                        spec_comment_scan(
                            src@,
                            toks@,
                            cur as int,
                            depth as int,
                            start,
                            endp,
                        ) == spec_comment_scan(src@, toks@, p as int, 1, start, start),
                    decreases toks@.len() - cur,
                {
                    let t = toks[cur];
                    proof {
                        crate::lexer::lemma_spans_chain(
                            toks@,
                            src@.len() as int,
                            p as int,
                            cur as int,
                        );
                    }
                    let d2: usize = if t.node == Token::CommentStart {
                        depth + 1
                    } else if t.node == Token::CommentEnd {
                        depth - 1
                    } else {
                        depth
                    };
                    let e2: usize = if t.node == Token::CommentStart || t.node
                        == Token::CommentEnd {
                        endp
                    } else {
                        t.span.end
                    };
                    if d2 == 0 {
                        let content = subvec(src, start, e2);
                        return Ok((cur + 1, Item::Comment(content)));
                    }
                    depth = d2;
                    endp = e2;
                    cur = cur + 1;
                }
                Err(unclosed_exec(src))
            }
        },
    }
}

/// Parses `{{ … }}`: the trimmed content, split at its rightmost `@{` into
/// expression and format, with `{}` as the default format.
pub fn parse_expr(src: &[char], toks: &[Spanned<Token>], pos: usize) -> (r: Result<
    (usize, Item),
    Error,
>)
    requires
        crate::lexer::tokens_wf(toks@, src@.len() as int),
        pos <= toks@.len(),
    ensures
        lift_item(r) == spec_parse_expr(src@, toks@, pos as int),
        (match r {
            Ok((p, _)) => pos < p <= toks@.len(),
            Err(_) => true,
        }),
{
    match exact(src, toks, pos, Token::ExprStart) {
        Err(e) => Err(e),
        Ok((p1, _)) => match exact(src, toks, p1, Token::Other) {
            Err(e) => Err(e),
            Ok((p2, sp)) => match exact(src, toks, p2, Token::ExprEnd) {
                Err(e) => Err(e),
                Ok((p3, _)) => {
                    proof {
                        assert(toks@[p1 as int].span.start <= toks@[p1 as int].span.end
                            <= src@.len());
                    }
                    let content = trim_chars(subvec(src, sp.start, sp.end).as_slice());
                    match rfind_fmt_exec(content.as_slice()) {
                        Some(k) => {
                            let n = content.len();
                            proof {
                                assert(k + 2 <= n);
                            }
                            let e1 = subvec(content.as_slice(), 0, k);
                            let f1 = subvec(content.as_slice(), k + 1, n);
                            Ok((p3, Item::Expr(e1, f1)))
                        },
                        None => Ok((p3, Item::Expr(content, to_chars("{}")))),
                    }
                },
            },
        },
    }
}

/// Parses `{% … %}` and holds the trimmed content against the filter.
pub fn parse_block(src: &[char], toks: &[Spanned<Token>], pos: usize, f: BlockFilter) -> (r:
    Result<(usize, Vec<char>), Error>)
    requires
        crate::lexer::tokens_wf(toks@, src@.len() as int),
        pos <= toks@.len(),
    ensures
        lift_content(r) == spec_parse_block(src@, toks@, pos as int, f@),
        (match r {
            Ok((p, _)) => pos < p <= toks@.len() && p == pos + 3,
            Err(_) => true,
        }),
{
    match exact(src, toks, pos, Token::BlockStart) {
        Err(e) => Err(replace_expected(e, &f)),
        Ok((p1, _)) => match exact(src, toks, p1, Token::Other) {
            Err(e) => Err(replace_expected(e, &f)),
            Ok((p2, sp)) => match exact(src, toks, p2, Token::BlockEnd) {
                Err(e) => Err(replace_expected(e, &f)),
                Ok((p3, _)) => {
                    proof {
                        assert(toks@[p1 as int].span.start <= toks@[p1 as int].span.end
                            <= src@.len());
                    }
                    let content = trim_chars(subvec(src, sp.start, sp.end).as_slice());
                    let ok = match &f {
                        BlockFilter::Equals(k) => eq_chars(content.as_slice(), k.as_slice()),
                        BlockFilter::StartsWith(k) => starts_with_chars(
                            content.as_slice(),
                            k.as_slice(),
                        ),
                    };
                    if ok {
                        Ok((p3, content))
                    } else {
                        Err(Error::new(sp, Some(Token::BlockStart), one_block(&f)))
                    }
                },
            },
        },
    }
}

/// Parses `{% let … %}`: the whole statement is carried through unparsed.
pub fn parse_let(src: &[char], toks: &[Spanned<Token>], pos: usize) -> (r: Result<
    (usize, Item),
    Error,
>)
    requires
        crate::lexer::tokens_wf(toks@, src@.len() as int),
        pos <= toks@.len(),
    ensures
        lift_item(r) == spec_parse_let(src@, toks@, pos as int),
        (match r {
            Ok((p, _)) => pos < p <= toks@.len(),
            Err(_) => true,
        }),
{
    match parse_block(src, toks, pos, mk_filter_sw("let")) {
        Err(e) => Err(e),
        Ok((p, c)) => Ok((p, Item::Let(c))),
    }
}


/// Combines a failed alternative with the next one by furthest progress.
fn alt_join(e1: Error, r2: Result<(usize, Item), Error>) -> (r: Result<(usize, Item), Error>)
    ensures
        lift_item(r) == spec_alt(Err(e1@), lift_item(r2)),
{
    match r2 {
        Ok(v) => Ok(v),
        Err(e2) => {
            if span_lt_exec(e2.span, e1.span) {
                Err(e1)
            } else if span_lt_exec(e1.span, e2.span) {
                Err(e2)
            } else {
                let ex = merge_expected(&e1.expected, &e2.expected);
                Err(Error { span: e1.span, token: e1.token, expected: ex })
            }
        },
    }
}

/// Parses `{% scope %} … {% endscope %}`.
pub fn parse_scope(src: &[char], toks: &[Spanned<Token>], pos: usize) -> (r: Result<
    (usize, Item),
    Error,
>)
    requires
        crate::lexer::tokens_wf(toks@, src@.len() as int),
        pos <= toks@.len(),
    ensures
        lift_item(r) == spec_parse_scope(src@, toks@, pos as int),
        (match r {
            Ok((p, _)) => pos < p <= toks@.len(),
            Err(_) => true,
        }),
    decreases toks@.len() - pos, 0int,
{
    match parse_block(src, toks, pos, mk_filter_eq("scope")) {
        Err(e) => Err(e),
        Ok((p1, _c)) => {
            let (p2, body, _e) = parse_ast(src, toks, p1);
            match parse_block(src, toks, p2, mk_filter_eq("endscope")) {
                Err(e) => Err(e),
                Ok((p3, _)) => Ok((p3, Item::Scope(body))),
            }
        },
    }
}

/// Parses `{% for … %} … [{% else %} …] {% endfor %}`. The separator field is
/// filled in later by the trim pass.
pub fn parse_for(src: &[char], toks: &[Spanned<Token>], pos: usize) -> (r: Result<
    (usize, Item),
    Error,
>)
    requires
        crate::lexer::tokens_wf(toks@, src@.len() as int),
        pos <= toks@.len(),
    ensures
        lift_item(r) == spec_parse_for(src@, toks@, pos as int),
        (match r {
            Ok((p, _)) => pos < p <= toks@.len(),
            Err(_) => true,
        }),
    decreases toks@.len() - pos, 0int,
{
    match parse_block(src, toks, pos, mk_filter_sw("for")) {
        Err(e) => Err(e),
        Ok((p1, head)) => {
            let (p2, body, _e) = parse_ast(src, toks, p1);
            let (p3, els) = match parse_else(src, toks, p2) {
                Ok((q, a)) => (q, Some(a)),
                Err(_) => (p2, None),
            };
            match parse_block(src, toks, p3, mk_filter_eq("endfor")) {
                Err(e) => Err(e),
                Ok((p4, _)) => Ok(
                    (p4, Item::For { for_: head, pre: None, body, else_: els }),
                ),
            }
        },
    }
}

/// Parses `{% if … %} … [{% else if … %} …]* [{% else %} …] {% endif %}`.
pub fn parse_if(src: &[char], toks: &[Spanned<Token>], pos: usize) -> (r: Result<
    (usize, Item),
    Error,
>)
    requires
        crate::lexer::tokens_wf(toks@, src@.len() as int),
        pos <= toks@.len(),
    ensures
        lift_item(r) == spec_parse_if(src@, toks@, pos as int),
        (match r {
            Ok((p, _)) => pos < p <= toks@.len(),
            Err(_) => true,
        }),
    decreases toks@.len() - pos, 0int,
{
    match parse_block(src, toks, pos, mk_filter_sw("if")) {
        Err(e) => Err(e),
        Ok((p1, head)) => {
            let (p2, body, _e) = parse_ast(src, toks, p1);
            let (p3, eifs) = parse_else_ifs(src, toks, p2);
            let (p4, els) = match parse_else(src, toks, p3) {
                Ok((q, a)) => (q, Some(a)),
                Err(_) => (p3, None),
            };
            match parse_block(src, toks, p4, mk_filter_eq("endif")) {
                Err(e) => Err(e),
                Ok((p5, _)) => Ok(
                    (p5, Item::If { if_: (head, body), else_ifs: eifs, else_: els }),
                ),
            }
        },
    }
}

/// Parses the `else if` branches of a conditional, while they are present.
pub fn parse_else_ifs(src: &[char], toks: &[Spanned<Token>], pos: usize) -> (r: (
    usize,
    Vec<(Vec<char>, Ast)>,
))
    requires
        crate::lexer::tokens_wf(toks@, src@.len() as int),
        pos <= toks@.len(),
    ensures
        ({
            let (sp, sw) = spec_parse_else_ifs(src@, toks@, pos as int);
            r.0 as int == sp && crate::ast::pairs_view_from(r.1, 0) == sw
        }),
        pos <= r.0 <= toks@.len(),
    decreases toks@.len() - pos, 1int,
{
    match parse_else_if(src, toks, pos) {
        Err(_) => {
            let empty: Vec<(Vec<char>, Ast)> = Vec::new();
            proof {
                crate::ast::lemma_pairs_view_from(empty, 0);
                assert(crate::ast::pairs_view_from(empty, 0) =~= Seq::<(Seq<char>, SpecAst)>::empty());
            }
            (pos, empty)
        },
        Ok((p, pair)) => {
            let (p2, mut rest) = parse_else_ifs(src, toks, p);
            let ghost rest0 = rest;
            rest.insert(0, pair);
            proof {
                assert(rest@ =~= seq![pair] + rest0@);
                crate::ast::lemma_pairs_view_cons(rest, rest0, pair);
            }
            (p2, rest)
        },
    }
}

/// Parses one `else if` branch: header and body.
pub fn parse_else_if(src: &[char], toks: &[Spanned<Token>], pos: usize) -> (r: Result<
    (usize, (Vec<char>, Ast)),
    Error,
>)
    requires
        crate::lexer::tokens_wf(toks@, src@.len() as int),
        pos <= toks@.len(),
    ensures
        lift_pair(r) == spec_parse_else_if(src@, toks@, pos as int),
        (match r {
            Ok((p, _)) => pos < p <= toks@.len(),
            Err(_) => true,
        }),
    decreases toks@.len() - pos, 0int,
{
    match parse_block(src, toks, pos, mk_filter_sw("else if")) {
        Err(e) => Err(e),
        Ok((p1, head)) => {
            let (p2, body, _e) = parse_ast(src, toks, p1);
            Ok((p2, (head, body)))
        },
    }
}

/// Parses an `else` clause: marker and body.
pub fn parse_else(src: &[char], toks: &[Spanned<Token>], pos: usize) -> (r: Result<
    (usize, Ast),
    Error,
>)
    requires
        crate::lexer::tokens_wf(toks@, src@.len() as int),
        pos <= toks@.len(),
    ensures
        lift_body(r) == spec_parse_else(src@, toks@, pos as int),
        (match r {
            Ok((p, _)) => pos < p <= toks@.len(),
            Err(_) => true,
        }),
    decreases toks@.len() - pos, 0int,
{
    match parse_block(src, toks, pos, mk_filter_eq("else")) {
        Err(e) => Err(e),
        Ok((p1, _)) => {
            let (p2, body, _e) = parse_ast(src, toks, p1);
            Ok((p2, body))
        },
    }
}

/// Parses `{% match … %} arms {% endmatch %}`.
pub fn parse_match(src: &[char], toks: &[Spanned<Token>], pos: usize) -> (r: Result<
    (usize, Item),
    Error,
>)
    requires
        crate::lexer::tokens_wf(toks@, src@.len() as int),
        pos <= toks@.len(),
    ensures
        lift_item(r) == spec_parse_match(src@, toks@, pos as int),
        (match r {
            Ok((p, _)) => pos < p <= toks@.len(),
            Err(_) => true,
        }),
    decreases toks@.len() - pos, 0int,
{
    match parse_block(src, toks, pos, mk_filter_sw("match")) {
        Err(e) => Err(e),
        Ok((p1, head)) => {
            let (p2, ws) = parse_wheres(src, toks, p1);
            match parse_block(src, toks, p2, mk_filter_eq("endmatch")) {
                Err(e) => Err(e),
                Ok((p3, _)) => Ok((p3, Item::Match { match_: head, wheres: ws })),
            }
        },
    }
}

/// Parses the arms of a match, skipping whitespace-only filler around each.
pub fn parse_wheres(src: &[char], toks: &[Spanned<Token>], pos: usize) -> (r: (
    usize,
    Vec<(Vec<char>, Ast)>,
))
    requires
        crate::lexer::tokens_wf(toks@, src@.len() as int),
        pos <= toks@.len(),
    ensures
        ({
            let (sp, sw) = spec_parse_wheres(src@, toks@, pos as int);
            r.0 as int == sp && crate::ast::pairs_view_from(r.1, 0) == sw
        }),
        pos <= r.0 <= toks@.len(),
    decreases toks@.len() - pos, 1int,
{
    let p0 = skip_empty_other(src, toks, pos);
    match parse_where(src, toks, p0) {
        Err(_) => {
            let p = skip_empty_other(src, toks, p0);
            let empty: Vec<(Vec<char>, Ast)> = Vec::new();
            proof {
                assert(crate::ast::pairs_view_from(empty, 0) =~= Seq::<(Seq<char>, SpecAst)>::empty());
            }
            (p, empty)
        },
        Ok((p1, pair)) => {
            let p2 = skip_empty_other(src, toks, p1);
            let (p3, mut rest) = parse_wheres(src, toks, p2);
            let ghost rest0 = rest;
            rest.insert(0, pair);
            proof {
                assert(rest@ =~= seq![pair] + rest0@);
                crate::ast::lemma_pairs_view_cons(rest, rest0, pair);
            }
            (p3, rest)
        },
    }
}

/// Parses one arm: `{% where pattern [if guard] %} … {% endwhere %}`.
pub fn parse_where(src: &[char], toks: &[Spanned<Token>], pos: usize) -> (r: Result<
    (usize, (Vec<char>, Ast)),
    Error,
>)
    requires
        crate::lexer::tokens_wf(toks@, src@.len() as int),
        pos <= toks@.len(),
    ensures
        lift_pair(r) == spec_parse_where(src@, toks@, pos as int),
        (match r {
            Ok((p, _)) => pos < p <= toks@.len(),
            Err(_) => true,
        }),
    decreases toks@.len() - pos, 0int,
{
    match parse_block(src, toks, pos, mk_filter_sw("where")) {
        Err(e) => Err(e),
        Ok((p1, head)) => {
            proof {
                reveal_strlit("where");
            }
            let arm = trim_start_chars(subvec(head.as_slice(), 5, head.len()).as_slice());
            let (p2, body, _e) = parse_ast(src, toks, p1);
            match parse_block(src, toks, p2, mk_filter_eq("endwhere")) {
                Err(e) => Err(e),
                Ok((p3, _)) => Ok((p3, (arm, body))),
            }
        },
    }
}

/// Parses `{% macro name |param, …| %} … {% endmacro %}`.
pub fn parse_macro(src: &[char], toks: &[Spanned<Token>], pos: usize) -> (r: Result<
    (usize, Item),
    Error,
>)
    requires
        crate::lexer::tokens_wf(toks@, src@.len() as int),
        pos <= toks@.len(),
    ensures
        lift_item(r) == spec_parse_macro(src@, toks@, pos as int),
        (match r {
            Ok((p, _)) => pos < p <= toks@.len(),
            Err(_) => true,
        }),
    decreases toks@.len() - pos, 0int,
{
    match parse_block(src, toks, pos, mk_filter_sw("macro")) {
        Err(e) => Err(e),
        Ok((p1, content)) => {
            proof {
                reveal_strlit("macro");
            }
            let m = trim_chars(subvec(content.as_slice(), 5, content.len()).as_slice());
            let k = find_ch_exec(m.as_slice(), '|');
            if k == m.len() {
                Err(header_err_exec(toks, pos, "macro"))
            } else {
                let name = trim_chars(subvec(m.as_slice(), 0, k).as_slice());
                let ps = trim_chars(subvec(m.as_slice(), k, m.len()).as_slice());
                match untuple("|", &ps, "|") {
                    None => Err(header_err_exec(toks, pos, "macro")),
                    Some(params) => {
                        let (p2, body, _e) = parse_ast(src, toks, p1);
                        match parse_block(src, toks, p2, mk_filter_eq("endmacro")) {
                            Err(e) => Err(e),
                            Ok((p3, _)) => Ok((p3, Item::Macro { name, params, body })),
                        }
                    },
                }
            }
        },
    }
}

/// Parses `{% call name(arg, …) %}`.
pub fn parse_call(src: &[char], toks: &[Spanned<Token>], pos: usize) -> (r: Result<
    (usize, Item),
    Error,
>)
    requires
        crate::lexer::tokens_wf(toks@, src@.len() as int),
        pos <= toks@.len(),
    ensures
        lift_item(r) == spec_parse_call(src@, toks@, pos as int),
        (match r {
            Ok((p, _)) => pos < p <= toks@.len(),
            Err(_) => true,
        }),
{
    match parse_block(src, toks, pos, mk_filter_sw("call")) {
        Err(e) => Err(e),
        Ok((p1, content)) => {
            proof {
                reveal_strlit("call");
            }
            let m = trim_chars(subvec(content.as_slice(), 4, content.len()).as_slice());
            let k = find_ch_exec(m.as_slice(), '(');
            if k == m.len() {
                Err(header_err_exec(toks, pos, "call"))
            } else {
                let name = trim_chars(subvec(m.as_slice(), 0, k).as_slice());
                let args_src = trim_chars(subvec(m.as_slice(), k, m.len()).as_slice());
                match untuple("(", &args_src, ")") {
                    None => Err(header_err_exec(toks, pos, "call")),
                    Some(args) => Ok((p1, Item::Call { name, args, ind: 0 })),
                }
            }
        },
    }
}

/// Parses one item: the ten alternatives in priority order.
pub fn parse_item(src: &[char], toks: &[Spanned<Token>], pos: usize) -> (r: Result<
    (usize, Item),
    Error,
>)
    requires
        crate::lexer::tokens_wf(toks@, src@.len() as int),
        pos <= toks@.len(),
    ensures
        lift_item(r) == spec_parse_item(src@, toks@, pos as int),
        (match r {
            Ok((p, _)) => pos < p <= toks@.len(),
            Err(_) => true,
        }),
    decreases toks@.len() - pos, 2int,
{
    let r = parse_text(src, toks, pos);
    let r = match r {
        Ok(v) => Ok(v),
        Err(e) => alt_join(e, parse_comment(src, toks, pos)),
    };
    let r = match r {
        Ok(v) => Ok(v),
        Err(e) => alt_join(e, parse_expr(src, toks, pos)),
    };
    let r = match r {
        Ok(v) => Ok(v),
        Err(e) => alt_join(e, parse_let(src, toks, pos)),
    };
    let r = match r {
        Ok(v) => Ok(v),
        Err(e) => alt_join(e, parse_scope(src, toks, pos)),
    };
    let r = match r {
        Ok(v) => Ok(v),
        Err(e) => alt_join(e, parse_for(src, toks, pos)),
    };
    let r = match r {
        Ok(v) => Ok(v),
        Err(e) => alt_join(e, parse_if(src, toks, pos)),
    };
    let r = match r {
        Ok(v) => Ok(v),
        Err(e) => alt_join(e, parse_match(src, toks, pos)),
    };
    let r = match r {
        Ok(v) => Ok(v),
        Err(e) => alt_join(e, parse_macro(src, toks, pos)),
    };
    let r = match r {
        Ok(v) => Ok(v),
        Err(e) => alt_join(e, parse_call(src, toks, pos)),
    };
    r
}

/// Parses items until none can be read, returning the position reached, the
/// items, and the error that stopped the list.
pub fn parse_ast(src: &[char], toks: &[Spanned<Token>], pos: usize) -> (r: (usize, Ast, Error))
    requires
        crate::lexer::tokens_wf(toks@, src@.len() as int),
        pos <= toks@.len(),
    ensures
        ({
            let (sp, sitems, se) = spec_parse_ast(src@, toks@, pos as int);
            r.0 as int == sp && r.1@.items == sitems && r.2@ == se
        }),
        pos <= r.0 <= toks@.len(),
    decreases toks@.len() - pos, 3int,
{
    match parse_item(src, toks, pos) {
        Err(e) => {
            let a = Ast::empty();
            (pos, a, e)
        },
        Ok((p, it)) => {
            let (p2, mut a, e) = parse_ast(src, toks, p);
            let ghost a0 = a;
            a.items.insert(0, it);
            proof {
                assert(a.items@ =~= seq![it] + a0.items@);
                crate::ast::lemma_ast_view_cons(a, a0, it);
            }
            (p2, a, e)
        },
    }
}

/// Parses a whole template. The token stream must come from the lexer run on
/// the same source; leftover input after the last item is a fatal error
/// carrying the diagnostics of the item that failed to parse there.
pub fn parse(source: &str, tokens: &[Spanned<Token>]) -> (r: Result<Ast, Error>)
    requires
        crate::lexer::tokens_wf(tokens@, source@.len() as int),
    ensures
        (match r {
            Ok(a) => spec_parse(source@, tokens@) == Ok::<SpecAst, SpecError>(a@),
            Err(e) => spec_parse(source@, tokens@) == Err::<SpecAst, SpecError>(e@),
        }),
{
    let src = to_chars(source);
    let (p, a, e) = parse_ast(src.as_slice(), tokens, 0);
    if p == tokens.len() {
        Ok(a)
    } else {
        Err(e)
    }
}

} // verus!
