//! The lexer: a single left-to-right scan that splits the source into
//! delimiter tokens and runs of plain text.
//!
//! Two-character delimiters are detected incrementally by a small state
//! machine. Whenever the second character does not complete a valid pair, the
//! state reverts and the characters stay part of the pending plain-text run.
//! The lexer is total: it never fails, and the spans of the tokens it returns
//! jointly cover the whole source in order.

use vstd::prelude::*;

use crate::chars::to_chars;
use crate::span::{Span, Spanned};
use crate::token::Token;

verus! {

/// The scanner state: which first half of a delimiter pair was just seen.
#[derive(Debug, Clone, Copy, PartialEq, Eq, Structural)]
pub enum LexState {
    Default,
    BraceLeft,
    BraceRight,
    PercentSign,
    HashSign,
}

/// The state entered from `Default` on reading `c`.
pub open spec fn state_after_default(c: char) -> LexState {
    if c == '{' {
        LexState::BraceLeft
    } else if c == '}' {
        LexState::BraceRight
    } else if c == '%' {
        LexState::PercentSign
    } else if c == '#' {
        LexState::HashSign
    } else {
        LexState::Default
    }
}

/// The opening token completed by `{` followed by `c`.
pub open spec fn open_token(c: char) -> Token {
    if c == '{' {
        Token::ExprStart
    } else if c == '%' {
        Token::BlockStart
    } else {
        Token::CommentStart
    }
}

/// The closing token completed by `}` after the given state.
pub open spec fn close_token(st: LexState) -> Token {
    if st == LexState::BraceRight {
        Token::ExprEnd
    } else if st == LexState::PercentSign {
        Token::BlockEnd
    } else {
        Token::CommentEnd
    }
}

/// Emits the pending plain-text run (if non-empty) followed by the delimiter
/// completed at position `idx`.
pub open spec fn lex_emit(
    toks: Seq<Spanned<Token>>,
    ps: int,
    idx: int,
    tok: Token,
) -> Seq<Spanned<Token>> {
    let toks1 = if ps < idx - 1 {
        toks.push(
            Spanned { node: Token::Other, span: Span { start: ps as usize, end: (idx - 1) as usize } },
        )
    } else {
        toks
    };
    toks1.push(Spanned { node: tok, span: Span { start: (idx - 1) as usize, end: (idx + 1) as usize } })
}

/// One step of the scanner on character `c` at position `idx`.
/// The scanner state is `(state, start of the pending text run, tokens so far)`.
pub open spec fn lex_step(
    st: LexState,
    ps: int,
    toks: Seq<Spanned<Token>>,
    c: char,
    idx: int,
) -> (LexState, int, Seq<Spanned<Token>>) {
    match st {
        LexState::Default => (state_after_default(c), ps, toks),
        LexState::BraceLeft => {
            if c == '{' || c == '%' || c == '#' {
                (LexState::Default, idx + 1, lex_emit(toks, ps, idx, open_token(c)))
            } else {
                (LexState::Default, ps, toks)
            }
        },
        _ => {
            if c == '}' {
                (LexState::Default, idx + 1, lex_emit(toks, ps, idx, close_token(st)))
            } else {
                (LexState::Default, ps, toks)
            }
        },
    }
}

/// The scanner state after processing the first `n` characters of `s`.
pub open spec fn lex_scan(s: Seq<char>, n: int) -> (LexState, int, Seq<Spanned<Token>>)
    decreases n,
{
    if n <= 0 {
        (LexState::Default, 0, Seq::empty())
    } else {
        let (st, ps, toks) = lex_scan(s, n - 1);
        lex_step(st, ps, toks, s[n - 1], n - 1)
    }
}

/// The token stream of `s`: the full scan, closed off by a final plain-text
/// run if one is pending.
pub open spec fn lex_spec(s: Seq<char>) -> Seq<Spanned<Token>> {
    let (st, ps, toks) = lex_scan(s, s.len() as int);
    if ps < s.len() {
        toks.push(
            Spanned {
                node: Token::Other,
                span: Span { start: ps as usize, end: s.len() as usize },
            },
        )
    } else {
        toks
    }
}

/// Every span lies inside the source and is well-ordered.
pub open spec fn spans_wf(toks: Seq<Spanned<Token>>, len: int) -> bool {
    forall|k: int|
        0 <= k < toks.len() ==> (#[trigger] toks[k]).span.start <= toks[k].span.end <= len
}

/// Consecutive spans never overlap and appear in source order.
pub open spec fn spans_ordered(toks: Seq<Spanned<Token>>) -> bool {
    forall|k: int|
        0 <= k < toks.len() - 1 ==> (#[trigger] toks[k]).span.end <= toks[k + 1].span.start
}

/// Each span starts exactly where the one before it ended.
pub open spec fn spans_adjacent(toks: Seq<Spanned<Token>>) -> bool {
    forall|k: int|
        0 <= k < toks.len() - 1 ==> (#[trigger] toks[k]).span.end == toks[k + 1].span.start
}

/// No two plain-text tokens stand next to each other.
pub open spec fn others_separated(toks: Seq<Spanned<Token>>) -> bool {
    forall|k: int|
        0 <= k < toks.len() - 1 ==> !((#[trigger] toks[k]).node is Other && toks[k
            + 1].node is Other)
}

/// What the parser assumes of a token stream: every span lies inside the
/// source, and the stream is in source order. The lexer's output satisfies
/// this (see [`lemma_lex_spec_wf`]).
pub open spec fn tokens_wf(toks: Seq<Spanned<Token>>, len: int) -> bool {
    spans_wf(toks, len) && spans_ordered(toks)
}

#[verifier::rlimit(100)]
proof fn lemma_lex_scan_wf(s: Seq<char>, n: int)
    requires
        0 <= n <= s.len(),
        s.len() <= usize::MAX,
    ensures
        ({
            let (st, ps, toks) = lex_scan(s, n);
            &&& 0 <= ps <= n
            &&& (st != LexState::Default ==> n >= 1 && ps <= n - 1)
            &&& spans_wf(toks, n)
            &&& spans_adjacent(toks)
            &&& (toks.len() > 0 ==> toks.last().span.end == ps && toks[0].span.start == 0)
            &&& (ps > 0 ==> toks.len() > 0)
        }),
    decreases n,
{
    if n > 0 {
        lemma_lex_scan_wf(s, n - 1);
        let (st0, ps0, toks0) = lex_scan(s, n - 1);
        let (st, ps, toks) = lex_scan(s, n);
        assert forall|k: int| 0 <= k < toks.len() implies (#[trigger] toks[k]).span.start
            <= toks[k].span.end <= n by {
            if k < toks0.len() {
                assert(toks[k] == toks0[k]);
                assert(toks0[k].span.start <= toks0[k].span.end <= n - 1);
            }
        }
        assert forall|k: int| 0 <= k < toks.len() - 1 implies (#[trigger] toks[k]).span.end
            == toks[k + 1].span.start by {
            if k < toks0.len() - 1 {
                assert(toks[k] == toks0[k] && toks[k + 1] == toks0[k + 1]);
            } else if k < toks0.len() {
                assert(toks[k] == toks0[k] && toks0[k] == toks0.last());
            }
        }
    }
}

/// In the scanner's output so far, plain-text tokens never touch, and the
/// stream never ends in one: text is only ever emitted just before a
/// delimiter.
#[verifier::rlimit(100)]
proof fn lemma_lex_scan_others(s: Seq<char>, n: int)
    requires
        0 <= n <= s.len(),
        s.len() <= usize::MAX,
    ensures
        ({
            let (st, ps, toks) = lex_scan(s, n);
            &&& others_separated(toks)
            &&& (toks.len() > 0 ==> !(toks.last().node is Other))
        }),
    decreases n,
{
    if n > 0 {
        lemma_lex_scan_others(s, n - 1);
        let (st0, ps0, toks0) = lex_scan(s, n - 1);
        let (st, ps, toks) = lex_scan(s, n);
        assert forall|k: int| 0 <= k < toks.len() - 1 implies !((#[trigger] toks[k]).node is Other
            && toks[k + 1].node is Other) by {
            if k < toks0.len() - 1 {
                assert(toks[k] == toks0[k] && toks[k + 1] == toks0[k + 1]);
            } else if k < toks0.len() {
                assert(toks[k] == toks0[k] && toks0[k] == toks0.last());
            }
        }
    }
}

/// The spans of the lexer's output index into the source, in order.
pub proof fn lemma_lex_spec_wf(s: Seq<char>)
    requires
        s.len() <= usize::MAX,
    ensures
        tokens_wf(lex_spec(s), s.len() as int),
{
    lemma_lex_spec_cover(s);
    let out = lex_spec(s);
    assert forall|k: int| 0 <= k < out.len() - 1 implies (#[trigger] out[k]).span.end <= out[k
        + 1].span.start by {
        assert(out[k].span.end == out[k + 1].span.start);
    }
}

/// The spans of the lexer's output jointly and exactly cover the source:
/// the first token starts at offset zero, each token starts exactly where
/// the one before it ended, the last token ends at the end of the source,
/// and a non-empty source always yields at least one token.
#[verifier::rlimit(100)]
pub proof fn lemma_lex_spec_cover(s: Seq<char>)
    requires
        s.len() <= usize::MAX,
    ensures
        spans_wf(lex_spec(s), s.len() as int),
        spans_adjacent(lex_spec(s)),
        s.len() > 0 ==> lex_spec(s).len() > 0,
        lex_spec(s).len() > 0 ==> lex_spec(s)[0].span.start == 0 && lex_spec(s).last().span.end
            == s.len(),
        s.len() == 0 ==> lex_spec(s).len() == 0,
        others_separated(lex_spec(s)),
{
    lemma_lex_scan_wf(s, s.len() as int);
    lemma_lex_scan_others(s, s.len() as int);
    let (st, ps, toks) = lex_scan(s, s.len() as int);
    let out = lex_spec(s);
    assert forall|k: int| 0 <= k < out.len() implies (#[trigger] out[k]).span.start
        <= out[k].span.end <= s.len() by {
        if k < toks.len() {
            assert(out[k] == toks[k]);
        }
    }
    assert forall|k: int| 0 <= k < out.len() - 1 implies (#[trigger] out[k]).span.end == out[k
        + 1].span.start by {
        if k < toks.len() - 1 {
            assert(out[k] == toks[k] && out[k + 1] == toks[k + 1]);
        } else if k < toks.len() {
            assert(out[k] == toks[k] && toks[k] == toks.last());
        }
    }
    if out.len() > 0 {
        if toks.len() > 0 {
            assert(out[0] == toks[0]);
        }
    }
    assert forall|k: int| 0 <= k < out.len() - 1 implies !((#[trigger] out[k]).node is Other
        && out[k + 1].node is Other) by {
        if k < toks.len() - 1 {
            assert(out[k] == toks[k] && out[k + 1] == toks[k + 1]);
        } else if k < toks.len() {
            assert(out[k] == toks[k] && toks[k] == toks.last());
        }
    }
}

/// Within an ordered, well-formed stream, earlier offsets bound later ones.
pub proof fn lemma_spans_chain(toks: Seq<Spanned<Token>>, len: int, i: int, j: int)
    requires
        spans_wf(toks, len),
        spans_ordered(toks),
        0 <= i <= j < toks.len(),
    ensures
        toks[i].span.start <= toks[j].span.start,
        toks[i].span.end <= toks[j].span.end,
        toks[i].span.start <= toks[j].span.end,
    decreases j - i,
{
    if i < j {
        lemma_spans_chain(toks, len, i + 1, j);
    }
}

/// Two adjacent characters that would complete a delimiter pair.
pub open spec fn pair_at(s: Seq<char>, i: int) -> bool {
    (s[i] == '{' && (s[i + 1] == '{' || s[i + 1] == '%' || s[i + 1] == '#')) || (s[i + 1] == '}'
        && (s[i] == '}' || s[i] == '%' || s[i] == '#'))
}

/// The source contains none of the six two-character delimiters as a
/// substring.
pub open spec fn delimiter_free(s: Seq<char>) -> bool {
    forall|i: int| 0 <= i < s.len() - 1 ==> !(#[trigger] pair_at(s, i))
}

proof fn lemma_lex_scan_plain(s: Seq<char>, n: int)
    requires
        0 <= n <= s.len(),
        delimiter_free(s),
    ensures
        ({
            let (st, ps, toks) = lex_scan(s, n);
            &&& ps == 0
            &&& toks == Seq::<Spanned<Token>>::empty()
            &&& (st == LexState::BraceLeft ==> n >= 1 && s[n - 1] == '{')
            &&& ((st == LexState::BraceRight || st == LexState::PercentSign || st
                == LexState::HashSign) ==> n >= 1 && (s[n - 1] == '}' || s[n - 1] == '%' || s[n
                - 1] == '#'))
        }),
    decreases n,
{
    if n > 0 {
        lemma_lex_scan_plain(s, n - 1);
        let (st, ps, toks) = lex_scan(s, n - 1);
        let c = s[n - 1];
        if st == LexState::BraceLeft {
            assert(!pair_at(s, n - 2));
        } else if st == LexState::BraceRight || st == LexState::PercentSign || st
            == LexState::HashSign {
            assert(!pair_at(s, n - 2));
        }
    }
}

/// A source without delimiters lexes to a single plain-text token covering
/// all of it (or to nothing, when the source is empty).
pub proof fn lemma_lex_spec_plain(s: Seq<char>)
    requires
        delimiter_free(s),
    ensures
        s.len() == 0 ==> lex_spec(s) == Seq::<Spanned<Token>>::empty(),
        s.len() > 0 ==> lex_spec(s) =~= seq![
            Spanned { node: Token::Other, span: Span { start: 0, end: s.len() as usize } },
        ],
{
    lemma_lex_scan_plain(s, s.len() as int);
}

/// Scans the source into a token stream. Total: malformed delimiters simply
/// remain plain text, and no input is rejected.
pub fn lex(source: &str) -> (r: Vec<Spanned<Token>>)
    ensures
        r@ == lex_spec(source@),
{
    let cs = to_chars(source);
    let n = cs.len();
    let mut state = LexState::Default;
    let mut pos_start: usize = 0;
    let mut tokens: Vec<Spanned<Token>> = Vec::new();
    let mut i: usize = 0;
    while i < n
        invariant
            cs@ == source@,
            n == cs@.len(),
            i <= n,
            pos_start <= i,
            state != LexState::Default ==> i >= 1,
            lex_scan(source@, i as int) == (state, pos_start as int, tokens@),
        decreases n - i,
    {
        let c = cs[i];
        proof {
            assert(lex_scan(source@, i + 1) == lex_step(
                state,
                pos_start as int,
                tokens@,
                source@[i as int],
                i as int,
            ));
        }
        match state {
            LexState::Default => {
                state = if c == '{' {
                    LexState::BraceLeft
                } else if c == '}' {
                    LexState::BraceRight
                } else if c == '%' {
                    LexState::PercentSign
                } else if c == '#' {
                    LexState::HashSign
                } else {
                    LexState::Default
                };
            },
            LexState::BraceLeft => {
                if c == '{' || c == '%' || c == '#' {
                    if pos_start < i - 1 {
                        tokens.push(
                            Spanned {
                                node: Token::Other,
                                span: Span { start: pos_start, end: i - 1 },
                            },
                        );
                    }
                    let tok = if c == '{' {
                        Token::ExprStart
                    } else if c == '%' {
                        Token::BlockStart
                    } else {
                        Token::CommentStart
                    };
                    tokens.push(Spanned { node: tok, span: Span { start: i - 1, end: i + 1 } });
                    pos_start = i + 1;
                }
                state = LexState::Default;
            },
            _ => {
                if c == '}' {
                    if pos_start < i - 1 {
                        tokens.push(
                            Spanned {
                                node: Token::Other,
                                span: Span { start: pos_start, end: i - 1 },
                            },
                        );
                    }
                    let tok = match state {
                        LexState::BraceRight => Token::ExprEnd,
                        LexState::PercentSign => Token::BlockEnd,
                        _ => Token::CommentEnd,
                    };
                    tokens.push(Spanned { node: tok, span: Span { start: i - 1, end: i + 1 } });
                    pos_start = i + 1;
                }
                state = LexState::Default;
            },
        }
        i = i + 1;
    }
    if pos_start < n {
        tokens.push(Spanned { node: Token::Other, span: Span { start: pos_start, end: n } });
    }
    tokens
}

} // verus!
