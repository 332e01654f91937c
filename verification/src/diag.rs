//! The parser's error model: what was found, where, and the set of things
//! that would have been accepted there.
//!
//! An expected set is kept as a sorted, duplicate-free vector, so that two
//! candidate errors failing at the same position can merge their sets
//! deterministically and a diagnostic always lists its expectations in one
//! canonical order.

use vstd::prelude::*;

use crate::chars::{chars_to_string, dec_chars, dec_spec, subvec};
use crate::span::Span;
use crate::token::Token;

verus! {

/// How a block header is matched: exactly, or by its leading keyword.
#[derive(Debug)]
pub enum BlockFilter {
    Equals(Vec<char>),
    StartsWith(Vec<char>),
}

/// Ghost model of [`BlockFilter`].
pub enum SpecBlockFilter {
    Equals(Seq<char>),
    StartsWith(Seq<char>),
}

impl View for BlockFilter {
    type V = SpecBlockFilter;

    open spec fn view(&self) -> SpecBlockFilter {
        match self {
            BlockFilter::Equals(f) => SpecBlockFilter::Equals(f@),
            BlockFilter::StartsWith(f) => SpecBlockFilter::StartsWith(f@),
        }
    }
}

/// The keyword a filter matches on.
pub open spec fn spec_filter_name(f: SpecBlockFilter) -> Seq<char> {
    match f {
        SpecBlockFilter::Equals(s) => s,
        SpecBlockFilter::StartsWith(s) => s,
    }
}

impl BlockFilter {
    /// The keyword this filter matches on.
    pub fn name(&self) -> (r: &Vec<char>)
        ensures
            r@ == spec_filter_name(self@),
    {
        match self {
            BlockFilter::Equals(f) => f,
            BlockFilter::StartsWith(f) => f,
        }
    }
}

/// One thing the parser would have accepted: a raw token, or a named block
/// kind.
#[derive(Debug)]
pub enum Expected {
    Block(BlockFilter),
    Token(Token),
}

/// Ghost model of [`Expected`].
pub enum SpecExpected {
    Block(SpecBlockFilter),
    Token(Token),
}

impl View for Expected {
    type V = SpecExpected;

    open spec fn view(&self) -> SpecExpected {
        match self {
            Expected::Block(f) => SpecExpected::Block(f@),
            Expected::Token(t) => SpecExpected::Token(*t),
        }
    }
}

/// A parse diagnostic: the failing span, the token found there (none at end
/// of input), and the sorted set of expectations.
#[derive(Debug)]
pub struct Error {
    pub span: Span,
    pub token: Option<Token>,
    pub expected: Vec<Expected>,
}

/// Ghost model of [`Error`].
pub struct SpecError {
    pub span: Span,
    pub token: Option<Token>,
    pub expected: Seq<SpecExpected>,
}

/// The models of a vector of expectations.
pub open spec fn exps_view(v: Vec<Expected>) -> Seq<SpecExpected> {
    v@.map_values(|e: Expected| e@)
}

impl View for Error {
    type V = SpecError;

    open spec fn view(&self) -> SpecError {
        SpecError { span: self.span, token: self.token, expected: exps_view(self.expected) }
    }
}

impl Error {
    /// Builds a diagnostic from its parts.
    pub fn new(span: Span, token: Option<Token>, expected: Vec<Expected>) -> (r: Error)
        ensures
            r@ == (SpecError { span, token, expected: exps_view(expected) }),
    {
        Error { span, token, expected }
    }
}

/// A numeric rank for tokens, giving them a total order.
pub open spec fn token_rank(t: Token) -> int {
    match t {
        Token::ExprStart => 0,
        Token::ExprEnd => 1,
        Token::BlockStart => 2,
        Token::BlockEnd => 3,
        Token::CommentStart => 4,
        Token::CommentEnd => 5,
        Token::Other => 6,
    }
}

/// Strict lexicographic order on character sequences.
pub open spec fn chars_lt(a: Seq<char>, b: Seq<char>) -> bool
    decreases a.len(),
{
    if b.len() == 0 {
        false
    } else if a.len() == 0 {
        true
    } else if a[0] < b[0] {
        true
    } else if b[0] < a[0] {
        false
    } else {
        chars_lt(a.drop_first(), b.drop_first())
    }
}

/// Strict total order on block filters: exact-match filters come first, then
/// by keyword.
pub open spec fn filter_lt(a: SpecBlockFilter, b: SpecBlockFilter) -> bool {
    match (a, b) {
        (SpecBlockFilter::Equals(x), SpecBlockFilter::Equals(y)) => chars_lt(x, y),
        (SpecBlockFilter::Equals(_), SpecBlockFilter::StartsWith(_)) => true,
        (SpecBlockFilter::StartsWith(_), SpecBlockFilter::Equals(_)) => false,
        (SpecBlockFilter::StartsWith(x), SpecBlockFilter::StartsWith(y)) => chars_lt(x, y),
    }
}

/// Strict total order on expectations: block kinds come before raw tokens.
pub open spec fn exp_lt(a: SpecExpected, b: SpecExpected) -> bool {
    match (a, b) {
        (SpecExpected::Block(x), SpecExpected::Block(y)) => filter_lt(x, y),
        (SpecExpected::Block(_), SpecExpected::Token(_)) => true,
        (SpecExpected::Token(_), SpecExpected::Block(_)) => false,
        (SpecExpected::Token(x), SpecExpected::Token(y)) => token_rank(x) < token_rank(y),
    }
}

pub proof fn lemma_chars_lt_trichotomy(a: Seq<char>, b: Seq<char>)
    ensures
        chars_lt(a, b) || chars_lt(b, a) || a == b,
    decreases a.len(),
{
    if b.len() > 0 && a.len() > 0 && !(a[0] < b[0]) && !(b[0] < a[0]) {
        lemma_chars_lt_trichotomy(a.drop_first(), b.drop_first());
        if !chars_lt(a, b) && !chars_lt(b, a) {
            assert(a.drop_first() == b.drop_first());
            assert(a[0] == b[0]);
            assert forall|i: int| 0 <= i < a.len() implies a[i] == b[i] by {
                if i > 0 {
                    assert(a.drop_first()[i - 1] == b.drop_first()[i - 1]);
                }
            }
            assert(a =~= b);
        }
    } else if a.len() == 0 && b.len() == 0 {
        assert(a =~= b);
    }
}

/// The order on expectations is total.
pub proof fn lemma_exp_lt_trichotomy(a: SpecExpected, b: SpecExpected)
    ensures
        exp_lt(a, b) || exp_lt(b, a) || a == b,
{
    match (a, b) {
        (SpecExpected::Block(SpecBlockFilter::Equals(x)), SpecExpected::Block(
            SpecBlockFilter::Equals(y),
        )) => {
            lemma_chars_lt_trichotomy(x, y);
        },
        (SpecExpected::Block(SpecBlockFilter::StartsWith(x)), SpecExpected::Block(
            SpecBlockFilter::StartsWith(y),
        )) => {
            lemma_chars_lt_trichotomy(x, y);
        },
        _ => {},
    }
}

/// Merge of two sorted expectation sets, keeping one copy of an expectation
/// found in both.
pub open spec fn spec_merge(a: Seq<SpecExpected>, b: Seq<SpecExpected>) -> Seq<SpecExpected>
    decreases a.len() + b.len(),
{
    if a.len() == 0 {
        b
    } else if b.len() == 0 {
        a
    } else if exp_lt(a[0], b[0]) {
        seq![a[0]] + spec_merge(a.drop_first(), b)
    } else if exp_lt(b[0], a[0]) {
        seq![b[0]] + spec_merge(a, b.drop_first())
    } else {
        seq![a[0]] + spec_merge(a.drop_first(), b.drop_first())
    }
}

/// Exec comparison mirroring [`chars_lt`].
pub fn chars_lt_exec(a: &[char], b: &[char]) -> (r: bool)
    ensures
        r == chars_lt(a@, b@),
{
    let mut i: usize = 0;
    let an = a.len();
    let bn = b.len();
    proof {
        assert(a@.skip(0) =~= a@);
        assert(b@.skip(0) =~= b@);
    }
    while i < an && i < bn
        invariant
            i <= an <= a@.len(),
            an == a@.len(),
            bn == b@.len(),
            i <= bn,
            chars_lt(a@, b@) == chars_lt(a@.skip(i as int), b@.skip(i as int)),
            chars_lt(b@, a@) == chars_lt(b@.skip(i as int), a@.skip(i as int)),
        decreases an - i,
    {
        proof {
            assert(a@.skip(i as int)[0] == a@[i as int]);
            assert(b@.skip(i as int)[0] == b@[i as int]);
            assert(a@.skip(i as int).drop_first() =~= a@.skip(i + 1));
            assert(b@.skip(i as int).drop_first() =~= b@.skip(i + 1));
        }
        if a[i] < b[i] {
            return true;
        }
        if b[i] < a[i] {
            return false;
        }
        i = i + 1;
    }
    proof {
        assert(a@.skip(i as int).len() == an - i);
        assert(b@.skip(i as int).len() == bn - i);
    }
    i >= an && i < bn
}

/// Exec comparison mirroring [`exp_lt`].
pub fn exp_lt_exec(a: &Expected, b: &Expected) -> (r: bool)
    ensures
        r == exp_lt(a@, b@),
{
    match (a, b) {
        (Expected::Block(x), Expected::Block(y)) => {
            match (x, y) {
                (BlockFilter::Equals(s), BlockFilter::Equals(t)) => chars_lt_exec(
                    s.as_slice(),
                    t.as_slice(),
                ),
                (BlockFilter::Equals(_), BlockFilter::StartsWith(_)) => true,
                (BlockFilter::StartsWith(_), BlockFilter::Equals(_)) => false,
                (BlockFilter::StartsWith(s), BlockFilter::StartsWith(t)) => chars_lt_exec(
                    s.as_slice(),
                    t.as_slice(),
                ),
            }
        },
        (Expected::Block(_), Expected::Token(_)) => true,
        (Expected::Token(_), Expected::Block(_)) => false,
        (Expected::Token(x), Expected::Token(y)) => {
            let rx = token_rank_exec(*x);
            let ry = token_rank_exec(*y);
            rx < ry
        },
    }
}

fn token_rank_exec(t: Token) -> (r: u32)
    ensures
        r as int == token_rank(t),
{
    match t {
        Token::ExprStart => 0,
        Token::ExprEnd => 1,
        Token::BlockStart => 2,
        Token::BlockEnd => 3,
        Token::CommentStart => 4,
        Token::CommentEnd => 5,
        Token::Other => 6,
    }
}

/// Copies an expectation.
pub fn exp_clone(e: &Expected) -> (r: Expected)
    ensures
        r@ == e@,
{
    match e {
        Expected::Block(BlockFilter::Equals(s)) => {
            let c = subvec(s.as_slice(), 0, s.len());
            proof {
                assert(c@ =~= s@);
            }
            Expected::Block(BlockFilter::Equals(c))
        },
        Expected::Block(BlockFilter::StartsWith(s)) => {
            let c = subvec(s.as_slice(), 0, s.len());
            proof {
                assert(c@ =~= s@);
            }
            Expected::Block(BlockFilter::StartsWith(c))
        },
        Expected::Token(t) => Expected::Token(*t),
    }
}

/// Exec merge mirroring [`spec_merge`].
pub fn merge_expected(a: &Vec<Expected>, b: &Vec<Expected>) -> (r: Vec<Expected>)
    ensures
        exps_view(r) == spec_merge(exps_view(*a), exps_view(*b)),
{
    let mut r: Vec<Expected> = Vec::new();
    let mut i: usize = 0;
    let mut j: usize = 0;
    let ghost va = exps_view(*a);
    let ghost vb = exps_view(*b);
    proof {
        assert(va.skip(0) =~= va);
        assert(vb.skip(0) =~= vb);
        assert(exps_view(r) =~= Seq::<SpecExpected>::empty());
    }
    while i < a.len() || j < b.len()
        invariant
            i <= a@.len(),
            j <= b@.len(),
            va == exps_view(*a),
            vb == exps_view(*b),
            va.len() == a@.len(),
            vb.len() == b@.len(),
            spec_merge(va, vb) == exps_view(r) + spec_merge(va.skip(i as int), vb.skip(j as int)),
        decreases a@.len() - i + b@.len() - j,
    {
        let ghost r0 = exps_view(r);
        let ghost sa = va.skip(i as int);
        let ghost sb = vb.skip(j as int);
        proof {
            if i < a@.len() {
                assert(sa[0] == va[i as int]);
                assert(va[i as int] == a@[i as int]@);
                assert(sa.drop_first() =~= va.skip(i + 1));
            }
            if j < b@.len() {
                assert(sb[0] == vb[j as int]);
                assert(vb[j as int] == b@[j as int]@);
                assert(sb.drop_first() =~= vb.skip(j + 1));
            }
        }
        if i >= a.len() {
            r.push(exp_clone(&b[j]));
            j = j + 1;
            proof {
                assert(exps_view(r) =~= r0.push(sb[0]));
                assert(spec_merge(sa, sb) == sb);
                assert(sb =~= seq![sb[0]] + vb.skip(j as int));
                assert(r0 + (seq![sb[0]] + spec_merge(sa, vb.skip(j as int))) =~= exps_view(r)
                    + spec_merge(sa, vb.skip(j as int)));
            }
        } else if j >= b.len() {
            r.push(exp_clone(&a[i]));
            i = i + 1;
            proof {
                assert(exps_view(r) =~= r0.push(sa[0]));
                assert(spec_merge(sa, sb) == sa);
                assert(sa =~= seq![sa[0]] + va.skip(i as int));
                assert(r0 + (seq![sa[0]] + spec_merge(va.skip(i as int), sb)) =~= exps_view(r)
                    + spec_merge(va.skip(i as int), sb));
            }
        } else if exp_lt_exec(&a[i], &b[j]) {
            r.push(exp_clone(&a[i]));
            i = i + 1;
            proof {
                assert(exps_view(r) =~= r0.push(sa[0]));
                assert(spec_merge(sa, sb) == seq![sa[0]] + spec_merge(va.skip(i as int), sb));
                assert(r0 + (seq![sa[0]] + spec_merge(va.skip(i as int), sb)) =~= exps_view(r)
                    + spec_merge(va.skip(i as int), sb));
            }
        } else if exp_lt_exec(&b[j], &a[i]) {
            r.push(exp_clone(&b[j]));
            j = j + 1;
            proof {
                assert(exps_view(r) =~= r0.push(sb[0]));
                assert(spec_merge(sa, sb) == seq![sb[0]] + spec_merge(sa, vb.skip(j as int)));
                assert(r0 + (seq![sb[0]] + spec_merge(sa, vb.skip(j as int))) =~= exps_view(r)
                    + spec_merge(sa, vb.skip(j as int)));
            }
        } else {
            proof {
                lemma_exp_lt_trichotomy(sa[0], sb[0]);
                assert(sa[0] == sb[0]);
            }
            r.push(exp_clone(&a[i]));
            i = i + 1;
            j = j + 1;
            proof {
                assert(exps_view(r) =~= r0.push(sa[0]));
                assert(spec_merge(sa, sb) == seq![sa[0]] + spec_merge(
                    va.skip(i as int),
                    vb.skip(j as int),
                ));
                assert(r0 + (seq![sa[0]] + spec_merge(va.skip(i as int), vb.skip(j as int)))
                    =~= exps_view(r) + spec_merge(va.skip(i as int), vb.skip(j as int)));
            }
        }
    }
    proof {
        assert(va.skip(i as int).len() == 0);
        assert(vb.skip(j as int).len() == 0);
        assert(spec_merge(va.skip(i as int), vb.skip(j as int)).len() == 0);
        assert(exps_view(r) =~= exps_view(r) + spec_merge(va.skip(i as int), vb.skip(j as int)));
    }
    r
}

/// A singleton expectation set holding one token.
pub fn one_token(t: Token) -> (r: Vec<Expected>)
    ensures
        exps_view(r) =~= seq![SpecExpected::Token(t)],
{
    let mut r: Vec<Expected> = Vec::new();
    r.push(Expected::Token(t));
    r
}

/// The `{:?}` rendering of a token.
pub open spec fn token_name(t: Token) -> Seq<char> {
    match t {
        Token::ExprStart => "ExprStart"@,
        Token::ExprEnd => "ExprEnd"@,
        Token::BlockStart => "BlockStart"@,
        Token::BlockEnd => "BlockEnd"@,
        Token::CommentStart => "CommentStart"@,
        Token::CommentEnd => "CommentEnd"@,
        Token::Other => "Other"@,
    }
}

fn token_name_exec(t: Token) -> (r: &'static str)
    ensures
        r@ == token_name(t),
{
    match t {
        Token::ExprStart => "ExprStart",
        Token::ExprEnd => "ExprEnd",
        Token::BlockStart => "BlockStart",
        Token::BlockEnd => "BlockEnd",
        Token::CommentStart => "CommentStart",
        Token::CommentEnd => "CommentEnd",
        Token::Other => "Other",
    }
}

/// The `{:?}` rendering of the found token, if any.
pub open spec fn found_name(t: Option<Token>) -> Seq<char> {
    match t {
        Some(t) => "Some("@ + token_name(t) + ")"@,
        None => "None"@,
    }
}

/// One entry of the expectation list: `` `Token` `` or `name-block`.
pub open spec fn exp_text(e: SpecExpected) -> Seq<char> {
    match e {
        SpecExpected::Block(f) => spec_filter_name(f) + "-block"@,
        SpecExpected::Token(t) => "`"@ + token_name(t) + "`"@,
    }
}

/// The expectation list, separated by `", "`, from index `i` on.
pub open spec fn exps_text(es: Seq<SpecExpected>, i: int) -> Seq<char>
    decreases es.len() - i,
{
    if i < 0 || i >= es.len() {
        Seq::empty()
    } else if i == 0 {
        exp_text(es[0]) + exps_text(es, 1)
    } else {
        ", "@ + exp_text(es[i]) + exps_text(es, i + 1)
    }
}

/// The rendering of a whole diagnostic against its source.
pub open spec fn spec_format_error(e: SpecError, src: Seq<char>) -> Seq<char> {
    "@"@ + dec_spec(e.span.start as nat) + ".."@ + dec_spec(e.span.end as nat) + " '"@
        + src.subrange(e.span.start as int, e.span.end as int) + "': found `"@ + found_name(
        e.token,
    ) + "`, expected one of "@ + exps_text(e.expected, 0)
}

impl Error {
    /// Renders the diagnostic as a human-readable line: the failing span, the
    /// source text under it, the token found, and everything that would have
    /// been accepted, in canonical order.
    pub fn format(&self, source: &str) -> (r: String)
        requires
            self.span.start <= self.span.end <= source@.len(),
        ensures
            r@ == spec_format_error(self@, source@),
    {
        let src = crate::chars::to_chars(source);
        let mut out: Vec<char> = Vec::new();
        append_lit(&mut out, "@");
        let ds = dec_chars(self.span.start);
        crate::chars::append_chars(&mut out, ds.as_slice());
        append_lit(&mut out, "..");
        let de = dec_chars(self.span.end);
        crate::chars::append_chars(&mut out, de.as_slice());
        append_lit(&mut out, " '");
        let slice = subvec(src.as_slice(), self.span.start, self.span.end);
        crate::chars::append_chars(&mut out, slice.as_slice());
        append_lit(&mut out, "': found `");
        match self.token {
            Some(t) => {
                append_lit(&mut out, "Some(");
                let n = token_name_exec(t);
                let nv = crate::chars::to_chars(n);
                crate::chars::append_chars(&mut out, nv.as_slice());
                append_lit(&mut out, ")");
                proof {
                    assert(found_name(self.token) =~= "Some("@ + token_name(t) + ")"@);
                }
            },
            None => {
                append_lit(&mut out, "None");
            },
        }
        append_lit(&mut out, "`, expected one of ");
        let ghost prefix = out@;
        let ghost es = exps_view(self.expected);
        let mut i: usize = 0;
        while i < self.expected.len()
            invariant
                i <= self.expected@.len(),
                es == exps_view(self.expected),
                es.len() == self.expected@.len(),
                out@ + exps_text(es, i as int) == prefix + exps_text(es, 0),
            decreases self.expected@.len() - i,
        {
            proof {
                assert(es[i as int] == self.expected@[i as int]@);
                lemma_exps_text_step(es, i as int);
            }
            let ghost out0 = out@;
            if i > 0 {
                append_lit(&mut out, ", ");
            }
            match &self.expected[i] {
                Expected::Block(f) => {
                    let n = f.name();
                    crate::chars::append_chars(&mut out, n.as_slice());
                    append_lit(&mut out, "-block");
                },
                Expected::Token(t) => {
                    append_lit(&mut out, "`");
                    let n = token_name_exec(*t);
                    let nv = crate::chars::to_chars(n);
                    crate::chars::append_chars(&mut out, nv.as_slice());
                    append_lit(&mut out, "`");
                },
            }
            proof {
                if i > 0 {
                    assert(out@ =~= out0 + (", "@ + exp_text(es[i as int])));
                } else {
                    assert(out@ =~= out0 + exp_text(es[i as int]));
                }
                assert(out@ + exps_text(es, i + 1) =~= out0 + exps_text(es, i as int));
            }
            i = i + 1;
        }
        proof {
            assert(exps_text(es, i as int) =~= Seq::<char>::empty());
            assert(out@ =~= out@ + exps_text(es, i as int));
            assert(out@ =~= prefix + exps_text(es, 0));
            assert(out@ =~= spec_format_error(self@, source@));
        }
        chars_to_string(out.as_slice())
    }
}

proof fn lemma_exps_text_step(es: Seq<SpecExpected>, i: int)
    requires
        0 <= i < es.len(),
    ensures
        exps_text(es, i) == (if i == 0 {
            exp_text(es[i]) + exps_text(es, i + 1)
        } else {
            ", "@ + exp_text(es[i]) + exps_text(es, i + 1)
        }),
{
}

/// Appends the characters of a literal.
fn append_lit(out: &mut Vec<char>, s: &str)
    ensures
        final(out)@ == old(out)@ + s@,
{
    let v = crate::chars::to_chars(s);
    crate::chars::append_chars(out, v.as_slice());
}

} // verus!
