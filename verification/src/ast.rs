//! The tree built by the parser: an ordered sequence of items, where block
//! constructs carry nested trees.
//!
//! Literal text is kept structured as complete lines (content plus its line
//! terminator) followed by one optional unterminated trailing segment, so the
//! whitespace passes can ask "does this content sit at a line boundary?"
//! without re-scanning.
//!
//! Each executable type has a ghost model (`SpecAst`, `SpecItem`, ...) that
//! the contracts of the whole pipeline are stated over.

use vstd::prelude::*;

verus! {

broadcast use {vstd::seq::axiom_seq_index_decreases, vstd::seq::axiom_seq_subrange_decreases, vstd::std_specs::vec::axiom_vec_index_decreases};

/// A line terminator.
#[derive(Debug, Clone, Copy, PartialEq, Eq, Structural)]
pub enum NewLine {
    /// `\n`
    Lf,
    /// `\r\n`
    CrLf,
}

/// The characters of a line terminator.
pub open spec fn newline_chars(nl: NewLine) -> Seq<char> {
    match nl {
        NewLine::Lf => seq!['\n'],
        NewLine::CrLf => seq!['\r', '\n'],
    }
}

/// One complete line of literal text: its content and its terminator.
#[derive(Debug)]
pub struct Line {
    pub content: Vec<char>,
    pub new_line: NewLine,
}

/// Ghost model of [`Line`].
pub struct SpecLine {
    pub content: Seq<char>,
    pub new_line: NewLine,
}

impl View for Line {
    type V = SpecLine;

    open spec fn view(&self) -> SpecLine {
        SpecLine { content: self.content@, new_line: self.new_line }
    }
}

/// A literal-text node: complete lines plus an optional unterminated tail.
#[derive(Debug)]
pub struct Text {
    pub lines: Vec<Line>,
    pub trailing: Vec<char>,
}

/// Ghost model of [`Text`].
pub struct SpecText {
    pub lines: Seq<SpecLine>,
    pub trailing: Seq<char>,
}

/// The models of a vector of lines.
pub open spec fn lines_view(v: Vec<Line>) -> Seq<SpecLine> {
    v@.map_values(|l: Line| l@)
}

impl View for Text {
    type V = SpecText;

    open spec fn view(&self) -> SpecText {
        SpecText { lines: lines_view(self.lines), trailing: self.trailing@ }
    }
}

/// A parsed template: an ordered sequence of items.
#[derive(Debug)]
pub struct Ast {
    pub items: Vec<Item>,
}

/// Ghost model of [`Ast`].
pub struct SpecAst {
    pub items: Seq<SpecItem>,
}

/// One item of a template.
#[derive(Debug)]
pub enum Item {
    /// Literal text, written verbatim.
    Text(Text),
    /// A comment, dropped at render time.
    Comment(Vec<char>),
    /// An expression and its format specification.
    Expr(Vec<char>, Vec<char>),
    /// A binding statement, starting with `let`.
    Let(Vec<char>),
    /// A nested lexical scope.
    Scope(Ast),
    /// A loop: its header, the separator text derived by the trim pass, its
    /// body, and the optional body that renders when the loop is empty.
    For { for_: Vec<char>, pre: Option<Text>, body: Ast, else_: Option<Ast> },
    /// A conditional: the first branch, any number of `else if` branches, and
    /// an optional `else` body.
    If { if_: (Vec<char>, Ast), else_ifs: Vec<(Vec<char>, Ast)>, else_: Option<Ast> },
    /// A match over a subject, with one body per arm.
    Match { match_: Vec<char>, wheres: Vec<(Vec<char>, Ast)> },
    /// A reusable named block.
    Macro { name: Vec<char>, params: Vec<Vec<char>>, body: Ast },
    /// An invocation of a named block; `ind` is the call-site indentation
    /// captured by the dedent pass.
    Call { name: Vec<char>, args: Vec<Vec<char>>, ind: usize },
}

/// Ghost model of [`Item`].
pub enum SpecItem {
    Text(SpecText),
    Comment(Seq<char>),
    Expr(Seq<char>, Seq<char>),
    Let(Seq<char>),
    Scope(SpecAst),
    For { for_: Seq<char>, pre: Option<SpecText>, body: SpecAst, else_: Option<SpecAst> },
    If { if_: (Seq<char>, SpecAst), else_ifs: Seq<(Seq<char>, SpecAst)>, else_: Option<SpecAst> },
    Match { match_: Seq<char>, wheres: Seq<(Seq<char>, SpecAst)> },
    Macro { name: Seq<char>, params: Seq<Seq<char>>, body: SpecAst },
    Call { name: Seq<char>, args: Seq<Seq<char>>, ind: usize },
}

/// The model of the items of `a`, starting at index `i`.
pub open spec fn ast_view_from(a: Ast, i: int) -> Seq<SpecItem>
    decreases a, a.items.len() - i,
{
    if i < 0 || i >= a.items.len() {
        Seq::empty()
    } else {
        seq![item_view(a.items[i])] + ast_view_from(a, i + 1)
    }
}

/// The model of a parsed tree.
pub open spec fn ast_view(a: Ast) -> SpecAst
    decreases a, a.items.len() + 1,
{
    SpecAst { items: ast_view_from(a, 0) }
}

/// The models of a vector of `(text, tree)` pairs, starting at index `i`.
pub open spec fn pairs_view_from(v: Vec<(Vec<char>, Ast)>, i: int) -> Seq<(Seq<char>, SpecAst)>
    decreases v, v.len() - i,
{
    if i < 0 || i >= v.len() {
        Seq::empty()
    } else {
        seq![(v[i].0@, ast_view(v[i].1))] + pairs_view_from(v, i + 1)
    }
}

/// The model of one item.
pub open spec fn item_view(it: Item) -> SpecItem
    decreases it,
{
    match it {
        Item::Text(t) => SpecItem::Text(t@),
        Item::Comment(c) => SpecItem::Comment(c@),
        Item::Expr(e, f) => SpecItem::Expr(e@, f@),
        Item::Let(l) => SpecItem::Let(l@),
        Item::Scope(b) => SpecItem::Scope(ast_view(b)),
        Item::For { for_, pre, body, else_ } => SpecItem::For {
            for_: for_@,
            pre: match pre {
                Some(t) => Some(t@),
                None => None,
            },
            body: ast_view(body),
            else_: match else_ {
                Some(e) => Some(ast_view(e)),
                None => None,
            },
        },
        Item::If { if_, else_ifs, else_ } => SpecItem::If {
            if_: (if_.0@, ast_view(if_.1)),
            else_ifs: pairs_view_from(else_ifs, 0),
            else_: match else_ {
                Some(e) => Some(ast_view(e)),
                None => None,
            },
        },
        Item::Match { match_, wheres } => SpecItem::Match {
            match_: match_@,
            wheres: pairs_view_from(wheres, 0),
        },
        Item::Macro { name, params, body } => SpecItem::Macro {
            name: name@,
            params: params@.map_values(|p: Vec<char>| p@),
            body: ast_view(body),
        },
        Item::Call { name, args, ind } => SpecItem::Call {
            name: name@,
            args: args@.map_values(|p: Vec<char>| p@),
            ind,
        },
    }
}

impl View for Ast {
    type V = SpecAst;

    open spec fn view(&self) -> SpecAst {
        ast_view(*self)
    }
}

impl View for Item {
    type V = SpecItem;

    open spec fn view(&self) -> SpecItem {
        item_view(*self)
    }
}

pub proof fn lemma_ast_view_from(a: Ast, i: int)
    requires
        0 <= i <= a.items.len(),
    ensures
        ast_view_from(a, i).len() == a.items.len() - i,
        forall|j: int|
            i <= j < a.items.len() ==> #[trigger] ast_view_from(a, i)[j - i] == item_view(
                a.items[j],
            ),
    decreases a.items.len() - i,
{
    if i < a.items.len() {
        lemma_ast_view_from(a, i + 1);
        assert forall|j: int| i <= j < a.items.len() implies #[trigger] ast_view_from(a, i)[j - i]
            == item_view(a.items[j]) by {
            if j > i {
                assert(ast_view_from(a, i + 1)[j - (i + 1)] == item_view(a.items[j]));
                assert(ast_view_from(a, i)[j - i] == ast_view_from(a, i + 1)[j - i - 1]);
            } else {
                assert(ast_view_from(a, i)[0] == item_view(a.items[i]));
            }
        }
    }
}

/// The model of a tree indexes its items one for one.
pub proof fn lemma_ast_view(a: Ast)
    ensures
        a@.items.len() == a.items.len(),
        forall|j: int| 0 <= j < a.items.len() ==> #[trigger] a@.items[j] == a.items[j]@,
{
    lemma_ast_view_from(a, 0);
    assert forall|j: int| 0 <= j < a.items.len() implies #[trigger] a@.items[j] == a.items[j]@ by {
        assert(ast_view_from(a, 0)[j - 0] == item_view(a.items[j]));
    }
}

pub proof fn lemma_pairs_view_from(v: Vec<(Vec<char>, Ast)>, i: int)
    requires
        0 <= i <= v.len(),
    ensures
        pairs_view_from(v, i).len() == v.len() - i,
        forall|j: int|
            i <= j < v.len() ==> #[trigger] pairs_view_from(v, i)[j - i] == (
                v[j].0@,
                ast_view(v[j].1),
            ),
    decreases v.len() - i,
{
    if i < v.len() {
        lemma_pairs_view_from(v, i + 1);
        assert forall|j: int| i <= j < v.len() implies #[trigger] pairs_view_from(v, i)[j - i] == (
            v[j].0@,
            ast_view(v[j].1),
        ) by {
            if j > i {
                assert(pairs_view_from(v, i + 1)[j - (i + 1)] == (v[j].0@, ast_view(v[j].1)));
                assert(pairs_view_from(v, i)[j - i] == pairs_view_from(v, i + 1)[j - i - 1]);
            } else {
                assert(pairs_view_from(v, i)[0] == (v[i].0@, ast_view(v[i].1)));
            }
        }
    }
}

/// Plain-index form of [`lemma_pairs_view_from`] at the start of the list.
pub proof fn lemma_pairs_view(v: Vec<(Vec<char>, Ast)>)
    ensures
        pairs_view_from(v, 0).len() == v.len(),
        forall|j: int|
            0 <= j < v.len() ==> (#[trigger] pairs_view_from(v, 0)[j]) == (
                v[j].0@,
                ast_view(v[j].1),
            ),
{
    lemma_pairs_view_from(v, 0);
    assert forall|j: int| 0 <= j < v.len() implies (#[trigger] pairs_view_from(v, 0)[j]) == (
        v[j].0@,
        ast_view(v[j].1),
    ) by {
        assert(pairs_view_from(v, 0)[j - 0] == (v[j].0@, ast_view(v[j].1)));
    }
}

/// The characters of a sequence of complete lines.
pub open spec fn lines_chars(lines: Seq<SpecLine>) -> Seq<char>
    decreases lines,
{
    if lines.len() == 0 {
        Seq::empty()
    } else {
        lines[0].content + newline_chars(lines[0].new_line) + lines_chars(lines.drop_first())
    }
}

/// The characters a text node stands for: its lines in order, each followed
/// by its terminator, then the trailing segment.
pub open spec fn text_chars(t: SpecText) -> Seq<char> {
    lines_chars(t.lines) + t.trailing
}

/// A text node with no lines and no trailing segment.
pub open spec fn text_is_empty_spec(t: SpecText) -> bool {
    t.lines.len() == 0 && t.trailing.len() == 0
}

impl Text {
    /// An empty text node.
    pub fn empty() -> (r: Text)
        ensures
            r@ == (SpecText { lines: Seq::<SpecLine>::empty(), trailing: Seq::<char>::empty() }),
    {
        let r = Text { lines: Vec::new(), trailing: Vec::new() };
        proof {
            assert(r@.lines =~= Seq::<SpecLine>::empty());
        }
        r
    }
}

impl Ast {
    /// An empty tree.
    pub fn empty() -> (r: Ast)
        ensures
            r@ == (SpecAst { items: Seq::<SpecItem>::empty() }),
    {
        Ast { items: Vec::new() }
    }
}

/// The size of an optional nested tree.
pub open spec fn opt_ast_size(o: Option<SpecAst>) -> nat
    decreases o,
{
    match o {
        Some(a) => sast_size(a),
        None => 0,
    }
}

/// The total node count of the trees in a sequence of `(text, tree)` pairs.
pub open spec fn pairs_size(v: Seq<(Seq<char>, SpecAst)>) -> nat
    decreases v,
{
    if v.len() == 0 {
        0
    } else {
        sast_size(v[0].1) + pairs_size(v.drop_first())
    }
}

/// The node count of an item; every item counts at least one.
pub open spec fn sitem_size(it: SpecItem) -> nat
    decreases it,
{
    match it {
        SpecItem::Text(_) => 1,
        SpecItem::Comment(_) => 1,
        SpecItem::Expr(_, _) => 1,
        SpecItem::Let(_) => 1,
        SpecItem::Scope(b) => 1 + sast_size(b),
        SpecItem::For { body, else_, .. } => 1 + sast_size(body) + opt_ast_size(else_),
        SpecItem::If { if_, else_ifs, else_ } => 1 + sast_size(if_.1) + pairs_size(else_ifs)
            + opt_ast_size(else_),
        SpecItem::Match { wheres, .. } => 1 + pairs_size(wheres),
        SpecItem::Macro { body, .. } => 1 + sast_size(body),
        SpecItem::Call { .. } => 1,
    }
}

/// The node count of a sequence of items.
pub open spec fn sitems_size(items: Seq<SpecItem>) -> nat
    decreases items,
{
    if items.len() == 0 {
        0
    } else {
        sitem_size(items[0]) + sitems_size(items.drop_first())
    }
}

/// The node count of a tree; strictly above the count of its items.
pub open spec fn sast_size(a: SpecAst) -> nat
    decreases a,
{
    1 + sitems_size(a.items)
}

pub proof fn lemma_sitems_size_member(items: Seq<SpecItem>, i: int)
    requires
        0 <= i < items.len(),
    ensures
        sitem_size(items[i]) <= sitems_size(items),
    decreases items.len(),
{
    if i > 0 {
        lemma_sitems_size_member(items.drop_first(), i - 1);
    }
}

pub proof fn lemma_sitems_size_drop_first(items: Seq<SpecItem>)
    requires
        items.len() > 0,
    ensures
        sitems_size(items.drop_first()) < sitems_size(items),
        sitem_size(items[0]) >= 1,
{
}

pub proof fn lemma_pairs_size_drop_first(v: Seq<(Seq<char>, SpecAst)>)
    requires
        v.len() > 0,
    ensures
        pairs_size(v.drop_first()) < pairs_size(v),
        sast_size(v[0].1) >= 1,
{
}

pub proof fn lemma_pairs_size_member(v: Seq<(Seq<char>, SpecAst)>, i: int)
    requires
        0 <= i < v.len(),
    ensures
        sast_size(v[i].1) <= pairs_size(v),
    decreases v.len(),
{
    if i > 0 {
        lemma_pairs_size_member(v.drop_first(), i - 1);
    }
}


/// The index of the first `'\n'` in `s`, or `s.len()` if there is none.
pub open spec fn find_nl(s: Seq<char>) -> int
    decreases s,
{
    if s.len() == 0 {
        0
    } else if s[0] == '\n' {
        0
    } else {
        1 + find_nl(s.drop_first())
    }
}

pub proof fn lemma_find_nl(s: Seq<char>)
    ensures
        0 <= find_nl(s) <= s.len(),
        forall|i: int| 0 <= i < find_nl(s) ==> s[i] != '\n',
        find_nl(s) < s.len() ==> s[find_nl(s)] == '\n',
    decreases s.len(),
{
    if s.len() > 0 && s[0] != '\n' {
        let d = s.drop_first();
        lemma_find_nl(d);
        assert forall|i: int| 0 <= i < find_nl(s) implies s[i] != '\n' by {
            if i > 0 {
                assert(s[i] == d[i - 1]);
            }
        }
        if find_nl(s) < s.len() {
            assert(s[find_nl(s)] == d[find_nl(d)]);
        }
    }
}

/// Splits raw characters into complete lines plus a trailing segment,
/// recognising both `\n` and `\r\n` terminators.
pub open spec fn spec_decompose(s: Seq<char>) -> SpecText
    decreases s.len(),
{
    let k = find_nl_capped(s);
    if k >= s.len() {
        SpecText { lines: Seq::empty(), trailing: s }
    } else {
        let line = if k > 0 && s[k - 1] == '\r' {
            SpecLine { content: s.subrange(0, k - 1), new_line: NewLine::CrLf }
        } else {
            SpecLine { content: s.subrange(0, k), new_line: NewLine::Lf }
        };
        let rest = spec_decompose(s.subrange(k + 1, s.len() as int));
        SpecText { lines: seq![line] + rest.lines, trailing: rest.trailing }
    }
}

/// [`find_nl`], clamped into `0 .. s.len()` so that `spec_decompose` can
/// recurse on it directly.
pub open spec fn find_nl_capped(s: Seq<char>) -> int {
    if find_nl(s) < 0 {
        0
    } else if find_nl(s) > s.len() {
        s.len() as int
    } else {
        find_nl(s)
    }
}

/// Reassembling the lines and trailing segment of a decomposition gives back
/// exactly the characters that were decomposed.
pub proof fn lemma_decompose_chars(s: Seq<char>)
    ensures
        text_chars(spec_decompose(s)) == s,
    decreases s.len(),
{
    lemma_find_nl(s);
    let k = find_nl_capped(s);
    if k >= s.len() {
        assert(lines_chars(Seq::<SpecLine>::empty()) + s =~= s);
    } else {
        let rest_s = s.subrange(k + 1, s.len() as int);
        lemma_decompose_chars(rest_s);
        let rest = spec_decompose(rest_s);
        let t = spec_decompose(s);
        assert(t.lines.drop_first() =~= rest.lines);
        assert(lines_chars(t.lines) == t.lines[0].content + newline_chars(t.lines[0].new_line)
            + lines_chars(rest.lines));
        if k > 0 && s[k - 1] == '\r' {
            assert(s.subrange(0, k - 1) + seq!['\r', '\n'] + rest_s =~= s);
        } else {
            assert(s.subrange(0, k) + seq!['\n'] + rest_s =~= s);
        }
        assert(text_chars(t) =~= lines_chars(t.lines) + rest.trailing);
    }
}

/// Exec search for the first `'\n'` at or after `from`.
fn find_newline(v: &[char], from: usize) -> (k: usize)
    requires
        from <= v@.len(),
    ensures
        k - from == find_nl(v@.subrange(from as int, v@.len() as int)),
        from <= k <= v@.len(),
    decreases v@.len() - from,
{
    proof {
        let suf = v@.subrange(from as int, v@.len() as int);
        if suf.len() > 0 {
            assert(suf[0] == v@[from as int]);
            assert(suf.drop_first() =~= v@.subrange(from + 1, v@.len() as int));
        }
        lemma_find_nl(suf);
    }
    if from == v.len() {
        from
    } else if v[from] == '\n' {
        from
    } else {
        find_newline(v, from + 1)
    }
}

/// Exec decomposition of `v[from..]` into a text node.
fn decompose_from(v: &[char], from: usize) -> (r: Text)
    requires
        from <= v@.len(),
    ensures
        r@ == spec_decompose(v@.subrange(from as int, v@.len() as int)),
    decreases v@.len() - from,
{
    let n = v.len();
    let ghost suf = v@.subrange(from as int, n as int);
    let k = find_newline(v, from);
    proof {
        lemma_find_nl(suf);
    }
    if k == n {
        let r = Text { lines: Vec::new(), trailing: crate::chars::subvec(v, from, n) };
        proof {
            assert(r@.lines =~= Seq::<SpecLine>::empty());
        }
        r
    } else {
        let line = if k > from && v[k - 1] == '\r' {
            proof {
                assert(suf[(k - from) - 1] == v@[k - 1]);
                assert(v@.subrange(from as int, k - 1) =~= suf.subrange(0, (k - from) - 1));
            }
            Line { content: crate::chars::subvec(v, from, k - 1), new_line: NewLine::CrLf }
        } else {
            proof {
                if k > from {
                    assert(suf[(k - from) - 1] == v@[k - 1]);
                }
                assert(v@.subrange(from as int, k as int) =~= suf.subrange(0, k - from));
            }
            Line { content: crate::chars::subvec(v, from, k), new_line: NewLine::Lf }
        };
        let mut rest = decompose_from(v, k + 1);
        proof {
            assert(v@.subrange(k + 1, n as int) =~= suf.subrange((k - from) + 1, suf.len() as int));
        }
        rest.lines.insert(0, line);
        proof {
            let sd = spec_decompose(suf);
            assert(rest@.lines =~= sd.lines);
        }
        rest
    }
}

/// Exec decomposition of raw characters into a text node.
pub fn decompose(v: &[char]) -> (r: Text)
    ensures
        r@ == spec_decompose(v@),
{
    let r = decompose_from(v, 0);
    proof {
        assert(v@.subrange(0, v@.len() as int) =~= v@);
    }
    r
}

/// The characters a text node stands for, as a fresh vector.
pub fn text_chars_vec(t: &Text) -> (r: Vec<char>)
    ensures
        r@ == text_chars(t@),
{
    let mut r: Vec<char> = Vec::new();
    let mut i: usize = 0;
    proof {
        assert(t@.lines.skip(0) =~= t@.lines);
        assert(r@ + lines_chars(t@.lines.skip(0)) + t.trailing@ =~= lines_chars(t@.lines)
            + t.trailing@);
    }
    while i < t.lines.len()
        invariant
            i <= t.lines.len(),
            t@.lines.len() == t.lines.len(),
            r@ + lines_chars(t@.lines.skip(i as int)) + t.trailing@ == text_chars(t@),
        decreases t.lines.len() - i,
    {
        proof {
            assert(t@.lines[i as int] == t.lines[i as int]@);
            assert(t@.lines.skip(i as int)[0] == t@.lines[i as int]);
            assert(t@.lines.skip(i as int).drop_first() =~= t@.lines.skip(i + 1));
        }
        crate::chars::append_chars(&mut r, t.lines[i].content.as_slice());
        match t.lines[i].new_line {
            NewLine::Lf => {
                r.push('\n');
            },
            NewLine::CrLf => {
                r.push('\r');
                r.push('\n');
            },
        }
        proof {
            assert(r@ + lines_chars(t@.lines.skip(i + 1)) + t.trailing@ =~= text_chars(t@));
        }
        i = i + 1;
    }
    proof {
        assert(lines_chars(t@.lines.skip(i as int)) =~= Seq::<char>::empty());
    }
    crate::chars::append_chars(&mut r, t.trailing.as_slice());
    proof {
        assert(r@ =~= text_chars(t@));
    }
    r
}


/// Prepending one item to a tree prepends its model.
pub proof fn lemma_ast_view_cons(a1: Ast, a0: Ast, it: Item)
    requires
        a1.items@ == seq![it] + a0.items@,
    ensures
        ast_view(a1).items == seq![item_view(it)] + ast_view(a0).items,
{
    lemma_ast_view(a1);
    lemma_ast_view(a0);
    assert(ast_view(a1).items =~= seq![item_view(it)] + ast_view(a0).items) by {
        assert forall|j: int| 0 <= j < a1.items.len() implies #[trigger] ast_view(a1).items[j] == (
            seq![item_view(it)] + ast_view(a0).items)[j] by {
            if j == 0 {
                assert(a1.items[0] == (seq![it] + a0.items@)[0]);
            } else {
                assert(a1.items[j] == (seq![it] + a0.items@)[j]);
                assert(a1.items[j] == a0.items[j - 1]);
            }
        }
    }
}

/// Prepending one pair to a branch list prepends its model.
pub proof fn lemma_pairs_view_cons(v1: Vec<(Vec<char>, Ast)>, v0: Vec<(Vec<char>, Ast)>, pair: (
    Vec<char>,
    Ast,
))
    requires
        v1@ == seq![pair] + v0@,
    ensures
        pairs_view_from(v1, 0) == seq![(pair.0@, ast_view(pair.1))] + pairs_view_from(v0, 0),
{
    lemma_pairs_view_from(v1, 0);
    lemma_pairs_view_from(v0, 0);
    assert(pairs_view_from(v1, 0) =~= seq![(pair.0@, ast_view(pair.1))] + pairs_view_from(
        v0,
        0,
    )) by {
        assert forall|j: int| 0 <= j < v1.len() implies #[trigger] pairs_view_from(v1, 0)[j] == (
            seq![(pair.0@, ast_view(pair.1))] + pairs_view_from(v0, 0))[j] by {
            if j == 0 {
                assert(v1[0] == (seq![pair] + v0@)[0]);
                assert(pairs_view_from(v1, 0)[0 - 0] == (v1[0].0@, ast_view(v1[0].1)));
            } else {
                assert(v1[j] == (seq![pair] + v0@)[j]);
                assert(v1[j] == v0[j - 1]);
                assert(pairs_view_from(v1, 0)[j - 0] == (v1[j].0@, ast_view(v1[j].1)));
                assert(pairs_view_from(v0, 0)[(j - 1) - 0] == (v0[j - 1].0@, ast_view(
                    v0[j - 1].1,
                )));
            }
        }
    }
}


/// The models of a bare item vector.
pub open spec fn items_view(v: Vec<Item>) -> Seq<SpecItem> {
    ast_view_from(Ast { items: v }, 0)
}

pub proof fn lemma_items_view(v: Vec<Item>)
    ensures
        items_view(v).len() == v.len(),
        forall|j: int| 0 <= j < v.len() ==> (#[trigger] items_view(v)[j]) == item_view(v[j]),
{
    let a = Ast { items: v };
    lemma_ast_view_from(a, 0);
    assert forall|j: int| 0 <= j < v.len() implies (#[trigger] items_view(v)[j]) == item_view(
        v[j],
    ) by {
        assert(ast_view_from(a, 0)[j - 0] == item_view(a.items[j]));
    }
}

/// A tree's model lists exactly the models of its item vector.
pub proof fn lemma_ast_items_view(a: Ast)
    ensures
        a@.items == items_view(a.items),
{
    assert(Ast { items: a.items } == a);
}

/// Prepending one item to a vector prepends its model.
pub proof fn lemma_items_view_cons(v1: Vec<Item>, v0: Vec<Item>, it: Item)
    requires
        v1@ == seq![it] + v0@,
    ensures
        items_view(v1) == seq![item_view(it)] + items_view(v0),
{
    lemma_items_view(v1);
    lemma_items_view(v0);
    assert(items_view(v1) =~= seq![item_view(it)] + items_view(v0)) by {
        assert forall|j: int| 0 <= j < v1.len() implies #[trigger] items_view(v1)[j] == (
            seq![item_view(it)] + items_view(v0))[j] by {
            if j == 0 {
                assert(v1[0] == (seq![it] + v0@)[0]);
            } else {
                assert(v1[j] == (seq![it] + v0@)[j]);
                assert(v1[j] == v0[j - 1]);
            }
        }
    }
}


/// Prepending one line to a vector prepends its model.
pub proof fn lemma_lines_view_cons(v1: Vec<Line>, v0: Vec<Line>, l: Line)
    requires
        v1@ == seq![l] + v0@,
    ensures
        lines_view(v1) == seq![l@] + lines_view(v0),
{
    assert(lines_view(v1) =~= seq![l@] + lines_view(v0)) by {
        assert forall|j: int| 0 <= j < v1.len() implies #[trigger] lines_view(v1)[j] == (seq![l@]
            + lines_view(v0))[j] by {
            if j == 0 {
                assert(v1[0] == (seq![l] + v0@)[0]);
            } else {
                assert(v1[j] == (seq![l] + v0@)[j]);
                assert(v1[j] == v0[j - 1]);
            }
        }
    }
}

} // verus!
