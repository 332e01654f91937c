//! The render program: the normalized tree executed against an abstract
//! output sink.
//!
//! The engine owns everything structural: literal text is written verbatim,
//! comments vanish, loop separators are written between iterations and never
//! before the first, branch conditions are taken in declared order and only
//! the first truthy branch's body runs, only the first matching arm of a
//! match runs, named blocks are registered in their lexical scope and an
//! invocation routes its output through the indenting adapter when the call
//! site was indented. Everything the host language owns — evaluating
//! expressions, testing conditions, matching patterns, binding names — is
//! asked of the host collaborator through the [`Host`] trait.

use vstd::prelude::*;

use crate::ast::{
    ast_view, item_view, items_view, lines_view, pairs_size, pairs_view_from, sast_size,
    sitem_size, sitems_size, text_chars, text_chars_vec, Ast, Item, Line, SpecAst, SpecItem,
    SpecText, Text,
};
use crate::chars::{append_chars, chars_to_string, subvec, to_chars, trim_chars, trim_spec};
use crate::indent::indent_append;

verus! {

broadcast use {vstd::seq::axiom_seq_index_decreases, vstd::seq::axiom_seq_subrange_decreases, vstd::std_specs::vec::axiom_vec_index_decreases};

/// The compiled render program: the tree after normalization, executed
/// item by item.
pub type Program = Ast;

/// How a render run can end early. The engine itself cannot fail on text;
/// an invocation of a name that no reachable definition supplies, or a
/// self-recursive block deeper than the engine's call budget, stops the run.
#[derive(Debug, Clone, Copy, PartialEq, Eq, Structural)]
pub enum RenderError {
    UnknownMacro,
    DepthLimit,
}

/// How many nested named-block invocations a single render will follow.
pub const MAX_DEPTH: u64 = 128;

/// The host collaborator: it owns the data context and the host language.
/// The engine hands it expressions, conditions, patterns and binding
/// statements exactly as they stand in the template, and takes back plain
/// values. Nothing is assumed about its answers: the engine's contracts
/// hold for every reply.
pub trait Host {
    /// Evaluates an expression and formats it with the given format string.
    fn eval(&mut self, expr: &str, format: &str) -> String;

    /// Evaluates a branch condition.
    fn eval_bool(&mut self, cond: &str) -> bool;

    /// Runs a binding statement in the current scope.
    fn exec_let(&mut self, stmt: &str);

    /// Opens a nested binding scope.
    fn scope_enter(&mut self);

    /// Closes the innermost binding scope.
    fn scope_exit(&mut self);

    /// How many iterations the loop header produces.
    fn loop_len(&mut self, header: &str) -> usize;

    /// Binds the loop pattern for iteration `index`.
    fn loop_bind(&mut self, header: &str, index: usize);

    /// Tests one arm's pattern and guard against the subject, binding the
    /// pattern on success.
    fn arm_matches(&mut self, subject: &str, pattern: &str) -> bool;

    /// Enters a named-block invocation: the arguments are evaluated in the
    /// caller's scope and bound to the parameters in a fresh frame.
    fn call_enter(&mut self, name: &str, params: &Vec<String>, args: &Vec<String>);

    /// Leaves a named-block invocation.
    fn call_exit(&mut self, name: &str);
}

/// A registered named block.
pub struct MacroDef {
    pub name: Vec<char>,
    pub params: Vec<Vec<char>>,
    pub body: Ast,
}

/// A copy of a character vector.
fn clone_chars(v: &Vec<char>) -> (r: Vec<char>)
    ensures
        r@ == v@,
{
    subvec(v.as_slice(), 0, v.len())
}

/// A copy of a vector of character vectors.
fn clone_vecs(v: &Vec<Vec<char>>) -> (r: Vec<Vec<char>>)
    ensures
        r@.map_values(|x: Vec<char>| x@) == v@.map_values(|x: Vec<char>| x@),
{
    let mut r: Vec<Vec<char>> = Vec::new();
    let mut i: usize = 0;
    while i < v.len()
        invariant
            i <= v@.len(),
            r@.len() == i,
            forall|j: int| 0 <= j < i ==> (#[trigger] r@[j])@ == v@[j]@,
        decreases v@.len() - i,
    {
        r.push(clone_chars(&v[i]));
        i = i + 1;
    }
    proof {
        assert(r@.map_values(|x: Vec<char>| x@) =~= v@.map_values(|x: Vec<char>| x@));
    }
    r
}

/// A copy of a text node.
fn clone_text(t: &Text) -> (r: Text)
    ensures
        r@ == t@,
{
    let mut lines: Vec<Line> = Vec::new();
    let mut i: usize = 0;
    while i < t.lines.len()
        invariant
            i <= t.lines@.len(),
            lines@.len() == i,
            forall|j: int| 0 <= j < i ==> (#[trigger] lines@[j])@ == t.lines@[j]@,
        decreases t.lines@.len() - i,
    {
        let l = Line { content: clone_chars(&t.lines[i].content), new_line: t.lines[i].new_line };
        lines.push(l);
        i = i + 1;
    }
    let r = Text { lines, trailing: clone_chars(&t.trailing) };
    proof {
        assert(lines_view(r.lines) =~= lines_view(t.lines));
    }
    r
}

/// A deep copy of an item.
fn clone_item(it: &Item) -> (r: Item)
    ensures
        r@ == it@,
    decreases sitem_size(it@), 0int, 1int,
{
    match it {
        Item::Text(t) => Item::Text(clone_text(t)),
        Item::Comment(c) => Item::Comment(clone_chars(c)),
        Item::Expr(e, f) => Item::Expr(clone_chars(e), clone_chars(f)),
        Item::Let(l) => Item::Let(clone_chars(l)),
        Item::Scope(b) => Item::Scope(clone_ast(b)),
        Item::For { for_, pre, body, else_ } => {
            let p2 = match pre {
                Some(t) => Some(clone_text(t)),
                None => None,
            };
            let e2 = match else_ {
                Some(e) => Some(clone_ast(e)),
                None => None,
            };
            Item::For { for_: clone_chars(for_), pre: p2, body: clone_ast(body), else_: e2 }
        },
        Item::If { if_, else_ifs, else_ } => {
            let e2 = match else_ {
                Some(e) => Some(clone_ast(e)),
                None => None,
            };
            Item::If {
                if_: (clone_chars(&if_.0), clone_ast(&if_.1)),
                else_ifs: clone_pairs(else_ifs),
                else_: e2,
            }
        },
        Item::Match { match_, wheres } => Item::Match {
            match_: clone_chars(match_),
            wheres: clone_pairs(wheres),
        },
        Item::Macro { name, params, body } => Item::Macro {
            name: clone_chars(name),
            params: clone_vecs(params),
            body: clone_ast(body),
        },
        Item::Call { name, args, ind } => Item::Call {
            name: clone_chars(name),
            args: clone_vecs(args),
            ind: *ind,
        },
    }
}

/// A deep copy of a branch list.
fn clone_pairs(v: &Vec<(Vec<char>, Ast)>) -> (r: Vec<(Vec<char>, Ast)>)
    ensures
        pairs_view_from(r, 0) == pairs_view_from(*v, 0),
    decreases pairs_size(pairs_view_from(*v, 0)), 0int, 1int,
{
    let mut r: Vec<(Vec<char>, Ast)> = Vec::new();
    let mut i: usize = 0;
    proof {
        crate::ast::lemma_pairs_view(*v);
    }
    while i < v.len()
        invariant
            i <= v@.len(),
            r@.len() == i,
            pairs_view_from(*v, 0).len() == v@.len(),
            forall|j: int|
                0 <= j < v@.len() ==> (#[trigger] pairs_view_from(*v, 0)[j]) == (
                    v@[j].0@,
                    ast_view(v@[j].1),
                ),
            forall|j: int|
                0 <= j < i ==> (#[trigger] r@[j]).0@ == v@[j].0@ && ast_view(r@[j].1) == ast_view(
                    v@[j].1,
                ),
        decreases v@.len() - i,
    {
        proof {
            crate::ast::lemma_pairs_view(*v);
            crate::ast::lemma_pairs_size_member(pairs_view_from(*v, 0), i as int);
        }
        let h = clone_chars(&v[i].0);
        let b = clone_ast(&v[i].1);
        r.push((h, b));
        i = i + 1;
    }
    proof {
        crate::ast::lemma_pairs_view(r);
        assert(pairs_view_from(r, 0) =~= pairs_view_from(*v, 0));
    }
    r
}

/// A deep copy of a tree.
fn clone_ast(a: &Ast) -> (r: Ast)
    ensures
        r@ == a@,
    decreases sast_size(a@), 0int, 0int,
{
    proof {
        crate::ast::lemma_ast_items_view(*a);
        crate::ast::lemma_items_view(a.items);
    }
    let mut items: Vec<Item> = Vec::new();
    let mut i: usize = 0;
    while i < a.items.len()
        invariant
            i <= a.items@.len(),
            items@.len() == i,
            forall|j: int| 0 <= j < i ==> (#[trigger] items@[j])@ == a.items@[j]@,
        decreases a.items@.len() - i,
    {
        proof {
            crate::ast::lemma_items_view(a.items);
            crate::ast::lemma_sitems_size_member(items_view(a.items), i as int);
        }
        items.push(clone_item(&a.items[i]));
        i = i + 1;
    }
    let r = Ast { items };
    proof {
        crate::ast::lemma_ast_items_view(r);
        crate::ast::lemma_items_view(r.items);
        crate::ast::lemma_ast_items_view(*a);
        crate::ast::lemma_items_view(a.items);
        assert(items_view(r.items) =~= items_view(a.items));
    }
    r
}

/// A sequence splits at the end of any of its prefixes.
proof fn lemma_prefix_split(a: Seq<char>, b: Seq<char>)
    requires
        a.is_prefix_of(b),
    ensures
        b == a + b.skip(a.len() as int),
{
    assert(b =~= a + b.skip(a.len() as int)) by {
        assert forall|i: int| 0 <= i < b.len() implies b[i] == (a + b.skip(a.len() as int))[i] by {
            if i < a.len() {
                assert(b.subrange(0, a.len() as int)[i] == b[i]);
            }
        }
    }
}

/// Prefix order is transitive.
proof fn lemma_prefix_trans(a: Seq<char>, b: Seq<char>, c: Seq<char>)
    requires
        a.is_prefix_of(b),
        b.is_prefix_of(c),
    ensures
        a.is_prefix_of(c),
{
    assert(c.subrange(0, a.len() as int) =~= a) by {
        assert forall|i: int| 0 <= i < a.len() implies c.subrange(0, a.len() as int)[i] == a[i] by {
            assert(b.subrange(0, a.len() as int)[i] == a[i]);
            assert(c.subrange(0, b.len() as int)[i] == b[i]);
        }
    }
}

/// A body made of literal text only: its render is pinned exactly.
pub open spec fn all_text(items: Seq<SpecItem>) -> bool {
    forall|i: int| 0 <= i < items.len() ==> (#[trigger] items[i]) is Text
}

/// The characters of an all-text body, in order.
pub open spec fn plain_text(items: Seq<SpecItem>) -> Seq<char>
    decreases items.len(),
{
    if items.len() == 0 {
        Seq::empty()
    } else {
        text_chars(items[0]->Text_0) + plain_text(items.drop_first())
    }
}

/// The separator text of a loop, empty when the trim pass derived none.
pub open spec fn sep_of(pre: Option<SpecText>) -> Seq<char> {
    match pre {
        Some(t) => text_chars(t),
        None => Seq::empty(),
    }
}

/// The separator/body pattern of a loop: the parts in order, with the
/// separator between consecutive parts and never before the first.
pub open spec fn sep_join(sep: Seq<char>, parts: Seq<Seq<char>>) -> Seq<char>
    decreases parts.len(),
{
    if parts.len() == 0 {
        Seq::empty()
    } else {
        parts[0] + sep_join_rest(sep, parts.drop_first())
    }
}

pub open spec fn sep_join_rest(sep: Seq<char>, parts: Seq<Seq<char>>) -> Seq<char>
    decreases parts.len(),
{
    if parts.len() == 0 {
        Seq::empty()
    } else {
        sep + parts[0] + sep_join_rest(sep, parts.drop_first())
    }
}

/// Appending one more part writes the separator exactly when parts came
/// before it.
pub proof fn lemma_sep_join_push(sep: Seq<char>, parts: Seq<Seq<char>>, w: Seq<char>)
    ensures
        sep_join(sep, parts.push(w)) == sep_join(sep, parts) + (if parts.len() == 0 {
            w
        } else {
            sep + w
        }),
    decreases parts.len(),
{
    if parts.len() == 0 {
        let p1 = parts.push(w);
        assert(p1[0] == w);
        assert(p1.drop_first() =~= Seq::<Seq<char>>::empty());
        assert(p1.drop_first() == Seq::<Seq<char>>::empty());
        assert(sep_join_rest(sep, p1.drop_first()) == Seq::<char>::empty());
        assert(sep_join(sep, p1) == p1[0] + sep_join_rest(sep, p1.drop_first()));
        assert(sep_join(sep, p1) =~= w);
        assert(sep_join(sep, parts) + w =~= w);
    } else {
        lemma_sep_join_rest_push(sep, parts.drop_first(), w);
        assert(parts.push(w)[0] == parts[0]);
        assert(parts.push(w).drop_first() =~= parts.drop_first().push(w));
        assert(sep_join(sep, parts.push(w)) =~= sep_join(sep, parts) + (sep + w));
    }
}

proof fn lemma_sep_join_rest_push(sep: Seq<char>, parts: Seq<Seq<char>>, w: Seq<char>)
    ensures
        sep_join_rest(sep, parts.push(w)) == sep_join_rest(sep, parts) + (sep + w),
    decreases parts.len(),
{
    if parts.len() == 0 {
        let p1 = parts.push(w);
        assert(p1[0] == w);
        assert(p1.drop_first() =~= Seq::<Seq<char>>::empty());
        assert(p1.drop_first() == Seq::<Seq<char>>::empty());
        assert(sep_join_rest(sep, p1.drop_first()) == Seq::<char>::empty());
        assert(sep_join_rest(sep, p1) == sep + p1[0] + sep_join_rest(sep, p1.drop_first()));
        assert(sep_join_rest(sep, p1) =~= sep + w);
        assert(sep_join_rest(sep, parts) + (sep + w) =~= sep + w);
    } else {
        lemma_sep_join_rest_push(sep, parts.drop_first(), w);
        assert(parts.push(w)[0] == parts[0]);
        assert(parts.push(w).drop_first() =~= parts.drop_first().push(w));
        assert(sep_join_rest(sep, parts.push(w)) =~= sep_join_rest(sep, parts) + (sep + w));
    }
}

/// The separator is written exactly once per part after the first: the
/// joined output carries `parts.len() - 1` copies of it, and none when the
/// loop ran no or one iteration.
pub proof fn lemma_sep_join_len(sep: Seq<char>, parts: Seq<Seq<char>>)
    ensures
        parts.len() == 0 ==> sep_join(sep, parts).len() == 0,
        parts.len() > 0 ==> sep_join(sep, parts).len() == total_len(parts) + (parts.len() - 1)
            * sep.len(),
    decreases parts.len(),
{
    if parts.len() > 0 {
        lemma_sep_join_rest_len(sep, parts.drop_first());
    }
}

proof fn lemma_sep_join_rest_len(sep: Seq<char>, parts: Seq<Seq<char>>)
    ensures
        sep_join_rest(sep, parts).len() == total_len(parts) + parts.len() * sep.len(),
    decreases parts.len(),
{
    if parts.len() > 0 {
        lemma_sep_join_rest_len(sep, parts.drop_first());
        assert(parts.len() * sep.len() == sep.len() + (parts.len() - 1) * sep.len()) by (
        nonlinear_arith);
    }
}

/// The summed length of all parts.
pub open spec fn total_len(parts: Seq<Seq<char>>) -> int
    decreases parts.len(),
{
    if parts.len() == 0 {
        0int
    } else {
        parts[0].len() + total_len(parts.drop_first())
    }
}

/// The keyword-stripped, trimmed text of a header, handed to the host.
fn strip_kw(v: &Vec<char>, k: usize) -> (r: String)
    ensures
        k <= v@.len() ==> r@ == trim_spec(v@.skip(k as int)),
{
    let kk = if k < v.len() {
        k
    } else {
        v.len()
    };
    let t = trim_chars(subvec(v.as_slice(), kk, v.len()).as_slice());
    proof {
        if k <= v@.len() {
            assert(v@.subrange(kk as int, v@.len() as int) =~= v@.skip(k as int));
        }
    }
    chars_to_string(t.as_slice())
}

/// The parameter or argument list as strings for the host.
fn vecs_to_strings(v: &Vec<Vec<char>>) -> (r: Vec<String>)
    ensures
        r@.len() == v@.len(),
        forall|i: int| 0 <= i < v@.len() ==> (#[trigger] r@[i])@ == v@[i]@,
{
    let mut r: Vec<String> = Vec::new();
    let mut i: usize = 0;
    while i < v.len()
        invariant
            i <= v@.len(),
            r@.len() == i,
            forall|j: int| 0 <= j < i ==> (#[trigger] r@[j])@ == v@[j]@,
        decreases v@.len() - i,
    {
        r.push(chars_to_string(v[i].as_slice()));
        i = i + 1;
    }
    r
}

/// Renders a body in a nested scope: definitions made inside it do not
/// escape.
fn render_scoped<H: Host>(
    a: &Ast,
    host: &mut H,
    macros: &mut Vec<MacroDef>,
    out: &mut Vec<char>,
    depth: u64,
) -> (r: Result<(), RenderError>)
    ensures
        old(out)@.is_prefix_of(final(out)@),
    decreases depth, sast_size(a@), 3int,
{
    host.scope_enter();
    let save = macros.len();
    let r = render_ast(a, host, macros, out, depth);
    macros.truncate(save);
    host.scope_exit();
    r
}

/// Renders a loop: the host says how many iterations there are and binds
/// the pattern for each; the engine writes the separator before every
/// iteration except the first, and runs the empty-case body instead when
/// there are no iterations. Whatever the host answers, the text written is
/// a separator-joined sequence of parts.
fn render_for<H: Host>(
    for_: &Vec<char>,
    pre: &Option<Text>,
    body: &Ast,
    else_: &Option<Ast>,
    host: &mut H,
    macros: &mut Vec<MacroDef>,
    out: &mut Vec<char>,
    depth: u64,
) -> (r: Result<(), RenderError>)
    ensures
        old(out)@.is_prefix_of(final(out)@),
        r is Ok ==> exists|parts: Seq<Seq<char>>|
            final(out)@ == old(out)@ + #[trigger] sep_join(
                sep_of(crate::trim::lift_opt_text(*pre)),
                parts,
            ),
    decreases depth, sast_size(body@) + crate::ast::opt_ast_size(match else_ {
        Some(e) => Some(e@),
        None => None,
    }) + 1, 0int,
{
    let ghost base = out@;
    let ghost sep: Seq<char> = sep_of(crate::trim::lift_opt_text(*pre));
    let header = chars_to_string(for_.as_slice());
    let n = host.loop_len(header.as_str());
    if n == 0 {
        match else_ {
            Some(e) => {
                let r = render_scoped(e, host, macros, out, depth);
                proof {
                    if r is Ok {
                        let w = out@.skip(base.len() as int);
                        lemma_prefix_split(base, out@);
                        lemma_sep_join_push(sep, Seq::empty(), w);
                        assert(Seq::<Seq<char>>::empty().push(w)[0] == w);
                        assert(sep_join(sep, Seq::<Seq<char>>::empty().push(w)) =~= w);
                        assert(out@ == base + sep_join(sep, Seq::<Seq<char>>::empty().push(w)));
                    }
                }
                r
            },
            None => {
                proof {
                    assert(out@ =~= base + sep_join(sep, Seq::<Seq<char>>::empty()));
                }
                Ok(())
            },
        }
    } else {
        let mut idx: usize = 0;
        let ghost mut parts: Seq<Seq<char>> = Seq::empty();
        proof {
            assert(out@ =~= base + sep_join(sep, parts));
            assert(out@.subrange(0, base.len() as int) =~= base);
        }
        while idx < n
            invariant
                idx <= n,
                parts.len() == idx,
                base == old(out)@,
                sep == sep_of(crate::trim::lift_opt_text(*pre)),
                out@ == base + sep_join(sep, parts),
                base.is_prefix_of(out@),
            decreases n - idx,
        {
            let header2 = chars_to_string(for_.as_slice());
            host.loop_bind(header2.as_str(), idx);
            if idx > 0 {
                match pre {
                    Some(t) => {
                        let tv = text_chars_vec(t);
                        append_chars(out, tv.as_slice());
                        proof {
                            assert((*pre) is Some);
                            assert(*pre == Some(*t));
                            assert(crate::trim::lift_opt_text(*pre) == Some(t@));
                            assert(sep == sep_of(crate::trim::lift_opt_text(*pre)));
                            assert(sep == sep_of(Some(t@)));
                            assert(sep_of(Some(t@)) == text_chars(t@));
                        }
                    },
                    None => {},
                }
            }
            let ghost mark = out@;
            proof {
                assert(base.is_prefix_of(mark)) by {
                    assert(mark.subrange(0, base.len() as int) =~= base);
                }
            }
            let r = render_scoped(body, host, macros, out, depth);
            proof {
                lemma_prefix_trans(base, mark, out@);
            }
            match r {
                Ok(_) => {},
                Err(e) => {
                    return Err(e);
                },
            }
            proof {
                let w = out@.skip(mark.len() as int);
                lemma_prefix_split(mark, out@);
                lemma_sep_join_push(sep, parts, w);
                if idx > 0 {
                    assert(mark =~= base + sep_join(sep, parts) + sep);
                    assert(out@ =~= base + (sep_join(sep, parts) + (sep + w)));
                } else {
                    assert(mark =~= base + sep_join(sep, parts));
                    assert(out@ =~= base + (sep_join(sep, parts) + w));
                }
                parts = parts.push(w);
                assert(out@ =~= base + sep_join(sep, parts));
                assert(out@.subrange(0, base.len() as int) =~= base);
            }
            idx = idx + 1;
        }
        Ok(())
    }
}

/// Renders an invocation: the named block is looked up innermost-first, the
/// host binds the evaluated arguments to its parameters, and when the call
/// site was indented the block's whole output runs through the indenting
/// adapter.
fn render_call<H: Host>(
    name: &Vec<char>,
    args: &Vec<Vec<char>>,
    ind: usize,
    host: &mut H,
    macros: &mut Vec<MacroDef>,
    out: &mut Vec<char>,
    depth: u64,
) -> (r: Result<(), RenderError>)
    ensures
        old(out)@.is_prefix_of(final(out)@),
    decreases depth, 0int, 0int,
{
    if depth == 0 {
        return Err(RenderError::DepthLimit);
    }
    let mut found: Option<usize> = None;
    let mut j: usize = macros.len();
    while j > 0
        invariant
            j <= macros@.len(),
            (match found {
                Some(k) => k < macros@.len(),
                None => true,
            }),
        decreases j,
    {
        if crate::chars::eq_chars(name.as_slice(), macros[j - 1].name.as_slice()) {
            found = Some(j - 1);
            j = 0;
        } else {
            j = j - 1;
        }
    }
    match found {
        None => Err(RenderError::UnknownMacro),
        Some(k) => {
            if k >= macros.len() {
                return Err(RenderError::UnknownMacro);
            }
            let name_s = chars_to_string(name.as_slice());
            let params_s = vecs_to_strings(&macros[k].params);
            let args_s = vecs_to_strings(args);
            host.call_enter(name_s.as_str(), &params_s, &args_s);
            let body = clone_ast(&macros[k].body);
            let save = macros.len();
            let r = if ind == 0 {
                let r = render_ast(&body, host, macros, out, depth - 1);
                r
            } else {
                let mut buf: Vec<char> = Vec::new();
                let r = render_ast(&body, host, macros, &mut buf, depth - 1);
                let spaces = blank_run(ind);
                indent_append(out, buf.as_slice(), spaces.as_slice(), false);
                r
            };
            macros.truncate(save);
            let name_s2 = chars_to_string(name.as_slice());
            host.call_exit(name_s2.as_str());
            r
        },
    }
}

/// A run of `n` blanks.
fn blank_run(n: usize) -> (r: Vec<char>)
    ensures
        r@.len() == n,
        forall|i: int| 0 <= i < n ==> r@[i] == ' ',
{
    let mut r: Vec<char> = Vec::new();
    let mut i: usize = 0;
    while i < n
        invariant
            i <= n,
            r@.len() == i,
            forall|j: int| 0 <= j < i ==> r@[j] == ' ',
        decreases n - i,
    {
        r.push(' ');
        i = i + 1;
    }
    r
}

/// Renders one item by the lowering rules.
fn render_item<H: Host>(
    it: &Item,
    host: &mut H,
    macros: &mut Vec<MacroDef>,
    out: &mut Vec<char>,
    depth: u64,
) -> (r: Result<(), RenderError>)
    ensures
        old(out)@.is_prefix_of(final(out)@),
        it@ is Text ==> r is Ok && final(out)@ == old(out)@ + text_chars(it@->Text_0),
    decreases depth, sitem_size(it@), 2int,
{
    match it {
        Item::Text(t) => {
            let v = text_chars_vec(t);
            append_chars(out, v.as_slice());
            proof {
                assert(old(out)@.is_prefix_of(out@)) by {
                    assert(out@.subrange(0, old(out)@.len() as int) =~= old(out)@);
                }
            }
            Ok(())
        },
        Item::Comment(_) => {
            proof {
                assert(out@.subrange(0, old(out)@.len() as int) =~= old(out)@);
            }
            Ok(())
        },
        Item::Expr(e, f) => {
            let es = chars_to_string(e.as_slice());
            let fs = chars_to_string(f.as_slice());
            let s = host.eval(es.as_str(), fs.as_str());
            let sv = to_chars(s.as_str());
            append_chars(out, sv.as_slice());
            proof {
                assert(out@.subrange(0, old(out)@.len() as int) =~= old(out)@);
            }
            Ok(())
        },
        Item::Let(l) => {
            let ls = chars_to_string(l.as_slice());
            host.exec_let(ls.as_str());
            proof {
                assert(out@.subrange(0, old(out)@.len() as int) =~= old(out)@);
            }
            Ok(())
        },
        Item::Scope(b) => render_scoped(b, host, macros, out, depth),
        Item::For { for_, pre, body, else_ } => render_for(
            for_,
            pre,
            body,
            else_,
            host,
            macros,
            out,
            depth,
        ),
        Item::If { if_, else_ifs, else_ } => {
            let c0 = strip_kw(&if_.0, 2);
            if host.eval_bool(c0.as_str()) {
                return render_scoped(&if_.1, host, macros, out, depth);
            }
            let mut i: usize = 0;
            proof {
                crate::ast::lemma_pairs_view(*else_ifs);
            }
            while i < else_ifs.len()
                invariant
                    i <= else_ifs@.len(),
                    out@ == old(out)@,
                    pairs_view_from(*else_ifs, 0).len() == else_ifs@.len(),
                    forall|j: int|
                        0 <= j < else_ifs@.len() ==> (#[trigger] pairs_view_from(*else_ifs, 0)[j])
                            == (else_ifs@[j].0@, ast_view(else_ifs@[j].1)),
                    sitem_size(it@) == sitem_size(item_view(*it)),
                    it@ is If,
                    pairs_size(pairs_view_from(*else_ifs, 0)) < sitem_size(it@),
                decreases else_ifs@.len() - i,
            {
                let ci = strip_kw(&else_ifs[i].0, 7);
                if host.eval_bool(ci.as_str()) {
                    proof {
                        crate::ast::lemma_pairs_size_member(
                            pairs_view_from(*else_ifs, 0),
                            i as int,
                        );
                    }
                    return render_scoped(&else_ifs[i].1, host, macros, out, depth);
                }
                i = i + 1;
            }
            match else_ {
                Some(e) => render_scoped(e, host, macros, out, depth),
                None => {
                    proof {
                        assert(out@.subrange(0, old(out)@.len() as int) =~= old(out)@);
                    }
                    Ok(())
                },
            }
        },
        Item::Match { match_, wheres } => {
            let subj = strip_kw(match_, 5);
            let mut i: usize = 0;
            proof {
                crate::ast::lemma_pairs_view(*wheres);
            }
            while i < wheres.len()
                invariant
                    i <= wheres@.len(),
                    out@ == old(out)@,
                    pairs_view_from(*wheres, 0).len() == wheres@.len(),
                    forall|j: int|
                        0 <= j < wheres@.len() ==> (#[trigger] pairs_view_from(*wheres, 0)[j]) == (
                            wheres@[j].0@,
                            ast_view(wheres@[j].1),
                        ),
                    it@ is Match,
                    pairs_size(pairs_view_from(*wheres, 0)) < sitem_size(it@),
                decreases wheres@.len() - i,
            {
                let pi = chars_to_string(wheres[i].0.as_slice());
                let subj2 = chars_to_string(to_chars(subj.as_str()).as_slice());
                if host.arm_matches(subj2.as_str(), pi.as_str()) {
                    proof {
                        crate::ast::lemma_pairs_size_member(pairs_view_from(*wheres, 0), i as int);
                    }
                    return render_scoped(&wheres[i].1, host, macros, out, depth);
                }
                i = i + 1;
            }
            proof {
                assert(out@.subrange(0, old(out)@.len() as int) =~= old(out)@);
            }
            Ok(())
        },
        Item::Macro { name, params, body } => {
            let def = MacroDef {
                name: clone_chars(name),
                params: clone_vecs(params),
                body: clone_ast(body),
            };
            macros.push(def);
            proof {
                assert(out@.subrange(0, old(out)@.len() as int) =~= old(out)@);
            }
            Ok(())
        },
        Item::Call { name, args, ind } => render_call(name, args, *ind, host, macros, out, depth),
    }
}

/// Renders a whole body, item by item. An all-text body renders to exactly
/// its own characters.
pub fn render_ast<H: Host>(
    a: &Ast,
    host: &mut H,
    macros: &mut Vec<MacroDef>,
    out: &mut Vec<char>,
    depth: u64,
) -> (r: Result<(), RenderError>)
    ensures
        old(out)@.is_prefix_of(final(out)@),
        all_text(a@.items) ==> r is Ok && final(out)@ == old(out)@ + plain_text(a@.items),
    decreases depth, sast_size(a@), 1int,
{
    proof {
        crate::ast::lemma_ast_items_view(*a);
        crate::ast::lemma_items_view(a.items);
    }
    let ghost base = out@;
    let ghost iv = a@.items;
    let n = a.items.len();
    let mut i: usize = 0;
    proof {
        assert(iv.skip(0) =~= iv);
        assert(base + plain_text(iv) =~= base + plain_text(iv.skip(0)));
    }
    while i < n
        invariant
            i <= n,
            n == a.items@.len(),
            base == old(out)@,
            iv == a@.items,
            iv.len() == n,
            forall|j: int| 0 <= j < n ==> (#[trigger] iv[j]) == a.items@[j]@,
            sast_size(a@) == sast_size(ast_view(*a)),
            base.is_prefix_of(out@),
            all_text(iv) ==> out@ + plain_text(iv.skip(i as int)) == base + plain_text(iv),
        decreases n - i,
    {
        proof {
            crate::ast::lemma_items_view(a.items);
            crate::ast::lemma_sitems_size_member(items_view(a.items), i as int);
            assert(items_view(a.items) =~= iv);
        }
        let ghost out0 = out@;
        let r = render_item(&a.items[i], host, macros, out, depth);
        match r {
            Ok(_) => {},
            Err(e) => {
                proof {
                    lemma_prefix_trans(base, out0, out@);
                    if all_text(iv) {
                        assert(iv[i as int] is Text);
                        assert(a.items@[i as int]@ is Text);
                        assert(false);
                    }
                }
                return Err(e);
            },
        }
        proof {
            lemma_prefix_trans(base, out0, out@);
            if all_text(iv) {
                assert(iv[i as int] is Text);
                assert(a.items@[i as int]@ == iv[i as int]);
                assert(out@ =~= out0 + text_chars(iv[i as int]->Text_0));
                assert(iv.skip(i as int)[0] == iv[i as int]);
                assert(iv.skip(i as int).drop_first() =~= iv.skip(i + 1));
                assert(out@ + plain_text(iv.skip(i + 1)) =~= base + plain_text(iv));
            }
        }
        i = i + 1;
    }
    proof {
        if all_text(iv) {
            assert(plain_text(iv.skip(i as int)) =~= Seq::<char>::empty());
            assert(out@ =~= out@ + plain_text(iv.skip(i as int)));
            assert(out@ =~= base + plain_text(iv));
        }
    }
    Ok(())
}

/// Runs a compiled program against the host, appending the rendered text to
/// the buffer. A program holding only literal text renders to exactly that
/// text, whatever the host is.
pub fn render<H: Host>(prog: &Program, host: &mut H, out: &mut String) -> (r: Result<
    (),
    RenderError,
>)
    ensures
        r is Ok && all_text(prog@.items) ==> final(out)@ == old(out)@ + plain_text(prog@.items),
        all_text(prog@.items) ==> r is Ok,
{
    let mut buf: Vec<char> = Vec::new();
    let mut macros: Vec<MacroDef> = Vec::new();
    let r = render_ast(prog, host, &mut macros, &mut buf, MAX_DEPTH);
    let piece = chars_to_string(buf.as_slice());
    out.append(piece.as_str());
    proof {
        if all_text(prog@.items) {
            assert(buf@ =~= plain_text(prog@.items));
        }
    }
    r
}


/// The characters a text node stands for, as one string: its lines each
/// followed by their terminator, then the trailing segment.
pub fn text_to_string(text: &Text) -> (r: String)
    ensures
        r@ == text_chars(text@),
{
    let v = text_chars_vec(text);
    chars_to_string(v.as_slice())
}

} // verus!
