//! The trim pass: drops whitespace-only noise at the boundaries of every
//! block body and derives each loop's separator text.
//!
//! Applied unconditionally and post-order. For every block body, a fully
//! blank leading run (whole blank lines plus the indentation of the first
//! content line) is stripped from its first text item, and a trailing blank
//! run from its last; an item emptied by either strip is removed. For a loop,
//! the leading run stripped from its body is kept as the separator, written
//! before every iteration except the first; on a tree that was already
//! trimmed the stored separator is kept, which makes the pass idempotent.
//! The top-level item list itself is not trimmed, only nested bodies are.

use vstd::prelude::*;

use crate::ast::{
    ast_view, item_view, items_view, pairs_size, pairs_view_from, sast_size, sitem_size,
    sitems_size, text_is_empty_spec, Ast, Item, SpecAst, SpecItem, SpecLine, SpecText, Text,
};
use crate::chars::{
    subvec, trim_end_chars, trim_end_spec, trim_start_chars, trim_start_spec,
};

verus! {

broadcast use {vstd::seq::axiom_seq_index_decreases, vstd::seq::axiom_seq_subrange_decreases, vstd::std_specs::vec::axiom_vec_index_decreases};

/// The model of an optional removed run.
pub open spec fn lift_opt_text(o: Option<Text>) -> Option<SpecText> {
    match o {
        Some(t) => Some(t@),
        None => None,
    }
}

/// An empty text model.
pub open spec fn empty_text() -> SpecText {
    SpecText { lines: Seq::empty(), trailing: Seq::empty() }
}

/// Splits a text node into its fully blank leading run and the rest: whole
/// blank lines move into the run, and the first content line (or the
/// trailing segment) loses its leading whitespace into the run's tail.
pub open spec fn spec_text_trim_start(t: SpecText) -> (SpecText, SpecText)
    decreases t.lines.len(),
{
    if t.lines.len() > 0 {
        let l0 = t.lines[0];
        let tr = trim_start_spec(l0.content);
        if tr.len() == 0 {
            let (pre, rest) = spec_text_trim_start(
                SpecText { lines: t.lines.drop_first(), trailing: t.trailing },
            );
            (SpecText { lines: seq![l0] + pre.lines, trailing: pre.trailing }, rest)
        } else if tr.len() < l0.content.len() {
            (
                SpecText {
                    lines: Seq::empty(),
                    trailing: l0.content.take(l0.content.len() - tr.len()),
                },
                SpecText {
                    lines: t.lines.update(0, SpecLine { content: tr, new_line: l0.new_line }),
                    trailing: t.trailing,
                },
            )
        } else {
            (empty_text(), t)
        }
    } else {
        let tr = trim_start_spec(t.trailing);
        (
            SpecText { lines: Seq::empty(), trailing: t.trailing.take(t.trailing.len() - tr.len()) },
            SpecText { lines: Seq::empty(), trailing: tr },
        )
    }
}

/// Strips the trailing blank run of a text node: the trailing segment is
/// right-trimmed, and while it comes out empty the last complete line's
/// terminator is dropped and its content takes the trailing segment's place.
pub open spec fn spec_text_trim_end(t: SpecText) -> SpecText
    decreases t.lines.len(),
{
    let tr = trim_end_spec(t.trailing);
    if tr.len() == 0 {
        if t.lines.len() > 0 {
            spec_text_trim_end(
                SpecText { lines: t.lines.drop_last(), trailing: t.lines.last().content },
            )
        } else {
            empty_text()
        }
    } else {
        SpecText { lines: t.lines, trailing: tr }
    }
}

/// Trims one block body: its items are trimmed post-order, then the leading
/// blank run comes off its first text item and the trailing one off its
/// last, removing items that become empty. Returns the new body and the
/// removed leading run, if any.
pub open spec fn spec_trim_ast(a: SpecAst) -> (SpecAst, Option<SpecText>)
    decreases sast_size(a), 0int,
{
    let items1 = spec_trim_items(a.items);
    let (items2, pre) = spec_first_step(items1);
    let items3 = spec_second_step(items2);
    (SpecAst { items: items3 }, pre)
}

/// Trims every item of a list, recursing into nested bodies.
pub open spec fn spec_trim_items(items: Seq<SpecItem>) -> Seq<SpecItem>
    decreases sitems_size(items), 2int,
    via spec_trim_items_dec
{
    if items.len() == 0 {
        items
    } else {
        seq![spec_trim_item(items[0])] + spec_trim_items(items.drop_first())
    }
}

#[via_fn]
proof fn spec_trim_items_dec(items: Seq<SpecItem>) {
    if items.len() > 0 {
        crate::ast::lemma_sitems_size_drop_first(items);
        crate::ast::lemma_sitems_size_member(items, 0);
    }
}

/// Trims the branch bodies of a list of `(header, body)` pairs.
pub open spec fn spec_trim_pairs(v: Seq<(Seq<char>, SpecAst)>) -> Seq<(Seq<char>, SpecAst)>
    decreases pairs_size(v), 1int,
    via spec_trim_pairs_dec
{
    if v.len() == 0 {
        v
    } else {
        seq![(v[0].0, spec_trim_ast(v[0].1).0)] + spec_trim_pairs(v.drop_first())
    }
}

#[via_fn]
proof fn spec_trim_pairs_dec(v: Seq<(Seq<char>, SpecAst)>) {
    if v.len() > 0 {
        crate::ast::lemma_pairs_size_drop_first(v);
        crate::ast::lemma_pairs_size_member(v, 0);
    }
}

/// Trims the nested bodies of one item. For a loop, the blank run removed
/// from the front of its body becomes the separator; a separator already
/// present is kept.
pub open spec fn spec_trim_item(it: SpecItem) -> SpecItem
    decreases sitem_size(it), 1int,
{
    match it {
        SpecItem::Scope(b) => SpecItem::Scope(spec_trim_ast(b).0),
        SpecItem::For { for_, pre, body, else_ } => {
            let (b2, p) = spec_trim_ast(body);
            SpecItem::For {
                for_,
                pre: if p is Some {
                    p
                } else {
                    pre
                },
                body: b2,
                else_: match else_ {
                    Some(e) => Some(spec_trim_ast(e).0),
                    None => None,
                },
            }
        },
        SpecItem::If { if_, else_ifs, else_ } => SpecItem::If {
            if_: (if_.0, spec_trim_ast(if_.1).0),
            else_ifs: spec_trim_pairs(else_ifs),
            else_: match else_ {
                Some(e) => Some(spec_trim_ast(e).0),
                None => None,
            },
        },
        SpecItem::Match { match_, wheres } => SpecItem::Match {
            match_,
            wheres: spec_trim_pairs(wheres),
        },
        SpecItem::Macro { name, params, body } => SpecItem::Macro {
            name,
            params,
            body: spec_trim_ast(body).0,
        },
        _ => it,
    }
}

/// The whole pass: nested bodies are trimmed, the top-level list itself is
/// not.
pub open spec fn spec_trim(a: SpecAst) -> SpecAst {
    SpecAst { items: spec_trim_items(a.items) }
}

/// A text node with no lines and no trailing segment.
pub fn text_is_empty(t: &Text) -> (r: bool)
    ensures
        r == text_is_empty_spec(t@),
{
    t.lines.len() == 0 && t.trailing.len() == 0
}

/// Exec mirror of [`spec_text_trim_start`]: returns `(pre, rest)`.
pub fn text_trim_start(text: Text) -> (r: (Text, Text))
    ensures
        (r.0@, r.1@) == spec_text_trim_start(text@),
    decreases text.lines@.len(),
{
    let ghost t = text@;
    if text.lines.len() > 0 {
        let mut lines = text.lines;
        let l0 = lines.remove(0);
        proof {
            assert(t.lines[0] == l0@);
            assert(lines@.map_values(|l: crate::ast::Line| l@) =~= t.lines.drop_first());
        }
        let tr = trim_start_chars(l0.content.as_slice());
        if tr.len() == 0 {
            let (mut pre, rest) = text_trim_start(Text { lines, trailing: text.trailing });
            let ghost pre0 = pre@;
            pre.lines.insert(0, l0);
            proof {
                assert(pre@.lines =~= seq![l0@] + pre0.lines);
            }
            (pre, rest)
        } else if tr.len() < l0.content.len() {
            proof {
                crate::chars::lemma_leading_spaces_bounds(l0.content@);
            }
            let k = l0.content.len() - tr.len();
            let pre = Text { lines: Vec::new(), trailing: subvec(l0.content.as_slice(), 0, k) };
            let nl0 = crate::ast::Line { content: tr, new_line: l0.new_line };
            let mut lines2 = lines;
            lines2.insert(0, nl0);
            let rest = Text { lines: lines2, trailing: text.trailing };
            proof {
                assert(pre@.lines =~= Seq::<SpecLine>::empty());
                assert(pre@.trailing =~= l0.content@.take(l0.content@.len() - tr@.len()));
                assert(rest@.lines =~= t.lines.update(
                    0,
                    SpecLine { content: trim_start_spec(l0.content@), new_line: l0.new_line },
                ));
            }
            (pre, rest)
        } else {
            let mut lines2 = lines;
            lines2.insert(0, l0);
            let rest = Text { lines: lines2, trailing: text.trailing };
            let pre = Text { lines: Vec::new(), trailing: Vec::new() };
            proof {
                assert(pre@.lines =~= Seq::<SpecLine>::empty());
                assert(pre@.trailing =~= Seq::<char>::empty());
                assert(rest@.lines =~= t.lines);
            }
            (pre, rest)
        }
    } else {
        proof {
            crate::chars::lemma_leading_spaces_bounds(text.trailing@);
        }
        let tr = trim_start_chars(text.trailing.as_slice());
        let k = text.trailing.len() - tr.len();
        let pre = Text { lines: Vec::new(), trailing: subvec(text.trailing.as_slice(), 0, k) };
        let rest = Text { lines: Vec::new(), trailing: tr };
        proof {
            assert(pre@.lines =~= Seq::<SpecLine>::empty());
            assert(rest@.lines =~= Seq::<SpecLine>::empty());
            assert(pre@.trailing =~= t.trailing.take(t.trailing.len() - trim_start_spec(
                t.trailing,
            ).len()));
        }
        (pre, rest)
    }
}

/// Exec mirror of [`spec_text_trim_end`].
pub fn text_trim_end(text: Text) -> (r: Text)
    ensures
        r@ == spec_text_trim_end(text@),
    decreases text.lines@.len(),
{
    let ghost t = text@;
    let tr = trim_end_chars(text.trailing.as_slice());
    if tr.len() == 0 {
        if text.lines.len() > 0 {
            let mut lines = text.lines;
            let last = lines.pop().unwrap();
            proof {
                assert(t.lines.last() == last@);
                assert(lines@.map_values(|l: crate::ast::Line| l@) =~= t.lines.drop_last());
            }
            text_trim_end(Text { lines, trailing: last.content })
        } else {
            let r = Text { lines: Vec::new(), trailing: Vec::new() };
            proof {
                assert(r@.lines =~= Seq::<SpecLine>::empty());
                assert(r@.trailing =~= Seq::<char>::empty());
            }
            r
        }
    } else {
        let r = Text { lines: text.lines, trailing: tr };
        proof {
            assert(r@.lines =~= t.lines);
        }
        r
    }
}

/// Exec mirror of [`spec_trim_item`].
fn trim_item(it: Item) -> (r: Item)
    ensures
        r@ == spec_trim_item(it@),
    decreases sitem_size(it@), 1int,
{
    match it {
        Item::Scope(b) => {
            let (b2, _p) = trim_ast(b);
            Item::Scope(b2)
        },
        Item::For { for_, pre, body, else_ } => {
            let (b2, p) = trim_ast(body);
            let pre2 = match p {
                Some(x) => Some(x),
                None => pre,
            };
            let els2 = match else_ {
                Some(e) => {
                    let (e2, _q) = trim_ast(e);
                    Some(e2)
                },
                None => None,
            };
            Item::For { for_, pre: pre2, body: b2, else_: els2 }
        },
        Item::If { if_, else_ifs, else_ } => {
            let (hcond, hbody) = if_;
            let (hb2, _p) = trim_ast(hbody);
            let eifs2 = trim_pairs(else_ifs);
            let els2 = match else_ {
                Some(e) => {
                    let (e2, _q) = trim_ast(e);
                    Some(e2)
                },
                None => None,
            };
            Item::If { if_: (hcond, hb2), else_ifs: eifs2, else_: els2 }
        },
        Item::Match { match_, wheres } => {
            let ws2 = trim_pairs(wheres);
            Item::Match { match_, wheres: ws2 }
        },
        Item::Macro { name, params, body } => {
            let (b2, _p) = trim_ast(body);
            Item::Macro { name, params, body: b2 }
        },
        Item::Text(t) => Item::Text(t),
        Item::Comment(c) => Item::Comment(c),
        Item::Expr(e, f) => Item::Expr(e, f),
        Item::Let(l) => Item::Let(l),
        Item::Call { name, args, ind } => Item::Call { name, args, ind },
    }
}

/// Exec mirror of [`spec_trim_pairs`].
fn trim_pairs(v: Vec<(Vec<char>, Ast)>) -> (r: Vec<(Vec<char>, Ast)>)
    ensures
        pairs_view_from(r, 0) == spec_trim_pairs(pairs_view_from(v, 0)),
    decreases pairs_size(pairs_view_from(v, 0)), 1int,
{
    let ghost vold = v;
    let ghost v0 = pairs_view_from(v, 0);
    proof {
        crate::ast::lemma_pairs_view_from(vold, 0);
    }
    if v.len() == 0 {
        v
    } else {
        let mut v = v;
        let first = v.remove(0);
        proof {
            crate::ast::lemma_pairs_view_from(v, 0);
            assert(v@ =~= vold@.drop_first());
            assert(v0 == pairs_view_from(vold, 0));
            assert(pairs_view_from(v, 0).len() == v.len());
            assert(v0.len() == vold.len());
            assert(v0.drop_first().len() == v.len());
            assert(pairs_view_from(v, 0) =~= v0.drop_first()) by {
                assert forall|j: int| 0 <= j < v.len() implies #[trigger] pairs_view_from(v, 0)[j]
                    == v0.drop_first()[j] by {
                    assert(pairs_view_from(v, 0)[j - 0] == (v[j].0@, ast_view(v[j].1)));
                    let j1 = j + 1;
                    assert(pairs_view_from(vold, 0)[j1 - 0] == (
                        vold[j1].0@,
                        ast_view(vold[j1].1),
                    ));
                    assert(v0.drop_first()[j] == v0[j + 1]);
                    assert(v[j] == vold[j + 1]);
                }
            }
            assert(pairs_view_from(vold, 0)[0 - 0] == (vold[0].0@, ast_view(vold[0].1)));
            assert(vold[0] == first);
            crate::ast::lemma_pairs_size_member(v0, 0);
            crate::ast::lemma_pairs_size_drop_first(v0);
        }
        let (head, body) = first;
        let (b2, _p) = trim_ast(body);
        let mut rest = trim_pairs(v);
        let ghost rest0 = rest;
        rest.insert(0, (head, b2));
        proof {
            assert(rest@ =~= seq![(head, b2)] + rest0@);
            crate::ast::lemma_pairs_view_cons(rest, rest0, (head, b2));
        }
        rest
    }
}

/// Exec mirror of [`spec_trim_items`].
fn trim_items(items: Vec<Item>) -> (r: Vec<Item>)
    ensures
        items_view(r) == spec_trim_items(items_view(items)),
    decreases sitems_size(items_view(items)), 2int,
{
    let ghost vold = items;
    let ghost iv = items_view(items);
    proof {
        crate::ast::lemma_items_view(vold);
    }
    if items.len() == 0 {
        items
    } else {
        let mut items = items;
        let first = items.remove(0);
        proof {
            crate::ast::lemma_items_view(items);
            assert(items@ =~= vold@.drop_first());
            assert(items_view(items) =~= iv.drop_first()) by {
                assert forall|j: int| 0 <= j < items.len() implies #[trigger] items_view(items)[j]
                    == iv.drop_first()[j] by {
                    assert(items_view(items)[j] == item_view(items[j]));
                    assert(items_view(vold)[j + 1] == item_view(vold[j + 1]));
                    assert(items[j] == vold[j + 1]);
                }
            }
            assert(items_view(vold)[0] == item_view(vold[0]));
            assert(vold[0] == first);
            crate::ast::lemma_sitems_size_member(iv, 0);
            crate::ast::lemma_sitems_size_drop_first(iv);
        }
        let f2 = trim_item(first);
        let rest = trim_items(items);
        let mut out = rest;
        let ghost out0 = out;
        out.insert(0, f2);
        proof {
            assert(out@ =~= seq![f2] + out0@);
            crate::ast::lemma_items_view_cons(out, out0, f2);
        }
        out
    }
}

/// Exec mirror of [`spec_trim_ast`].
fn trim_ast(a: Ast) -> (r: (Ast, Option<Text>))
    ensures
        (r.0@, lift_opt_text(r.1)) == spec_trim_ast(a@),
    decreases sast_size(a@), 0int,
{
    proof {
        crate::ast::lemma_ast_items_view(a);
    }
    let mut items = trim_items(a.items);
    let ghost s1 = spec_trim_items(a@.items);
    proof {
        assert(items_view(items) == s1);
        crate::ast::lemma_items_view(items);
    }
    let mut pre: Option<Text> = None;
    // First item: strip the leading blank run.
    if items.len() > 0 {
        let ghost vold = items;
        let first = items.remove(0);
        proof {
            crate::ast::lemma_items_view(items);
            crate::ast::lemma_items_view(vold);
            assert(items@ =~= vold@.drop_first());
            assert(items_view(items) =~= s1.drop_first()) by {
                assert forall|j: int| 0 <= j < items.len() implies #[trigger] items_view(items)[j]
                    == s1.drop_first()[j] by {
                    assert(items_view(items)[j] == item_view(items[j]));
                    assert(items_view(vold)[j + 1] == item_view(vold[j + 1]));
                    assert(items[j] == vold[j + 1]);
                }
            }
            assert(items_view(vold)[0] == item_view(vold[0]));
            assert(vold[0] == first);
        }
        match first {
            Item::Text(t) => {
                let (p, rest) = text_trim_start(t);
                if !text_is_empty(&p) {
                    pre = Some(p);
                }
                if text_is_empty(&rest) {
                } else {
                    let ghost before = items;
                    items.insert(0, Item::Text(rest));
                    proof {
                        assert(items@ =~= seq![Item::Text(rest)] + before@);
                        crate::ast::lemma_items_view_cons(items, before, Item::Text(rest));
                        assert(items_view(items) =~= s1.update(0, SpecItem::Text(rest@)));
                    }
                }
            },
            other => {
                let ghost before = items;
                items.insert(0, other);
                proof {
                    assert(items@ =~= seq![other] + before@);
                    crate::ast::lemma_items_view_cons(items, before, other);
                    assert(items_view(items) =~= s1);
                }
            },
        }
    }
    let ghost mid = items_view(items);
    proof {
        assert(mid == ({
            let (items2, _) = spec_first_step(s1);
            items2
        }));
        assert(lift_opt_text(pre) == ({
            let (_, pre2) = spec_first_step(s1);
            pre2
        }));
        crate::ast::lemma_items_view(items);
    }
    // Last item: strip the trailing blank run.
    if items.len() > 0 {
        let ghost vold = items;
        let last = items.remove(items.len() - 1);
        proof {
            crate::ast::lemma_items_view(items);
            crate::ast::lemma_items_view(vold);
            assert(items@ =~= vold@.drop_last());
            assert(items_view(items) =~= mid.drop_last()) by {
                assert forall|j: int| 0 <= j < items.len() implies #[trigger] items_view(items)[j]
                    == mid.drop_last()[j] by {
                    assert(items_view(items)[j] == item_view(items[j]));
                    assert(items_view(vold)[j] == item_view(vold[j]));
                    assert(items[j] == vold[j]);
                }
            }
            assert(items_view(vold)[vold.len() - 1] == item_view(vold[vold.len() - 1]));
            assert(vold[vold.len() - 1] == last);
            assert(mid.last() == item_view(last));
        }
        match last {
            Item::Text(t) => {
                let rest = text_trim_end(t);
                if !text_is_empty(&rest) {
                    let ghost before = items;
                    items.push(Item::Text(rest));
                    proof {
                        crate::ast::lemma_items_view(items);
                        crate::ast::lemma_items_view(before);
                        assert(items_view(items) =~= mid.update(
                            mid.len() - 1,
                            SpecItem::Text(rest@),
                        )) by {
                            assert forall|j: int| 0 <= j < items.len() implies #[trigger]
                                items_view(items)[j] == mid.update(
                                mid.len() - 1,
                                SpecItem::Text(rest@),
                            )[j] by {
                                assert(items_view(items)[j] == item_view(items[j]));
                                if j < items.len() - 1 {
                                    assert(items[j] == before[j]);
                                    assert(items_view(before)[j] == item_view(before[j]));
                                }
                            }
                        }
                    }
                }
            },
            other => {
                let ghost before = items;
                items.push(other);
                proof {
                    crate::ast::lemma_items_view(items);
                    crate::ast::lemma_items_view(before);
                    assert(items_view(items) =~= mid) by {
                        assert forall|j: int| 0 <= j < items.len() implies #[trigger] items_view(
                            items,
                        )[j] == mid[j] by {
                            assert(items_view(items)[j] == item_view(items[j]));
                            if j < items.len() - 1 {
                                assert(items[j] == before[j]);
                                assert(items_view(before)[j] == item_view(before[j]));
                            }
                        }
                    }
                }
            },
        }
    }
    let out = Ast { items };
    proof {
        crate::ast::lemma_ast_items_view(out);
        assert(out@.items == spec_second_step(mid));
    }
    (out, pre)
}

/// The first-item strip of [`spec_trim_ast`], as its own step.
pub open spec fn spec_first_step(items1: Seq<SpecItem>) -> (Seq<SpecItem>, Option<SpecText>) {
    if items1.len() > 0 && items1[0] is Text {
        let (p, rest) = spec_text_trim_start(items1[0]->Text_0);
        let pre_opt = if text_is_empty_spec(p) {
            Option::<SpecText>::None
        } else {
            Some(p)
        };
        if text_is_empty_spec(rest) {
            (items1.drop_first(), pre_opt)
        } else {
            (items1.update(0, SpecItem::Text(rest)), pre_opt)
        }
    } else {
        (items1, Option::<SpecText>::None)
    }
}

/// The last-item strip of [`spec_trim_ast`], as its own step.
pub open spec fn spec_second_step(items2: Seq<SpecItem>) -> Seq<SpecItem> {
    if items2.len() > 0 && items2.last() is Text {
        let rest = spec_text_trim_end(items2.last()->Text_0);
        if text_is_empty_spec(rest) {
            items2.drop_last()
        } else {
            items2.update(items2.len() - 1, SpecItem::Text(rest))
        }
    } else {
        items2
    }
}

/// Trims every nested block body of a parsed tree and derives loop
/// separators. Total and idempotent; the top-level item list is not trimmed.
pub fn trim(ast: &mut Ast)
    ensures
        final(ast)@ == spec_trim(old(ast)@),
{
    let mut tmp = Ast::empty();
    core::mem::swap(ast, &mut tmp);
    proof {
        crate::ast::lemma_ast_view(tmp);
    }
    let items2 = trim_items(tmp.items);
    proof {
        crate::ast::lemma_ast_items_view(tmp);
    }
    *ast = Ast { items: items2 };
    proof {
        crate::ast::lemma_ast_items_view(*ast);
    }
}


/// No two literal-text items stand next to each other. The lexer never emits
/// two adjacent plain-text tokens, so every parsed tree has this shape.
pub open spec fn texts_separated(items: Seq<SpecItem>) -> bool {
    forall|i: int|
        0 <= i < items.len() - 1 ==> !((#[trigger] items[i]) is Text && items[i + 1] is Text)
}

/// Tree validity for the whitespace passes: every item list, at every depth,
/// keeps its literal-text items separated.
pub open spec fn sast_sep(a: SpecAst) -> bool
    decreases sast_size(a), 0int,
{
    texts_separated(a.items) && sitems_sep(a.items)
}

pub open spec fn sitems_sep(items: Seq<SpecItem>) -> bool
    decreases sitems_size(items), 2int,
    via sitems_sep_dec
{
    items.len() == 0 || (sitem_sep(items[0]) && sitems_sep(items.drop_first()))
}

#[via_fn]
proof fn sitems_sep_dec(items: Seq<SpecItem>) {
    if items.len() > 0 {
        crate::ast::lemma_sitems_size_drop_first(items);
        crate::ast::lemma_sitems_size_member(items, 0);
    }
}

pub open spec fn pairs_sep(v: Seq<(Seq<char>, SpecAst)>) -> bool
    decreases pairs_size(v), 1int,
    via pairs_sep_dec
{
    v.len() == 0 || (sast_sep(v[0].1) && pairs_sep(v.drop_first()))
}

#[via_fn]
proof fn pairs_sep_dec(v: Seq<(Seq<char>, SpecAst)>) {
    if v.len() > 0 {
        crate::ast::lemma_pairs_size_drop_first(v);
        crate::ast::lemma_pairs_size_member(v, 0);
    }
}

pub open spec fn sitem_sep(it: SpecItem) -> bool
    decreases sitem_size(it), 1int,
{
    match it {
        SpecItem::Scope(b) => sast_sep(b),
        SpecItem::For { body, else_, .. } => sast_sep(body) && (match else_ {
            Some(e) => sast_sep(e),
            None => true,
        }),
        SpecItem::If { if_, else_ifs, else_ } => sast_sep(if_.1) && pairs_sep(else_ifs) && (
        match else_ {
            Some(e) => sast_sep(e),
            None => true,
        }),
        SpecItem::Match { wheres, .. } => pairs_sep(wheres),
        SpecItem::Macro { body, .. } => sast_sep(body),
        _ => true,
    }
}

/// A text node whose leading blank run is empty: start-trimming it returns
/// it unchanged.
pub open spec fn start_clean(t: SpecText) -> bool {
    spec_text_trim_start(t) == (empty_text(), t)
}

/// The rest returned by a start-trim is start-clean.
proof fn lemma_tts_clean(t: SpecText)
    ensures
        start_clean(spec_text_trim_start(t).1),
    decreases t.lines.len(),
{
    if t.lines.len() > 0 {
        let l0 = t.lines[0];
        let tr = trim_start_spec(l0.content);
        if tr.len() == 0 {
            lemma_tts_clean(SpecText { lines: t.lines.drop_first(), trailing: t.trailing });
        } else if tr.len() < l0.content.len() {
            let rest = spec_text_trim_start(t).1;
            crate::chars::lemma_trim_start_idem(l0.content);
            assert(rest.lines[0].content == tr);
            assert(trim_start_spec(tr) == tr);
            assert(spec_text_trim_start(rest) == (empty_text(), rest));
        } else {
            assert(spec_text_trim_start(t).1 == t);
        }
    } else {
        let tr = trim_start_spec(t.trailing);
        let rest = spec_text_trim_start(t).1;
        crate::chars::lemma_trim_start_idem(t.trailing);
        assert(rest.trailing.take(rest.trailing.len() - trim_start_spec(
            rest.trailing,
        ).len()) =~= Seq::<char>::empty());
        assert(spec_text_trim_start(rest) == (empty_text(), rest));
    }
}

/// End-trimming is idempotent on text nodes.
proof fn lemma_tte_idem(t: SpecText)
    ensures
        spec_text_trim_end(spec_text_trim_end(t)) == spec_text_trim_end(t),
    decreases t.lines.len(),
{
    let tr = trim_end_spec(t.trailing);
    if tr.len() == 0 {
        if t.lines.len() > 0 {
            lemma_tte_idem(SpecText { lines: t.lines.drop_last(), trailing: t.lines.last().content });
        } else {
            assert(trim_end_spec(Seq::<char>::empty()) == Seq::<char>::empty());
        }
    } else {
        crate::chars::lemma_trim_end_idem(t.trailing);
    }
}

/// End-trimming keeps a text node start-clean.
proof fn lemma_clean_after_end(t: SpecText)
    requires
        start_clean(t),
    ensures
        start_clean(spec_text_trim_end(t)),
    decreases t.lines.len(),
{
    let tr = trim_end_spec(t.trailing);
    if tr.len() == 0 {
        if t.lines.len() > 0 {
            let l0 = t.lines[0];
            let t2 = SpecText { lines: t.lines.drop_last(), trailing: t.lines.last().content };
            crate::chars::lemma_leading_spaces_bounds(l0.content);
            assert(trim_start_spec(l0.content).len() == l0.content.len());
            assert(trim_start_spec(l0.content).len() != 0);
            if t.lines.len() > 1 {
                assert(t2.lines[0] == l0);
                assert(trim_start_spec(t2.lines[0].content).len() != 0);
                assert(!(trim_start_spec(t2.lines[0].content).len()
                    < t2.lines[0].content.len()));
                assert(spec_text_trim_start(t2) == (empty_text(), t2));
            } else {
                assert(t2.lines.len() == 0);
                assert(t2.lines =~= Seq::<SpecLine>::empty());
                assert(t2.trailing == l0.content);
                assert(trim_start_spec(t2.trailing) == t2.trailing);
                assert(t2.trailing.take(t2.trailing.len() - trim_start_spec(
                    t2.trailing,
                ).len()) =~= Seq::<char>::empty());
                assert(spec_text_trim_start(t2) == (empty_text(), t2));
            }
            lemma_clean_after_end(t2);
        } else {
            let e = spec_text_trim_end(t);
            assert(e == empty_text());
            assert(trim_start_spec(e.trailing) == e.trailing);
            assert(e.trailing.take(0) =~= Seq::<char>::empty());
            assert(spec_text_trim_start(e) == (empty_text(), e));
        }
    } else {
        let r = SpecText { lines: t.lines, trailing: tr };
        if t.lines.len() > 0 {
            crate::chars::lemma_leading_spaces_bounds(t.lines[0].content);
            assert(trim_start_spec(t.lines[0].content).len() == t.lines[0].content.len());
            assert(trim_start_spec(t.lines[0].content).len() != 0);
            assert(r.lines[0] == t.lines[0]);
            assert(spec_text_trim_start(r) == (empty_text(), r));
        } else {
            crate::chars::lemma_trailing_spaces_bounds(t.trailing);
            crate::chars::lemma_leading_spaces_bounds(t.trailing);
            assert(trim_start_spec(t.trailing).len() == t.trailing.len());
            assert(crate::chars::leading_spaces(t.trailing) == 0);
            if tr.len() > 0 {
                assert(tr[0] == t.trailing[0]);
                assert(!crate::chars::is_space(t.trailing[0]));
                assert(trim_start_spec(tr) == tr);
            }
            assert(tr.take(tr.len() - trim_start_spec(tr).len()) =~= Seq::<char>::empty());
            assert(spec_text_trim_start(r) == (empty_text(), r));
        }
    }
}

/// Index form of [`spec_trim_items`].
proof fn lemma_trim_items_index(items: Seq<SpecItem>)
    ensures
        spec_trim_items(items).len() == items.len(),
        forall|i: int|
            0 <= i < items.len() ==> (#[trigger] spec_trim_items(items)[i]) == spec_trim_item(
                items[i],
            ),
    decreases items.len(),
{
    if items.len() > 0 {
        lemma_trim_items_index(items.drop_first());
        assert forall|i: int| 0 <= i < items.len() implies (#[trigger] spec_trim_items(items)[i])
            == spec_trim_item(items[i]) by {
            if i > 0 {
                assert(spec_trim_items(items)[i] == spec_trim_items(items.drop_first())[i - 1]);
                assert(items.drop_first()[i - 1] == items[i]);
            }
        }
    }
}

/// A list whose items are all fixed points of the item trim is itself a
/// fixed point of the list trim.
proof fn lemma_trim_items_fixed(items: Seq<SpecItem>)
    requires
        forall|i: int| 0 <= i < items.len() ==> spec_trim_item(#[trigger] items[i]) == items[i],
    ensures
        spec_trim_items(items) == items,
    decreases items.len(),
{
    if items.len() > 0 {
        assert(spec_trim_item(items[0]) == items[0]);
        assert forall|i: int|
            0 <= i < items.drop_first().len() implies spec_trim_item(
            #[trigger] items.drop_first()[i],
        ) == items.drop_first()[i] by {
            assert(items.drop_first()[i] == items[i + 1]);
        }
        lemma_trim_items_fixed(items.drop_first());
        assert(spec_trim_items(items) =~= items);
    }
}

/// Trimming an already-trimmed body changes nothing and yields no further
/// separator.
#[verifier::rlimit(100)]
proof fn lemma_trim_ast_idem(a: SpecAst)
    requires
        sast_sep(a),
    ensures
        spec_trim_ast(spec_trim_ast(a).0) == (spec_trim_ast(a).0, Option::<SpecText>::None),
        sast_sep(spec_trim_ast(a).0),
    decreases sast_size(a), 0int,
{
    let items1 = spec_trim_items(a.items);
    lemma_trim_items_index(a.items);
    assert forall|i: int| 0 <= i < items1.len() implies spec_trim_item(#[trigger] items1[i])
        == items1[i] && sitem_sep(items1[i]) && (items1[i] is Text) == (a.items[i] is Text) by {
        lemma_sitems_sep_index(a.items, i);
        crate::ast::lemma_sitems_size_member(a.items, i);
        lemma_trim_item_idem(a.items[i]);
    }
    assert(texts_separated(items1));
    let (items2, pre) = spec_first_step(items1);
    let items3 = spec_second_step(items2);
    let out = spec_trim_ast(a).0;
    assert(out.items == items3);
    // Every item of items2 and items3 is a fixed point, and texts stay
    // separated.
    assert forall|i: int| 0 <= i < items2.len() implies spec_trim_item(#[trigger] items2[i])
        == items2[i] && sitem_sep(items2[i]) by {
        if items1.len() > 0 && items1[0] is Text {
            let rest = spec_text_trim_start(items1[0]->Text_0).1;
            if text_is_empty_spec(rest) {
                assert(items2[i] == items1[i + 1]);
            } else {
                if i == 0 {
                    assert(items2[0] == SpecItem::Text(rest));
                } else {
                    assert(items2[i] == items1[i]);
                }
            }
        } else {
            assert(items2[i] == items1[i]);
        }
    }
    assert(texts_separated(items2)) by {
        assert forall|i: int|
            0 <= i < items2.len() - 1 implies !((#[trigger] items2[i]) is Text && items2[i
            + 1] is Text) by {
            if items1.len() > 0 && items1[0] is Text {
                let rest = spec_text_trim_start(items1[0]->Text_0).1;
                if text_is_empty_spec(rest) {
                    assert(items2[i] == items1[i + 1] && items2[i + 1] == items1[i + 2]);
                } else {
                    if i == 0 {
                        assert(items2[1] == items1[1]);
                        assert(!(items1[1] is Text));
                    } else {
                        assert(items2[i] == items1[i] && items2[i + 1] == items1[i + 1]);
                    }
                }
            } else {
                assert(items2[i] == items1[i] && items2[i + 1] == items1[i + 1]);
            }
        }
    }
    assert forall|i: int| 0 <= i < items3.len() implies spec_trim_item(#[trigger] items3[i])
        == items3[i] && sitem_sep(items3[i]) by {
        if items2.len() > 0 && items2.last() is Text {
            let rest = spec_text_trim_end(items2.last()->Text_0);
            if text_is_empty_spec(rest) {
                assert(items3[i] == items2[i]);
            } else {
                if i == items3.len() - 1 {
                    assert(items3[i] == SpecItem::Text(rest));
                } else {
                    assert(items3[i] == items2[i]);
                }
            }
        } else {
            assert(items3[i] == items2[i]);
        }
    }
    assert(texts_separated(items3)) by {
        assert forall|i: int|
            0 <= i < items3.len() - 1 implies !((#[trigger] items3[i]) is Text && items3[i
            + 1] is Text) by {
            if items2.len() > 0 && items2.last() is Text {
                let rest = spec_text_trim_end(items2.last()->Text_0);
                if text_is_empty_spec(rest) {
                    assert(items3[i] == items2[i] && items3[i + 1] == items2[i + 1]);
                } else {
                    assert(items3[i] == items2[i]);
                    if i + 1 == items3.len() - 1 {
                        assert(!(items2[i] is Text) || !(items2[i + 1] is Text));
                        assert(items3[i + 1] == SpecItem::Text(rest));
                    } else {
                        assert(items3[i + 1] == items2[i + 1]);
                    }
                }
            } else {
                assert(items3[i] == items2[i] && items3[i + 1] == items2[i + 1]);
            }
        }
    }
    // Second run.
    lemma_trim_items_fixed(items3);
    assert(spec_trim_items(items3) == items3);
    // First step of the second run does nothing.
    if items3.len() > 0 && items3[0] is Text {
        assert(start_clean(items3[0]->Text_0)) by {
            if items1.len() > 0 && items1[0] is Text {
                let rest = spec_text_trim_start(items1[0]->Text_0).1;
                lemma_tts_clean(items1[0]->Text_0);
                if text_is_empty_spec(rest) {
                    // First was dropped; the new head was not a text item.
                    if items2.len() > 0 {
                        assert(items2[0] == items1[1]);
                        assert(!(items1[1] is Text));
                        if items2.len() > 1 {
                            assert(items3[0] == items2[0]);
                        } else {
                            assert(items3.len() > 0 ==> items3[0] == items2[0]);
                        }
                        assert(!(items3[0] is Text));
                        assert(false);
                    } else {
                        assert(false);
                    }
                } else {
                    assert(items2[0] == SpecItem::Text(rest));
                    if items2.len() == 1 && items2.last() is Text {
                        let rest2 = spec_text_trim_end(rest);
                        lemma_clean_after_end(rest);
                        if text_is_empty_spec(rest2) {
                            assert(items3.len() == 0);
                            assert(false);
                        } else {
                            assert(items3[0] == SpecItem::Text(rest2));
                        }
                    } else {
                        assert(items3[0] == items2[0]);
                    }
                }
            } else {
                // First item of items1 was not text, so neither is items3[0]
                // unless the second step put a text there at the very end,
                // which only replaces an existing text item.
                if items2.len() > 0 && items2.last() is Text {
                    let rest2 = spec_text_trim_end(items2.last()->Text_0);
                    if !text_is_empty_spec(rest2) && items3.len() == 1 {
                        assert(items2.len() == 1);
                        assert(items2[0] == items1[0]);
                        assert(false);
                    } else {
                        assert(items3[0] == items2[0]);
                        assert(false);
                    }
                } else {
                    assert(items3[0] == items2[0]);
                    assert(false);
                }
            }
        }
        assert(spec_first_step(items3) == (
            items3.update(0, SpecItem::Text(items3[0]->Text_0)),
            Option::<SpecText>::None,
        ));
        assert(items3.update(0, SpecItem::Text(items3[0]->Text_0)) =~= items3);
    }
    let (items2b, pre2) = spec_first_step(items3);
    assert(items2b == items3 && pre2 == Option::<SpecText>::None);
    // Second step of the second run does nothing.
    if items3.len() > 0 && items3.last() is Text {
        assert(spec_text_trim_end(items3.last()->Text_0) == items3.last()->Text_0) by {
            if items2.len() > 0 && items2.last() is Text {
                let rest2 = spec_text_trim_end(items2.last()->Text_0);
                lemma_tte_idem(items2.last()->Text_0);
                if text_is_empty_spec(rest2) {
                    // Last was dropped; the new last is not a text item.
                    assert(items3.last() == items2[items2.len() - 2]);
                    assert(!(items2[items2.len() - 2] is Text) || !(items2[items2.len()
                        - 1] is Text));
                    assert(false);
                } else {
                    assert(items3.last() == SpecItem::Text(rest2));
                }
            } else {
                assert(items3.last() == items2.last());
                assert(false);
            }
        }
        assert(!text_is_empty_spec(items3.last()->Text_0)) by {
            if items2.len() > 0 && items2.last() is Text {
                let rest2 = spec_text_trim_end(items2.last()->Text_0);
                if text_is_empty_spec(rest2) {
                    assert(false);
                }
            } else {
                assert(false);
            }
        }
        assert(spec_second_step(items3) =~= items3.update(
            items3.len() - 1,
            SpecItem::Text(items3.last()->Text_0),
        ));
        assert(items3.update(items3.len() - 1, SpecItem::Text(items3.last()->Text_0)) =~= items3);
    }
    assert(spec_second_step(items3) == items3);
    assert(spec_trim_ast(out) == (out, Option::<SpecText>::None));
    // Validity of the result.
    lemma_sitems_sep_build(items3);
}

/// Builds the recursive separation predicate from its per-element form.
proof fn lemma_sitems_sep_build(items: Seq<SpecItem>)
    requires
        forall|i: int| 0 <= i < items.len() ==> sitem_sep(#[trigger] items[i]),
    ensures
        sitems_sep(items),
    decreases items.len(),
{
    if items.len() > 0 {
        assert forall|i: int| 0 <= i < items.drop_first().len() implies sitem_sep(
            #[trigger] items.drop_first()[i],
        ) by {
            assert(items.drop_first()[i] == items[i + 1]);
        }
        lemma_sitems_sep_build(items.drop_first());
    }
}

/// Reads the recursive separation predicate at one index.
proof fn lemma_sitems_sep_index(items: Seq<SpecItem>, i: int)
    requires
        sitems_sep(items),
        0 <= i < items.len(),
    ensures
        sitem_sep(items[i]),
    decreases items.len(),
{
    if i > 0 {
        lemma_sitems_sep_index(items.drop_first(), i - 1);
        assert(items.drop_first()[i - 1] == items[i]);
    }
}

proof fn lemma_pairs_sep_index(v: Seq<(Seq<char>, SpecAst)>, i: int)
    requires
        pairs_sep(v),
        0 <= i < v.len(),
    ensures
        sast_sep(v[i].1),
    decreases v.len(),
{
    if i > 0 {
        lemma_pairs_sep_index(v.drop_first(), i - 1);
        assert(v.drop_first()[i - 1] == v[i]);
    }
}

/// Trimming the bodies of an already-trimmed branch list changes nothing.
proof fn lemma_trim_pairs_idem(v: Seq<(Seq<char>, SpecAst)>)
    requires
        pairs_sep(v),
    ensures
        spec_trim_pairs(spec_trim_pairs(v)) == spec_trim_pairs(v),
        pairs_sep(spec_trim_pairs(v)),
    decreases pairs_size(v), 1int,
{
    if v.len() > 0 {
        crate::ast::lemma_pairs_size_drop_first(v);
        crate::ast::lemma_pairs_size_member(v, 0);
        lemma_trim_ast_idem(v[0].1);
        lemma_trim_pairs_idem(v.drop_first());
        let w = spec_trim_pairs(v);
        let b2 = spec_trim_ast(v[0].1).0;
        assert(w == seq![(v[0].0, b2)] + spec_trim_pairs(v.drop_first()));
        assert(w[0] == (v[0].0, b2));
        assert(w.drop_first() =~= spec_trim_pairs(v.drop_first()));
        assert(spec_trim_pairs(w) =~= seq![(w[0].0, spec_trim_ast(w[0].1).0)] + spec_trim_pairs(
            w.drop_first(),
        ));
        assert(spec_trim_pairs(w) =~= w);
        assert(pairs_sep(w)) by {
            assert(sast_sep(w[0].1));
        }
    }
}

/// Trimming an already-trimmed item changes nothing.
proof fn lemma_trim_item_idem(it: SpecItem)
    requires
        sitem_sep(it),
    ensures
        spec_trim_item(spec_trim_item(it)) == spec_trim_item(it),
        sitem_sep(spec_trim_item(it)),
    decreases sitem_size(it), 1int,
{
    match it {
        SpecItem::Scope(b) => {
            lemma_trim_ast_idem(b);
        },
        SpecItem::For { for_, pre, body, else_ } => {
            lemma_trim_ast_idem(body);
            match else_ {
                Some(e) => {
                    lemma_trim_ast_idem(e);
                },
                None => {},
            }
        },
        SpecItem::If { if_, else_ifs, else_ } => {
            lemma_trim_ast_idem(if_.1);
            lemma_trim_pairs_idem(else_ifs);
            match else_ {
                Some(e) => {
                    lemma_trim_ast_idem(e);
                },
                None => {},
            }
        },
        SpecItem::Match { match_, wheres } => {
            lemma_trim_pairs_idem(wheres);
        },
        SpecItem::Macro { name, params, body } => {
            lemma_trim_ast_idem(body);
        },
        _ => {},
    }
}

/// Trim is idempotent: trimming an already-trimmed tree changes nothing.
/// The premise is the shape every parsed template has: no two literal-text
/// items stand next to each other anywhere in the tree, because the lexer
/// never produces two adjacent plain-text tokens.
pub proof fn lemma_trim_idempotent(a: SpecAst)
    requires
        sast_sep(a),
    ensures
        spec_trim(spec_trim(a)) == spec_trim(a),
{
    let items1 = spec_trim_items(a.items);
    lemma_trim_items_index(a.items);
    assert forall|i: int| 0 <= i < items1.len() implies spec_trim_item(#[trigger] items1[i])
        == items1[i] by {
        lemma_sitems_sep_index(a.items, i);
        crate::ast::lemma_sitems_size_member(a.items, i);
        lemma_trim_item_idem(a.items[i]);
    }
    lemma_trim_items_fixed(items1);
}

} // verus!
