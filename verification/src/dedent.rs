//! The dedent pass (opt-in): removes indentation that was added only to keep
//! nested blocks readable in the template source.
//!
//! The pass runs over the parse output, before the trim pass. Sibling items
//! are walked with a `base_indent` accumulator fed by the spacing of literal
//! text; for each nested construct, the minimum indentation present at the
//! line-start positions inside its body (a recursive query over nested
//! bodies) is compared with the accumulated base, and the excess is stripped
//! from the start of every line inside the body. A line that is both a
//! body's last line and made purely of blanks keeps its spacing: it belongs
//! to the following end marker. Named-block bodies are dedented against a
//! base of zero, and invocation items only capture the current base into
//! their indentation field.
//!
//! All indentation here is counted in blank (`' '`) characters, and a strip
//! never removes more blanks than a line actually has.

use vstd::prelude::*;

use crate::ast::{
    ast_view, item_view, items_view, pairs_size, pairs_view_from, sast_size, sitem_size,
    sitems_size, Ast, Item, SpecAst, SpecItem, SpecLine, SpecText, Text,
};
use crate::chars::{leading_blanks, subvec};

verus! {

broadcast use {vstd::seq::axiom_seq_index_decreases, vstd::seq::axiom_seq_subrange_decreases, vstd::std_specs::vec::axiom_vec_index_decreases};

/// Where the walk stands on the current output line: past some content, or
/// at a line start having seen only `w` blanks since the line break.
#[derive(Debug, Clone, Copy, PartialEq, Eq, Structural)]
pub enum QPos {
    No,
    At(usize),
}

/// Addition clamped at the machine limit, so that the accumulators are total.
pub open spec fn sat_add(a: int, b: int) -> int {
    if a + b > usize::MAX as int {
        usize::MAX as int
    } else {
        a + b
    }
}

/// The smaller of two optional minima; absence loses.
pub open spec fn opt_min(a: Option<int>, b: Option<int>) -> Option<int> {
    match (a, b) {
        (Option::None, x) => x,
        (Some(x), Option::None) => Some(x),
        (Some(x), Some(y)) => if x <= y {
            Some(x)
        } else {
            Some(y)
        },
    }
}

/// A run made of blanks only.
pub open spec fn all_blanks(s: Seq<char>) -> bool {
    leading_blanks(s) == s.len()
}

/// The indentation recorded by one complete line: at a line start, a line
/// whose content begins after `k` blanks records `w + k`; a line of blanks
/// only records nothing. Every complete line ends at a fresh line start.
pub open spec fn q_line(l: SpecLine, st: QPos) -> (Option<int>, QPos) {
    let m = match st {
        QPos::At(w) => {
            let k = leading_blanks(l.content);
            if k < l.content.len() {
                Some(sat_add(w as int, k))
            } else {
                Option::<int>::None
            }
        },
        QPos::No => Option::<int>::None,
    };
    (m, QPos::At(0))
}

/// The indentation recorded by the trailing segment, and the position after
/// it: blanks accumulate, and the first other character ends the line start.
pub open spec fn q_trailing(tr: Seq<char>, st: QPos) -> (Option<int>, QPos) {
    match st {
        QPos::At(w) => {
            let k = leading_blanks(tr);
            if k < tr.len() {
                (Some(sat_add(w as int, k)), QPos::No)
            } else {
                (Option::<int>::None, QPos::At(sat_add(w as int, k) as usize))
            }
        },
        QPos::No => (Option::<int>::None, QPos::No),
    }
}

/// Fold of [`q_line`] over the lines from index `i` on.
pub open spec fn q_lines_from(lines: Seq<SpecLine>, i: int, st: QPos) -> (Option<int>, QPos)
    decreases lines.len() - i,
{
    if i < 0 || i >= lines.len() {
        (Option::<int>::None, st)
    } else {
        let (m1, s1) = q_line(lines[i], st);
        let (m2, s2) = q_lines_from(lines, i + 1, s1);
        (opt_min(m1, m2), s2)
    }
}

/// The indentation information of one text node.
pub open spec fn q_text(t: SpecText, st: QPos) -> (Option<int>, QPos) {
    let (m1, s1) = q_lines_from(t.lines, 0, st);
    let (m2, s2) = q_trailing(t.trailing, s1);
    (opt_min(m1, m2), s2)
}

/// The minimum line-start indentation inside one item: a non-text item at a
/// line start is itself content there, and its nested bodies are queried
/// recursively from a fresh position.
pub open spec fn q_item(it: SpecItem, st: QPos) -> (Option<int>, QPos)
    decreases sitem_size(it), 0int, 1int,
{
    match it {
        SpecItem::Text(t) => q_text(t, st),
        _ => {
            let m0 = match st {
                QPos::At(w) => Some(w as int),
                QPos::No => Option::<int>::None,
            };
            let mi = match it {
                SpecItem::Scope(b) => q_items_from(b.items, 0, QPos::No).0,
                SpecItem::For { body, else_, .. } => opt_min(
                    q_items_from(body.items, 0, QPos::No).0,
                    match else_ {
                        Some(e) => q_items_from(e.items, 0, QPos::No).0,
                        None => Option::<int>::None,
                    },
                ),
                SpecItem::If { if_, else_ifs, else_ } => opt_min(
                    q_items_from(if_.1.items, 0, QPos::No).0,
                    opt_min(
                        q_pairs_from(else_ifs, 0),
                        match else_ {
                            Some(e) => q_items_from(e.items, 0, QPos::No).0,
                            None => Option::<int>::None,
                        },
                    ),
                ),
                SpecItem::Match { wheres, .. } => q_pairs_from(wheres, 0),
                SpecItem::Macro { body, .. } => q_items_from(body.items, 0, QPos::No).0,
                _ => Option::<int>::None,
            };
            (opt_min(m0, mi), QPos::No)
        },
    }
}

/// The minimum over the bodies of a branch list, from index `i` on.
pub open spec fn q_pairs_from(v: Seq<(Seq<char>, SpecAst)>, i: int) -> Option<int>
    decreases pairs_size(v), v.len() - i, 1int,
    via q_pairs_from_dec
{
    if i < 0 || i >= v.len() {
        Option::<int>::None
    } else {
        opt_min(q_items_from(v[i].1.items, 0, QPos::No).0, q_pairs_from(v, i + 1))
    }
}

#[via_fn]
proof fn q_pairs_from_dec(v: Seq<(Seq<char>, SpecAst)>, i: int) {
    if 0 <= i < v.len() {
        crate::ast::lemma_pairs_size_member(v, i);
    }
}

/// Fold of [`q_item`] over the items from index `i` on.
pub open spec fn q_items_from(items: Seq<SpecItem>, i: int, st: QPos) -> (Option<int>, QPos)
    decreases sitems_size(items), items.len() - i, 2int,
    via q_items_from_dec
{
    if i < 0 || i >= items.len() {
        (Option::<int>::None, st)
    } else {
        let (m1, s1) = q_item(items[i], st);
        let (m2, s2) = q_items_from(items, i + 1, s1);
        (opt_min(m1, m2), s2)
    }
}

#[via_fn]
proof fn q_items_from_dec(items: Seq<SpecItem>, i: int, st: QPos) {
    if 0 <= i < items.len() {
        crate::ast::lemma_sitems_size_member(items, i);
    }
}

/// The minimum indentation present across the line-start positions inside a
/// body, or nothing when no line-start content exists.
pub open spec fn items_indent(a: SpecAst) -> Option<int> {
    q_items_from(a.items, 0, QPos::No).0
}

/// `s` without its first `d` blanks; never removes more blanks than the line
/// has, and never removes anything else.
pub open spec fn strip_front(s: Seq<char>, d: int) -> Seq<char> {
    if d <= leading_blanks(s) {
        s.skip(if d < 0 {
            0
        } else {
            d
        })
    } else {
        s.skip(leading_blanks(s))
    }
}

/// Strips `d` from every line at a line start; `als` says whether the walk
/// stands at a line start when the lines begin.
pub open spec fn d_lines(lines: Seq<SpecLine>, d: int, als: bool) -> (Seq<SpecLine>, bool)
    decreases lines.len(),
{
    if lines.len() == 0 {
        (lines, als)
    } else {
        let l = lines[0];
        let c2 = if als && l.content.len() > 0 {
            strip_front(l.content, d)
        } else {
            l.content
        };
        let (rest, als2) = d_lines(lines.drop_first(), d, true);
        (seq![SpecLine { content: c2, new_line: l.new_line }] + rest, als2)
    }
}

/// Strips `d` from a text node. The trailing segment is spared when it is
/// the body's very last line and made of blanks only: that spacing belongs
/// to the following end marker.
pub open spec fn d_text(t: SpecText, d: int, als: bool, is_last: bool) -> (SpecText, bool) {
    let (ls, als1) = d_lines(t.lines, d, als);
    if als1 && t.trailing.len() > 0 {
        let tr2 = if is_last && all_blanks(t.trailing) {
            t.trailing
        } else {
            strip_front(t.trailing, d)
        };
        (SpecText { lines: ls, trailing: tr2 }, false)
    } else {
        (SpecText { lines: ls, trailing: t.trailing }, als1)
    }
}

/// Strips `d` inside one nested construct, body by body.
pub open spec fn d_inner(it: SpecItem, d: int) -> SpecItem
    decreases sitem_size(it), 0int, 1int,
{
    match it {
        SpecItem::Scope(b) => SpecItem::Scope(d_ast(b, d)),
        SpecItem::For { for_, pre, body, else_ } => SpecItem::For {
            for_,
            pre,
            body: d_ast(body, d),
            else_: match else_ {
                Some(e) => Some(d_ast(e, d)),
                None => None,
            },
        },
        SpecItem::If { if_, else_ifs, else_ } => SpecItem::If {
            if_: (if_.0, d_ast(if_.1, d)),
            else_ifs: d_pairs(else_ifs, d),
            else_: match else_ {
                Some(e) => Some(d_ast(e, d)),
                None => None,
            },
        },
        SpecItem::Match { match_, wheres } => SpecItem::Match {
            match_,
            wheres: d_pairs(wheres, d),
        },
        SpecItem::Macro { name, params, body } => SpecItem::Macro {
            name,
            params,
            body: d_ast(body, d),
        },
        _ => it,
    }
}

pub open spec fn d_pairs(v: Seq<(Seq<char>, SpecAst)>, d: int) -> Seq<(Seq<char>, SpecAst)>
    decreases pairs_size(v), 0int, 1int,
    via d_pairs_dec
{
    if v.len() == 0 {
        v
    } else {
        seq![(v[0].0, d_ast(v[0].1, d))] + d_pairs(v.drop_first(), d)
    }
}

#[via_fn]
proof fn d_pairs_dec(v: Seq<(Seq<char>, SpecAst)>, d: int) {
    if v.len() > 0 {
        crate::ast::lemma_pairs_size_drop_first(v);
        crate::ast::lemma_pairs_size_member(v, 0);
    }
}

/// Strips `d` from every line-start line of a body, recursively through
/// nesting; the walk leaves a line start after any non-text item.
pub open spec fn d_ast_items(items: Seq<SpecItem>, d: int, als: bool) -> (Seq<SpecItem>, bool)
    decreases sitems_size(items), 0int, 2int,
    via d_ast_items_dec
{
    if items.len() == 0 {
        (items, als)
    } else {
        let is_last = items.len() == 1;
        let (it2, als2) = match items[0] {
            SpecItem::Text(t) => {
                let (t2, a2) = d_text(t, d, als, is_last);
                (SpecItem::Text(t2), a2)
            },
            _ => (d_inner(items[0], d), false),
        };
        let (rest, als3) = d_ast_items(items.drop_first(), d, als2);
        (seq![it2] + rest, als3)
    }
}

#[via_fn]
proof fn d_ast_items_dec(items: Seq<SpecItem>, d: int, als: bool) {
    if items.len() > 0 {
        crate::ast::lemma_sitems_size_drop_first(items);
        crate::ast::lemma_sitems_size_member(items, 0);
    }
}

/// Strips `d` from a whole body.
pub open spec fn d_ast(a: SpecAst, d: int) -> SpecAst
    decreases sast_size(a), 0int, 0int,
{
    SpecAst { items: d_ast_items(a.items, d, false).0 }
}


/// The strip never changes how many nodes a tree has.
proof fn lemma_d_ast_size(a: SpecAst, d: int)
    ensures
        sast_size(d_ast(a, d)) == sast_size(a),
    decreases sast_size(a), 0int, 0int,
{
    lemma_d_items_size(a.items, d, false);
}

proof fn lemma_d_items_size(items: Seq<SpecItem>, d: int, als: bool)
    ensures
        sitems_size(d_ast_items(items, d, als).0) == sitems_size(items),
    decreases sitems_size(items), 0int, 2int,
{
    if items.len() > 0 {
        crate::ast::lemma_sitems_size_drop_first(items);
        crate::ast::lemma_sitems_size_member(items, 0);
        let is_last = items.len() == 1;
        let (it2, als2) = match items[0] {
            SpecItem::Text(t) => {
                let (t2, a2) = d_text(t, d, als, is_last);
                (SpecItem::Text(t2), a2)
            },
            _ => (d_inner(items[0], d), false),
        };
        lemma_d_inner_size(items[0], d);
        lemma_d_items_size(items.drop_first(), d, als2);
        let (rest, _a3) = d_ast_items(items.drop_first(), d, als2);
        assert((seq![it2] + rest)[0] == it2);
        assert((seq![it2] + rest).drop_first() =~= rest);
        assert(d_ast_items(items, d, als).0 == seq![it2] + rest);
        assert(sitem_size(it2) == sitem_size(items[0]));
        assert(sitems_size(seq![it2] + rest) == sitem_size(it2) + sitems_size(rest));
        assert(sitems_size(items) == sitem_size(items[0]) + sitems_size(items.drop_first()));
    }
}

proof fn lemma_d_inner_size(it: SpecItem, d: int)
    ensures
        sitem_size(d_inner(it, d)) == sitem_size(it),
    decreases sitem_size(it), 0int, 1int,
{
    match it {
        SpecItem::Scope(b) => {
            lemma_d_ast_size(b, d);
        },
        SpecItem::For { body, else_, .. } => {
            lemma_d_ast_size(body, d);
            match else_ {
                Some(e) => {
                    lemma_d_ast_size(e, d);
                },
                None => {},
            }
        },
        SpecItem::If { if_, else_ifs, else_ } => {
            lemma_d_ast_size(if_.1, d);
            lemma_d_pairs_size(else_ifs, d);
            match else_ {
                Some(e) => {
                    lemma_d_ast_size(e, d);
                },
                None => {},
            }
        },
        SpecItem::Match { wheres, .. } => {
            lemma_d_pairs_size(wheres, d);
        },
        SpecItem::Macro { body, .. } => {
            lemma_d_ast_size(body, d);
        },
        _ => {},
    }
}

proof fn lemma_d_pairs_size(v: Seq<(Seq<char>, SpecAst)>, d: int)
    ensures
        pairs_size(d_pairs(v, d)) == pairs_size(v),
    decreases pairs_size(v), 0int, 1int,
{
    if v.len() > 0 {
        crate::ast::lemma_pairs_size_drop_first(v);
        crate::ast::lemma_pairs_size_member(v, 0);
        lemma_d_ast_size(v[0].1, d);
        lemma_d_pairs_size(v.drop_first(), d);
        let w = d_pairs(v, d);
        assert(w[0] == (v[0].0, d_ast(v[0].1, d)));
        assert(w.drop_first() =~= d_pairs(v.drop_first(), d));
    }
}

/// One body under the driver: the excess of its measured indentation over
/// the base is stripped, and the walk then descends into its items.
pub open spec fn d_body(a: SpecAst, eff: int) -> SpecAst
    decreases sast_size(a), 0int, 0int,
    via d_body_dec
{
    let a1 = match items_indent(a) {
        Some(m) => if m > eff {
            d_ast(a, m - eff)
        } else {
            a
        },
        None => a,
    };
    SpecAst { items: d_items(a1.items, eff, true) }
}

#[via_fn]
proof fn d_body_dec(a: SpecAst, eff: int) {
    match items_indent(a) {
        Some(m) => {
            if m > eff {
                lemma_d_ast_size(a, m - eff);
                lemma_d_items_size(a.items, m - eff, false);
            }
        },
        None => {},
    }
}

/// The driver on one non-text item: named-block bodies restart from base
/// zero, invocation items capture the base, and every other construct's
/// bodies are dedented against the current base.
pub open spec fn d_driver_item(it: SpecItem, base: int) -> SpecItem
    decreases sitem_size(it), 0int, 1int,
{
    match it {
        SpecItem::Scope(b) => SpecItem::Scope(d_body(b, base)),
        SpecItem::For { for_, pre, body, else_ } => SpecItem::For {
            for_,
            pre,
            body: d_body(body, base),
            else_: match else_ {
                Some(e) => Some(d_body(e, base)),
                None => None,
            },
        },
        SpecItem::If { if_, else_ifs, else_ } => SpecItem::If {
            if_: (if_.0, d_body(if_.1, base)),
            else_ifs: d_driver_pairs(else_ifs, base),
            else_: match else_ {
                Some(e) => Some(d_body(e, base)),
                None => None,
            },
        },
        SpecItem::Match { match_, wheres } => SpecItem::Match {
            match_,
            wheres: d_driver_pairs(wheres, base),
        },
        SpecItem::Macro { name, params, body } => SpecItem::Macro {
            name,
            params,
            body: d_body(body, 0),
        },
        SpecItem::Call { name, args, .. } => SpecItem::Call {
            name,
            args,
            ind: (if 0 <= base <= usize::MAX as int {
                base as usize
            } else {
                0
            }),
        },
        _ => it,
    }
}

pub open spec fn d_driver_pairs(v: Seq<(Seq<char>, SpecAst)>, base: int) -> Seq<
    (Seq<char>, SpecAst),
>
    decreases pairs_size(v), 0int, 1int,
    via d_driver_pairs_dec
{
    if v.len() == 0 {
        v
    } else {
        seq![(v[0].0, d_body(v[0].1, base))] + d_driver_pairs(v.drop_first(), base)
    }
}

#[via_fn]
proof fn d_driver_pairs_dec(v: Seq<(Seq<char>, SpecAst)>, base: int) {
    if v.len() > 0 {
        crate::ast::lemma_pairs_size_drop_first(v);
        crate::ast::lemma_pairs_size_member(v, 0);
    }
}

/// The driver over sibling items. Text feeds the accumulator: a text item
/// with complete lines resets the base, and while the line start is still
/// open its trailing blanks extend the base.
pub open spec fn d_items(items: Seq<SpecItem>, base: int, add: bool) -> Seq<SpecItem>
    decreases sitems_size(items), 0int, 3int,
    via d_items_dec
{
    if items.len() == 0 {
        items
    } else {
        match items[0] {
            SpecItem::Text(t) => {
                let base1: int = if t.lines.len() > 0 {
                    0
                } else {
                    base
                };
                let add1 = if t.lines.len() > 0 {
                    true
                } else {
                    add
                };
                let ind = leading_blanks(t.trailing);
                let base2 = if add1 {
                    sat_add(base1, ind)
                } else {
                    base1
                };
                let add2 = if add1 {
                    ind == t.trailing.len()
                } else {
                    add1
                };
                seq![items[0]] + d_items(items.drop_first(), base2, add2)
            },
            _ => {
                let it2 = d_driver_item(items[0], base);
                seq![it2] + d_items(items.drop_first(), base, add)
            },
        }
    }
}

#[via_fn]
proof fn d_items_dec(items: Seq<SpecItem>, base: int, add: bool) {
    if items.len() > 0 {
        crate::ast::lemma_sitems_size_drop_first(items);
        crate::ast::lemma_sitems_size_member(items, 0);
    }
}

/// The whole pass over a parsed tree: the top level is walked with a base of
/// zero, and only nested bodies are rewritten.
pub open spec fn spec_dedent(a: SpecAst) -> SpecAst {
    SpecAst { items: d_items(a.items, 0, true) }
}


/// The model of an optional machine-sized minimum.
pub open spec fn lift_opt_usize(o: Option<usize>) -> Option<int> {
    match o {
        Some(x) => Some(x as int),
        None => None,
    }
}

/// Exec mirror of [`sat_add`].
fn sat_add_exec(a: usize, b: usize) -> (r: usize)
    ensures
        r as int == sat_add(a as int, b as int),
{
    if b > usize::MAX - a {
        usize::MAX
    } else {
        a + b
    }
}

/// Exec mirror of [`opt_min`].
fn opt_min_exec(a: Option<usize>, b: Option<usize>) -> (r: Option<usize>)
    ensures
        lift_opt_usize(r) == opt_min(lift_opt_usize(a), lift_opt_usize(b)),
{
    match (a, b) {
        (Option::None, x) => x,
        (Some(x), Option::None) => Some(x),
        (Some(x), Some(y)) => if x <= y {
            Some(x)
        } else {
            Some(y)
        },
    }
}

/// Exec mirror of [`strip_front`].
fn strip_front_exec(content: &[char], d: usize) -> (r: Vec<char>)
    ensures
        r@ == strip_front(content@, d as int),
{
    let k = crate::chars::count_leading_blanks(content);
    proof {
        crate::chars::lemma_leading_blanks_bounds(content@);
    }
    let kk = if d < k {
        d
    } else {
        k
    };
    let r = subvec(content, kk, content.len());
    proof {
        assert(r@ =~= strip_front(content@, d as int));
    }
    r
}

/// Exec mirror of [`q_lines_from`].
fn query_lines(lines: &Vec<crate::ast::Line>, i: usize, st: QPos) -> (r: (Option<usize>, QPos))
    requires
        i <= lines@.len(),
    ensures
        ({
            let (m, s) = q_lines_from(crate::ast::lines_view(*lines), i as int, st);
            lift_opt_usize(r.0) == m && r.1 == s
        }),
    decreases lines@.len() - i,
{
    let ghost lv = crate::ast::lines_view(*lines);
    if i >= lines.len() {
        (None, st)
    } else {
        proof {
            assert(lv[i as int] == lines[i as int]@);
        }
        let m1: Option<usize> = match st {
            QPos::At(w) => {
                let k = crate::chars::count_leading_blanks(lines[i].content.as_slice());
                if k < lines[i].content.len() {
                    Some(sat_add_exec(w, k))
                } else {
                    None
                }
            },
            QPos::No => None,
        };
        let (m2, s2) = query_lines(lines, i + 1, QPos::At(0));
        (opt_min_exec(m1, m2), s2)
    }
}

/// Exec mirror of [`q_trailing`].
fn query_trailing(tr: &[char], st: QPos) -> (r: (Option<usize>, QPos))
    ensures
        ({
            let (m, s) = q_trailing(tr@, st);
            lift_opt_usize(r.0) == m && r.1 == s
        }),
{
    match st {
        QPos::At(w) => {
            let k = crate::chars::count_leading_blanks(tr);
            proof {
                crate::chars::lemma_leading_blanks_bounds(tr@);
            }
            if k < tr.len() {
                (Some(sat_add_exec(w, k)), QPos::No)
            } else {
                (None, QPos::At(sat_add_exec(w, k)))
            }
        },
        QPos::No => (None, QPos::No),
    }
}

/// Exec mirror of [`q_text`].
fn query_text(t: &Text, st: QPos) -> (r: (Option<usize>, QPos))
    ensures
        ({
            let (m, s) = q_text(t@, st);
            lift_opt_usize(r.0) == m && r.1 == s
        }),
{
    let (m1, s1) = query_lines(&t.lines, 0, st);
    let (m2, s2) = query_trailing(t.trailing.as_slice(), s1);
    (opt_min_exec(m1, m2), s2)
}

/// Exec mirror of [`q_item`].
fn query_item(it: &Item, st: QPos) -> (r: (Option<usize>, QPos))
    ensures
        ({
            let (m, s) = q_item(it@, st);
            lift_opt_usize(r.0) == m && r.1 == s
        }),
    decreases sitem_size(it@), 0int, 1int,
{
    match it {
        Item::Text(t) => query_text(t, st),
        _ => {
            let m0: Option<usize> = match st {
                QPos::At(w) => Some(w),
                QPos::No => None,
            };
            let mi: Option<usize> = match it {
                Item::Scope(b) => {
                    proof {
                        crate::ast::lemma_ast_items_view(*b);
                    }
                    query_items(&b.items, 0, QPos::No).0
                },
                Item::For { body, else_, .. } => {
                    proof {
                        crate::ast::lemma_ast_items_view(*body);
                    }
                    let mb = query_items(&body.items, 0, QPos::No).0;
                    let me: Option<usize> = match else_ {
                        Some(e) => {
                            proof {
                                crate::ast::lemma_ast_items_view(*e);
                            }
                            query_items(&e.items, 0, QPos::No).0
                        },
                        None => None,
                    };
                    opt_min_exec(mb, me)
                },
                Item::If { if_, else_ifs, else_ } => {
                    proof {
                        crate::ast::lemma_ast_items_view(if_.1);
                    }
                    let mb = query_items(&if_.1.items, 0, QPos::No).0;
                    let mp = query_pairs(else_ifs, 0);
                    let me: Option<usize> = match else_ {
                        Some(e) => {
                            proof {
                                crate::ast::lemma_ast_items_view(*e);
                            }
                            query_items(&e.items, 0, QPos::No).0
                        },
                        None => None,
                    };
                    opt_min_exec(mb, opt_min_exec(mp, me))
                },
                Item::Match { wheres, .. } => query_pairs(wheres, 0),
                Item::Macro { body, .. } => {
                    proof {
                        crate::ast::lemma_ast_items_view(*body);
                    }
                    query_items(&body.items, 0, QPos::No).0
                },
                _ => None,
            };
            (opt_min_exec(m0, mi), QPos::No)
        },
    }
}

/// Exec mirror of [`q_pairs_from`].
fn query_pairs(v: &Vec<(Vec<char>, Ast)>, i: usize) -> (r: Option<usize>)
    requires
        i <= v@.len(),
    ensures
        lift_opt_usize(r) == q_pairs_from(pairs_view_from(*v, 0), i as int),
    decreases pairs_size(pairs_view_from(*v, 0)), v@.len() - i, 1int,
{
    let ghost pv = pairs_view_from(*v, 0);
    proof {
        crate::ast::lemma_pairs_view(*v);
    }
    if i >= v.len() {
        None
    } else {
        proof {
            assert(pv[i as int] == (v[i as int].0@, ast_view(v[i as int].1)));
            crate::ast::lemma_pairs_size_member(pv, i as int);
            crate::ast::lemma_ast_items_view(v[i as int].1);
        }
        let mb = query_items(&v[i].1.items, 0, QPos::No).0;
        let mr = query_pairs(v, i + 1);
        opt_min_exec(mb, mr)
    }
}

/// Exec mirror of [`q_items_from`].
fn query_items(items: &Vec<Item>, i: usize, st: QPos) -> (r: (Option<usize>, QPos))
    requires
        i <= items@.len(),
    ensures
        ({
            let (m, s) = q_items_from(items_view(*items), i as int, st);
            lift_opt_usize(r.0) == m && r.1 == s
        }),
    decreases sitems_size(items_view(*items)), items@.len() - i, 2int,
{
    let ghost iv = items_view(*items);
    proof {
        crate::ast::lemma_items_view(*items);
    }
    if i >= items.len() {
        (None, st)
    } else {
        proof {
            assert(iv[i as int] == item_view(items[i as int]));
            crate::ast::lemma_sitems_size_member(iv, i as int);
        }
        let (m1, s1) = query_item(&items[i], st);
        let (m2, s2) = query_items(items, i + 1, s1);
        (opt_min_exec(m1, m2), s2)
    }
}

/// Exec mirror of [`d_lines`].
fn dedent_strip_lines(lines: Vec<crate::ast::Line>, d: usize, als: bool) -> (r: (
    Vec<crate::ast::Line>,
    bool,
))
    ensures
        ({
            let (ls, a2) = d_lines(crate::ast::lines_view(lines), d as int, als);
            crate::ast::lines_view(r.0) == ls && r.1 == a2
        }),
    decreases lines@.len(),
{
    let ghost lv = crate::ast::lines_view(lines);
    if lines.len() == 0 {
        proof {
            assert(crate::ast::lines_view(lines) =~= lv);
        }
        (lines, als)
    } else {
        let ghost vold = lines;
        let mut lines = lines;
        let l = lines.remove(0);
        proof {
            assert(lines@ =~= vold@.drop_first());
            assert(lv[0] == l@);
            assert(crate::ast::lines_view(lines) =~= lv.drop_first()) by {
                assert forall|j: int| 0 <= j < lines.len() implies #[trigger] crate::ast::lines_view(
                    lines,
                )[j] == lv.drop_first()[j] by {
                    assert(crate::ast::lines_view(lines)[j] == lines[j]@);
                    assert(lv[j + 1] == vold[j + 1]@);
                    assert(lines[j] == vold[j + 1]);
                }
            }
        }
        let c2 = if als && l.content.len() > 0 {
            strip_front_exec(l.content.as_slice(), d)
        } else {
            l.content
        };
        let (mut rest, als2) = dedent_strip_lines(lines, d, true);
        let ghost rest0 = rest;
        let nl = crate::ast::Line { content: c2, new_line: l.new_line };
        rest.insert(0, nl);
        proof {
            assert(rest@ =~= seq![nl] + rest0@);
            crate::ast::lemma_lines_view_cons(rest, rest0, nl);
        }
        (rest, als2)
    }
}

/// Exec mirror of [`d_text`].
fn dedent_strip_text(t: Text, d: usize, als: bool, is_last: bool) -> (r: (Text, bool))
    ensures
        ({
            let (t2, a2) = d_text(t@, d as int, als, is_last);
            r.0@ == t2 && r.1 == a2
        }),
{
    let (ls, als1) = dedent_strip_lines(t.lines, d, als);
    if als1 && t.trailing.len() > 0 {
        let k = crate::chars::count_leading_blanks(t.trailing.as_slice());
        let keep = is_last && k == t.trailing.len();
        let tr2 = if keep {
            t.trailing
        } else {
            strip_front_exec(t.trailing.as_slice(), d)
        };
        (Text { lines: ls, trailing: tr2 }, false)
    } else {
        (Text { lines: ls, trailing: t.trailing }, als1)
    }
}

/// Exec mirror of [`d_inner`].
fn dedent_strip_inner(it: Item, d: usize) -> (r: Item)
    ensures
        r@ == d_inner(it@, d as int),
    decreases sitem_size(it@), 0int, 1int,
{
    match it {
        Item::Scope(b) => Item::Scope(dedent_ast(b, d)),
        Item::For { for_, pre, body, else_ } => {
            let b2 = dedent_ast(body, d);
            let e2 = match else_ {
                Some(e) => Some(dedent_ast(e, d)),
                None => None,
            };
            Item::For { for_, pre, body: b2, else_: e2 }
        },
        Item::If { if_, else_ifs, else_ } => {
            let (hc, hb) = if_;
            let hb2 = dedent_ast(hb, d);
            let p2 = dedent_strip_pairs(else_ifs, d);
            let e2 = match else_ {
                Some(e) => Some(dedent_ast(e, d)),
                None => None,
            };
            Item::If { if_: (hc, hb2), else_ifs: p2, else_: e2 }
        },
        Item::Match { match_, wheres } => Item::Match {
            match_,
            wheres: dedent_strip_pairs(wheres, d),
        },
        Item::Macro { name, params, body } => Item::Macro {
            name,
            params,
            body: dedent_ast(body, d),
        },
        Item::Text(t) => Item::Text(t),
        Item::Comment(c) => Item::Comment(c),
        Item::Expr(e, f) => Item::Expr(e, f),
        Item::Let(l) => Item::Let(l),
        Item::Call { name, args, ind } => Item::Call { name, args, ind },
    }
}

/// Exec mirror of [`d_pairs`].
fn dedent_strip_pairs(v: Vec<(Vec<char>, Ast)>, d: usize) -> (r: Vec<(Vec<char>, Ast)>)
    ensures
        pairs_view_from(r, 0) == d_pairs(pairs_view_from(v, 0), d as int),
    decreases pairs_size(pairs_view_from(v, 0)), 0int, 1int,
{
    let ghost vold = v;
    let ghost v0 = pairs_view_from(v, 0);
    proof {
        crate::ast::lemma_pairs_view_from(vold, 0);
    }
    if v.len() == 0 {
        v
    } else {
        let mut v = v;
        let first = v.remove(0);
        proof {
            crate::ast::lemma_pairs_view_from(v, 0);
            assert(v@ =~= vold@.drop_first());
            assert(pairs_view_from(v, 0) =~= v0.drop_first()) by {
                assert forall|j: int| 0 <= j < v.len() implies #[trigger] pairs_view_from(v, 0)[j]
                    == v0.drop_first()[j] by {
                    assert(pairs_view_from(v, 0)[j - 0] == (v[j].0@, ast_view(v[j].1)));
                    let j1 = j + 1;
                    assert(pairs_view_from(vold, 0)[j1 - 0] == (vold[j1].0@, ast_view(vold[j1].1)));
                    assert(v0.drop_first()[j] == v0[j + 1]);
                    assert(v[j] == vold[j + 1]);
                }
            }
            assert(pairs_view_from(vold, 0)[0 - 0] == (vold[0].0@, ast_view(vold[0].1)));
            assert(vold[0] == first);
            crate::ast::lemma_pairs_size_member(v0, 0);
            crate::ast::lemma_pairs_size_drop_first(v0);
        }
        let (head, body) = first;
        let b2 = dedent_ast(body, d);
        let mut rest = dedent_strip_pairs(v, d);
        let ghost rest0 = rest;
        rest.insert(0, (head, b2));
        proof {
            assert(rest@ =~= seq![(head, b2)] + rest0@);
            crate::ast::lemma_pairs_view_cons(rest, rest0, (head, b2));
        }
        rest
    }
}

/// Exec mirror of [`d_ast_items`].
fn dedent_strip_items(items: Vec<Item>, d: usize, als: bool) -> (r: (Vec<Item>, bool))
    ensures
        ({
            let (its, a2) = d_ast_items(items_view(items), d as int, als);
            items_view(r.0) == its && r.1 == a2
        }),
    decreases sitems_size(items_view(items)), 0int, 2int,
{
    let ghost vold = items;
    let ghost iv = items_view(items);
    proof {
        crate::ast::lemma_items_view(vold);
    }
    if items.len() == 0 {
        (items, als)
    } else {
        let is_last = items.len() == 1;
        let mut items = items;
        let first = items.remove(0);
        proof {
            crate::ast::lemma_items_view(items);
            assert(items@ =~= vold@.drop_first());
            assert(items_view(items) =~= iv.drop_first()) by {
                assert forall|j: int| 0 <= j < items.len() implies #[trigger] items_view(items)[j]
                    == iv.drop_first()[j] by {
                    assert(items_view(items)[j] == item_view(items[j]));
                    assert(items_view(vold)[j + 1] == item_view(vold[j + 1]));
                    assert(items[j] == vold[j + 1]);
                }
            }
            assert(items_view(vold)[0] == item_view(vold[0]));
            assert(vold[0] == first);
            crate::ast::lemma_sitems_size_member(iv, 0);
            crate::ast::lemma_sitems_size_drop_first(iv);
        }
        let (it2, als2) = match first {
            Item::Text(t) => {
                let (t2, a2) = dedent_strip_text(t, d, als, is_last);
                (Item::Text(t2), a2)
            },
            other => (dedent_strip_inner(other, d), false),
        };
        let (mut rest, als3) = dedent_strip_items(items, d, als2);
        let ghost rest0 = rest;
        rest.insert(0, it2);
        proof {
            assert(rest@ =~= seq![it2] + rest0@);
            crate::ast::lemma_items_view_cons(rest, rest0, it2);
        }
        (rest, als3)
    }
}

/// Exec mirror of [`d_ast`].
fn dedent_ast(a: Ast, d: usize) -> (r: Ast)
    ensures
        r@ == d_ast(a@, d as int),
    decreases sast_size(a@), 0int, 0int,
{
    proof {
        crate::ast::lemma_ast_items_view(a);
    }
    let (items, _als) = dedent_strip_items(a.items, d, false);
    let r = Ast { items };
    proof {
        crate::ast::lemma_ast_items_view(r);
    }
    r
}

/// Exec mirror of [`d_body`].
fn dedent_body(a: Ast, eff: usize) -> (r: Ast)
    ensures
        r@ == d_body(a@, eff as int),
    decreases sast_size(a@), 0int, 0int,
{
    proof {
        crate::ast::lemma_ast_items_view(a);
    }
    let m = query_items(&a.items, 0, QPos::No).0;
    let a1 = match m {
        Some(mv) => {
            if mv > eff {
                dedent_ast(a, mv - eff)
            } else {
                a
            }
        },
        None => a,
    };
    proof {
        crate::ast::lemma_ast_items_view(a1);
        match items_indent(a@) {
            Some(x) => {
                if x > eff as int {
                    lemma_d_ast_size(a@, x - eff as int);
                    lemma_d_items_size(a@.items, x - eff as int, false);
                }
            },
            None => {},
        }
    }
    let items2 = dedent_items(a1.items, eff, true);
    let r = Ast { items: items2 };
    proof {
        crate::ast::lemma_ast_items_view(r);
    }
    r
}

/// Exec mirror of [`d_driver_item`].
fn dedent_driver_item(it: Item, base: usize) -> (r: Item)
    ensures
        r@ == d_driver_item(it@, base as int),
    decreases sitem_size(it@), 0int, 1int,
{
    match it {
        Item::Scope(b) => Item::Scope(dedent_body(b, base)),
        Item::For { for_, pre, body, else_ } => {
            let b2 = dedent_body(body, base);
            let e2 = match else_ {
                Some(e) => Some(dedent_body(e, base)),
                None => None,
            };
            Item::For { for_, pre, body: b2, else_: e2 }
        },
        Item::If { if_, else_ifs, else_ } => {
            let (hc, hb) = if_;
            let hb2 = dedent_body(hb, base);
            let p2 = dedent_driver_pairs(else_ifs, base);
            let e2 = match else_ {
                Some(e) => Some(dedent_body(e, base)),
                None => None,
            };
            Item::If { if_: (hc, hb2), else_ifs: p2, else_: e2 }
        },
        Item::Match { match_, wheres } => Item::Match {
            match_,
            wheres: dedent_driver_pairs(wheres, base),
        },
        Item::Macro { name, params, body } => Item::Macro {
            name,
            params,
            body: dedent_body(body, 0),
        },
        Item::Call { name, args, ind: _ } => Item::Call { name, args, ind: base },
        Item::Text(t) => Item::Text(t),
        Item::Comment(c) => Item::Comment(c),
        Item::Expr(e, f) => Item::Expr(e, f),
        Item::Let(l) => Item::Let(l),
    }
}

/// Exec mirror of [`d_driver_pairs`].
fn dedent_driver_pairs(v: Vec<(Vec<char>, Ast)>, base: usize) -> (r: Vec<(Vec<char>, Ast)>)
    ensures
        pairs_view_from(r, 0) == d_driver_pairs(pairs_view_from(v, 0), base as int),
    decreases pairs_size(pairs_view_from(v, 0)), 0int, 1int,
{
    let ghost vold = v;
    let ghost v0 = pairs_view_from(v, 0);
    proof {
        crate::ast::lemma_pairs_view_from(vold, 0);
    }
    if v.len() == 0 {
        v
    } else {
        let mut v = v;
        let first = v.remove(0);
        proof {
            crate::ast::lemma_pairs_view_from(v, 0);
            assert(v@ =~= vold@.drop_first());
            assert(pairs_view_from(v, 0) =~= v0.drop_first()) by {
                assert forall|j: int| 0 <= j < v.len() implies #[trigger] pairs_view_from(v, 0)[j]
                    == v0.drop_first()[j] by {
                    assert(pairs_view_from(v, 0)[j - 0] == (v[j].0@, ast_view(v[j].1)));
                    let j1 = j + 1;
                    assert(pairs_view_from(vold, 0)[j1 - 0] == (vold[j1].0@, ast_view(vold[j1].1)));
                    assert(v0.drop_first()[j] == v0[j + 1]);
                    assert(v[j] == vold[j + 1]);
                }
            }
            assert(pairs_view_from(vold, 0)[0 - 0] == (vold[0].0@, ast_view(vold[0].1)));
            assert(vold[0] == first);
            crate::ast::lemma_pairs_size_member(v0, 0);
            crate::ast::lemma_pairs_size_drop_first(v0);
        }
        let (head, body) = first;
        let b2 = dedent_body(body, base);
        let mut rest = dedent_driver_pairs(v, base);
        let ghost rest0 = rest;
        rest.insert(0, (head, b2));
        proof {
            assert(rest@ =~= seq![(head, b2)] + rest0@);
            crate::ast::lemma_pairs_view_cons(rest, rest0, (head, b2));
        }
        rest
    }
}

/// Exec mirror of [`d_items`].
fn dedent_items(items: Vec<Item>, base: usize, add: bool) -> (r: Vec<Item>)
    ensures
        items_view(r) == d_items(items_view(items), base as int, add),
    decreases sitems_size(items_view(items)), 0int, 3int,
{
    let ghost vold = items;
    let ghost iv = items_view(items);
    proof {
        crate::ast::lemma_items_view(vold);
    }
    if items.len() == 0 {
        items
    } else {
        let mut items = items;
        let first = items.remove(0);
        proof {
            crate::ast::lemma_items_view(items);
            assert(items@ =~= vold@.drop_first());
            assert(items_view(items) =~= iv.drop_first()) by {
                assert forall|j: int| 0 <= j < items.len() implies #[trigger] items_view(items)[j]
                    == iv.drop_first()[j] by {
                    assert(items_view(items)[j] == item_view(items[j]));
                    assert(items_view(vold)[j + 1] == item_view(vold[j + 1]));
                    assert(items[j] == vold[j + 1]);
                }
            }
            assert(items_view(vold)[0] == item_view(vold[0]));
            assert(vold[0] == first);
            crate::ast::lemma_sitems_size_member(iv, 0);
            crate::ast::lemma_sitems_size_drop_first(iv);
        }
        match first {
            Item::Text(t) => {
                let base1: usize = if t.lines.len() > 0 {
                    0
                } else {
                    base
                };
                let add1 = if t.lines.len() > 0 {
                    true
                } else {
                    add
                };
                let ind = crate::chars::count_leading_blanks(t.trailing.as_slice());
                let base2 = if add1 {
                    sat_add_exec(base1, ind)
                } else {
                    base1
                };
                let add2 = if add1 {
                    ind == t.trailing.len()
                } else {
                    add1
                };
                let mut rest = dedent_items(items, base2, add2);
                let ghost rest0 = rest;
                let back = Item::Text(t);
                rest.insert(0, back);
                proof {
                    assert(rest@ =~= seq![back] + rest0@);
                    crate::ast::lemma_items_view_cons(rest, rest0, back);
                }
                rest
            },
            other => {
                let it2 = dedent_driver_item(other, base);
                let mut rest = dedent_items(items, base, add);
                let ghost rest0 = rest;
                rest.insert(0, it2);
                proof {
                    assert(rest@ =~= seq![it2] + rest0@);
                    crate::ast::lemma_items_view_cons(rest, rest0, it2);
                }
                rest
            },
        }
    }
}

/// Dedents a parsed tree in place. The pass expects the parser's output and
/// runs before the trim pass; only nested block bodies are rewritten.
pub fn dedent(ast: &mut Ast)
    ensures
        final(ast)@ == spec_dedent(old(ast)@),
{
    let mut tmp = Ast::empty();
    core::mem::swap(ast, &mut tmp);
    proof {
        crate::ast::lemma_ast_items_view(tmp);
    }
    let items2 = dedent_items(tmp.items, 0, true);
    *ast = Ast { items: items2 };
    proof {
        crate::ast::lemma_ast_items_view(*ast);
    }
}


/// Dedent correctness, at the level of one line: when a line carries at
/// least `d` leading blanks, the strip removes exactly `d` blanks and keeps
/// every later character; a line that was indented by exactly `d` beyond
/// some column keeps that column's alignment and loses only the excess.
pub proof fn lemma_strip_front_exact(s: Seq<char>, d: int)
    requires
        0 <= d <= leading_blanks(s),
    ensures
        strip_front(s, d) == s.skip(d),
        strip_front(s, d).len() == s.len() - d,
        leading_blanks(strip_front(s, d)) == leading_blanks(s) - d,
        forall|i: int| 0 <= i < s.len() - d ==> strip_front(s, d)[i] == s[d + i],
{
    crate::chars::lemma_leading_blanks_bounds(s);
    let r = s.skip(d);
    assert(strip_front(s, d) == r);
    let lb = leading_blanks(s);
    assert forall|i: int| 0 <= i < lb - d implies r[i] == ' ' by {
        assert(r[i] == s[d + i]);
    }
    if lb - d < r.len() {
        assert(r[lb - d] == s[lb]);
    }
    crate::chars::lemma_leading_blanks_exact(r, lb - d);
}

/// Dedent correctness, over the lines of a body: stripping `d` rewrites
/// every line that stands at a line start and has content, removing exactly
/// its first `d` blanks when it carries at least `d`, and touches no other
/// line and no line terminator.
pub proof fn lemma_dedent_lines_exact(lines: Seq<SpecLine>, d: int, als: bool)
    requires
        0 <= d,
        forall|i: int|
            0 <= i < lines.len() && (als || i > 0) && (#[trigger] lines[i]).content.len() > 0
                ==> d <= leading_blanks(lines[i].content),
    ensures
        d_lines(lines, d, als).0.len() == lines.len(),
        forall|i: int|
            0 <= i < lines.len() ==> (#[trigger] d_lines(lines, d, als).0[i]).new_line
                == lines[i].new_line,
        forall|i: int|
            0 <= i < lines.len() ==> (#[trigger] d_lines(lines, d, als).0[i]).content == (if (als
                || i > 0) && lines[i].content.len() > 0 {
                lines[i].content.skip(d)
            } else {
                lines[i].content
            }),
    decreases lines.len(),
{
    if lines.len() > 0 {
        let l = lines[0];
        assert forall|i: int|
            0 <= i < lines.drop_first().len() && true && (#[trigger] lines.drop_first()[i]).content.len()
                > 0 implies d <= leading_blanks(lines.drop_first()[i].content) by {
            assert(lines.drop_first()[i] == lines[i + 1]);
        }
        lemma_dedent_lines_exact(lines.drop_first(), d, true);
        let c2 = if als && l.content.len() > 0 {
            strip_front(l.content, d)
        } else {
            l.content
        };
        if als && l.content.len() > 0 {
            lemma_strip_front_exact(l.content, d);
        }
        let (rest, _a) = d_lines(lines.drop_first(), d, true);
        let out = d_lines(lines, d, als).0;
        assert(out == seq![SpecLine { content: c2, new_line: l.new_line }] + rest);
        assert forall|i: int| 0 <= i < lines.len() implies (#[trigger] out[i]).new_line
            == lines[i].new_line by {
            if i > 0 {
                assert(out[i] == rest[i - 1]);
                assert(lines.drop_first()[i - 1] == lines[i]);
            }
        }
        assert forall|i: int| 0 <= i < lines.len() implies (#[trigger] out[i]).content == (if (als
            || i > 0) && lines[i].content.len() > 0 {
            lines[i].content.skip(d)
        } else {
            lines[i].content
        }) by {
            if i > 0 {
                assert(out[i] == rest[i - 1]);
                assert(lines.drop_first()[i - 1] == lines[i]);
            }
        }
    }
}

} // verus!
