//! One shared traversal over the item variants: every nested sub-tree of an
//! item can be read, or swapped out and back in, through a single index-based
//! walk, instead of one bespoke visitor per pass.

use vstd::prelude::*;

use crate::ast::{ast_view, item_view, pairs_view_from, Ast, Item, SpecAst, SpecItem};

verus! {

/// The nested trees of one item, in traversal order: a loop's body then its
/// empty-case body, a conditional's branches in declared order then its
/// `else` body, a match's arm bodies in declared order, a named block's
/// body.
pub open spec fn spec_inner_asts(it: SpecItem) -> Seq<SpecAst> {
    match it {
        SpecItem::Scope(b) => seq![b],
        SpecItem::For { body, else_, .. } => match else_ {
            Some(e) => seq![body, e],
            None => seq![body],
        },
        SpecItem::If { if_, else_ifs, else_ } => {
            let branches = seq![if_.1] + else_ifs.map_values(|p: (Seq<char>, SpecAst)| p.1);
            match else_ {
                Some(e) => branches.push(e),
                None => branches,
            }
        },
        SpecItem::Match { wheres, .. } => wheres.map_values(|p: (Seq<char>, SpecAst)| p.1),
        SpecItem::Macro { body, .. } => seq![body],
        _ => Seq::empty(),
    }
}

/// `it` with its nested tree number `idx` replaced by `a`.
pub open spec fn spec_with_inner(it: SpecItem, idx: int, a: SpecAst) -> SpecItem {
    match it {
        SpecItem::Scope(_) => SpecItem::Scope(a),
        SpecItem::For { for_, pre, body, else_ } => {
            if idx == 0 {
                SpecItem::For { for_, pre, body: a, else_ }
            } else {
                SpecItem::For { for_, pre, body, else_: Some(a) }
            }
        },
        SpecItem::If { if_, else_ifs, else_ } => {
            if idx == 0 {
                SpecItem::If { if_: (if_.0, a), else_ifs, else_ }
            } else if idx <= else_ifs.len() {
                SpecItem::If {
                    if_,
                    else_ifs: else_ifs.update(idx - 1, (else_ifs[idx - 1].0, a)),
                    else_,
                }
            } else {
                SpecItem::If { if_, else_ifs, else_: Some(a) }
            }
        },
        SpecItem::Match { match_, wheres } => SpecItem::Match {
            match_,
            wheres: wheres.update(idx, (wheres[idx].0, a)),
        },
        SpecItem::Macro { name, params, body } => SpecItem::Macro { name, params, body: a },
        _ => it,
    }
}

/// Read access to the nested trees of an item, in traversal order.
pub fn inner_asts<'a>(item: &'a Item) -> (r: Vec<&'a Ast>)
    ensures
        r@.len() == spec_inner_asts(item@).len(),
        forall|i: int| 0 <= i < r@.len() ==> (#[trigger] r@[i])@ == spec_inner_asts(item@)[i],
{
    let mut r: Vec<&Ast> = Vec::new();
    match item {
        Item::Scope(b) => {
            r.push(b);
        },
        Item::For { body, else_, .. } => {
            r.push(body);
            match else_ {
                Some(e) => {
                    r.push(e);
                },
                None => {},
            }
        },
        Item::If { if_, else_ifs, else_ } => {
            r.push(&if_.1);
            let mut k: usize = 0;
            proof {
                crate::ast::lemma_pairs_view(*else_ifs);
            }
            while k < else_ifs.len()
                invariant
                    k <= else_ifs@.len(),
                    r@.len() == 1 + k,
                    r@[0]@ == ast_view(if_.1),
                    forall|i: int|
                        1 <= i < r@.len() ==> (#[trigger] r@[i])@ == ast_view(else_ifs[i - 1].1),
                decreases else_ifs@.len() - k,
            {
                r.push(&else_ifs[k].1);
                k = k + 1;
            }
            match else_ {
                Some(e) => {
                    r.push(e);
                },
                None => {},
            }
            proof {
                let ghost sv = spec_inner_asts(item@);
                let ghost pv = pairs_view_from(*else_ifs, 0);
                assert forall|i: int| 0 <= i < r@.len() implies (#[trigger] r@[i])@ == sv[i] by {
                    if i >= 1 && i <= else_ifs@.len() {
                        assert(pv[i - 1] == (else_ifs[i - 1].0@, ast_view(else_ifs[i - 1].1)));
                        assert(pv.map_values(|p: (Seq<char>, SpecAst)| p.1)[i - 1] == pv[i
                            - 1].1);
                    }
                }
            }
        },
        Item::Match { wheres, .. } => {
            let mut k: usize = 0;
            proof {
                crate::ast::lemma_pairs_view(*wheres);
            }
            while k < wheres.len()
                invariant
                    k <= wheres@.len(),
                    r@.len() == k,
                    forall|i: int|
                        0 <= i < r@.len() ==> (#[trigger] r@[i])@ == ast_view(wheres[i].1),
                decreases wheres@.len() - k,
            {
                r.push(&wheres[k].1);
                k = k + 1;
            }
            proof {
                let ghost sv = spec_inner_asts(item@);
                let ghost pv = pairs_view_from(*wheres, 0);
                assert forall|i: int| 0 <= i < r@.len() implies (#[trigger] r@[i])@ == sv[i] by {
                    assert(pv[i] == (wheres[i].0@, ast_view(wheres[i].1)));
                    assert(pv.map_values(|p: (Seq<char>, SpecAst)| p.1)[i] == pv[i].1);
                }
            }
        },
        Item::Macro { body, .. } => {
            r.push(body);
        },
        _ => {},
    }
    r
}

/// Write access to the nested trees of an item: puts `ast` in place of the
/// nested tree number `idx` and hands the previous tree back.
pub fn inner_asts_mut(item: Item, idx: usize, ast: Ast) -> (r: (Item, Ast))
    requires
        idx < spec_inner_asts(item@).len(),
    ensures
        r.0@ == spec_with_inner(item@, idx as int, ast@),
        r.1@ == spec_inner_asts(item@)[idx as int],
{
    match item {
        Item::Scope(b) => {
            let r0 = Item::Scope(ast);
            proof {
                assert(r0@ == spec_with_inner(item@, idx as int, ast@));
                assert(b@ == spec_inner_asts(item@)[idx as int]);
            }
            (r0, b)
        },
        Item::For { for_, pre, body, else_ } => {
            if idx == 0 {
                let r0 = Item::For { for_, pre, body: ast, else_ };
                proof {
                    assert(r0@ == spec_with_inner(item@, idx as int, ast@));
                }
                (r0, body)
            } else {
                let old = match else_ {
                    Some(e) => e,
                    None => Ast::empty(),
                };
                let r0 = Item::For { for_, pre, body, else_: Some(ast) };
                proof {
                    assert(r0@ == spec_with_inner(item@, idx as int, ast@));
                    assert(old@ == spec_inner_asts(item@)[idx as int]);
                }
                (r0, old)
            }
        },
        Item::If { if_, else_ifs, else_ } => {
            if idx == 0 {
                let (hc, hb) = if_;
                proof {
                    let sv = spec_inner_asts(item_view(Item::If { if_: (hc, hb), else_ifs, else_ }));
                }
                let r0 = Item::If { if_: (hc, ast), else_ifs, else_ };
                proof {
                    assert(r0@ == spec_with_inner(item@, idx as int, ast@));
                    assert(hb@ == spec_inner_asts(item@)[idx as int]);
                }
                (r0, hb)
            } else if idx <= else_ifs.len() {
                let ghost v0 = else_ifs;
                let mut else_ifs = else_ifs;
                proof {
                    crate::ast::lemma_pairs_view(v0);
                }
                let (hdr, old) = else_ifs.remove(idx - 1);
                else_ifs.insert(idx - 1, (hdr, ast));
                proof {
                    crate::ast::lemma_pairs_view(else_ifs);
                    assert(else_ifs@ =~= v0@.update(idx - 1, else_ifs@[idx - 1]));
                    assert(pairs_view_from(else_ifs, 0) =~= pairs_view_from(v0, 0).update(
                        idx - 1,
                        (v0[idx - 1].0@, ast@),
                    )) by {
                        assert forall|j: int| 0 <= j < else_ifs.len() implies #[trigger]
                            pairs_view_from(else_ifs, 0)[j] == pairs_view_from(v0, 0).update(
                            idx - 1,
                            (v0[idx - 1].0@, ast@),
                        )[j] by {
                            if j != idx - 1 {
                                assert(else_ifs[j] == v0[j]);
                            }
                        }
                    }
                    assert(pairs_view_from(v0, 0)[idx - 1] == (
                        v0[idx - 1].0@,
                        ast_view(v0[idx - 1].1),
                    ));
                    let pv0 = pairs_view_from(v0, 0);
                    let mapped = pv0.map_values(|p: (Seq<char>, SpecAst)| p.1);
                    assert(mapped[idx - 1] == pv0[idx - 1].1);
                    let branches = seq![ast_view(if_.1)] + mapped;
                    assert(branches[idx as int] == mapped[idx - 1]);
                    match else_ {
                        Some(ref e) => {
                            assert(branches.push(ast_view(*e))[idx as int] == branches[idx as int]);
                        },
                        None => {},
                    }
                }
                let r0 = Item::If { if_, else_ifs, else_ };
                proof {
                    assert(r0@ == spec_with_inner(item@, idx as int, ast@));
                    assert(old@ == spec_inner_asts(item@)[idx as int]);
                }
                (r0, old)
            } else {
                proof {
                    crate::ast::lemma_pairs_view(else_ifs);
                }
                let old = match else_ {
                    Some(e) => e,
                    None => Ast::empty(),
                };
                let r0 = Item::If { if_, else_ifs, else_: Some(ast) };
                proof {
                    assert(r0@ == spec_with_inner(item@, idx as int, ast@));
                    assert(old@ == spec_inner_asts(item@)[idx as int]);
                }
                (r0, old)
            }
        },
        Item::Match { match_, wheres } => {
            let ghost v0 = wheres;
            let mut wheres = wheres;
            proof {
                crate::ast::lemma_pairs_view(v0);
            }
            let (hdr, old) = wheres.remove(idx);
            wheres.insert(idx, (hdr, ast));
            proof {
                crate::ast::lemma_pairs_view(wheres);
                assert(pairs_view_from(wheres, 0) =~= pairs_view_from(v0, 0).update(
                    idx as int,
                    (v0[idx as int].0@, ast@),
                )) by {
                    assert forall|j: int| 0 <= j < wheres.len() implies #[trigger] pairs_view_from(
                        wheres,
                        0,
                    )[j] == pairs_view_from(v0, 0).update(
                        idx as int,
                        (v0[idx as int].0@, ast@),
                    )[j] by {
                        if j != idx {
                            assert(wheres[j] == v0[j]);
                        }
                    }
                }
                assert(pairs_view_from(v0, 0)[idx as int] == (
                    v0[idx as int].0@,
                    ast_view(v0[idx as int].1),
                ));
                let pv0 = pairs_view_from(v0, 0);
                let mapped = pv0.map_values(|p: (Seq<char>, SpecAst)| p.1);
                assert(mapped[idx as int] == pv0[idx as int].1);
            }
            let r0 = Item::Match { match_, wheres };
            proof {
                assert(r0@ == spec_with_inner(item@, idx as int, ast@));
                assert(old@ == spec_inner_asts(item@)[idx as int]);
            }
            (r0, old)
        },
        Item::Macro { name, params, body } => {
            let r0 = Item::Macro { name, params, body: ast };
            proof {
                assert(r0@ == spec_with_inner(item@, idx as int, ast@));
                assert(body@ == spec_inner_asts(item@)[idx as int]);
            }
            (r0, body)
        },
        other => {
            proof {
                assert(spec_inner_asts(item@).len() == 0);
            }
            (other, ast)
        },
    }
}

} // verus!
