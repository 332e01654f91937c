//! temply is a small, Jinja-like template engine, built as a verified library.
//!
//! The pipeline has five stages: a lexer that splits the source into delimiter
//! and plain-text tokens, a backtracking recursive-descent parser that builds a
//! tree of items, a mandatory trim pass that drops whitespace noise at block
//! boundaries and derives loop separators, an optional dedent pass that removes
//! indentation added only for source readability, and a generator that lowers
//! the normalized tree into an imperative render program run against an
//! abstract output sink.
//!
//! Expression evaluation, pattern matching and name binding belong to the host
//! language; the render program asks for them through the [`render::Host`]
//! trait and owns everything structural: verbatim text, separators between
//! loop iterations, choosing the first truthy branch, running a single match
//! arm, and re-indenting the output of named-block invocations.

use vstd::prelude::*;

pub mod ast;
pub mod chars;
pub mod dedent;
pub mod diag;
pub mod indent;
pub mod lexer;
pub mod parser;
pub mod render;
pub mod span;
pub mod token;
pub mod trim;
pub mod util;

verus! {

/// What compilation yields for a source: the parse result, dedented on
/// request, then trimmed. This is the model every caller of [`compile`]
/// composes with.
pub open spec fn spec_compile(src: Seq<char>, dedent: bool) -> Result<
    crate::ast::SpecAst,
    crate::diag::SpecError,
> {
    match crate::parser::spec_parse(src, crate::lexer::lex_spec(src)) {
        Err(e) => Err(e),
        Ok(a) => Ok(
            crate::trim::spec_trim(
                if dedent {
                    crate::dedent::spec_dedent(a)
                } else {
                    a
                },
            ),
        ),
    }
}

/// Compiles a template: the source is lexed and parsed, the tree is
/// dedented when asked for and always trimmed, and the normalized tree is
/// the render program. A parse failure carries the diagnostic chosen by
/// furthest progress.
pub fn compile(source: &str, dedent: bool) -> (r: Result<
    crate::render::Program,
    crate::diag::Error,
>)
    ensures
        (match r {
            Ok(a) => spec_compile(source@, dedent) == Ok::<
                crate::ast::SpecAst,
                crate::diag::SpecError,
            >(a@),
            Err(e) => spec_compile(source@, dedent) == Err::<
                crate::ast::SpecAst,
                crate::diag::SpecError,
            >(e@),
        }),
{
    let n = source.unicode_len();
    proof {
        assert(source@.len() <= usize::MAX);
        crate::lexer::lemma_lex_spec_wf(source@);
    }
    let tokens = crate::lexer::lex(source);
    match crate::parser::parse(source, tokens.as_slice()) {
        Err(e) => Err(e),
        Ok(ast) => {
            let mut ast = ast;
            if dedent {
                crate::dedent::dedent(&mut ast);
            }
            crate::trim::trim(&mut ast);
            Ok(ast)
        },
    }
}

/// A renderable template: the host-side value a compiled template is bound
/// to. Implementations compile their template source and run the render
/// program against their own data.
pub trait Template {
    /// Renders the template into the buffer.
    fn render(&self, buffer: &mut String) -> Result<(), crate::render::RenderError>;
}

/// A template without delimiters compiles to a program holding nothing but
/// its own literal text. Together with the render contract — an all-text
/// program writes exactly its text, whatever the host — rendering such a
/// template yields the source unchanged.
pub proof fn lemma_plain_template(src: Seq<char>, dedent: bool)
    requires
        crate::lexer::delimiter_free(src),
        src.len() <= usize::MAX,
    ensures
        ({
            match spec_compile(src, dedent) {
                Ok(a) => crate::render::all_text(a.items) && crate::render::plain_text(a.items)
                    == src,
                Err(_) => false,
            }
        }),
{
    crate::lexer::lemma_lex_spec_plain(src);
    let toks = crate::lexer::lex_spec(src);
    if src.len() == 0 {
        assert(toks.len() == 0);
        lemma_no_item_at_end(src, toks, 0);
        let (p, items, _e) = crate::parser::spec_parse_ast(src, toks, 0);
        assert(p == 0 && items =~= Seq::<crate::ast::SpecItem>::empty());
        assert(crate::parser::spec_parse(src, toks) == Ok::<
            crate::ast::SpecAst,
            crate::diag::SpecError,
        >(crate::ast::SpecAst { items }));
        let a = crate::ast::SpecAst { items };
        assert(crate::dedent::spec_dedent(a).items =~= Seq::<crate::ast::SpecItem>::empty());
        let a1 = if dedent {
            crate::dedent::spec_dedent(a)
        } else {
            a
        };
        assert(crate::trim::spec_trim(a1).items =~= Seq::<crate::ast::SpecItem>::empty());
        assert(crate::render::plain_text(crate::trim::spec_trim(a1).items) =~= src);
    } else {
        reveal_with_fuel(crate::dedent::d_items, 2);
        reveal_with_fuel(crate::trim::spec_trim_items, 2);
        reveal_with_fuel(crate::render::plain_text, 2);
        let sp = crate::span::Span { start: 0, end: src.len() as usize };
        assert(toks =~= seq![
            crate::span::Spanned { node: crate::token::Token::Other, span: sp },
        ]);
        assert(crate::parser::spec_exact(src, toks, 0, crate::token::Token::Other) == Ok::<
            (int, crate::span::Span),
            crate::diag::SpecError,
        >((1int, sp)));
        let slice = crate::parser::slice_of(src, sp);
        assert(slice =~= src);
        let t0 = crate::ast::spec_decompose(src);
        assert(crate::parser::spec_parse_text(src, toks, 0) == Ok::<
            (int, crate::ast::SpecItem),
            crate::diag::SpecError,
        >((1int, crate::ast::SpecItem::Text(t0))));
        assert(crate::parser::spec_parse_item(src, toks, 0) == Ok::<
            (int, crate::ast::SpecItem),
            crate::diag::SpecError,
        >((1int, crate::ast::SpecItem::Text(t0))));
        lemma_no_item_at_end(src, toks, 1);
        let (p2, items2, _e2) = crate::parser::spec_parse_ast(src, toks, 1);
        assert(p2 == 1 && items2 =~= Seq::<crate::ast::SpecItem>::empty());
        let (p, items, _e) = crate::parser::spec_parse_ast(src, toks, 0);
        assert(p == 1);
        assert(items =~= seq![crate::ast::SpecItem::Text(t0)]);
        assert(crate::parser::spec_parse(src, toks) == Ok::<
            crate::ast::SpecAst,
            crate::diag::SpecError,
        >(crate::ast::SpecAst { items }));
        let a = crate::ast::SpecAst { items };
        let a1 = if dedent {
            crate::dedent::spec_dedent(a)
        } else {
            a
        };
        assert(a1.items =~= items) by {
            if dedent {
                assert(items.drop_first() =~= Seq::<crate::ast::SpecItem>::empty());
                assert(items[0] is Text);
                assert(crate::dedent::d_items(items, 0, true) =~= seq![items[0]]);
            }
        }
        let a2 = crate::trim::spec_trim(a1);
        assert(a2.items =~= items) by {
            assert(crate::trim::spec_trim_items(items) =~= seq![crate::trim::spec_trim_item(
                items[0],
            )] + crate::trim::spec_trim_items(items.drop_first()));
            assert(crate::trim::spec_trim_item(items[0]) == items[0]);
            assert(items.drop_first() =~= Seq::<crate::ast::SpecItem>::empty());
            assert(crate::trim::spec_trim_items(Seq::<crate::ast::SpecItem>::empty())
                =~= Seq::<crate::ast::SpecItem>::empty());
        }
        assert(crate::render::all_text(a2.items));
        crate::ast::lemma_decompose_chars(src);
        assert(crate::render::plain_text(a2.items) =~= crate::ast::text_chars(t0) + Seq::<
            char,
        >::empty());
        assert(crate::render::plain_text(a2.items) =~= src);
        assert(spec_compile(src, dedent) == Ok::<crate::ast::SpecAst, crate::diag::SpecError>(a2));
    }
}

/// At the end of the token stream no item alternative can start: the item
/// parse fails.
proof fn lemma_no_item_at_end(
    src: Seq<char>,
    toks: Seq<crate::span::Spanned<crate::token::Token>>,
    pos: int,
)
    requires
        pos >= toks.len(),
    ensures
        crate::parser::spec_parse_item(src, toks, pos) is Err,
        crate::parser::spec_parse_ast(src, toks, pos).0 == pos,
        crate::parser::spec_parse_ast(src, toks, pos).1 == Seq::<crate::ast::SpecItem>::empty(),
{
    assert(crate::parser::spec_parse_text(src, toks, pos) is Err);
    assert(crate::parser::spec_parse_comment(src, toks, pos) is Err);
    assert(crate::parser::spec_parse_expr(src, toks, pos) is Err);
    assert(crate::parser::spec_parse_let(src, toks, pos) is Err);
    assert(crate::parser::spec_parse_scope(src, toks, pos) is Err);
    assert(crate::parser::spec_parse_for(src, toks, pos) is Err);
    assert(crate::parser::spec_parse_if(src, toks, pos) is Err);
    assert(crate::parser::spec_parse_match(src, toks, pos) is Err);
    assert(crate::parser::spec_parse_macro(src, toks, pos) is Err);
    assert(crate::parser::spec_parse_call(src, toks, pos) is Err);
}

} // verus!

