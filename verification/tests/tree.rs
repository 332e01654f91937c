//! The tree API: text reconstruction and the shared sub-tree traversal.

use temply::ast::{Ast, Item};
use temply::lexer::lex;
use temply::parser::parse;
use temply::render::text_to_string;
use temply::util::{inner_asts, inner_asts_mut};

fn parsed(src: &str) -> Ast {
    let tokens = lex(src);
    parse(src, &tokens).unwrap()
}

#[test]
fn test_text_round_trip() {
    let src = "a\r\nb\nc";
    let ast = parsed(src);
    assert_eq!(ast.items.len(), 1);
    match &ast.items[0] {
        Item::Text(t) => {
            assert_eq!(t.lines.len(), 2);
            assert_eq!(text_to_string(t), "a\r\nb\nc");
        },
        _ => panic!("expected a text item"),
    }
}

#[test]
fn test_inner_asts_counts_bodies() {
    let ast = parsed(
        "{% if a %}x{% else if b %}y{% else %}z{% endif %}{% match m %}{% where p %}w{% endwhere %}{% endmatch %}{% scope %}s{% endscope %}1",
    );
    assert_eq!(ast.items.len(), 4);
    assert_eq!(inner_asts(&ast.items[0]).len(), 3);
    assert_eq!(inner_asts(&ast.items[1]).len(), 1);
    assert_eq!(inner_asts(&ast.items[2]).len(), 1);
    assert_eq!(inner_asts(&ast.items[3]).len(), 0);
}

#[test]
fn test_inner_asts_mut_swaps_a_body() {
    let mut ast = parsed("{% scope %}old{% endscope %}");
    let replacement = parsed("new");
    let item = ast.items.remove(0);
    let (item2, old_body) = inner_asts_mut(item, 0, replacement);
    assert_eq!(old_body.items.len(), 1);
    match &old_body.items[0] {
        Item::Text(t) => assert_eq!(text_to_string(t), "old"),
        _ => panic!("expected a text item"),
    }
    match &item2 {
        Item::Scope(b) => {
            match &b.items[0] {
                Item::Text(t) => assert_eq!(text_to_string(t), "new"),
                _ => panic!("expected a text item"),
            }
        },
        _ => panic!("expected a scope item"),
    }
}
