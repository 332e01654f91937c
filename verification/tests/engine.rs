//! The engine's own guarantees: plain text passes through, separators repeat
//! per iteration, diagnostics render exactly, the trim pass is idempotent,
//! the adapter indents every non-blank line, and render failures are the two
//! documented ones.

use temply::compile;
use temply::indent::Indenter;
use temply::lexer::lex;
use temply::parser::{parse, untuple};
use temply::render::{render, Host, RenderError};
use temply::trim::trim;

struct H {
    i: usize,
}

impl Host for H {
    fn eval(&mut self, expr: &str, _format: &str) -> String {
        match expr {
            "i" => self.i.to_string(),
            _ => unreachable!(),
        }
    }
    fn eval_bool(&mut self, _cond: &str) -> bool {
        unreachable!()
    }
    fn exec_let(&mut self, _stmt: &str) {}
    fn scope_enter(&mut self) {}
    fn scope_exit(&mut self) {}
    fn loop_len(&mut self, header: &str) -> usize {
        match header {
            "for i in 0..3" => (0..3).len(),
            _ => unreachable!(),
        }
    }
    fn loop_bind(&mut self, _header: &str, index: usize) {
        self.i = index;
    }
    fn arm_matches(&mut self, _subject: &str, _pattern: &str) -> bool {
        unreachable!()
    }
    fn call_enter(&mut self, _name: &str, _params: &Vec<String>, _args: &Vec<String>) {}
    fn call_exit(&mut self, _name: &str) {}
}

#[test]
fn test_counting_loop() {
    let prog = compile("{% for i in 0..3 %}{{i}},{% endfor %}", false).unwrap();
    let mut out = String::new();
    render(&prog, &mut H { i: 0 }, &mut out).unwrap();
    assert_eq!(out, "0,1,2,");
}

#[test]
fn test_unclosed_comment_fails() {
    let src = "{# unterminated";
    let err = compile(src, false).unwrap_err();
    assert_eq!(
        err.format(src),
        "@15..15 '': found `None`, expected one of `CommentEnd`"
    );
}

#[test]
fn test_leftover_block_fails() {
    let src = "{% endif %}";
    let err = compile(src, false).unwrap_err();
    assert_eq!(
        err.format(src),
        "@2..9 ' endif ': found `Some(BlockStart)`, expected one of scope-block, call-block, \
         for-block, if-block, let-block, macro-block, match-block"
    );
}

#[test]
fn test_unknown_macro_is_a_render_error() {
    let prog = compile("{% call x() %}", false).unwrap();
    let mut out = String::new();
    let r = render(&prog, &mut H { i: 0 }, &mut out);
    assert_eq!(r, Err(RenderError::UnknownMacro));
}

#[test]
fn test_self_recursion_hits_the_depth_limit() {
    let prog = compile(
        "{% macro x || %}{% call x() %}{% endmacro %}{% call x() %}",
        false,
    )
    .unwrap();
    let mut out = String::new();
    let r = render(&prog, &mut H { i: 0 }, &mut out);
    assert_eq!(r, Err(RenderError::DepthLimit));
}

#[test]
fn test_trim_twice_changes_nothing() {
    let src = "{% for i in 0..3 %}\n  {{ i }}{% endfor %}";
    let tokens = lex(src);
    let mut once = parse(src, &tokens).unwrap();
    trim(&mut once);
    let mut s1 = String::new();
    render(&once, &mut H { i: 0 }, &mut s1).unwrap();

    let mut twice = parse(src, &tokens).unwrap();
    trim(&mut twice);
    trim(&mut twice);
    let mut s2 = String::new();
    render(&twice, &mut H { i: 0 }, &mut s2).unwrap();

    assert_eq!(s1, "0\n  1\n  2");
    assert_eq!(s1, s2);
}

#[test]
fn test_indenter_pads_non_blank_lines() {
    let mut ind = Indenter::new(String::new(), "  ");
    ind.write_str("a\nb\n\nc");
    assert_eq!(ind.into_inner(), "a\n  b\n\n  c");
}

#[test]
fn test_indenter_owes_across_writes() {
    let mut ind = Indenter::new(String::new(), "    ");
    ind.write_str("a\n");
    ind.write_str("");
    ind.write_str("b");
    assert_eq!(ind.into_inner(), "a\n    b");
}

#[test]
fn test_untuple_splits_on_balanced_commas() {
    let inner: Vec<char> = "(a, (b, c), [d, e], {f, g}, )".chars().collect();
    let split = untuple("(", &inner, ")").unwrap();
    let got: Vec<String> = split.iter().map(|v| v.iter().collect()).collect();
    assert_eq!(got, vec!["a", "(b, c)", "[d, e]", "{f, g}"]);
}

#[test]
fn test_untuple_requires_the_enclosure() {
    let inner: Vec<char> = "a, b".chars().collect();
    assert!(untuple("(", &inner, ")").is_none());
}

#[test]
fn test_empty_template() {
    let prog = compile("", false).unwrap();
    let mut out = String::new();
    render(&prog, &mut H { i: 0 }, &mut out).unwrap();
    assert_eq!(out, "");
}

#[test]
fn test_plain_text_passes_through_unchanged() {
    let src = "no delimiters here: } { % # ## %% independent braces";
    let prog = compile(src, true).unwrap();
    let mut out = String::new();
    render(&prog, &mut H { i: 0 }, &mut out).unwrap();
    assert_eq!(out, src);
}

#[test]
fn test_macro_without_params_fails() {
    let src = "{% macro x %}{% endmacro %}";
    let err = compile(src, false).unwrap_err();
    assert_eq!(
        err.format(src),
        "@2..11 ' macro x ': found `Some(BlockStart)`, expected one of scope-block, \
         call-block, for-block, if-block, let-block, match-block"
    );
}

#[test]
fn test_call_without_parens_fails() {
    let src = "{% call x %}";
    let err = compile(src, false).unwrap_err();
    assert_eq!(
        err.format(src),
        "@2..10 ' call x ': found `Some(BlockStart)`, expected one of scope-block, \
         for-block, if-block, let-block, macro-block, match-block"
    );
}
