//! Comments vanish at render time, nesting included.

use temply::compile;
use temply::render::{render, Host};

struct NoHost;

impl Host for NoHost {
    fn eval(&mut self, _expr: &str, _format: &str) -> String {
        unreachable!()
    }
    fn eval_bool(&mut self, _cond: &str) -> bool {
        unreachable!()
    }
    fn exec_let(&mut self, _stmt: &str) {}
    fn scope_enter(&mut self) {}
    fn scope_exit(&mut self) {}
    fn loop_len(&mut self, _header: &str) -> usize {
        unreachable!()
    }
    fn loop_bind(&mut self, _header: &str, _index: usize) {}
    fn arm_matches(&mut self, _subject: &str, _pattern: &str) -> bool {
        unreachable!()
    }
    fn call_enter(&mut self, _name: &str, _params: &Vec<String>, _args: &Vec<String>) {}
    fn call_exit(&mut self, _name: &str) {}
}

fn run(src: &str) -> String {
    let prog = compile(src, false).unwrap();
    let mut out = String::new();
    render(&prog, &mut NoHost, &mut out).unwrap();
    out
}

#[test]
fn comment_test_simple() {
    assert_eq!(run("{# My comment #}"), "");
}

#[test]
fn comment_test_ws() {
    assert_eq!(run("\n{#      \n My comment #}   \n \n\n"), "\n   \n \n\n");
}

#[test]
fn comment_test_nested() {
    assert_eq!(run("Hello {# My {# comment #} #}World!"), "Hello World!");
}

#[test]
fn test_multi_line() {
    assert_eq!(
        run(r#"Hello {# My
        
        1234      
        comment #}World!"#),
        "Hello World!"
    );
}

#[test]
fn test_items() {
    assert_eq!(
        run("Hello {# My comment {{ self.x() }} {% if x %} {{{{{}}}}} #}World!"),
        "Hello World!"
    );
}
