//! Scopes group items and trim their body's boundary whitespace.

use temply::compile;
use temply::render::{render, Host};

struct H;

impl Host for H {
    fn eval(&mut self, expr: &str, _format: &str) -> String {
        match expr {
            "42" => 42.to_string(),
            _ => unreachable!(),
        }
    }
    fn eval_bool(&mut self, _cond: &str) -> bool {
        unreachable!()
    }
    fn exec_let(&mut self, _stmt: &str) {}
    fn scope_enter(&mut self) {}
    fn scope_exit(&mut self) {}
    fn loop_len(&mut self, _header: &str) -> usize {
        unreachable!()
    }
    fn loop_bind(&mut self, _header: &str, _index: usize) {}
    fn arm_matches(&mut self, _subject: &str, _pattern: &str) -> bool {
        unreachable!()
    }
    fn call_enter(&mut self, _name: &str, _params: &Vec<String>, _args: &Vec<String>) {}
    fn call_exit(&mut self, _name: &str) {}
}

fn run(src: &str) -> String {
    let prog = compile(src, false).unwrap();
    let mut out = String::new();
    render(&prog, &mut H, &mut out).unwrap();
    out
}

#[test]
fn scope_test_simple() {
    assert_eq!(run("{% scope %}Hello World!{% endscope %}"), "Hello World!");
}

#[test]
fn scope_test_ws() {
    assert_eq!(
        run("{% scope %}\n \t Hello World! {{ 42 }} {% endscope %}"),
        "Hello World! 42"
    );
}

#[test]
fn scope_test_nested() {
    assert_eq!(
        run("{% scope %}{% scope %}Hello{% endscope %} World!{% endscope %}"),
        "Hello World!"
    );
}
