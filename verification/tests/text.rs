//! Templates made of plain text render to themselves.

use temply::compile;
use temply::render::{render, Host};

struct NoHost;

impl Host for NoHost {
    fn eval(&mut self, _expr: &str, _format: &str) -> String {
        unreachable!()
    }
    fn eval_bool(&mut self, _cond: &str) -> bool {
        unreachable!()
    }
    fn exec_let(&mut self, _stmt: &str) {}
    fn scope_enter(&mut self) {}
    fn scope_exit(&mut self) {}
    fn loop_len(&mut self, _header: &str) -> usize {
        unreachable!()
    }
    fn loop_bind(&mut self, _header: &str, _index: usize) {}
    fn arm_matches(&mut self, _subject: &str, _pattern: &str) -> bool {
        unreachable!()
    }
    fn call_enter(&mut self, _name: &str, _params: &Vec<String>, _args: &Vec<String>) {}
    fn call_exit(&mut self, _name: &str) {}
}

fn run(src: &str) -> String {
    let prog = compile(src, false).unwrap();
    let mut out = String::new();
    render(&prog, &mut NoHost, &mut out).unwrap();
    out
}

#[test]
fn text_test_simple() {
    assert_eq!(run("Hello World!"), "Hello World!");
}

#[test]
fn test_new_lines() {
    assert_eq!(run("\n\nHello World\n!\n\n"), "\n\nHello World\n!\n\n");
}

#[test]
fn test_rust_code() {
    assert_eq!(
        run("let fn = 0; match 5 { true => false, for => () }"),
        "let fn = 0; match 5 { true => false, for => () }"
    );
}

#[test]
fn test_format_params() {
    assert_eq!(run("{0} {} {:?} {:#?}"), "{0} {} {:?} {:#?}");
}
