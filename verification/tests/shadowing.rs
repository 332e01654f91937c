//! Bindings shadow outer ones, and scope-local bindings do not escape.

use temply::compile;
use temply::render::{render, Host};

struct H {
    frames: Vec<Vec<(String, i64)>>,
}

impl H {
    fn set(&mut self, k: &str, v: i64) {
        self.frames.last_mut().unwrap().push((k.to_string(), v));
    }

    fn get(&self, k: &str) -> i64 {
        for frame in self.frames.iter().rev() {
            for (n, v) in frame.iter().rev() {
                if n == k {
                    return *v;
                }
            }
        }
        unreachable!()
    }
}

impl Host for H {
    fn eval(&mut self, expr: &str, _format: &str) -> String {
        match expr {
            "x" => self.get("x").to_string(),
            _ => unreachable!(),
        }
    }
    fn eval_bool(&mut self, _cond: &str) -> bool {
        unreachable!()
    }
    fn exec_let(&mut self, stmt: &str) {
        match stmt {
            "let x = 12" => self.set("x", 12),
            "let x = 5" => self.set("x", 5),
            _ => unreachable!(),
        }
    }
    fn scope_enter(&mut self) {
        self.frames.push(Vec::new());
    }
    fn scope_exit(&mut self) {
        self.frames.pop();
    }
    fn loop_len(&mut self, _header: &str) -> usize {
        unreachable!()
    }
    fn loop_bind(&mut self, _header: &str, _index: usize) {}
    fn arm_matches(&mut self, _subject: &str, _pattern: &str) -> bool {
        unreachable!()
    }
    fn call_enter(&mut self, _name: &str, _params: &Vec<String>, _args: &Vec<String>) {}
    fn call_exit(&mut self, _name: &str) {}
}

fn run(src: &str, fields: Vec<(String, i64)>) -> String {
    let prog = compile(src, false).unwrap();
    let mut out = String::new();
    render(&prog, &mut H { frames: vec![fields] }, &mut out).unwrap();
    out
}

#[test]
fn test_shadowing_local() {
    assert_eq!(run("{% let x = 12 %}{{ x }}, {% let x = 5 %}{{ x }}", vec![]), "12, 5");
}

#[test]
fn test_shadowing_field() {
    let fields = vec![("x".to_string(), 12)];
    assert_eq!(run("{{ x }}, {% let x = 5 %}{{ x }}", fields), "12, 5");
}

#[test]
fn test_shadowing_in_scope() {
    let fields = vec![("x".to_string(), 12)];
    assert_eq!(
        run("{{ x }}, {% scope %}{% let x = 5 %}{{ x }}{% endscope %}, {{ x }}", fields),
        "12, 5, 12"
    );
}
