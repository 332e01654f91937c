//! Binding statements are carried through to the host unparsed.

use temply::compile;
use temply::render::{render, Host};

struct H {
    env: Vec<(String, i64)>,
}

impl H {
    fn double(&self, x: i64) -> i64 {
        x * 2
    }

    fn set(&mut self, k: &str, v: i64) {
        self.env.push((k.to_string(), v));
    }

    fn get(&self, k: &str) -> i64 {
        for (n, v) in self.env.iter().rev() {
            if n == k {
                return *v;
            }
        }
        unreachable!()
    }
}

impl Host for H {
    fn eval(&mut self, expr: &str, _format: &str) -> String {
        match expr {
            "x" => self.get("x").to_string(),
            "y" => self.get("y").to_string(),
            "x + y" => (self.get("x") + self.get("y")).to_string(),
            "{let copy = x; x += 1; copy}" => {
                let copy = self.get("x");
                let next = copy + 1;
                self.set("x", next);
                copy.to_string()
            },
            _ => unreachable!(),
        }
    }
    fn eval_bool(&mut self, _cond: &str) -> bool {
        unreachable!()
    }
    fn exec_let(&mut self, stmt: &str) {
        match stmt {
            "let x = 12" => self.set("x", 12),
            "let y = 3;" => self.set("y", 3),
            "let x = 1" => self.set("x", 1),
            "let y = 2" => self.set("y", 2),
            "let mut x = 1" => self.set("x", 1),
            "let (x, mut y) = (12, 13)" => {
                self.set("x", 12);
                self.set("y", 13);
            },
            "let x = 5" => self.set("x", 5),
            "let x = self.double(4)" => {
                let v = self.double(4);
                self.set("x", v);
            },
            _ => unreachable!(),
        }
    }
    fn scope_enter(&mut self) {}
    fn scope_exit(&mut self) {}
    fn loop_len(&mut self, _header: &str) -> usize {
        unreachable!()
    }
    fn loop_bind(&mut self, _header: &str, _index: usize) {}
    fn arm_matches(&mut self, _subject: &str, _pattern: &str) -> bool {
        unreachable!()
    }
    fn call_enter(&mut self, _name: &str, _params: &Vec<String>, _args: &Vec<String>) {}
    fn call_exit(&mut self, _name: &str) {}
}

fn run(src: &str) -> String {
    let prog = compile(src, false).unwrap();
    let mut out = String::new();
    render(&prog, &mut H { env: Vec::new() }, &mut out).unwrap();
    out
}

#[test]
fn let__test_simple() {
    assert_eq!(run("{% let x = 12 %}{{ x }}"), "12");
}

#[test]
fn test_semicolon() {
    assert_eq!(run("{% let x = 12 %}{{ x }},{% let y = 3; %}{{ y }}"), "12,3");
}

#[test]
fn test_multiple() {
    assert_eq!(run("{% let x = 1 %}{% let y = 2 %}{{ x + y }}"), "3");
}

#[test]
fn test_mut() {
    assert_eq!(run("{% let mut x = 1 %}{{ {let copy = x; x += 1; copy} }}, {{ x }}"), "1, 2");
}

#[test]
fn test_pattern() {
    assert_eq!(run("{% let (x, mut y) = (12, 13) %}{{ x + y}}"), "25");
}

#[test]
fn test_shadowing() {
    assert_eq!(run("{% let x = 12 %}{{ x }}, {% let x = 5 %}{{ x }}"), "12, 5");
}

#[test]
fn test_access_self() {
    assert_eq!(run("{% let x = self.double(4) %}{{ x }}"), "8");
}
