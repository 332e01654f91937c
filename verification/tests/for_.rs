//! Loops: separators between iterations, nesting, and the empty case.

use temply::compile;
use temply::render::{render, Host};

struct H {
    n: usize,
    i: usize,
    j: usize,
}

impl Host for H {
    fn eval(&mut self, expr: &str, _format: &str) -> String {
        match expr {
            "i * 2" => (self.i * 2).to_string(),
            "i * j" => (self.i * self.j).to_string(),
            _ => unreachable!(),
        }
    }
    fn eval_bool(&mut self, _cond: &str) -> bool {
        unreachable!()
    }
    fn exec_let(&mut self, _stmt: &str) {}
    fn scope_enter(&mut self) {}
    fn scope_exit(&mut self) {}
    fn loop_len(&mut self, header: &str) -> usize {
        match header {
            "for i in 0..4" => (0..4).len(),
            "for j in 0..4" => (0..4).len(),
            "for i in 0..self.0" => self.n,
            _ => unreachable!(),
        }
    }
    fn loop_bind(&mut self, header: &str, index: usize) {
        match header {
            "for j in 0..4" => self.j = index,
            _ => self.i = index,
        }
    }
    fn arm_matches(&mut self, _subject: &str, _pattern: &str) -> bool {
        unreachable!()
    }
    fn call_enter(&mut self, _name: &str, _params: &Vec<String>, _args: &Vec<String>) {}
    fn call_exit(&mut self, _name: &str) {}
}

fn run(src: &str, n: usize) -> String {
    let prog = compile(src, false).unwrap();
    let mut out = String::new();
    render(&prog, &mut H { n, i: 0, j: 0 }, &mut out).unwrap();
    out
}

#[test]
fn for__test_simple() {
    assert_eq!(run("{% for i in 0..4 %}{{i * 2}},{% endfor %}", 0), "0,2,4,6,");
}

#[test]
fn for__test_ws() {
    assert_eq!(
        run("    {% for i in 0..4 %}\n  {{i * 2}}{% endfor %}", 0),
        "    0\n  2\n  4\n  6"
    );
}

#[test]
fn for__test_nested() {
    assert_eq!(
        run("{% for i in 0..4 %}[{% for j in 0..4 %}{{i * j}},{% endfor %}],{% endfor %}", 0),
        "[0,0,0,0,],[0,1,2,3,],[0,2,4,6,],[0,3,6,9,],"
    );
}

#[test]
fn for__test_else() {
    let src = "{% for i in 0..self.0 %}{{i * 2}},{% else %}Empty{% endfor %}";
    assert_eq!(run(src, 4), "0,2,4,6,");
    assert_eq!(run(src, 1), "0,");
    assert_eq!(run(src, 0), "Empty");
}
