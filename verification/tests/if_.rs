//! Conditionals: the first truthy branch runs, in declared order.

use temply::compile;
use temply::render::{render, Host};

struct H {
    b0: bool,
    v: i32,
    b1: bool,
}

impl Host for H {
    fn eval(&mut self, expr: &str, _format: &str) -> String {
        match expr {
            "\" \"" => " ".to_string(),
            _ => unreachable!(),
        }
    }
    fn eval_bool(&mut self, cond: &str) -> bool {
        match cond {
            "self.0" => self.b0,
            "self.0 == 0" => self.v == 0,
            "self.0 == 1" => self.v == 1,
            "self.0 == 2" => self.v == 2,
            "self.1" => self.b1,
            _ => unreachable!(),
        }
    }
    fn exec_let(&mut self, _stmt: &str) {}
    fn scope_enter(&mut self) {}
    fn scope_exit(&mut self) {}
    fn loop_len(&mut self, _header: &str) -> usize {
        unreachable!()
    }
    fn loop_bind(&mut self, _header: &str, _index: usize) {}
    fn arm_matches(&mut self, _subject: &str, _pattern: &str) -> bool {
        unreachable!()
    }
    fn call_enter(&mut self, _name: &str, _params: &Vec<String>, _args: &Vec<String>) {}
    fn call_exit(&mut self, _name: &str) {}
}

fn run(src: &str, h: &mut H) -> String {
    let prog = compile(src, false).unwrap();
    let mut out = String::new();
    render(&prog, h, &mut out).unwrap();
    out
}

#[test]
fn if__test_simple() {
    let src = "{% if self.0 %}Hello World!{% endif %}";
    assert_eq!(run(src, &mut H { b0: true, v: 0, b1: false }), "Hello World!");
    assert_eq!(run(src, &mut H { b0: false, v: 0, b1: false }), "");
}

#[test]
fn if__test_else() {
    let src = "Hello{% if self.0 %}{{ \" \" }}World!{% else %}!{% endif %}";
    assert_eq!(run(src, &mut H { b0: true, v: 0, b1: false }), "Hello World!");
    assert_eq!(run(src, &mut H { b0: false, v: 0, b1: false }), "Hello!");
}

#[test]
fn if__test_ws() {
    let src = "Hello{% if self.0 %} \n {{ \" \" }}World!{% else %} !  {% endif %}";
    assert_eq!(run(src, &mut H { b0: true, v: 0, b1: false }), "Hello World!");
    assert_eq!(run(src, &mut H { b0: false, v: 0, b1: false }), "Hello!");
}

#[test]
fn test_if_else() {
    let src = "{% if self.0 == 0 %}a{% else if self.0 == 1 %}b{% else if self.0 == 2 %}c{% else %}other{% endif %}";
    assert_eq!(run(src, &mut H { b0: false, v: 0, b1: false }), "a");
    assert_eq!(run(src, &mut H { b0: false, v: 1, b1: false }), "b");
    assert_eq!(run(src, &mut H { b0: false, v: 2, b1: false }), "c");
    assert_eq!(run(src, &mut H { b0: false, v: 3, b1: false }), "other");
}

#[test]
fn if__test_nested() {
    let src = r#"{% if self.0 == 0 %}
    {% if self.1 %}+a{% else %}-a{% endif %}
{% else if self.0 == 1 %}
    {% if self.1 %}+b{% else %}-b{% endif %}
{% else if self.0 == 2 %}
    {% if self.1 %}+c{% else %}-c{% endif %}
{% else %}
    {% if self.1 %}+other{% else %}-other{% endif %}
{% endif %}"#;
    assert_eq!(run(src, &mut H { b0: false, v: 0, b1: true }), "+a");
    assert_eq!(run(src, &mut H { b0: false, v: 0, b1: false }), "-a");
    assert_eq!(run(src, &mut H { b0: false, v: 1, b1: true }), "+b");
    assert_eq!(run(src, &mut H { b0: false, v: 1, b1: false }), "-b");
    assert_eq!(run(src, &mut H { b0: false, v: 2, b1: true }), "+c");
    assert_eq!(run(src, &mut H { b0: false, v: 2, b1: false }), "-c");
    assert_eq!(run(src, &mut H { b0: false, v: 3, b1: true }), "+other");
    assert_eq!(run(src, &mut H { b0: false, v: 3, b1: false }), "-other");
}
