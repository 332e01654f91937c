//! Named blocks: definition, invocation, parameters, and recursion.

use temply::compile;
use temply::render::{render, Host};

struct H {
    tup: (i64, i64),
    frames: Vec<Vec<(String, i64)>>,
}

impl H {
    fn get(&self, k: &str) -> i64 {
        for frame in self.frames.iter().rev() {
            for (n, v) in frame.iter().rev() {
                if n == k {
                    return *v;
                }
            }
        }
        unreachable!()
    }

    fn eval_int(&self, e: &str) -> i64 {
        match e {
            "42" => 42,
            "3" => 3,
            "5" => 5,
            "12" => 12,
            "2 + 3" => 2 + 3,
            "5 - 2" => 5 - 2,
            "&2" => 2,
            "&mut 2" => 2,
            "x - 1" => self.get("x") - 1,
            _ => unreachable!(),
        }
    }
}

fn param_name(p: &str) -> &str {
    match p.find(':') {
        Some(k) => p[..k].trim(),
        None => p,
    }
}

impl Host for H {
    fn eval(&mut self, expr: &str, _format: &str) -> String {
        match expr {
            "y" => self.get("y").to_string(),
            "x" => self.get("x").to_string(),
            "12" => 12.to_string(),
            "y + z" => (self.get("y") + self.get("z")).to_string(),
            "*y" => self.get("y").to_string(),
            _ => unreachable!(),
        }
    }
    fn eval_bool(&mut self, cond: &str) -> bool {
        match cond {
            "x == 0" => self.get("x") == 0,
            _ => unreachable!(),
        }
    }
    fn exec_let(&mut self, stmt: &str) {
        match stmt {
            "let _ = { *y += 1; };" => {
                let v = self.get("y") + 1;
                self.frames.last_mut().unwrap().push(("y".to_string(), v));
            },
            _ => unreachable!(),
        }
    }
    fn scope_enter(&mut self) {}
    fn scope_exit(&mut self) {}
    fn loop_len(&mut self, _header: &str) -> usize {
        unreachable!()
    }
    fn loop_bind(&mut self, _header: &str, _index: usize) {}
    fn arm_matches(&mut self, _subject: &str, _pattern: &str) -> bool {
        unreachable!()
    }
    fn call_enter(&mut self, _name: &str, params: &Vec<String>, args: &Vec<String>) {
        let mut frame: Vec<(String, i64)> = Vec::new();
        for (p, a) in params.iter().zip(args.iter()) {
            if p == "(y, z)" && a == "self.0" {
                frame.push(("y".to_string(), self.tup.0));
                frame.push(("z".to_string(), self.tup.1));
            } else {
                frame.push((param_name(p).to_string(), self.eval_int(a)));
            }
        }
        self.frames.push(frame);
    }
    fn call_exit(&mut self, _name: &str) {
        self.frames.pop();
    }
}

fn run(src: &str, tup: (i64, i64)) -> String {
    let prog = compile(src, false).unwrap();
    let mut out = String::new();
    render(&prog, &mut H { tup, frames: vec![Vec::new()] }, &mut out).unwrap();
    out
}

#[test]
fn macro_test_simple() {
    assert_eq!(run("{% macro x |y| %}{{ y }}{% endmacro %}{% call x(42) %}", (0, 0)), "42");
}

#[test]
fn test_zero_params() {
    assert_eq!(run("{% macro x || %}{{ 12 }}{% endmacro %}{% call x() %}", (0, 0)), "12");
}

#[test]
fn test_multiple_params() {
    assert_eq!(
        run("{% macro x |y, z| %}{{ y + z }}{% endmacro %}{% call x(42, 3) %}", (0, 0)),
        "45"
    );
}

#[test]
fn test_trailing_label() {
    assert_eq!(
        run("{% macro x |y, z, | %}{{ y + z }}{% endmacro %}{% call x(42, 3,) %}", (0, 0)),
        "45"
    );
}

#[test]
fn test_recursive() {
    let src = r#"{% macro fact |x| %}
    {% if x == 0 %}
        1
    {% else %}
        {{ x }} * {% call fact(x - 1) %}
    {% endif %}
{% endmacro %}{% call fact(5) %}"#;
    assert_eq!(run(src, (0, 0)), "5 * 4 * 3 * 2 * 1 * 1");
}

#[test]
fn test_param_pattern() {
    assert_eq!(
        run("{% macro x |(y, z)| %}{{ y + z }}{% endmacro %}{% call x(self.0) %}", (2, 3)),
        "5"
    );
}

#[test]
fn test_param_typed() {
    assert_eq!(
        run(
            "{% macro x |y: i32, z| %}{{ y + z }}{% endmacro %}{% call x(2 + 3, 5 - 2) %}",
            (0, 0),
        ),
        "8"
    );
}

#[test]
fn test_arg_expr() {
    assert_eq!(
        run("{% macro x |y, z| %}{{ y + z }}{% endmacro %}{% call x(2 + 3, 5 - 2) %}", (0, 0)),
        "8"
    );
}

#[test]
fn test_arg_ref() {
    assert_eq!(run("{% macro x |y: &i32| %}{{ *y }}{% endmacro %}{% call x(&2) %}", (0, 0)), "2");
}

#[test]
fn test_arg_mut_ref() {
    assert_eq!(
        run(
            "{% macro x |y: &mut i32| %}{% let _ = { *y += 1; }; %}{{ *y }}{% endmacro %}{% call x(&mut 2) %}",
            (0, 0),
        ),
        "3"
    );
}
