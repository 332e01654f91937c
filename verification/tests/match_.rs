//! Matches: the first arm whose pattern and guard succeed runs.

use temply::compile;
use temply::render::{render, Host};

struct H {
    subject: Option<i32>,
    x: i32,
}

impl Host for H {
    fn eval(&mut self, expr: &str, _format: &str) -> String {
        match expr {
            "x" => self.x.to_string(),
            _ => unreachable!(),
        }
    }
    fn eval_bool(&mut self, _cond: &str) -> bool {
        unreachable!()
    }
    fn exec_let(&mut self, _stmt: &str) {}
    fn scope_enter(&mut self) {}
    fn scope_exit(&mut self) {}
    fn loop_len(&mut self, _header: &str) -> usize {
        unreachable!()
    }
    fn loop_bind(&mut self, _header: &str, _index: usize) {}
    fn arm_matches(&mut self, subject: &str, pattern: &str) -> bool {
        match (subject, pattern) {
            ("self.0", "Some(x) if x > 50") => match self.subject {
                Some(x) if x > 50 => {
                    self.x = x;
                    true
                },
                _ => false,
            },
            ("self.0", "Some(x)") => match self.subject {
                Some(x) => {
                    self.x = x;
                    true
                },
                None => false,
            },
            ("self.0", "None") => self.subject.is_none(),
            ("self.0", "_") => true,
            ("x", "x") => true,
            _ => unreachable!(),
        }
    }
    fn call_enter(&mut self, _name: &str, _params: &Vec<String>, _args: &Vec<String>) {}
    fn call_exit(&mut self, _name: &str) {}
}

fn run(src: &str, subject: Option<i32>) -> String {
    let prog = compile(src, false).unwrap();
    let mut out = String::new();
    render(&prog, &mut H { subject, x: 0 }, &mut out).unwrap();
    out
}

#[test]
fn match__test_simple() {
    let src = "{% match self.0 %}{% where Some(x) %}{{ x }}{% endwhere %}{% where None %}No value{% endwhere %}{% endmatch %}";
    assert_eq!(run(src, Some(42)), "42");
    assert_eq!(run(src, None), "No value");
}

#[test]
fn match__test_ws() {
    let src = r#"{% match self.0 %}         
    {% where Some(x) %}          {{ x }}   
           
    
         {% endwhere %}
    {% where _ %}No value{% endwhere %}
                {% endmatch %}"#;
    assert_eq!(run(src, Some(42)), "42");
    assert_eq!(run(src, None), "No value");
}

#[test]
fn test_if_guard() {
    let src = r#"{% match self.0 %}
    {% where Some(x) if x > 50 %}{{ x }}!!!{% endwhere %}
    {% where Some(x) %}{{ x }}{% endwhere %}
    {% where _ %}No value{% endwhere %}
{% endmatch %}"#;
    assert_eq!(run(src, Some(80)), "80!!!");
    assert_eq!(run(src, Some(20)), "20");
    assert_eq!(run(src, None), "No value");
}

#[test]
fn match__test_nested() {
    let src = r#"{% match self.0 %}
    {% where Some(x) %}
        {% match x %}
            {% where x %}
                {{ x }}
            {% endwhere %}
        {% endmatch %}
    {% endwhere %}
    {% where _ %}
        No value
    {% endwhere %}
{% endmatch %}"#;
    assert_eq!(run(src, Some(42)), "42");
    assert_eq!(run(src, None), "No value");
}
