//! Expression items: trimming, formats, and the rightmost format split.

use temply::compile;
use temply::render::{render, Host};

struct H {
    vals: Vec<(String, String, String)>,
}

impl Host for H {
    fn eval(&mut self, expr: &str, format: &str) -> String {
        for (e, f, v) in &self.vals {
            if e == expr && f == format {
                return v.clone();
            }
        }
        unreachable!()
    }
    fn eval_bool(&mut self, _cond: &str) -> bool {
        unreachable!()
    }
    fn exec_let(&mut self, _stmt: &str) {}
    fn scope_enter(&mut self) {}
    fn scope_exit(&mut self) {}
    fn loop_len(&mut self, _header: &str) -> usize {
        unreachable!()
    }
    fn loop_bind(&mut self, _header: &str, _index: usize) {}
    fn arm_matches(&mut self, _subject: &str, _pattern: &str) -> bool {
        unreachable!()
    }
    fn call_enter(&mut self, _name: &str, _params: &Vec<String>, _args: &Vec<String>) {}
    fn call_exit(&mut self, _name: &str) {}
}

fn run(src: &str, vals: Vec<(String, String, String)>) -> String {
    let prog = compile(src, false).unwrap();
    let mut out = String::new();
    render(&prog, &mut H { vals }, &mut out).unwrap();
    out
}

#[test]
fn expression_test_simple() {
    let vals = vec![(r#""Hello World!""#.to_string(), "{}".to_string(), "Hello World!".to_string())];
    assert_eq!(run(r#"{{ "Hello World!" }}"#, vals), "Hello World!");
}

#[test]
fn expression_test_ws() {
    let vals = vec![(
        r#""\n Hello\nWorld!\t\t""#.to_string(),
        "{}".to_string(),
        "\n Hello\nWorld!\t\t".to_string(),
    )];
    assert_eq!(run(r#"{{ "\n Hello\nWorld!\t\t" }}"#, vals), "\n Hello\nWorld!\t\t");
}

#[test]
fn expression_test_method() {
    struct MyTemplate;

    impl MyTemplate {
        fn x(&self) -> i32 {
            12
        }
    }

    let t = MyTemplate;
    let vals = vec![("self.x()".to_string(), "{}".to_string(), t.x().to_string())];
    assert_eq!(run("x: {{ self.x() }}", vals), "x: 12");
}

#[test]
fn test_destruct() {
    struct MyTemplate {
        x: i32,
        y: i32,
    }
    let t = MyTemplate { x: 12, y: 3 };
    let vals = vec![
        ("x".to_string(), "{}".to_string(), t.x.to_string()),
        ("self.y".to_string(), "{}".to_string(), t.y.to_string()),
    ];
    assert_eq!(run("x: {{ x }}, y: {{ self.y }}", vals), "x: 12, y: 3");
}

#[test]
fn test_complex_expr() {
    struct MyTemplate {
        x: Option<i32>,
    }
    let t = MyTemplate { x: Some(3) };
    let vals = vec![(
        "x.map(|x| x * 4).unwrap_or(0) * 2".to_string(),
        "{}".to_string(),
        (t.x.map(|x| x * 4).unwrap_or(0) * 2).to_string(),
    )];
    assert_eq!(run("x: {{ x.map(|x| x * 4).unwrap_or(0) * 2 }}", vals), "x: 24");
}

#[test]
fn test_format() {
    #[derive(Debug)]
    struct MyTemplate {
        x: Option<i32>,
    }
    let t = MyTemplate { x: Some(3) };
    let vals = vec![
        ("x".to_string(), "{:?}".to_string(), format!("{:?}", t.x)),
        ("self".to_string(), "{:#?}".to_string(), format!("{:#?}", t)),
    ];
    assert_eq!(
        run("{{ x@{:?} }}\n{{ self@{:#?} }}", vals),
        "Some(3)\nMyTemplate {\n    x: Some(\n        3,\n    ),\n}"
    );
}
