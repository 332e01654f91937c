//! Simple expression templates over different context shapes.

use temply::compile;
use temply::render::{render, Host};

struct H {
    vals: Vec<(String, String)>,
}

impl Host for H {
    fn eval(&mut self, expr: &str, _format: &str) -> String {
        for (k, v) in &self.vals {
            if k == expr {
                return v.clone();
            }
        }
        unreachable!()
    }
    fn eval_bool(&mut self, _cond: &str) -> bool {
        unreachable!()
    }
    fn exec_let(&mut self, _stmt: &str) {}
    fn scope_enter(&mut self) {}
    fn scope_exit(&mut self) {}
    fn loop_len(&mut self, _header: &str) -> usize {
        unreachable!()
    }
    fn loop_bind(&mut self, _header: &str, _index: usize) {}
    fn arm_matches(&mut self, _subject: &str, _pattern: &str) -> bool {
        unreachable!()
    }
    fn call_enter(&mut self, _name: &str, _params: &Vec<String>, _args: &Vec<String>) {}
    fn call_exit(&mut self, _name: &str) {}
}

fn run(src: &str, vals: Vec<(String, String)>) -> String {
    let prog = compile(src, false).unwrap();
    let mut out = String::new();
    render(&prog, &mut H { vals }, &mut out).unwrap();
    out
}

#[test]
fn basic_test_simple() {
    assert_eq!(run("Hello World!", vec![]), "Hello World!");
}

#[test]
fn test_raw_string() {
    assert_eq!(run(r###"Hello World!"###, vec![]), "Hello World!");
}

#[test]
fn test_unit_struct() {
    struct MyTemplate;
    let _t = MyTemplate;
    assert_eq!(run("Unit struct", vec![]), "Unit struct");
}

#[test]
fn test_tuple_struct() {
    struct MyTemplate(i32);
    let t = MyTemplate(-3);
    let vals = vec![("self.0".to_string(), t.0.to_string())];
    assert_eq!(run("Tuple struct {{ self.0 }}", vals), "Tuple struct -3");
}

#[test]
fn test_c_struct() {
    struct MyTemplate {
        value: i32,
        x: u8,
    }
    let t = MyTemplate { value: -3, x: 1 };
    let vals = vec![
        ("value".to_string(), t.value.to_string()),
        ("self.x".to_string(), t.x.to_string()),
    ];
    assert_eq!(run("C struct {{ value }} {{ self.x }}", vals), "C struct -3 1");
}

#[test]
fn test_enum() {
    enum MyTemplate {
        A(i32),
        #[allow(unused)]
        B,
        #[allow(unused)]
        C {
            val: i32,
        },
    }
    let _t = MyTemplate::A(42);
    assert_eq!(run("Enum ...", vec![]), "Enum ...");
}

#[test]
fn basic_test_method() {
    struct MyTemplate;

    impl MyTemplate {
        fn x(&self, v: bool) -> bool {
            v && !v
        }
    }

    let t = MyTemplate;
    let vals = vec![("self.x(true)".to_string(), t.x(true).to_string())];
    assert_eq!(run("x(true) = {{ self.x(true) }}", vals), "x(true) = false");
}

#[test]
fn test_function() {
    fn add(a: i32, b: i32) -> i32 {
        a + b
    }

    let vals = vec![("add(4, 3)".to_string(), add(4, 3).to_string())];
    assert_eq!(run("4 + 3 = {{ add(4, 3) }}", vals), "4 + 3 = 7");
}

#[test]
fn test_lifetime() {
    struct MyTemplate<'a>(&'a str);
    let t = MyTemplate("test");
    let vals = vec![("self.0".to_string(), t.0.to_string())];
    assert_eq!(run("{{ self.0 }}", vals), "test");
}

#[test]
fn test_generics() {
    struct MyTemplate<T>(&'static str, T);
    let t = MyTemplate("test", true);
    let vals = vec![("self.0".to_string(), t.0.to_string())];
    assert_eq!(run("{{ self.0 }}", vals), "test");
}

#[test]
fn test_lifetime_and_generics() {
    struct MyTemplate<'a, T, U>(&'a str, T, U);
    let t = MyTemplate("test", true, 0);
    let vals = vec![("self.0".to_string(), t.0.to_string())];
    assert_eq!(run("{{ self.0 }}", vals), "test");
}
