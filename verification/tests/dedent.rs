//! The opt-in dedent pass: indentation added for source readability is
//! removed from rendered output.

use temply::compile;
use temply::render::{render, Host};

struct H {
    v: i32,
    b: bool,
    i: usize,
    opt: Option<i32>,
    x: i32,
}

impl Host for H {
    fn eval(&mut self, expr: &str, _format: &str) -> String {
        match expr {
            "self.0" => self.v.to_string(),
            "i" => self.i.to_string(),
            "x" => self.x.to_string(),
            _ => unreachable!(),
        }
    }
    fn eval_bool(&mut self, cond: &str) -> bool {
        match cond {
            "self.0" => self.b,
            "self.0 == 42" => self.v == 42,
            "i % 2 == 0" => self.i % 2 == 0,
            "i != 3" => self.i != 3,
            _ => unreachable!(),
        }
    }
    fn exec_let(&mut self, _stmt: &str) {}
    fn scope_enter(&mut self) {}
    fn scope_exit(&mut self) {}
    fn loop_len(&mut self, header: &str) -> usize {
        match header {
            "for i in 0..4" => (0..4).len(),
            _ => unreachable!(),
        }
    }
    fn loop_bind(&mut self, _header: &str, index: usize) {
        self.i = index;
    }
    fn arm_matches(&mut self, subject: &str, pattern: &str) -> bool {
        match (subject, pattern) {
            ("self.0", "Some(x)") => match self.opt {
                Some(x) => {
                    self.x = x;
                    true
                },
                None => false,
            },
            ("self.0", "None") => self.opt.is_none(),
            _ => unreachable!(),
        }
    }
    fn call_enter(&mut self, _name: &str, _params: &Vec<String>, _args: &Vec<String>) {}
    fn call_exit(&mut self, _name: &str) {}
}

fn run(src: &str, h: &mut H) -> String {
    let prog = compile(src, true).unwrap();
    let mut out = String::new();
    render(&prog, h, &mut out).unwrap();
    out
}

fn host() -> H {
    H { v: 0, b: false, i: 0, opt: None, x: 0 }
}

#[test]
fn dedent_test_simple() {
    assert_eq!(run("Hello World!", &mut host()), "Hello World!");
}

#[test]
fn test_scope() {
    let src = r#"{% scope %}
    Hello World!
    1234
{% endscope %}"#;
    assert_eq!(run(src, &mut host()), "Hello World!\n1234");
}

#[test]
fn test_scope_1() {
    let src = r#"{% scope %}Hello World
    1234
{% endscope %}"#;
    assert_eq!(run(src, &mut host()), "Hello World\n1234");
}

#[test]
fn test_scope_start_1() {
    let src = r#"{% scope %}{{ self.0 }}
    1234
{% endscope %}"#;
    let mut h = host();
    h.v = 42;
    assert_eq!(run(src, &mut h), "42\n1234");
}

#[test]
fn test_scope_start_2() {
    let src = r#"{% scope %}{% if self.0 == 42 %}Hello{% endif %}
    1234
{% endscope %}"#;
    let mut h = host();
    h.v = 42;
    assert_eq!(run(src, &mut h), "Hello\n1234");
}

#[test]
fn test_scope_no_dedent_inner() {
    let src = r#"{% scope %}
{{ self.0 }}
    1234
{% endscope %}"#;
    let mut h = host();
    h.v = 42;
    assert_eq!(run(src, &mut h), "42\n    1234");
}

#[test]
fn test_scope_no_dedent_end() {
    let src = r#"{% scope %}
    {{ self.0 }}
    1234
abc{% endscope %}"#;
    let mut h = host();
    h.v = 42;
    assert_eq!(run(src, &mut h), "42\n    1234\nabc");
}

#[test]
fn test_scope_nested() {
    let src = r#"{% scope %}
    Hello World!
    {% scope %}
        xxxx
    {% endscope %}
    1234
{% endscope %}"#;
    assert_eq!(run(src, &mut host()), "Hello World!\nxxxx\n1234");
}

#[test]
fn test_scope_nested_indented() {
    let src = r#"{% scope %}
    Hello World!
        {% scope %}
            xxxx
            yyyy
        {% endscope %}
    1234
{% endscope %}"#;
    assert_eq!(run(src, &mut host()), "Hello World!\n    xxxx\n    yyyy\n1234");
}

#[test]
fn test_for() {
    let src = r#"{% for i in 0..4 %}
    {{ i }}
{% endfor %}"#;
    assert_eq!(run(src, &mut host()), "0\n1\n2\n3");
}

#[test]
fn test_for_and_if_else() {
    let src = r#"{% for i in 0..4 %}
    {% if i % 2 == 0 %}
        {{ i }}
                            {% else %}
                      -
    {% endif %}
{% endfor %}"#;
    assert_eq!(run(src, &mut host()), "0\n-\n2\n-");
}

#[test]
fn test_for_and_text_and_if() {
    let src = r#"{% for i in 0..4 %}
    {{ i }}{% if i != 3 %},{% endif %}
{% endfor %}"#;
    assert_eq!(run(src, &mut host()), "0,\n1,\n2,\n3");
}

#[test]
fn test_match() {
    let src = r#"{% match self.0 %}
    {% where Some(x) %}
        X = {{x}};
        ...
    {% endwhere %}
    {% where None %}
        no value
    {% endwhere %}
{% endmatch %}"#;
    let mut h = host();
    h.opt = Some(42);
    assert_eq!(run(src, &mut h), "X = 42;\n...");
    let mut h2 = host();
    h2.opt = None;
    assert_eq!(run(src, &mut h2), "no value");
}

#[test]
fn test_match_indented() {
    let src = r#"{% match self.0 %}
    {% where Some(x) %}
        X = {{x}};
            ...
    {% endwhere %}
    {% where None %}
        no value
    {% endwhere %}
{% endmatch %}"#;
    let mut h = host();
    h.opt = Some(42);
    assert_eq!(run(src, &mut h), "X = 42;\n    ...");
    let mut h2 = host();
    h2.opt = None;
    assert_eq!(run(src, &mut h2), "no value");
}

#[derive(Debug, Clone)]
enum ExprT {
    Add(Box<ExprT>, Box<ExprT>),
    Sign(Box<ExprT>),
    Num(u32),
}

struct ExprHost {
    root: ExprT,
    frames: Vec<ExprFrame>,
}

struct ExprFrame {
    expr: ExprT,
    a: Option<ExprT>,
    b: Option<ExprT>,
    n: Option<u32>,
}

impl Host for ExprHost {
    fn eval(&mut self, expr: &str, _format: &str) -> String {
        match expr {
            "n" => self.frames.last().unwrap().n.unwrap().to_string(),
            _ => unreachable!(),
        }
    }
    fn eval_bool(&mut self, _cond: &str) -> bool {
        unreachable!()
    }
    fn exec_let(&mut self, _stmt: &str) {}
    fn scope_enter(&mut self) {}
    fn scope_exit(&mut self) {}
    fn loop_len(&mut self, _header: &str) -> usize {
        unreachable!()
    }
    fn loop_bind(&mut self, _header: &str, _index: usize) {}
    fn arm_matches(&mut self, subject: &str, pattern: &str) -> bool {
        assert_eq!(subject, "expr");
        let frame = self.frames.last_mut().unwrap();
        match (pattern, frame.expr.clone()) {
            ("Expr::Add(a, b)", ExprT::Add(a, b)) => {
                frame.a = Some(*a);
                frame.b = Some(*b);
                true
            },
            ("Expr::Sign(a)", ExprT::Sign(a)) => {
                frame.a = Some(*a);
                true
            },
            ("Expr::Num(n)", ExprT::Num(n)) => {
                frame.n = Some(n);
                true
            },
            _ => false,
        }
    }
    fn call_enter(&mut self, name: &str, _params: &Vec<String>, args: &Vec<String>) {
        assert_eq!(name, "render_expr");
        let expr = match args[0].as_str() {
            "&self.0" => self.root.clone(),
            "&*a" => self.frames.last().unwrap().a.clone().unwrap(),
            "&*b" => self.frames.last().unwrap().b.clone().unwrap(),
            _ => unreachable!(),
        };
        self.frames.push(ExprFrame { expr, a: None, b: None, n: None });
    }
    fn call_exit(&mut self, _name: &str) {
        self.frames.pop();
    }
}

#[test]
fn test_macro() {
    let src = r#"
        {% macro render_expr |expr: &Expr| %}
            {% match expr %}
                {% where Expr::Add(a, b) %}
                    add(
                        {% call render_expr (&*a) %},
                        {% call render_expr (&*b) %}
                    )
                {% endwhere %}
                {% where Expr::Sign(a) %}
                    -(
                        {% call render_expr (&*a) %}
                    )
                {% endwhere %}
                {% where Expr::Num(n) %}
                    {{ n }}
                {% endwhere %}
            {% endmatch %}
        {% endmacro %}
Res: {
    {% call render_expr(&self.0) %}
}
"#;
    let root = ExprT::Add(
        Box::new(ExprT::Sign(Box::new(ExprT::Num(3)))),
        Box::new(ExprT::Num(4)),
    );
    let prog = compile(src, true).unwrap();
    let mut out = String::new();
    render(&prog, &mut ExprHost { root, frames: Vec::new() }, &mut out).unwrap();
    assert_eq!(
        out,
        r#"
        
Res: {
    add(
        -(
            3
        ),
        4
    )
}
"#
    );
}
