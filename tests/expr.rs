use netidx_sub::expr::{Expr, ExprId, ExprKind};
use netidx_sub::value::{IdGen, Value};

fn c(v: Value) -> Expr {
    ExprKind::Constant(v).to_expr(&mut IdGen::new()).unwrap()
}

fn apply(f: &str, args: Vec<Expr>) -> Expr {
    Expr::new(ExprKind::Apply { args, function: f.to_string() }, &mut IdGen::new()).unwrap()
}

#[test]
fn expressions_get_fresh_ids() {
    let mut g = IdGen::new();
    let a = Expr::new(ExprKind::Constant(Value::Null), &mut g).unwrap();
    let b = ExprKind::Constant(Value::Null).to_expr(&mut g).unwrap();
    assert_eq!(a.id, ExprId(0));
    assert_eq!(b.id, ExprId(1));
    assert!(a == b);
}

#[test]
fn constants_print_with_their_tag() {
    assert_eq!(c(Value::U32(7)).to_string(), "u32:7");
    assert_eq!(c(Value::I64(-42)).to_string(), "i64:-42");
    assert_eq!(c(Value::I64(i64::MIN)).to_string(), "i64:-9223372036854775808");
    assert_eq!(c(Value::String("a\"b\\".to_string())).to_string(), "\"a\\\"b\\\\\"");
    assert_eq!(c(Value::Bytes(vec![1, 255])).to_string(), "bytes:[1,255]");
    assert_eq!(c(Value::Duration(3, 5)).to_string(), "duration:3s5ns");
    assert_eq!(c(Value::Error("e".to_string())).to_string(), "error:\"e\"");
    assert_eq!(c(Value::Okay).to_string(), "ok");
}

#[test]
fn apply_prints_on_one_line() {
    let e = apply("sum", vec![c(Value::U32(1)), c(Value::U32(2))]);
    assert_eq!(e.to_string(), "sum(u32:1, u32:2)");
    assert_eq!(apply("now", vec![]).to_string(), "now()");
}

#[test]
fn pretty_breaks_lines_past_the_limit() {
    let e = apply("sum", vec![c(Value::U32(1)), apply("max", vec![c(Value::True)])]);
    assert_eq!(e.to_string_pretty(80), "sum(u32:1, max(true))");
    assert_eq!(
        e.to_string_pretty(10),
        "sum(\n  u32:1, \n  max(\n    true\n  )\n\n)\n"
    );
    assert_eq!(e.kind.to_string_pretty(22), "sum(u32:1, max(true))");
    assert_eq!(e.kind.to_string_pretty(21), "sum(\n  u32:1, \n  max(true)\n)\n");
}

#[test]
fn is_fn_accepts_only_names() {
    assert!(c(Value::String("load_var2".to_string())).is_fn());
    assert!(!c(Value::String("Load".to_string())).is_fn());
    assert!(!c(Value::String("2x".to_string())).is_fn());
    assert!(!c(Value::String("a-b".to_string())).is_fn());
    assert!(!c(Value::String("".to_string())).is_fn());
    assert!(!c(Value::U32(1)).is_fn());
    assert!(!apply("f", vec![]).is_fn());
}

#[test]
fn pretty_print_appends_at_indent() {
    let e = apply("f", vec![c(Value::U32(1))]);
    let mut out = String::from(">");
    e.kind.pretty_print(2, 80, &mut out);
    assert_eq!(out, ">  f(u32:1)");
}

#[test]
fn equality_ignores_identity() {
    let mut g = IdGen::new();
    let a = Expr::new(ExprKind::Constant(Value::U32(1)), &mut g).unwrap();
    let b = Expr::new(ExprKind::Constant(Value::U32(1)), &mut g).unwrap();
    assert_ne!(a.id, b.id);
    assert!(a == b);
    assert!(apply("f", vec![c(Value::True), c(Value::Null)]) == apply("f", vec![c(Value::True), c(Value::Null)]));
    assert!(apply("f", vec![c(Value::True)]) != apply("g", vec![c(Value::True)]));
    assert!(apply("f", vec![c(Value::True)]) != apply("f", vec![c(Value::False)]));
    assert!(apply("f", vec![c(Value::True)]) != apply("f", vec![]));
    assert!(c(Value::U32(1)) != apply("f", vec![]));
}
