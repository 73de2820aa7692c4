use erg_compiler::args::ValueArgs;
use erg_compiler::call::{bind_params, Bindings, Bound, ConstParams};
use erg_compiler::value::ValueObj;

fn names(ns: &[Option<&str>]) -> Vec<Option<String>> {
    ns.iter().map(|n| n.map(|s| s.to_string())).collect()
}

fn params(non_defaults: &[Option<&str>], var: Option<Option<&str>>, defaults: &[Option<&str>]) -> ConstParams {
    ConstParams {
        non_defaults: names(non_defaults),
        var_params: var.map(|v| v.map(|s| s.to_string())),
        defaults: names(defaults),
    }
}

fn args(pos: &[u64], kw: &[(&str, u64)]) -> ValueArgs {
    ValueArgs::new(
        pos.iter().map(|n| ValueObj::Nat(*n)).collect(),
        kw.iter().map(|(k, n)| (k.to_string(), ValueObj::Nat(*n))).collect(),
    )
}

fn bound<'a>(b: &'a Bindings, name: &str) -> Option<&'a Bound> {
    b.consts.iter().find(|(n, _)| n == name).map(|(_, v)| v)
}

fn assert_nat(b: &Bindings, name: &str, n: u64) {
    match bound(b, name) {
        Some(Bound::Value(v)) => assert!(v.equals(&ValueObj::Nat(n)), "{name} is {v:?}"),
        other => panic!("{name} is bound to {other:?}"),
    }
}

#[test]
fn positional_then_keyword_arguments() {
    let b = bind_params(&params(&[Some("a"), Some("b")], None, &[Some("c")]), args(&[1, 2], &[("c", 3)]));
    assert_nat(&b, "a", 1);
    assert_nat(&b, "b", 2);
    assert_nat(&b, "c", 3);
    assert_eq!(b.consts.len(), 3);
    assert_eq!(b.unnamed, 0);
}

#[test]
fn a_parameter_without_an_argument_takes_its_keyword_or_default() {
    let b = bind_params(&params(&[Some("a"), Some("b")], None, &[Some("c")]), args(&[1], &[("b", 2)]));
    assert_nat(&b, "a", 1);
    assert_nat(&b, "b", 2);
    assert!(matches!(bound(&b, "c"), Some(Bound::Default)));
}

#[test]
fn extra_positional_arguments_fill_defaults_then_are_dropped() {
    let b = bind_params(&params(&[Some("a"), Some("b")], None, &[Some("c")]), args(&[1, 2, 3, 4], &[]));
    assert_nat(&b, "a", 1);
    assert_nat(&b, "b", 2);
    assert_nat(&b, "c", 3);
    assert_eq!(b.consts.len(), 3);
}

#[test]
fn the_variadic_parameter_gathers_the_rest() {
    let p = params(&[Some("a")], Some(Some("rest")), &[Some("c")]);
    let b = bind_params(&p, args(&[1, 2, 3], &[]));
    assert_nat(&b, "a", 1);
    match bound(&b, "rest") {
        Some(Bound::Value(v)) => assert!(v.equals(&ValueObj::List(vec![ValueObj::Nat(2), ValueObj::Nat(3)]))),
        other => panic!("{other:?}"),
    }
    assert!(matches!(bound(&b, "c"), Some(Bound::Default)));
    let b = bind_params(&p, args(&[1], &[("c", 9)]));
    assert_nat(&b, "c", 9);
    match bound(&b, "rest") {
        Some(Bound::Value(v)) => assert!(v.equals(&ValueObj::List(vec![]))),
        other => panic!("{other:?}"),
    }
}

#[test]
fn a_pattern_parameter_uses_up_an_argument_and_is_counted() {
    let b = bind_params(&params(&[None, Some("b")], None, &[]), args(&[1, 2], &[]));
    assert_nat(&b, "b", 2);
    assert_eq!(b.unnamed, 1);
    assert_eq!(b.consts.len(), 1);
}

#[test]
fn leftover_keyword_arguments_are_bound_under_their_names() {
    let b = bind_params(&params(&[Some("a")], None, &[]), args(&[1], &[("z", 5), ("a", 7)]));
    assert_nat(&b, "z", 5);
    assert_nat(&b, "a", 7);
}

#[test]
fn a_missing_argument_leaves_its_parameter_unbound() {
    let b = bind_params(&params(&[Some("a")], None, &[]), args(&[], &[]));
    assert!(bound(&b, "a").is_none());
    assert!(b.consts.is_empty());
}
