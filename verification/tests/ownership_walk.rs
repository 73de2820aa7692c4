use erg_compiler::ownercheck::{MoveError, OwnershipChecker};
use erg_compiler::ownerwalk::{CheckedExpr, Ownership, ParamOwnerships};

type Expr = CheckedExpr<u32>;

fn var(name: &str, line: u32) -> Expr {
    CheckedExpr::Accessor {
        name: name.to_string(),
        key: format!("{name}@def"),
        is_mut: true,
        class_name: "List!".to_string(),
        loc: line,
    }
}

fn def(name: &str, body: Vec<Expr>) -> Expr {
    CheckedExpr::Def {
        name: Some(name.to_string()),
        public: false,
        is_subr: false,
        params: vec![],
        body,
        closure_key: format!("{name}@def"),
        is_closure: false,
    }
}

fn subr(name: &str, params: &[&str], body: Vec<Expr>) -> Expr {
    CheckedExpr::Def {
        name: Some(name.to_string()),
        public: false,
        is_subr: true,
        params: params.iter().map(|p| p.to_string()).collect(),
        body,
        closure_key: format!("{name}@def"),
        is_closure: true,
    }
}

fn method_call(recv: Expr, args: Vec<Expr>, line: u32) -> Expr {
    CheckedExpr::Call {
        obj: Box::new(recv),
        sig: Some(ParamOwnerships {
            non_defaults: vec![(Some("self".to_string()), Ownership::RefMut), (Some("elem".to_string()), Ownership::Owned)],
            var_params: None,
            defaults: vec![],
            kw_var_params: None,
        }),
        is_method: true,
        pos_args: args,
        kw_args: vec![],
        procedural: true,
        loc: line,
    }
}

fn moves(r: Result<(), (Vec<MoveError<u32>>, Vec<(u32, String)>)>) -> Vec<(String, u32, u32)> {
    match r {
        Ok(()) => vec![],
        Err((ms, _)) => ms.into_iter().map(|m| (m.name, m.used_at, m.moved_at)).collect(),
    }
}

#[test]
fn a_moved_variable_is_not_used_again() {
    // x = ![]; y = x; x.push! 1
    let module = vec![
        def("x", vec![CheckedExpr::Elems(vec![])]),
        def("y", vec![var("x", 2)]),
        method_call(var("x", 3), vec![CheckedExpr::Other], 3),
    ];
    let mut c: OwnershipChecker<u32> = OwnershipChecker::new();
    assert_eq!(moves(c.check("main".to_string(), &module)), vec![("x".to_string(), 3, 2)]);
}

#[test]
fn borrowing_uses_move_nothing() {
    // x = ![]; x.push! 1; x.push! 2
    let module = vec![
        def("x", vec![CheckedExpr::Elems(vec![])]),
        method_call(var("x", 2), vec![CheckedExpr::Other], 2),
        method_call(var("x", 3), vec![CheckedExpr::Other], 3),
    ];
    let mut c: OwnershipChecker<u32> = OwnershipChecker::new();
    assert!(c.check("main".to_string(), &module).is_ok());
}

#[test]
fn an_owned_argument_is_moved_by_the_call() {
    // x = ![]; g x; x.push! 1    with g(v: Owned)
    let module = vec![
        def("x", vec![CheckedExpr::Elems(vec![])]),
        CheckedExpr::Call {
            obj: Box::new(var("g", 3)),
            sig: Some(ParamOwnerships {
                non_defaults: vec![(Some("v".to_string()), Ownership::Owned)],
                var_params: None,
                defaults: vec![],
                kw_var_params: None,
            }),
            is_method: false,
            pos_args: vec![var("x", 3)],
            kw_args: vec![],
            procedural: false,
            loc: 3,
        },
        method_call(var("x", 4), vec![CheckedExpr::Other], 4),
    ];
    let mut c: OwnershipChecker<u32> = OwnershipChecker::new();
    match c.check("main".to_string(), &module) {
        Err((ms, cycles)) => {
            let got: Vec<(String, u32, u32)> = ms.into_iter().map(|m| (m.name, m.used_at, m.moved_at)).collect();
            assert_eq!(got, vec![("x".to_string(), 4, 3)]);
            assert!(cycles.is_empty());
        }
        Ok(()) => panic!("the use of x after it was moved passed"),
    }
}

#[test]
fn a_statement_on_its_own_moves_nothing() {
    // x = ![]; x; x.push! 1
    let module = vec![
        def("x", vec![CheckedExpr::Elems(vec![])]),
        var("x", 2),
        method_call(var("x", 3), vec![CheckedExpr::Other], 3),
    ];
    let mut c: OwnershipChecker<u32> = OwnershipChecker::new();
    assert!(c.check("main".to_string(), &module).is_ok());
}

#[test]
fn a_closure_only_captures_what_it_uses() {
    // x = ![]; f!() = y = x; z = x
    let module = vec![
        def("x", vec![CheckedExpr::Elems(vec![])]),
        subr("f!", &[], vec![var("x", 2)]),
        def("z", vec![var("x", 3)]),
    ];
    let mut c: OwnershipChecker<u32> = OwnershipChecker::new();
    assert!(c.check("main".to_string(), &module).is_ok());
}

#[test]
fn using_a_closure_whose_capture_was_moved_is_reported() {
    // x = ![]; f!() = x.push! 1; z = x; f!()
    let module = vec![
        def("x", vec![CheckedExpr::Elems(vec![])]),
        subr("f!", &[], vec![method_call(var("x", 2), vec![CheckedExpr::Other], 2)]),
        def("z", vec![var("x", 3)]),
        CheckedExpr::Call {
            obj: Box::new(var("f!", 4)),
            sig: None,
            is_method: false,
            pos_args: vec![],
            kw_args: vec![],
            procedural: false,
            loc: 4,
        },
    ];
    let mut c: OwnershipChecker<u32> = OwnershipChecker::new();
    assert_eq!(moves(c.check("main".to_string(), &module)), vec![("x".to_string(), 4, 3)]);
}

#[test]
fn stores_into_each_other_are_a_cycle() {
    // p = ![]; q = ![]; p.push! q; q.push! p
    let module2 = vec![
        def("p", vec![CheckedExpr::Elems(vec![])]),
        def("q", vec![CheckedExpr::Elems(vec![])]),
        CheckedExpr::Call {
            obj: Box::new(var("p", 3)),
            sig: None,
            is_method: true,
            pos_args: vec![var("q", 3)],
            kw_args: vec![],
            procedural: true,
            loc: 3,
        },
        CheckedExpr::Call {
            obj: Box::new(var("q", 4)),
            sig: None,
            is_method: true,
            pos_args: vec![var("p", 4)],
            kw_args: vec![],
            procedural: true,
            loc: 4,
        },
    ];
    let mut c2: OwnershipChecker<u32> = OwnershipChecker::new();
    match c2.check("main".to_string(), &module2) {
        Err((ms, cycles)) => {
            assert!(ms.is_empty());
            assert_eq!(cycles.len(), 1);
        }
        Ok(()) => panic!("the cycle of stores was not reported"),
    }
}

#[test]
fn keyword_arguments_meet_their_parameters() {
    // x = ![]; g(k := x); x.push! 1    with g(k: Owned)
    let module = vec![
        def("x", vec![CheckedExpr::Elems(vec![])]),
        CheckedExpr::Call {
            obj: Box::new(var("g", 2)),
            sig: Some(ParamOwnerships {
                non_defaults: vec![],
                var_params: None,
                defaults: vec![("k".to_string(), Ownership::Owned)],
                kw_var_params: None,
            }),
            is_method: false,
            pos_args: vec![],
            kw_args: vec![("k".to_string(), var("x", 2))],
            procedural: false,
            loc: 2,
        },
        method_call(var("x", 3), vec![CheckedExpr::Other], 3),
    ];
    let mut c: OwnershipChecker<u32> = OwnershipChecker::new();
    assert_eq!(moves(c.check("main".to_string(), &module)), vec![("x".to_string(), 3, 2)]);
}

#[test]
fn check_expr_reports_the_uses_it_meets() {
    let mut c: OwnershipChecker<u32> = OwnershipChecker::new();
    c.enter_module("main".to_string());
    assert!(c.check_expr(&def("x", vec![CheckedExpr::Elems(vec![])]), Ownership::Owned, true).is_empty());
    assert!(c.check_expr(&var("x", 2), Ownership::Owned, false).is_empty());
    let errs = c.check_expr(&CheckedExpr::BinOp(Box::new(var("x", 3)), Box::new(CheckedExpr::Other)), Ownership::Owned, false);
    assert_eq!(errs.len(), 1);
    assert_eq!((errs[0].name.as_str(), errs[0].used_at, errs[0].moved_at), ("x", 3, 2));
}
