use erg_compiler::ownercheck::{MoveError, OwnershipChecker};

fn checker() -> OwnershipChecker<u32> {
    let mut c = OwnershipChecker::new();
    c.enter_module("main".to_string());
    c
}

#[test]
fn a_moved_variable_cannot_be_used_again() {
    let mut c = checker();
    c.define(Some("x".to_string()));
    assert!(c.check_acc("x", "1#x", true, true, false, 3).is_ok());
    match c.check_acc("x", "1#x", true, false, false, 4) {
        Err(MoveError { name, used_at, moved_at }) => {
            assert_eq!(name, "x");
            assert_eq!(used_at, 4);
            assert_eq!(moved_at, 3);
        }
        other => panic!("{other:?}"),
    }
    assert_eq!(c.check_if_dropped("x"), Err(3));
}

#[test]
fn reading_does_not_move() {
    let mut c = checker();
    c.define(Some("x".to_string()));
    assert!(c.check_acc("x", "1#x", true, false, false, 3).is_ok());
    assert!(c.check_acc("x", "1#x", false, true, false, 4).is_ok());
    assert!(c.check_acc("x", "1#x", true, true, true, 5).is_ok());
    assert_eq!(c.check_if_dropped("x"), Ok(()));
}

#[test]
fn a_closure_only_captures_an_outer_variable() {
    let mut c = checker();
    c.define(Some("x".to_string()));
    c.define(Some("g!".to_string()));
    c.enter_def("g!".to_string(), false, true);
    assert!(c.check_acc("x", "1#x", true, true, false, 8).is_ok());
    c.leave_def(true, "2#g!".to_string(), true);
    assert_eq!(c.check_if_dropped("x"), Ok(()));
    assert!(c.check_acc("x", "1#x", true, true, false, 9).is_ok());
    match c.check_acc("g!", "2#g!", false, false, false, 10) {
        Err(MoveError { name, used_at, moved_at }) => {
            assert_eq!((name.as_str(), used_at, moved_at), ("x", 10, 9));
        }
        other => panic!("{other:?}"),
    }
}

#[test]
fn a_definition_inside_a_closure_does_move() {
    let mut c = checker();
    c.define(Some("x".to_string()));
    c.enter_def("f!".to_string(), false, true);
    c.define(Some("y".to_string()));
    c.enter_def("y".to_string(), false, false);
    assert!(c.check_acc("x", "1#x", true, true, false, 5).is_ok());
    c.leave_def(false, "3#y".to_string(), false);
    c.leave_def(true, "2#f!".to_string(), true);
    assert_eq!(c.check_if_dropped("x"), Err(5));
}

#[test]
fn parameters_and_lambdas() {
    let mut c = checker();
    c.enter_def("f".to_string(), false, true);
    c.define_param("p".to_string());
    c.enter_lambda("0");
    assert!(c.check_acc("p", "k", true, true, false, 2).is_ok());
    c.leave_lambda();
    assert_eq!(c.check_if_dropped("p"), Ok(()));
    assert!(c.check_acc("p", "k", true, true, false, 3).is_ok());
    assert_eq!(c.check_if_dropped("p"), Err(3));
    c.leave_def(true, "1#f".to_string(), true);
    assert_eq!(c.check_if_dropped("p"), Ok(()));
}

#[test]
fn entering_the_same_module_twice_stays_in_it() {
    let mut c = checker();
    c.define(Some("x".to_string()));
    c.enter_module("main".to_string());
    assert!(c.check_acc("x", "1#x", true, true, false, 1).is_ok());
    assert_eq!(c.check_if_dropped("x"), Err(1));
}

#[test]
fn the_checker_keeps_the_store_graph() {
    let mut c = checker();
    c.add_store_edge("1#a".to_string(), "a".to_string(), "2#b".to_string(), "b".to_string(), 1);
    assert!(c.emit_cycle_errors().is_empty());
    c.add_store_edge("2#b".to_string(), "b".to_string(), "1#a".to_string(), "a".to_string(), 2);
    assert_eq!(c.emit_cycle_errors(), vec![(2, "a → b → a".to_string())]);
}

#[test]
fn captures_of_a_closure() {
    let mut c = checker();
    assert!(c.check_captures_alive("nothing").is_ok());
    c.record_captures("k".to_string(), true, vec![("::main".to_string(), "x".to_string())]);
    assert!(c.check_captures_alive("k").is_ok());
    c.define(Some("x".to_string()));
    c.drop("x", 7);
    assert_eq!(c.check_captures_alive("k"), Err(("x".to_string(), 7)));
    c.record_captures("j".to_string(), false, vec![("::main".to_string(), "x".to_string())]);
    assert!(c.check_captures_alive("j").is_ok());
}
