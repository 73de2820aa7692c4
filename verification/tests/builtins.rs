use erg_compiler::args::ValueArgs;
use erg_compiler::const_func::{
    __range_getitem__, _list_insert_at, _list_remove_all, _list_remove_at, _list_reversed,
    abs_func, all_func, any_func, as_index, as_int, bool_func, if_func, int_abs, len_func, list_insert_at,
    list_remove_all, list_remove_at, list_reversed, not_func, num_abs, override_func, pred_func,
    reject_extra_args, reversed_func, str_endswith, str_find, str_func, str_isalpha, str_isascii,
    str_isdecimal, str_join, str_replace, str_startswith, succ_func, zip_func,
};
use erg_compiler::error::{ErrorKind, EvalValueError};
use erg_compiler::value::ValueObj;

fn call(f: fn(ValueArgs) -> Result<ValueObj, EvalValueError>, args: Vec<ValueObj>) -> Result<ValueObj, EvalValueError> {
    f(ValueArgs::pos_only(args))
}

fn text(s: &str) -> ValueObj {
    ValueObj::Str(s.to_string())
}

fn texts(items: &[&str]) -> ValueObj {
    ValueObj::List(items.iter().map(|s| text(s)).collect())
}

fn nats(items: &[u64]) -> ValueObj {
    ValueObj::List(items.iter().map(|n| ValueObj::Nat(*n)).collect())
}

fn same(a: &ValueObj, b: &ValueObj) -> bool {
    a.equals(b)
}

fn expect(r: Result<ValueObj, EvalValueError>, expected: ValueObj) {
    match r {
        Ok(v) => assert!(same(&v, &expected), "expected {expected:?}, got {v:?}"),
        Err(e) => panic!("expected {expected:?}, got the error {e:?}"),
    }
}

fn expect_mismatch(r: Result<ValueObj, EvalValueError>, expected_type: &str, parameter: &str) {
    match r {
        Err(EvalValueError::TypeMismatch { expected, param, .. }) => {
            assert_eq!(expected, expected_type);
            assert_eq!(param, parameter);
        }
        other => panic!("expected a type mismatch on {parameter}, got {other:?}"),
    }
}

fn expect_not_passed(r: Result<ValueObj, EvalValueError>, parameter: &str) {
    match r {
        Err(EvalValueError::NotPassed { param }) => assert_eq!(param, parameter),
        other => panic!("expected {parameter} to be missing, got {other:?}"),
    }
}

#[test]
fn join_puts_the_separator_between_elements() {
    expect(call(str_join, vec![text(", "), texts(&["a", "b"])]), text("a, b"));
    expect(call(str_join, vec![text("-"), texts(&[])]), text(""));
    expect(call(str_join, vec![text("::"), texts(&["x"])]), text("x"));
    expect_mismatch(call(str_join, vec![text(","), nats(&[1])]), "Str", "arr.next()");
    expect_mismatch(call(str_join, vec![text(","), ValueObj::Nat(1)]), "Iterable(Str)", "iterable");
    expect_mismatch(call(str_join, vec![ValueObj::Nat(1), texts(&["a"])]), "Str", "self");
}

#[test]
fn join_reads_keyword_arguments() {
    let args = ValueArgs::new(
        vec![],
        vec![
            ("iterable".to_string(), texts(&["p", "q"])),
            ("self".to_string(), text("+")),
        ],
    );
    expect(str_join(args), text("p+q"));
}

#[test]
fn replace_every_occurrence() {
    expect(call(str_replace, vec![text("aaa"), text("a"), text("b")]), text("bbb"));
    expect(call(str_replace, vec![text("aaa"), text("aa"), text("b")]), text("ba"));
    expect(call(str_replace, vec![text("ab"), text(""), text("-")]), text("-a-b-"));
    expect(call(str_replace, vec![text("abc"), text("x"), text("y")]), text("abc"));
    expect_not_passed(call(str_replace, vec![text("abc"), text("x")]), "new");
}

#[test]
fn prefixes_suffixes_and_find() {
    expect(call(str_startswith, vec![text("erg"), text("er")]), ValueObj::Bool(true));
    expect(call(str_startswith, vec![text("erg"), text("rg")]), ValueObj::Bool(false));
    expect(call(str_endswith, vec![text("erg"), text("rg")]), ValueObj::Bool(true));
    expect(call(str_endswith, vec![text("erg"), text("")]), ValueObj::Bool(true));
    expect(call(str_find, vec![text("hello"), text("l")]), ValueObj::Int(2));
    expect(call(str_find, vec![text("h\u{e9}llo"), text("l")]), ValueObj::Int(3));
    expect(call(str_find, vec![text("hello"), text("z")]), ValueObj::Int(-1));
    expect(call(str_find, vec![text("hello"), text("")]), ValueObj::Int(0));
    expect_mismatch(call(str_find, vec![text("hello"), ValueObj::Nat(1)]), "Str", "sub");
}

#[test]
fn character_classes() {
    expect(call(str_isalpha, vec![text("abc\u{e9}")]), ValueObj::Bool(true));
    expect(call(str_isalpha, vec![text("ab1")]), ValueObj::Bool(false));
    expect(call(str_isalpha, vec![text("")]), ValueObj::Bool(true));
    expect(call(str_isascii, vec![text("abc~")]), ValueObj::Bool(true));
    expect(call(str_isascii, vec![text("\u{e9}")]), ValueObj::Bool(false));
    expect(call(str_isdecimal, vec![text("0123")]), ValueObj::Bool(true));
    expect(call(str_isdecimal, vec![text("\u{661}")]), ValueObj::Bool(false));
    expect_mismatch(call(str_isdecimal, vec![ValueObj::Nat(1)]), "Str", "self");
}

#[test]
fn len_counts_elements_and_utf8_bytes() {
    expect(call(len_func, vec![nats(&[1, 2, 3])]), ValueObj::Nat(3));
    expect(call(len_func, vec![text("h\u{e9}")]), ValueObj::Nat(3));
    expect(
        call(len_func, vec![ValueObj::Record(vec![("a".to_string(), ValueObj::Nat(1))])]),
        ValueObj::Nat(1),
    );
    expect_mismatch(call(len_func, vec![ValueObj::Nat(3)]), "Container", "container");
}

#[test]
fn len_of_a_set_counts_its_distinct_elements() {
    let set = ValueObj::SetObj(vec![ValueObj::Nat(1), ValueObj::Nat(2), text("a")]);
    expect(call(len_func, vec![set]), ValueObj::Nat(3));
    let reversed = call(list_reversed, vec![nats(&[1, 2])]);
    expect(reversed, nats(&[2, 1]));
}

#[test]
fn all_and_any() {
    let bools = |v: &[bool]| ValueObj::List(v.iter().map(|b| ValueObj::Bool(*b)).collect());
    expect(call(all_func, vec![bools(&[true, true])]), ValueObj::Bool(true));
    expect(call(all_func, vec![bools(&[true, false])]), ValueObj::Bool(false));
    expect(call(all_func, vec![bools(&[])]), ValueObj::Bool(true));
    expect(call(any_func, vec![bools(&[false, true])]), ValueObj::Bool(true));
    expect(call(any_func, vec![bools(&[])]), ValueObj::Bool(false));
    expect_mismatch(call(any_func, vec![nats(&[1])]), "Bool", "iterable.next()");
    expect_mismatch(call(all_func, vec![text("x")]), "Iterable(Bool)", "iterable");
}

#[test]
fn bool_is_the_truth_value() {
    expect(call(bool_func, vec![]), ValueObj::Bool(false));
    expect(call(bool_func, vec![ValueObj::Int(0)]), ValueObj::Bool(false));
    expect(call(bool_func, vec![ValueObj::Nat(2)]), ValueObj::Bool(true));
    expect(call(bool_func, vec![ValueObj::Ratio(0, 1)]), ValueObj::Bool(false));
    expect(call(bool_func, vec![text("")]), ValueObj::Bool(false));
    expect(call(bool_func, vec![nats(&[0])]), ValueObj::Bool(true));
    expect(call(bool_func, vec![ValueObj::NoneObj]), ValueObj::Bool(false));
    expect(call(bool_func, vec![ValueObj::Ellipsis]), ValueObj::Bool(true));
    match call(bool_func, vec![ValueObj::Record(vec![])]) {
        Err(e) => assert_eq!(e.kind(), ErrorKind::NotConstExpr),
        other => panic!("{other:?}"),
    }
}

#[test]
fn str_of_constants() {
    expect(call(str_func, vec![ValueObj::Int(-12)]), text("-12"));
    expect(call(str_func, vec![ValueObj::Bool(true)]), text("True"));
    expect(call(str_func, vec![ValueObj::Ratio(1, 3)]), text("1/3"));
    expect(call(str_func, vec![text("as is")]), text("as is"));
    match call(str_func, vec![ValueObj::Inf]) {
        Err(EvalValueError::NotFoldable { .. }) => {}
        other => panic!("{other:?}"),
    }
    match call(str_func, vec![ValueObj::Nat(1), text("utf-8")]) {
        Err(e) => {
            assert_eq!(e.kind(), ErrorKind::FeatureError);
            assert!(matches!(e, EvalValueError::Unsupported { .. }));
        }
        other => panic!("{other:?}"),
    }
}

#[test]
fn reversed_and_zip() {
    expect(call(reversed_func, vec![nats(&[1, 2, 3])]), nats(&[3, 2, 1]));
    expect(
        call(reversed_func, vec![ValueObj::Tuple(vec![ValueObj::Nat(1), text("a")])]),
        ValueObj::List(vec![text("a"), ValueObj::Nat(1)]),
    );
    expect_mismatch(call(reversed_func, vec![ValueObj::SetObj(vec![])]), "Reversible", "seq");
    expect(
        call(zip_func, vec![nats(&[1, 2, 3]), texts(&["a", "b"])]),
        ValueObj::List(vec![
            ValueObj::Tuple(vec![ValueObj::Nat(1), text("a")]),
            ValueObj::Tuple(vec![ValueObj::Nat(2), text("b")]),
        ]),
    );
    expect_mismatch(call(zip_func, vec![nats(&[1]), ValueObj::Nat(2)]), "Iterable(T)", "iterable2");
}

#[test]
fn succ_and_pred() {
    expect(call(succ_func, vec![ValueObj::Nat(1)]), ValueObj::Nat(2));
    expect(call(succ_func, vec![ValueObj::Bool(true)]), ValueObj::Nat(2));
    expect(call(succ_func, vec![ValueObj::Int(-1)]), ValueObj::Int(0));
    expect(call(succ_func, vec![ValueObj::Inf]), ValueObj::Inf);
    expect(call(pred_func, vec![ValueObj::Nat(0)]), ValueObj::Nat(0));
    expect(call(pred_func, vec![ValueObj::Bool(true)]), ValueObj::Nat(0));
    expect(call(pred_func, vec![ValueObj::Int(0)]), ValueObj::Int(-1));
    expect(call(pred_func, vec![ValueObj::NegInf]), ValueObj::NegInf);
    expect_mismatch(call(pred_func, vec![text("1")]), "Number", "n");
}

#[test]
fn abs_of_numbers() {
    expect(call(abs_func, vec![ValueObj::Int(-5)]), ValueObj::Nat(5));
    expect(call(abs_func, vec![ValueObj::Int(i64::MIN)]), ValueObj::Nat(1 << 63));
    expect(call(abs_func, vec![ValueObj::Ratio(-3, 4)]), ValueObj::Ratio(3, 4));
    expect(call(abs_func, vec![ValueObj::NegInf]), ValueObj::Inf);
    match call(num_abs, vec![ValueObj::Ratio(i128::MIN, 1)]) {
        Err(EvalValueError::NotFoldable { .. }) => {}
        other => panic!("{other:?}"),
    }
    expect_mismatch(call(num_abs, vec![text("x")]), "Num", "self");
    expect(call(int_abs, vec![ValueObj::Int(-7)]), ValueObj::Nat(7));
    expect(call(int_abs, vec![ValueObj::Bool(true)]), ValueObj::Nat(1));
    expect_mismatch(call(int_abs, vec![ValueObj::Int(1 << 40)]), "Int", "self");
}

#[test]
fn abs_is_idempotent_on_integers() {
    for i in [-9i64, 0, 9, i64::MIN] {
        let once = call(abs_func, vec![ValueObj::Int(i)]).unwrap();
        let twice = call(abs_func, vec![once.copy_value()]).unwrap();
        assert!(same(&once, &twice));
    }
}

#[test]
fn not_negates_and_twice_gives_back() {
    expect(call(not_func, vec![ValueObj::Bool(true)]), ValueObj::Bool(false));
    let twice = call(not_func, vec![call(not_func, vec![ValueObj::Bool(false)]).unwrap()]);
    expect(twice, ValueObj::Bool(false));
    expect_mismatch(call(not_func, vec![ValueObj::Nat(0)]), "Bool", "b");
    expect_not_passed(call(not_func, vec![]), "b");
}

#[test]
fn list_operations() {
    expect(call(list_reversed, vec![nats(&[1, 2])]), nats(&[2, 1]));
    expect(
        call(list_insert_at, vec![nats(&[1, 3]), ValueObj::Nat(1), ValueObj::Nat(2)]),
        nats(&[1, 2, 3]),
    );
    expect(call(list_remove_at, vec![nats(&[1, 2, 3]), ValueObj::Int(0)]), nats(&[2, 3]));
    expect(call(list_remove_all, vec![nats(&[1, 2, 1, 3]), ValueObj::Nat(1)]), nats(&[2, 3]));
    expect_mismatch(
        call(list_remove_at, vec![nats(&[1]), ValueObj::Int(-1)]),
        "Nat",
        "Index",
    );
    expect_not_passed(call(list_insert_at, vec![nats(&[1]), ValueObj::Nat(0)]), "Value");
}

#[test]
fn list_laws_on_values() {
    let l = nats(&[4, 5, 6]);
    let back = call(list_reversed, vec![call(list_reversed, vec![l.copy_value()]).unwrap()]);
    expect(back, l.copy_value());
    let inserted =
        call(list_insert_at, vec![l.copy_value(), ValueObj::Nat(3), text("x")]).unwrap();
    expect(call(list_remove_at, vec![inserted, ValueObj::Nat(3)]), l.copy_value());
    let with_dups = nats(&[7, 4, 7, 7]);
    let once = call(list_remove_all, vec![with_dups, ValueObj::Nat(7)]).unwrap();
    expect(call(list_remove_all, vec![once.copy_value(), ValueObj::Nat(7)]), once);
}

#[test]
fn list_helpers_report_their_failures() {
    match _list_reversed(ValueObj::Nat(1)) {
        Err(m) => assert_eq!(m, "Cannot reverse a non-list"),
        other => panic!("{other:?}"),
    }
    match _list_insert_at(nats(&[1]), 2, ValueObj::Nat(0)) {
        Err(m) => assert_eq!(m, "Index out of range: 2"),
        other => panic!("{other:?}"),
    }
    match _list_remove_at(nats(&[1]), 1) {
        Err(m) => assert_eq!(m, "Index out of range: 1"),
        other => panic!("{other:?}"),
    }
    match _list_remove_all(text("x"), ValueObj::Nat(0)) {
        Err(m) => assert_eq!(m, "Cannot remove from a non-list"),
        other => panic!("{other:?}"),
    }
    match _list_insert_at(ValueObj::NoneObj, 0, ValueObj::Nat(0)) {
        Err(m) => assert_eq!(m, "Cannot insert into a non-list"),
        other => panic!("{other:?}"),
    }
    assert!(_list_remove_at(nats(&[1]), 0).unwrap().equals(&nats(&[])));
}

#[test]
fn indices_and_small_ints() {
    assert_eq!(as_index(&ValueObj::Nat(3)), Some(3));
    assert_eq!(as_index(&ValueObj::Int(-3)), None);
    assert_eq!(as_index(&ValueObj::Bool(true)), None);
    assert_eq!(as_int(&ValueObj::Bool(true)), Some(1));
    assert_eq!(as_int(&ValueObj::Int(-5)), Some(-5));
    assert_eq!(as_int(&ValueObj::Nat(1 << 31)), None);
}

#[test]
fn range_getitem_counts_from_start() {
    let range = |start: u64, end: u64| ValueObj::DataClass {
        name: "Range".to_string(),
        fields: vec![
            ("start".to_string(), ValueObj::Nat(start)),
            ("end".to_string(), ValueObj::Nat(end)),
        ],
    };
    expect(call(__range_getitem__, vec![range(2, 5), ValueObj::Nat(1)]), ValueObj::Nat(3));
    match call(__range_getitem__, vec![range(2, 5), ValueObj::Nat(3)]) {
        Err(EvalValueError::IndexError { message }) => assert_eq!(message, "Index out of range: 3"),
        other => panic!("{other:?}"),
    }
    let no_end = ValueObj::DataClass {
        name: "Range".to_string(),
        fields: vec![("start".to_string(), ValueObj::Nat(0))],
    };
    match call(__range_getitem__, vec![no_end, ValueObj::Nat(0)]) {
        Err(e) => {
            assert_eq!(e.kind(), ErrorKind::KeyError);
            assert!(matches!(e, EvalValueError::NoKey { .. }));
        }
        other => panic!("{other:?}"),
    }
    expect_mismatch(call(__range_getitem__, vec![nats(&[1]), ValueObj::Nat(0)]), "Range", "Self");
}

#[test]
fn override_and_extra_arguments() {
    expect(call(override_func, vec![text("f")]), text("f"));
    expect_not_passed(call(override_func, vec![]), "func");
    assert!(reject_extra_args(&ValueArgs::empty(), "Option", 1).is_ok());
    match reject_extra_args(&ValueArgs::pos_only(vec![ValueObj::Nat(1)]), "Option", 1) {
        Err(EvalValueError::TooManyArgs { name, count }) => {
            assert_eq!(name, "Option");
            assert_eq!(count, 1);
        }
        other => panic!("{other:?}"),
    }
}

#[test]
fn if_picks_a_branch_by_a_bool() {
    let t = ValueObj::Bool(true);
    let f = ValueObj::Bool(false);
    expect(call(if_func, vec![t, ValueObj::Nat(1), ValueObj::Nat(2)]), ValueObj::Nat(1));
    expect(call(if_func, vec![ValueObj::Bool(false), ValueObj::Nat(1), ValueObj::Nat(2)]), ValueObj::Nat(2));
    expect(call(if_func, vec![f, ValueObj::Nat(1)]), ValueObj::NoneObj);
    expect_mismatch(call(if_func, vec![ValueObj::Nat(1), ValueObj::Nat(1)]), "Bool", "cond");
    expect_not_passed(call(if_func, vec![ValueObj::Bool(true)]), "then");
    expect_not_passed(call(if_func, vec![]), "cond");
}
