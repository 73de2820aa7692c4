use erg_compiler::const_func::_list_remove_all;
use erg_compiler::error::ErrorKind;
use erg_compiler::eval::{
    eval_and, eval_contains, eval_getitem, eval_or, eval_unary_val, op_to_name, try_get_op_kind_from_token,
    OpKind, TokenKind, UnaryError,
};
use erg_compiler::value::ValueObj;

fn op_of(kind: TokenKind) -> Option<OpKind> {
    try_get_op_kind_from_token(kind, "main.er".to_string(), 0, (1, 1), String::new()).ok()
}

fn same(a: &ValueObj, b: &ValueObj) -> bool {
    a.equals(b)
}

fn expect(r: Result<ValueObj, UnaryError>, expected: ValueObj) {
    match r {
        Ok(v) => assert!(same(&v, &expected), "expected {expected:?}, got {v:?}"),
        Err(e) => panic!("expected {expected:?}, got {e:?}"),
    }
}

fn expect_some(r: Option<ValueObj>, expected: ValueObj) {
    match r {
        Some(v) => assert!(same(&v, &expected), "expected {expected:?}, got {v:?}"),
        None => panic!("expected {expected:?}, got nothing"),
    }
}

fn text(s: &str) -> ValueObj {
    ValueObj::Str(s.to_string())
}

#[test]
fn operator_tokens_denote_their_operators() {
    assert_eq!(op_of(TokenKind::Plus), Some(OpKind::Add));
    assert_eq!(op_of(TokenKind::FloorDiv), Some(OpKind::FloorDiv));
    assert_eq!(op_of(TokenKind::Gre), Some(OpKind::Gt));
    assert_eq!(op_of(TokenKind::LessEq), Some(OpKind::Le));
    assert_eq!(op_of(TokenKind::AndOp), Some(OpKind::And));
    assert_eq!(op_of(TokenKind::PreMinus), Some(OpKind::Neg));
    assert_eq!(op_of(TokenKind::PreBitNot), Some(OpKind::Invert));
    assert_eq!(op_of(TokenKind::RightOpen), Some(OpKind::RightOpenRange));
    assert_eq!(op_to_name(op_of(TokenKind::Star).unwrap()), "__mul__");
}

#[test]
fn other_tokens_are_no_constant_operators() {
    for kind in [TokenKind::Symbol, TokenKind::ContainsOp, TokenKind::NatLit, TokenKind::Illegal] {
        let r = try_get_op_kind_from_token(kind, "main.er".to_string(), 4, (2, 5), "f".to_string());
        match r {
            Err(e) => {
                assert_eq!(e.kind, ErrorKind::NotConstExpr);
                assert_eq!(e.message, "not a constant expression");
                assert_eq!((e.errno, e.loc, e.caused_by.as_str()), (4, (2, 5), "f"));
            }
            Ok(op) => panic!("{kind:?} gave {op:?}"),
        }
    }
}

#[test]
fn unary_plus_turns_bools_into_nats() {
    expect(eval_unary_val(OpKind::Pos, ValueObj::Bool(true)), ValueObj::Nat(1));
    expect(eval_unary_val(OpKind::Pos, ValueObj::Bool(false)), ValueObj::Nat(0));
    expect(eval_unary_val(OpKind::Pos, ValueObj::Int(-3)), ValueObj::Int(-3));
    expect(eval_unary_val(OpKind::Pos, ValueObj::Ratio(1, 2)), ValueObj::Ratio(1, 2));
    assert_eq!(eval_unary_val(OpKind::Pos, text("a")).err(), Some(UnaryError::Uncomputable));
}

#[test]
fn negation_within_range() {
    expect(eval_unary_val(OpKind::Neg, ValueObj::Nat(5)), ValueObj::Int(-5));
    expect(eval_unary_val(OpKind::Neg, ValueObj::Int(-7)), ValueObj::Int(7));
    expect(eval_unary_val(OpKind::Neg, ValueObj::Bool(true)), ValueObj::Int(-1));
    expect(eval_unary_val(OpKind::Neg, ValueObj::Ratio(3, 4)), ValueObj::Ratio(-3, 4));
    expect(eval_unary_val(OpKind::Neg, ValueObj::Inf), ValueObj::NegInf);
    expect(eval_unary_val(OpKind::Neg, ValueObj::NegInf), ValueObj::Inf);
    expect(eval_unary_val(OpKind::Neg, ValueObj::Nat(i64::MAX as u64)), ValueObj::Int(-i64::MAX));
}

#[test]
fn negation_out_of_range_is_not_computable() {
    assert_eq!(eval_unary_val(OpKind::Neg, ValueObj::Nat(u64::MAX)).err(), Some(UnaryError::Uncomputable));
    assert_eq!(eval_unary_val(OpKind::Neg, ValueObj::Nat(1 << 63)).err(), Some(UnaryError::Uncomputable));
    assert_eq!(eval_unary_val(OpKind::Neg, ValueObj::Int(i64::MIN)).err(), Some(UnaryError::Uncomputable));
    assert_eq!(eval_unary_val(OpKind::Neg, ValueObj::Ratio(i128::MIN, 3)).err(), Some(UnaryError::Uncomputable));
    assert_eq!(eval_unary_val(OpKind::Neg, ValueObj::NoneObj).err(), Some(UnaryError::Uncomputable));
}

#[test]
fn complement_is_minus_the_successor() {
    expect(eval_unary_val(OpKind::Invert, ValueObj::Bool(true)), ValueObj::Int(-2));
    expect(eval_unary_val(OpKind::Invert, ValueObj::Bool(false)), ValueObj::Int(-1));
    expect(eval_unary_val(OpKind::Invert, ValueObj::Int(5)), ValueObj::Int(-6));
    expect(eval_unary_val(OpKind::Invert, ValueObj::Int(i64::MIN)), ValueObj::Int(i64::MAX));
    expect(eval_unary_val(OpKind::Invert, ValueObj::Nat(0)), ValueObj::Int(-1));
    assert_eq!(eval_unary_val(OpKind::Invert, ValueObj::Nat(u64::MAX)).err(), Some(UnaryError::Uncomputable));
    assert_eq!(eval_unary_val(OpKind::Invert, ValueObj::Ratio(1, 2)).err(), Some(UnaryError::Uncomputable));
}

#[test]
fn not_negates_bools_only() {
    expect(eval_unary_val(OpKind::Not, ValueObj::Bool(false)), ValueObj::Bool(true));
    assert_eq!(eval_unary_val(OpKind::Not, ValueObj::Int(0)).err(), Some(UnaryError::Uncomputable));
}

#[test]
fn binary_operators_are_not_unary() {
    assert_eq!(eval_unary_val(OpKind::Add, ValueObj::Int(1)).err(), Some(UnaryError::NotUnary));
    assert_eq!(eval_unary_val(OpKind::Mul, ValueObj::Nat(1)).err(), Some(UnaryError::NotUnary));
}

#[test]
fn negating_twice_and_complementing_twice_give_the_value_back() {
    for i in [0i64, 1, -1, 42, i64::MAX, i64::MIN + 1] {
        let once = eval_unary_val(OpKind::Neg, ValueObj::Int(i)).unwrap();
        expect(eval_unary_val(OpKind::Neg, once), ValueObj::Int(i));
    }
    for i in [0i64, 7, -8, i64::MAX, i64::MIN] {
        let once = eval_unary_val(OpKind::Invert, ValueObj::Int(i)).unwrap();
        expect(eval_unary_val(OpKind::Invert, once), ValueObj::Int(i));
    }
}

#[test]
fn or_and_on_bools_and_ints() {
    expect_some(eval_or(&ValueObj::Bool(true), &ValueObj::Bool(false)), ValueObj::Bool(true));
    expect_some(eval_or(&ValueObj::Bool(false), &ValueObj::Bool(false)), ValueObj::Bool(false));
    expect_some(eval_or(&ValueObj::Int(12), &ValueObj::Int(3)), ValueObj::Int(15));
    expect_some(eval_and(&ValueObj::Bool(true), &ValueObj::Bool(false)), ValueObj::Bool(false));
    expect_some(eval_and(&ValueObj::Int(12), &ValueObj::Int(10)), ValueObj::Int(8));
    expect_some(eval_and(&ValueObj::Int(-1), &ValueObj::Int(5)), ValueObj::Int(5));
    assert!(eval_or(&ValueObj::Int(1), &ValueObj::Nat(1)).is_none());
    assert!(eval_and(&ValueObj::NoneObj, &ValueObj::Bool(true)).is_none());
}

#[test]
fn containment_in_values() {
    let list = ValueObj::List(vec![ValueObj::Nat(1), ValueObj::Nat(2)]);
    assert_eq!(eval_contains(&list, &ValueObj::Nat(2)), Some(true));
    assert_eq!(eval_contains(&list, &ValueObj::Int(2)), Some(false));
    let tuple = ValueObj::Tuple(vec![text("a")]);
    assert_eq!(eval_contains(&tuple, &text("a")), Some(true));
    let set = ValueObj::SetObj(vec![]);
    assert_eq!(eval_contains(&set, &ValueObj::Nat(0)), Some(false));
    let dict = ValueObj::Dict(vec![(text("k"), ValueObj::Nat(1))]);
    assert_eq!(eval_contains(&dict, &text("k")), Some(true));
    assert_eq!(eval_contains(&dict, &ValueObj::Nat(1)), Some(false));
    assert_eq!(eval_contains(&text("hello"), &text("ell")), Some(true));
    assert_eq!(eval_contains(&text("hello"), &text("")), Some(true));
    assert_eq!(eval_contains(&text("hello"), &text("eh")), Some(false));
    assert_eq!(eval_contains(&text("hello"), &ValueObj::Nat(1)), None);
    assert_eq!(eval_contains(&ValueObj::Nat(3), &ValueObj::Nat(1)), None);
}

#[test]
fn subscripting_tuples_and_strings() {
    let tuple = ValueObj::Tuple(vec![ValueObj::Nat(10), text("x")]);
    match eval_getitem(&tuple, &ValueObj::Nat(1)) {
        Some(Ok(v)) => assert!(same(&v, &text("x"))),
        other => panic!("{other:?}"),
    }
    match eval_getitem(&tuple, &ValueObj::Int(0)) {
        Some(Ok(v)) => assert!(same(&v, &ValueObj::Nat(10))),
        other => panic!("{other:?}"),
    }
    assert!(matches!(eval_getitem(&tuple, &ValueObj::Nat(2)), Some(Err(2))));
    assert!(matches!(eval_getitem(&tuple, &ValueObj::Int(-1)), Some(Err(2))));
    assert!(matches!(eval_getitem(&tuple, &text("0")), Some(Err(2))));
    match eval_getitem(&text("héllo"), &ValueObj::Nat(1)) {
        Some(Ok(v)) => assert!(same(&v, &text("é"))),
        other => panic!("{other:?}"),
    }
    assert!(matches!(eval_getitem(&text("héllo"), &ValueObj::Nat(5)), Some(Err(5))));
    assert!(eval_getitem(&ValueObj::List(vec![ValueObj::Nat(1)]), &ValueObj::Nat(0)).is_none());
}

#[test]
fn containment_agrees_with_remove_all() {
    let l = vec![ValueObj::Nat(1), ValueObj::Nat(2), ValueObj::Nat(1)];
    for x in [ValueObj::Nat(1), ValueObj::Nat(2), ValueObj::Nat(3)] {
        let contained = eval_contains(&ValueObj::List(l.iter().map(|v| v.copy_value()).collect()), &x).unwrap();
        let removed = match _list_remove_all(ValueObj::List(l.iter().map(|v| v.copy_value()).collect()), x) {
            Ok(ValueObj::List(r)) => r,
            other => panic!("{other:?}"),
        };
        assert_eq!(contained, removed.len() < l.len());
    }
}

#[test]
fn de_morgan_on_folded_values() {
    for (a, b) in [(12i64, 10i64), (-1, 0), (i64::MIN, i64::MAX), (5, -6)] {
        let lhs = eval_unary_val(OpKind::Invert, eval_or(&ValueObj::Int(a), &ValueObj::Int(b)).unwrap()).unwrap();
        let na = eval_unary_val(OpKind::Invert, ValueObj::Int(a)).unwrap();
        let nb = eval_unary_val(OpKind::Invert, ValueObj::Int(b)).unwrap();
        assert!(same(&lhs, &eval_and(&na, &nb).unwrap()));
    }
    for (a, b) in [(true, false), (false, false), (true, true)] {
        let lhs = eval_unary_val(OpKind::Not, eval_and(&ValueObj::Bool(a), &ValueObj::Bool(b)).unwrap()).unwrap();
        let na = eval_unary_val(OpKind::Not, ValueObj::Bool(a)).unwrap();
        let nb = eval_unary_val(OpKind::Not, ValueObj::Bool(b)).unwrap();
        assert!(same(&lhs, &eval_or(&na, &nb).unwrap()));
    }
}
