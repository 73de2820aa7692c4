use erg_compiler::error::ErrorKind;
use erg_compiler::eval_error::EvalError;

fn at() -> (String, (u32, u32)) {
    ("main.er".to_string(), (3, 7))
}

#[test]
fn errors_keep_where_they_arose() {
    let (input, loc) = at();
    let e = EvalError::not_const_expr(input, 12, loc, "f".to_string());
    assert_eq!(e.input, "main.er");
    assert_eq!(e.errno, 12);
    assert_eq!(e.loc, (3, 7));
    assert_eq!(e.caused_by, "f");
    assert_eq!(e.kind, ErrorKind::NotConstExpr);
    assert_eq!(e.message, "not a constant expression");
    assert!(e.hint.is_none());
}

#[test]
fn error_messages() {
    let (input, loc) = at();
    let e = EvalError::recursion_error(input, 0, loc, String::new());
    assert_eq!(e.kind, ErrorKind::RecursionError);
    assert!(e.message.starts_with("recursion depth limit exceeded"));
    let (input, loc) = at();
    let e = EvalError::cyclic_definition_error(input, 0, loc, String::new(), "A -> B -> A");
    assert_eq!(e.message, "cyclic definition detected: A -> B -> A");
    assert_eq!(e.kind, ErrorKind::RecursionError);
    let (input, loc) = at();
    let e = EvalError::zero_division(input, 0, loc, String::new());
    assert_eq!((e.kind, e.message.as_str()), (ErrorKind::ZeroDivisionError, "division by zero"));
    let (input, loc) = at();
    let e = EvalError::uncomputable_op(input, 0, loc, String::new(), "2 ** 100".to_string());
    assert_eq!(e.message, "`2 ** 100` cannot be evaluated at compile time");
    let (input, loc) = at();
    let e = EvalError::index_out_of_range(input, 0, loc, String::new(), 3, "5".to_string());
    assert_eq!(e.message, "has 3 elements, but tried to access the element at 5");
    assert_eq!(e.kind, ErrorKind::IndexError);
    let (input, loc) = at();
    let e = EvalError::invalid_literal(input, 0, loc, String::new());
    assert_eq!((e.kind, e.message.as_str()), (ErrorKind::SyntaxError, "invalid literal"));
}

#[test]
fn inexact_literal_carries_a_hint() {
    let (input, loc) = at();
    let e = EvalError::inexact_ratio_literal(input, 0, loc, String::new(), "6.62607015e-34".to_string());
    assert_eq!(e.message, "`6.62607015e-34` cannot be represented exactly at compile time");
    assert!(e.hint.unwrap().starts_with("folding it would not match the run-time value"));
}
