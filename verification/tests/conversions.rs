use erg_compiler::args::ValueArgs;
use erg_compiler::convert::{
    bin_func, chr_func, hex_func, int_func, nat_func, oct_func, ord_func, radix_repr, round_ratio,
};
use erg_compiler::error::{ErrorKind, EvalValueError};
use erg_compiler::pyint::{parse_py_int, py_int, py_str, strip_py_separators, IntParse};
use erg_compiler::value::ValueObj;

fn call(f: fn(ValueArgs) -> Result<ValueObj, EvalValueError>, args: Vec<ValueObj>) -> Result<ValueObj, EvalValueError> {
    f(ValueArgs::pos_only(args))
}

fn text(s: &str) -> ValueObj {
    ValueObj::Str(s.to_string())
}

fn expect_str(r: Result<ValueObj, EvalValueError>, expected: &str) {
    match r {
        Ok(ValueObj::Str(s)) => assert_eq!(s, expected),
        other => panic!("expected the text {expected:?}, got {other:?}"),
    }
}

fn expect_int(r: Result<ValueObj, EvalValueError>, expected: i64) {
    match r {
        Ok(ValueObj::Int(i)) => assert_eq!(i, expected),
        other => panic!("expected the Int {expected}, got {other:?}"),
    }
}

fn expect_value_error(r: Result<ValueObj, EvalValueError>, message: &str) {
    match r {
        Err(EvalValueError::ValueError { message: m }) => assert_eq!(m, message),
        other => panic!("expected a ValueError {message:?}, got {other:?}"),
    }
}

#[test]
fn bin_of_five() {
    expect_str(call(bin_func, vec![ValueObj::Nat(5)]), "0b101");
}

#[test]
fn oct_of_eight() {
    expect_str(call(oct_func, vec![ValueObj::Nat(8)]), "0o10");
}

#[test]
fn hex_of_255() {
    expect_str(call(hex_func, vec![ValueObj::Int(255)]), "0xff");
}

#[test]
fn radix_texts_of_negatives_and_zero() {
    expect_str(call(bin_func, vec![ValueObj::Int(-5)]), "-0b101");
    expect_str(call(hex_func, vec![ValueObj::Int(-255)]), "-0xff");
    expect_str(call(oct_func, vec![ValueObj::Nat(0)]), "0o0");
    expect_str(call(bin_func, vec![ValueObj::Bool(true)]), "0b1");
    expect_str(call(hex_func, vec![ValueObj::Int(i64::MIN)]), "-0x8000000000000000");
}

#[test]
fn radix_text_of_a_fraction_truncates() {
    expect_str(call(hex_func, vec![ValueObj::Ratio(37, 2)]), "0x12");
}

#[test]
fn radix_repr_refuses_strings_and_missing_args() {
    match call(bin_func, vec![text("5")]) {
        Err(EvalValueError::TypeMismatch { expected, param, .. }) => {
            assert_eq!(expected, "Int");
            assert_eq!(param, "n");
        }
        other => panic!("{other:?}"),
    }
    match call(oct_func, vec![]) {
        Err(EvalValueError::NotPassed { param }) => assert_eq!(param, "X"),
        other => panic!("{other:?}"),
    }
    expect_str(radix_repr(ValueObj::Nat(35), "n", "", 36), "z");
}

#[test]
fn int_of_fraction_truncates_towards_zero() {
    expect_int(call(int_func, vec![ValueObj::Ratio(37, 10)]), 3);
    expect_int(call(int_func, vec![ValueObj::Ratio(-37, 10)]), -3);
}

#[test]
fn int_base_zero_rejects_redundant_leading_zeros() {
    expect_value_error(
        call(int_func, vec![text("010"), ValueObj::Nat(0)]),
        "invalid literal for int() with base 0: 010",
    );
    expect_int(call(int_func, vec![text("00"), ValueObj::Nat(0)]), 0);
    expect_int(call(int_func, vec![text("0_0"), ValueObj::Nat(0)]), 0);
}

#[test]
fn int_base_zero_reads_prefixes() {
    expect_int(call(int_func, vec![text("0x_ff"), ValueObj::Nat(0)]), 255);
    expect_int(call(int_func, vec![text(" -0b101\n"), ValueObj::Nat(0)]), -5);
    expect_int(call(int_func, vec![text("0O17"), ValueObj::Int(0)]), 15);
    expect_int(call(int_func, vec![text("ff"), ValueObj::Nat(16)]), 255);
    expect_int(call(int_func, vec![text("1_000"), ValueObj::Nat(10)]), 1000);
}

#[test]
fn int_rejects_misplaced_separators_and_double_signs() {
    expect_value_error(
        call(int_func, vec![text("1__0"), ValueObj::Nat(10)]),
        "invalid literal for int() with base 10: 1__0",
    );
    expect_value_error(
        call(int_func, vec![text("_1"), ValueObj::Nat(10)]),
        "invalid literal for int() with base 10: _1",
    );
    expect_value_error(
        call(int_func, vec![text("--1"), ValueObj::Nat(10)]),
        "invalid literal for int() with base 10: --1",
    );
}

#[test]
fn int_refuses_a_bad_base() {
    expect_value_error(
        call(int_func, vec![text("1"), ValueObj::Nat(1)]),
        "int() base must be >= 2 and <= 36, or 0",
    );
    match call(int_func, vec![text("1"), ValueObj::Int(-1)]) {
        Err(EvalValueError::TypeMismatch { expected, param, .. }) => {
            assert_eq!(expected, "0 or 2..36");
            assert_eq!(param, "base");
        }
        other => panic!("{other:?}"),
    }
}

#[test]
fn int_with_a_base_takes_only_strings() {
    match call(int_func, vec![ValueObj::Nat(5), ValueObj::Nat(10)]) {
        Err(e) => {
            assert_eq!(e.kind(), ErrorKind::TypeError);
            assert!(matches!(e, EvalValueError::TypeMismatch { .. }));
        }
        other => panic!("{other:?}"),
    }
}

#[test]
fn int_too_large_is_not_foldable() {
    match call(int_func, vec![text("99999999999999999999")]) {
        Err(e) => {
            assert_eq!(e.kind(), ErrorKind::NotConstExpr);
            assert!(matches!(e, EvalValueError::NotFoldable { .. }));
        }
        other => panic!("{other:?}"),
    }
    match call(int_func, vec![text(&"1".repeat(50)), ValueObj::Nat(10)]) {
        Err(EvalValueError::NotFoldable { .. }) => {}
        other => panic!("{other:?}"),
    }
    match call(int_func, vec![text(&"1".repeat(50))]) {
        Err(EvalValueError::TypeMismatch { expected, .. }) => assert_eq!(expected, "Int-convertible"),
        other => panic!("{other:?}"),
    }
}

#[test]
fn int_missing_argument() {
    match call(int_func, vec![]) {
        Err(EvalValueError::NotPassed { param }) => assert_eq!(param, "obj"),
        other => panic!("{other:?}"),
    }
}

#[test]
fn int_reads_back_bin_oct_hex() {
    for n in [0i64, 1, -1, 5, -5, 255, 4096, -123456789, i64::MAX, i64::MIN] {
        for f in [bin_func, oct_func, hex_func] {
            let t = match call(f, vec![ValueObj::Int(n)]) {
                Ok(ValueObj::Str(t)) => t,
                other => panic!("{other:?}"),
            };
            expect_int(call(int_func, vec![ValueObj::Str(t), ValueObj::Nat(0)]), n);
        }
    }
}

#[test]
fn int_reads_back_str() {
    for n in [0i64, 7, -42, i64::MAX, i64::MIN] {
        let t = py_str(&ValueObj::Int(n)).unwrap();
        expect_int(call(int_func, vec![ValueObj::Str(t)]), n);
    }
}

#[test]
fn nat_refuses_negatives() {
    expect_value_error(call(nat_func, vec![ValueObj::Int(-3)]), "Nat can't be negative: -3");
    match call(nat_func, vec![ValueObj::Int(3)]) {
        Ok(ValueObj::Nat(3)) => {}
        other => panic!("{other:?}"),
    }
    match call(nat_func, vec![ValueObj::NoneObj]) {
        Err(EvalValueError::TypeMismatch { expected, .. }) => assert_eq!(expected, "Nat-convertible"),
        other => panic!("{other:?}"),
    }
}

#[test]
fn ord_and_chr() {
    match call(ord_func, vec![text("a")]) {
        Ok(ValueObj::Nat(97)) => {}
        other => panic!("{other:?}"),
    }
    match call(ord_func, vec![text("é")]) {
        Ok(ValueObj::Nat(233)) => {}
        other => panic!("{other:?}"),
    }
    expect_value_error(
        call(ord_func, vec![text("ab")]),
        "ord() expected a character, but string of length 2 found",
    );
    expect_str(call(chr_func, vec![ValueObj::Nat(97)]), "a");
    expect_str(call(chr_func, vec![ValueObj::Int(0x1F600)]), "\u{1F600}");
    match call(chr_func, vec![ValueObj::Nat(0xD800)]) {
        Err(EvalValueError::NotFoldable { .. }) => {}
        other => panic!("{other:?}"),
    }
    expect_value_error(
        call(chr_func, vec![ValueObj::Nat(0x110000)]),
        "chr() arg not in range(0x110000)",
    );
}

#[test]
fn round_of_fractions_ties_to_even() {
    assert_eq!(round_ratio(5, 2), Some(2));
    assert_eq!(round_ratio(7, 2), Some(4));
    assert_eq!(round_ratio(-5, 2), Some(-2));
    assert_eq!(round_ratio(-7, 2), Some(-4));
    assert_eq!(round_ratio(37, 10), Some(4));
    assert_eq!(round_ratio(-37, 10), Some(-4));
    assert_eq!(round_ratio(1, 3), Some(0));
    assert_eq!(round_ratio(i128::MAX, 1), None);
    assert_eq!(round_ratio(i128::MIN, 1), None);
}

#[test]
fn parse_py_int_outcomes() {
    assert_eq!(parse_py_int("  12  ", 10), IntParse::Parsed(12));
    assert_eq!(parse_py_int("+7", 0), IntParse::Parsed(7));
    assert_eq!(parse_py_int("z", 36), IntParse::Parsed(35));
    assert_eq!(parse_py_int("0b", 0), IntParse::Invalid);
    assert_eq!(parse_py_int("0b_1", 0), IntParse::Parsed(1));
    assert_eq!(parse_py_int("12", 37), IntParse::Invalid);
    assert_eq!(parse_py_int("", 10), IntParse::Invalid);
    assert_eq!(
        parse_py_int("170141183460469231731687303715884105727", 10),
        IntParse::Parsed(i128::MAX)
    );
    assert_eq!(
        parse_py_int("170141183460469231731687303715884105728", 10),
        IntParse::TooLarge
    );
    assert_eq!(
        parse_py_int("-170141183460469231731687303715884105729", 10),
        IntParse::TooLarge
    );
}

#[test]
fn py_int_and_py_str() {
    assert_eq!(py_int(&ValueObj::Bool(true)), Some(1));
    assert_eq!(py_int(&text(" 42 ")), Some(42));
    assert_eq!(py_int(&text("4.2")), None);
    assert_eq!(py_int(&ValueObj::NoneObj), None);
    assert_eq!(py_str(&ValueObj::Ratio(3, 4)).as_deref(), Some("3/4"));
    assert_eq!(py_str(&ValueObj::Ratio(-6, 1)).as_deref(), Some("-6"));
    assert_eq!(py_str(&ValueObj::Bool(false)).as_deref(), Some("False"));
    assert_eq!(py_str(&ValueObj::NoneObj).as_deref(), Some("None"));
    assert_eq!(py_str(&ValueObj::Inf), None);
}

#[test]
fn strip_py_separators_between_digits_only() {
    assert_eq!(strip_py_separators("1_000.5").as_deref(), Some("1000.5"));
    assert_eq!(strip_py_separators("1.5").as_deref(), Some("1.5"));
    assert_eq!(strip_py_separators("1__0"), None);
    assert_eq!(strip_py_separators("_1"), None);
    assert_eq!(strip_py_separators("1_"), None);
    assert_eq!(strip_py_separators("1_.5"), None);
}

#[test]
fn the_least_i128_is_parsed() {
    assert_eq!(parse_py_int("-170141183460469231731687303715884105728", 10), IntParse::Parsed(i128::MIN));
    assert_eq!(parse_py_int("-0x80000000000000000000000000000000", 0), IntParse::Parsed(i128::MIN));
    assert_eq!(parse_py_int("170141183460469231731687303715884105728", 10), IntParse::TooLarge);
    assert_eq!(parse_py_int("-170141183460469231731687303715884105729", 10), IntParse::TooLarge);
    assert_eq!(parse_py_int("170141183460469231731687303715884105727", 10), IntParse::Parsed(i128::MAX));
    expect_value_error(
        call(nat_func, vec![ValueObj::Str("-170141183460469231731687303715884105728".to_string())]),
        "Nat can't be negative: -170141183460469231731687303715884105728",
    );
}

#[test]
fn a_sign_negates_or_keeps_the_integer() {
    for (s, b) in [("42", 10), ("0x_ff", 0), ("1_000", 10), ("170141183460469231731687303715884105727", 10), ("zz", 36)] {
        let IntParse::Parsed(i) = parse_py_int(s, b) else { panic!("{s} does not parse") };
        assert_eq!(parse_py_int(&format!("-{s}"), b), IntParse::Parsed(-i));
        assert_eq!(parse_py_int(&format!("+{s}"), b), IntParse::Parsed(i));
    }
}
