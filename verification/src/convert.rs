//! The numeric and textual conversions among the constant builtins:
//! `int`, `nat`, `ord`, `chr`, `bin`, `oct`, `hex`, and `round` of a
//! fraction.

use vstd::prelude::*;

use crate::args::{kw_position, take_arg, SpecArgs, ValueArgs};
use crate::const_func::{abs, missing, mismatch};
use crate::error::{not_foldable, not_passed, type_mismatch, value_error, view_result, EvalValueError, SpecError};
use crate::pyint::{digit_value, parse_py_int, py_int, spec_parse_py_int, spec_py_int, IntParse};
use crate::text::{
    chars_of, int_string, int_text, is_white_space, radix_chars, radix_digits, string_from, string_of,
    trim, trim_end, trim_start, unsigned_abs,
};
use crate::value::{SpecValue, ValueObj};

verus! {

/// A Unicode scalar value: a `char`.
pub open spec fn is_scalar_value(n: u32) -> bool {
    n <= 0xD7FF || (0xE000 <= n <= 0x10FFFF)
}

/// `char::from_u32` gives the character of code point `i`, or `None` for a
/// surrogate or a value past `0x10FFFF`.
pub assume_specification[ core::char::from_u32 ](i: u32) -> (r: Option<char>)
    ensures
        r is Some <==> is_scalar_value(i),
        r matches Some(c) ==> c as u32 == i && c == i as char,
;

/// The character of the code point `n`.
pub open spec fn char_of(n: u32) -> char {
    n as char
}

/// An `Int` constant for `i`, if it fits.
pub open spec fn int_value(i: int) -> Result<SpecValue, SpecError> {
    if i64::MIN <= i <= i64::MAX {
        Ok(SpecValue::Int(i as i64))
    } else {
        Err(too_large("int"@))
    }
}

/// `what`'s result does not fit an `Int`.
pub open spec fn too_large(what: Seq<char>) -> SpecError {
    SpecError::NotFoldable { what, operand: None, why: "the result does not fit an `Int`"@ }
}

fn int_value_exec(i: i128) -> (r: Result<ValueObj, EvalValueError>)
    ensures
        view_result(r) == int_value(i as int),
{
    if i64::MIN as i128 <= i && i <= i64::MAX as i128 {
        Ok(ValueObj::Int(i as i64))
    } else {
        Err(not_foldable("int", None, "the result does not fit an `Int`"))
    }
}

/// The text `int() base must be >= 2 and <= 36, or 0`.
pub open spec fn bad_base_message() -> Seq<char> {
    "int() base must be >= 2 and <= 36, or 0"@
}

/// The text of the `ValueError` for an invalid literal `s` in `radix`.
pub open spec fn invalid_literal_message(radix: nat, s: Seq<char>) -> Seq<char> {
    "invalid literal for int() with base "@ + int_text(radix as int) + ": "@ + s
}

/// `int obj` and `int(obj, base)`, as Python's `int()`: with a base, `obj`
/// must be a string.
pub open spec fn spec_int(args: SpecArgs) -> Result<SpecValue, SpecError> {
    let (a1, obj) = take_arg(args, "obj"@);
    let (_, base) = take_arg(a1, "base"@);
    match obj {
        None => Err(missing("obj"@)),
        Some(o) => match base {
            Some(b) => match spec_py_int(b) {
                Some(radix) if 0 <= radix <= u32::MAX => if radix != 0 && !(2 <= radix <= 36) {
                    Err(SpecError::ValueError { message: bad_base_message() })
                } else {
                    match o {
                        SpecValue::Str(s) => match spec_parse_py_int(s, radix as nat) {
                            IntParse::Parsed(i) => int_value(i as int),
                            IntParse::TooLarge => Err(too_large("int"@)),
                            IntParse::Invalid => Err(
                                SpecError::ValueError {
                                    message: invalid_literal_message(radix as nat, s),
                                },
                            ),
                        },
                        _ => Err(mismatch("Str"@, o, "obj"@)),
                    }
                },
                _ => Err(mismatch("0 or 2..36"@, b, "base"@)),
            },
            None => match spec_py_int(o) {
                Some(i) => int_value(i),
                None => Err(mismatch("Int-convertible"@, o, "obj"@)),
            },
        },
    }
}

fn concat3(a: &str, b: &str, c: &str) -> (r: String)
    ensures
        r@ == a@ + b@ + c@,
{
    let mut r = string_from(a);
    r.append(b);
    r.append(c);
    r
}

pub fn int_func(args: ValueArgs) -> (r: Result<ValueObj, EvalValueError>)
    ensures
        view_result(r) == spec_int(args@),
{
    let mut args = args;
    let obj = args.remove_left_or_key("obj");
    let Some(obj) = obj else {
        return Err(not_passed("obj"));
    };
    match args.remove_left_or_key("base") {
        Some(base) => {
            let radix = match py_int(&base) {
                Some(b) if 0 <= b && b <= u32::MAX as i128 => b as u32,
                _ => {
                    return Err(type_mismatch("0 or 2..36", base, "base"));
                },
            };
            if radix != 0 && !(2 <= radix && radix <= 36) {
                return Err(value_error(string_from("int() base must be >= 2 and <= 36, or 0")));
            }
            let s = match &obj {
                ValueObj::Str(s) => s,
                _ => {
                    return Err(type_mismatch("Str", obj, "obj"));
                },
            };
            match parse_py_int(s.as_str(), radix) {
                IntParse::Parsed(i) => int_value_exec(i),
                IntParse::TooLarge => Err(not_foldable("int", None, "the result does not fit an `Int`")),
                IntParse::Invalid => {
                    let rt = int_string(radix as i128);
                    let mut message = concat3(
                        "invalid literal for int() with base ",
                        rt.as_str(),
                        ": ",
                    );
                    message.append(s.as_str());
                    Err(value_error(message))
                },
            }
        },
        None => match py_int(&obj) {
            Some(i) => int_value_exec(i),
            None => Err(type_mismatch("Int-convertible", obj, "obj")),
        },
    }
}

/// The text of the `ValueError` for a negative `nat` argument.
pub open spec fn negative_nat_message(i: int) -> Seq<char> {
    "Nat can't be negative: "@ + int_text(i)
}

/// `nat obj`: as `int obj`, but a negative result raises.
pub open spec fn spec_nat(args: SpecArgs) -> Result<SpecValue, SpecError> {
    match take_arg(args, "obj"@).1 {
        None => Err(missing("obj"@)),
        Some(o) => match spec_py_int(o) {
            Some(i) => if i < 0 {
                Err(SpecError::ValueError { message: negative_nat_message(i) })
            } else if i <= u64::MAX {
                Ok(SpecValue::Nat(i as u64))
            } else {
                Err(
                    SpecError::NotFoldable {
                        what: "nat"@,
                        operand: None,
                        why: "the result does not fit a `Nat`"@,
                    },
                )
            },
            None => Err(mismatch("Nat-convertible"@, o, "obj"@)),
        },
    }
}

pub fn nat_func(args: ValueArgs) -> (r: Result<ValueObj, EvalValueError>)
    ensures
        view_result(r) == spec_nat(args@),
{
    let mut args = args;
    let Some(obj) = args.remove_left_or_key("obj") else {
        return Err(not_passed("obj"));
    };
    match py_int(&obj) {
        Some(i) => {
            if i < 0 {
                let mut message = string_from("Nat can't be negative: ");
                message.append(int_string(i).as_str());
                Err(value_error(message))
            } else if i <= u64::MAX as i128 {
                Ok(ValueObj::Nat(i as u64))
            } else {
                Err(not_foldable("nat", None, "the result does not fit a `Nat`"))
            }
        },
        None => Err(type_mismatch("Nat-convertible", obj, "obj")),
    }
}

/// The text of the `ValueError` of `ord` on a string of `n` characters.
pub open spec fn ord_length_message(n: nat) -> Seq<char> {
    "ord() expected a character, but string of length "@ + int_text(n as int) + " found"@
}

/// `ord c`: the code point of a one-character string.
pub open spec fn spec_ord(args: SpecArgs) -> Result<SpecValue, SpecError> {
    match take_arg(args, "c"@).1 {
        None => Err(missing("c"@)),
        Some(SpecValue::Str(s)) => if s.len() == 1 {
            Ok(SpecValue::Nat(s[0] as u64))
        } else {
            Err(SpecError::ValueError { message: ord_length_message(s.len()) })
        },
        Some(v) => Err(mismatch("Str"@, v, "c"@)),
    }
}

pub fn ord_func(args: ValueArgs) -> (r: Result<ValueObj, EvalValueError>)
    ensures
        view_result(r) == spec_ord(args@),
{
    let mut args = args;
    let Some(c) = args.remove_left_or_key("c") else {
        return Err(not_passed("c"));
    };
    let s = match &c {
        ValueObj::Str(s) => s,
        _ => {
            return Err(type_mismatch("Str", c, "c"));
        },
    };
    let n = s.as_str().unicode_len();
    if n == 1 {
        Ok(ValueObj::Nat(s.as_str().get_char(0) as u64))
    } else {
        let message = concat3(
            "ord() expected a character, but string of length ",
            int_string(n as i128).as_str(),
            " found",
        );
        Err(value_error(message))
    }
}

/// `chr i`: the one-character string of code point `i`.
pub open spec fn spec_chr(args: SpecArgs) -> Result<SpecValue, SpecError> {
    match take_arg(args, "i"@).1 {
        None => Err(missing("i"@)),
        Some(v) => match spec_py_int(v) {
            Some(n) if 0 <= n <= u32::MAX => if is_scalar_value(n as u32) {
                Ok(SpecValue::Str(seq![char_of(n as u32)]))
            } else if n <= 0x10FFFF {
                Err(
                    SpecError::NotFoldable {
                        what: "chr"@,
                        operand: None,
                        why: "a lone surrogate is not a `Str` here"@,
                    },
                )
            } else {
                Err(SpecError::ValueError { message: "chr() arg not in range(0x110000)"@ })
            },
            _ => Err(mismatch("0..1114111"@, v, "i"@)),
        },
    }
}

pub fn chr_func(args: ValueArgs) -> (r: Result<ValueObj, EvalValueError>)
    ensures
        view_result(r) == spec_chr(args@),
{
    let mut args = args;
    let Some(i) = args.remove_left_or_key("i") else {
        return Err(not_passed("i"));
    };
    let n = match py_int(&i) {
        Some(n) if 0 <= n && n <= u32::MAX as i128 => n as u32,
        _ => {
            return Err(type_mismatch("0..1114111", i, "i"));
        },
    };
    match core::char::from_u32(n) {
        Some(c) => {
            let mut cs: Vec<char> = Vec::new();
            cs.push(c);
            assert(cs@ =~= seq![char_of(n)]);
            Ok(ValueObj::Str(string_of(&cs)))
        },
        None => {
            if n <= 0x10FFFF {
                Err(not_foldable("chr", None, "a lone surrogate is not a `Str` here"))
            } else {
                Err(value_error(string_from("chr() arg not in range(0x110000)")))
            }
        },
    }
}

/// The text of the integer `i` in radix `radix` after `prefix`, with a
/// leading `-` when negative: `bin`, `oct` and `hex`.
pub open spec fn radix_text(i: int, prefix: Seq<char>, radix: nat) -> Seq<char> {
    (if i < 0 {
        seq!['-']
    } else {
        Seq::empty()
    }) + prefix + radix_digits(abs(i) as nat, radix)
}

/// `bin`, `oct` or `hex` of `val`, passed to `param`: an integral constant
/// that is no string.
pub open spec fn spec_radix_repr(val: SpecValue, param: Seq<char>, prefix: Seq<char>, radix: nat) -> Result<SpecValue, SpecError> {
    match spec_py_int(val) {
        Some(i) if !(val is Str) => Ok(SpecValue::Str(radix_text(i, prefix, radix))),
        _ => Err(mismatch("Int"@, val, param)),
    }
}

pub fn radix_repr(val: ValueObj, param: &str, prefix: &str, radix: u32) -> (r: Result<ValueObj, EvalValueError>)
    requires
        2 <= radix <= 36,
    ensures
        view_result(r) == spec_radix_repr(val@, param@, prefix@, radix as nat),
{
    let i = match py_int(&val) {
        Some(i) => {
            if let ValueObj::Str(_) = &val {
                return Err(type_mismatch("Int", val, param));
            }
            i
        },
        None => {
            return Err(type_mismatch("Int", val, param));
        },
    };
    let digits = radix_chars(unsigned_abs(i), radix);
    let mut out: Vec<char> = Vec::new();
    if i < 0 {
        out.push('-');
    }
    let ghost sign = out@;
    let pre = chars_of(prefix);
    let mut k: usize = 0;
    while k < pre.len()
        invariant
            k <= pre.len(),
            out@ == sign + pre@.subrange(0, k as int),
        decreases pre.len() - k,
    {
        out.push(pre[k]);
        k = k + 1;
        assert(out@ =~= sign + pre@.subrange(0, k as int));
    }
    assert(pre@.subrange(0, pre@.len() as int) =~= pre@);
    let ghost mid = out@;
    let mut k: usize = 0;
    while k < digits.len()
        invariant
            k <= digits.len(),
            out@ == mid + digits@.subrange(0, k as int),
        decreases digits.len() - k,
    {
        out.push(digits[k]);
        k = k + 1;
        assert(out@ =~= mid + digits@.subrange(0, k as int));
    }
    assert(digits@.subrange(0, digits@.len() as int) =~= digits@);
    assert(out@ =~= radix_text(i as int, prefix@, radix as nat));
    Ok(ValueObj::Str(string_of(&out)))
}

/// `bin n` (e.g. `bin 5 == "0b101"`).
pub open spec fn spec_bin(args: SpecArgs) -> Result<SpecValue, SpecError> {
    match take_arg(args, "n"@).1 {
        None => Err(missing("n"@)),
        Some(v) => spec_radix_repr(v, "n"@, "0b"@, 2),
    }
}

pub fn bin_func(args: ValueArgs) -> (r: Result<ValueObj, EvalValueError>)
    ensures
        view_result(r) == spec_bin(args@),
{
    let mut args = args;
    match args.remove_left_or_key("n") {
        None => Err(not_passed("n")),
        Some(v) => radix_repr(v, "n", "0b", 2),
    }
}

/// `oct X` (e.g. `oct 8 == "0o10"`).
pub open spec fn spec_oct(args: SpecArgs) -> Result<SpecValue, SpecError> {
    match take_arg(args, "X"@).1 {
        None => Err(missing("X"@)),
        Some(v) => spec_radix_repr(v, "X"@, "0o"@, 8),
    }
}

pub fn oct_func(args: ValueArgs) -> (r: Result<ValueObj, EvalValueError>)
    ensures
        view_result(r) == spec_oct(args@),
{
    let mut args = args;
    match args.remove_left_or_key("X") {
        None => Err(not_passed("X")),
        Some(v) => radix_repr(v, "X", "0o", 8),
    }
}

/// `hex n` (e.g. `hex 255 == "0xff"`).
pub open spec fn spec_hex(args: SpecArgs) -> Result<SpecValue, SpecError> {
    match take_arg(args, "n"@).1 {
        None => Err(missing("n"@)),
        Some(v) => spec_radix_repr(v, "n"@, "0x"@, 16),
    }
}

pub fn hex_func(args: ValueArgs) -> (r: Result<ValueObj, EvalValueError>)
    ensures
        view_result(r) == spec_hex(args@),
{
    let mut args = args;
    match args.remove_left_or_key("n") {
        None => Err(not_passed("n")),
        Some(v) => radix_repr(v, "n", "0x", 16),
    }
}

/// `num / den` rounded to the nearest integer, ties to the even one, as
/// Python rounds a `Fraction`.
pub open spec fn round_half_even(num: int, den: int) -> int {
    let f = num / den;
    let r = num % den;
    if 2 * r > den || (2 * r == den && f % 2 == 1) {
        f + 1
    } else {
        f
    }
}

/// `round` of the fraction `num / den` (`den > 0`), exactly: `None` when
/// the result does not fit an `Int`.
pub fn round_ratio(num: i128, den: i128) -> (r: Option<i64>)
    requires
        den > 0,
    ensures
        match r {
            Some(i) => i as int == round_half_even(num as int, den as int),
            None => !(i64::MIN <= round_half_even(num as int, den as int) <= i64::MAX),
        },
{
    let q0 = match num.checked_div(den) {
        Some(q) => q,
        None => {
            return None;
        },
    };
    let rest0 = match num.checked_rem(den) {
        Some(r) => r,
        None => {
            return None;
        },
    };
    proof {
        lemma_trunc_div_rem(num as int, den as int, q0 as int, rest0 as int);
    }
    let (q, rest) = if rest0 < 0 {
        (q0 - 1, rest0 + den)
    } else {
        (q0, rest0)
    };
    proof {
        assert(num == q * den + rest) by (nonlinear_arith)
            requires
                num == q0 * den + rest0,
                rest0 < 0 ==> q == q0 - 1 && rest == rest0 + den,
                rest0 >= 0 ==> q == q0 && rest == rest0,
        ;
        vstd::arithmetic::div_mod::lemma_fundamental_div_mod_converse(
            num as int,
            den as int,
            q as int,
            rest as int,
        );
    }
    let half = den / 2;
    let q_odd = q % 2 != 0;
    assert(q_odd == ((q as int) % 2 == 1));
    let round_up = rest > half || (den % 2 == 0 && rest == half && q_odd);
    assert(round_up == (2 * rest > den || (2 * rest == den && (q as int) % 2 == 1)));
    if round_up {
        assert(q < i128::MAX) by (nonlinear_arith)
            requires
                num == q * den + rest,
                0 < rest < den,
                den > 0,
                num <= i128::MAX,
        ;
    }
    let rounded: i128 = if round_up {
        q + 1
    } else {
        q
    };
    if i64::MIN as i128 <= rounded && rounded <= i64::MAX as i128 {
        Some(rounded as i64)
    } else {
        None
    }
}

/// Rust's truncating `/` and `%` on `num` and `den > 0` recompose `num`,
/// with a remainder of the sign of `num` and below `den` in magnitude.
proof fn lemma_trunc_div_rem(num: int, den: int, q: int, r: int)
    requires
        den > 0,
        i128::MIN <= num,
        num >= 0 ==> q == num / den && r == num % den,
        num < 0 ==> q == ((num * -1) / den) * -1 && r == ((num * -1) % den) * -1,
    ensures
        num == q * den + r,
        -den < r < den,
        r < 0 ==> q > i128::MIN,
{
    if num >= 0 {
        vstd::arithmetic::div_mod::lemma_fundamental_div_mod(num, den);
        vstd::arithmetic::div_mod::lemma_mod_bound(num, den);
        assert(num == q * den + r) by (nonlinear_arith)
            requires
                num == den * (num / den) + num % den,
                q == num / den,
                r == num % den,
        ;
    } else {
        let m = num * -1;
        vstd::arithmetic::div_mod::lemma_fundamental_div_mod(m, den);
        vstd::arithmetic::div_mod::lemma_mod_bound(m, den);
        assert(num == q * den + r) by (nonlinear_arith)
            requires
                m == num * -1,
                m == den * (m / den) + m % den,
                q == (m / den) * -1,
                r == (m % den) * -1,
        ;
        if r < 0 {
            assert(den >= 2) by {
                if den == 1 {
                    vstd::arithmetic::div_mod::lemma_fundamental_div_mod_converse(m, 1, m, 0);
                }
            }
            assert(m / den <= m / 2) by (nonlinear_arith)
                requires
                    den >= 2,
                    m >= 0,
                    m == den * (m / den) + m % den,
                    0 <= m % den,
                    m / den >= 0,
            ;
            assert(m / den >= 0) by (nonlinear_arith)
                requires
                    den >= 2,
                    m >= 0,
                    m == den * (m / den) + m % den,
                    0 <= m % den < den,
            ;
        }
    }
}

/// The prefix that `bin`, `oct` and `hex` write before the digits in `radix`.
pub open spec fn radix_prefix(radix: nat) -> Seq<char> {
    if radix == 2 {
        "0b"@
    } else if radix == 8 {
        "0o"@
    } else {
        "0x"@
    }
}

/// `int(bin(i), 0) == i`, and likewise for `oct` and `hex` and with the
/// radix given explicitly: the text that `bin`, `oct` and `hex` write is
/// read back by `int` as the same integer. (`i128::MIN`, whose magnitude
/// does not fit the reading, is the one integer left out.)
pub proof fn law_int_reads_back_radix_text(i: int, radix: nat)
    requires
        radix == 2 || radix == 8 || radix == 16,
        -i128::MAX <= i <= i128::MAX,
    ensures
        spec_parse_py_int(radix_text(i, radix_prefix(radix), radix), 0) == IntParse::Parsed(
            i as i128,
        ),
        spec_parse_py_int(radix_text(i, radix_prefix(radix), radix), radix) == IntParse::Parsed(
            i as i128,
        ),
{
    reveal_strlit("0b");
    reveal_strlit("0o");
    reveal_strlit("0x");
    let p = radix_prefix(radix);
    let m: nat = abs(i) as nat;
    let d = radix_digits(m, radix);
    crate::pyint::lemma_radix_digits_are_digits(m, radix);
    let t = radix_text(i, p, radix);
    let body = p + d;
    assert(digit_value(d.last(), radix) is Some);
    assert(t.last() == d.last());
    assert(!is_white_space(t[0]));
    assert(trim_start(t) == t);
    assert(!is_white_space(t.last()));
    assert(trim_end(t) == t);
    assert(trim(t) == t);
    if i < 0 {
        assert(t.drop_first() =~= body);
    } else {
        assert(t =~= body);
    }
    assert(body.skip(2) =~= d);
    crate::pyint::lemma_parse_digits_of(i < 0, m, radix, true);
}

/// `int(bin(n), 0) == int(n)`, and likewise for `oct` and `hex`, for every
/// constant `n` that they accept: reading back the text they write gives
/// the integer that `int` gives for `n` itself.
pub proof fn law_int_of_radix_repr(v: SpecValue, param: Seq<char>, radix: nat)
    requires
        radix == 2 || radix == 8 || radix == 16,
        spec_py_int(v) matches Some(i) && -i128::MAX <= i,
        !(v is Str),
    ensures
        spec_radix_repr(v, param, radix_prefix(radix), radix) matches Ok(SpecValue::Str(t))
            && spec_int(SpecArgs { pos: seq![SpecValue::Str(t), SpecValue::Nat(0)], kw: seq![] })
            == spec_int(SpecArgs { pos: seq![v], kw: seq![] }),
{
    let i = spec_py_int(v).unwrap();
    assert(i <= i128::MAX) by {
        if let SpecValue::Ratio(n, d) = v {
            if n >= 0 {
                assert(n as int / d as int <= n) by (nonlinear_arith)
                    requires
                        n >= 0,
                        d >= 1,
                ;
            } else {
                assert((-n) as int / d as int >= 0) by (nonlinear_arith)
                    requires
                        n < 0,
                        d >= 1,
                ;
            }
        }
    }
    law_int_reads_back_radix_text(i, radix);
    let t = radix_text(i, radix_prefix(radix), radix);
    let with_base = SpecArgs { pos: seq![SpecValue::Str(t), SpecValue::Nat(0)], kw: seq![] };
    assert(take_arg(with_base, "obj"@).0.pos =~= seq![SpecValue::Nat(0)]);
    assert(take_arg(take_arg(with_base, "obj"@).0, "base"@).1 == Some(SpecValue::Nat(0)));
    let plain = SpecArgs { pos: seq![v], kw: seq![] };
    assert(take_arg(plain, "obj"@).0.pos =~= Seq::<SpecValue>::empty());
    assert(take_arg(plain, "obj"@).0.kw =~= Seq::<(Seq<char>, SpecValue)>::empty());
    assert(kw_position(Seq::<(Seq<char>, SpecValue)>::empty(), "base"@) is None);
}

} // verus!
