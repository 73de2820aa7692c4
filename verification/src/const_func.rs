//! The builtin functions that the compiler evaluates at compile time on
//! constant arguments (`len`, `int`, `str.replace`, ...).
//!
//! Each takes the call's arguments, binds the parameters in order (the
//! leftmost positional argument, or else the keyword argument of the
//! parameter's name), and returns the value the call has at run time, or
//! the reason it cannot be folded.

use vstd::prelude::*;

use crate::args::{kw_position, take_arg, SpecArgs, ValueArgs};
use crate::pyint::{py_str, spec_py_str};
use crate::text::{chars_of, int_string, int_text, string_from, string_of};
use crate::error::{
    index_error, no_key, not_foldable, not_passed, too_many_args, type_mismatch, unsupported,
    value_error, view_result, EvalValueError, SpecError,
};
use crate::value::{
    lemma_view_fields, lemma_view_values, lemma_view_values_ext, lemma_well_formed_values,
    view_fields, view_value, view_values, well_formed_value, SpecValue, ValueObj,
};

verus! {

/// The parameter `param` received no argument.
pub open spec fn missing(param: Seq<char>) -> SpecError {
    SpecError::NotPassed { param }
}

/// `got` is passed to `param` but is not an `expected`.
pub open spec fn mismatch(expected: Seq<char>, got: SpecValue, param: Seq<char>) -> SpecError {
    SpecError::TypeMismatch { expected, got, param }
}

/// The type aliases take a fixed number of arguments; anything left over is
/// refused rather than dropped.
pub fn reject_extra_args(args: &ValueArgs, name: &str, expected: usize) -> (r: Result<
    (),
    EvalValueError,
>)
    ensures
        r is Ok <==> (args@.pos.len() == 0 && args@.kw.len() == 0),
        r matches Err(e) ==> e@ == (SpecError::TooManyArgs { name: name@, count: expected }),
{
    if args.is_empty() {
        Ok(())
    } else {
        Err(too_many_args(name, expected))
    }
}

/// `override(func)`: marks a method as overriding, and is `func` itself.
pub open spec fn spec_override(args: SpecArgs) -> Result<SpecValue, SpecError> {
    match take_arg(args, "func"@).1 {
        Some(f) => Ok(f),
        None => Err(missing("func"@)),
    }
}

pub fn override_func(args: ValueArgs) -> (r: Result<ValueObj, EvalValueError>)
    ensures
        view_result(r) == spec_override(args@),
{
    let mut args = args;
    match args.remove_left_or_key("func") {
        Some(f) => Ok(f),
        None => Err(not_passed("func")),
    }
}

/// `a` in reverse order.
fn reversed(a: Vec<ValueObj>) -> (r: Vec<ValueObj>)
    ensures
        view_values(r@) == view_values(a@).reverse(),
{
    let ghost orig = a@;
    let mut a = a;
    let mut r: Vec<ValueObj> = Vec::new();
    while a.len() > 0
        invariant
            a@.len() + r@.len() == orig.len(),
            a@ == orig.subrange(0, a@.len() as int),
            forall|k: int| 0 <= k < r@.len() ==> #[trigger] r@[k] == orig[orig.len() - 1 - k],
        decreases a.len(),
    {
        let x = a.pop().unwrap();
        r.push(x);
    }
    proof {
        lemma_view_values(orig);
        lemma_view_values(r@);
        lemma_view_values_ext(r@, view_values(orig).reverse());
    }
    r
}

/// The value of `v` as a `usize` index, as `usize::try_from` gives it.
pub open spec fn spec_as_index(v: SpecValue) -> Option<nat> {
    match v {
        SpecValue::Nat(n) => if n <= usize::MAX {
            Some(n as nat)
        } else {
            None
        },
        SpecValue::Int(i) => if 0 <= i <= usize::MAX {
            Some(i as nat)
        } else {
            None
        },
        _ => None,
    }
}

pub fn as_index(v: &ValueObj) -> (r: Option<usize>)
    ensures
        match r {
            Some(i) => spec_as_index(v@) == Some(i as nat),
            None => spec_as_index(v@) is None,
        },
{
    match v {
        ValueObj::Nat(n) => {
            if *n as u128 <= usize::MAX as u128 {
                Some(*n as usize)
            } else {
                None
            }
        },
        ValueObj::Int(i) => {
            if *i >= 0 && *i as u128 <= usize::MAX as u128 {
                Some(*i as usize)
            } else {
                None
            }
        },
        _ => None,
    }
}

/// `lis` in reverse order; anything but a list cannot be reversed.
pub fn _list_reversed(lis: ValueObj) -> (r: Result<ValueObj, String>)
    ensures
        lis@ is List ==> (r matches Ok(v) && v@ == SpecValue::List(lis@->List_0.reverse())),
        !(lis@ is List) ==> (r matches Err(m) && m@ == "Cannot reverse a non-list"@),
{
    match lis {
        ValueObj::List(a) => Ok(ValueObj::List(reversed(a))),
        _ => Err(string_from("Cannot reverse a non-list")),
    }
}

/// `lis.reversed()`: the list in reverse order.
pub open spec fn spec_list_reversed(args: SpecArgs) -> Result<SpecValue, SpecError> {
    match take_arg(args, "Self"@).1 {
        None => Err(missing("Self"@)),
        Some(l) => Ok(SpecValue::List(l->List_0.reverse())),
    }
}

pub fn list_reversed(args: ValueArgs) -> (r: Result<ValueObj, EvalValueError>)
    requires
        take_arg(args@, "Self"@).1 matches Some(l) ==> l is List,
    ensures
        view_result(r) == spec_list_reversed(args@),
{
    let mut args = args;
    let Some(lis) = args.remove_left_or_key("Self") else {
        return Err(not_passed("Self"));
    };
    match _list_reversed(lis) {
        Ok(v) => Ok(v),
        Err(_) => Err(not_passed("Self")),
    }
}

/// `lis` with `value` inserted before the element at `index`; the index
/// may be at most the length, and anything but a list takes no insertion.
pub fn _list_insert_at(lis: ValueObj, index: usize, value: ValueObj) -> (r: Result<
    ValueObj,
    String,
>)
    ensures
        lis@ is List && index <= lis@->List_0.len() ==> (r matches Ok(v) && v@ == SpecValue::List(
            lis@->List_0.insert(index as int, value@),
        )),
        lis@ is List && index > lis@->List_0.len() ==> (r matches Err(m) && m@ == "Index out of range: "@
            + int_text(index as int)),
        !(lis@ is List) ==> (r matches Err(m) && m@ == "Cannot insert into a non-list"@),
{
    match lis {
        ValueObj::List(a) => {
            let mut a = a;
            let ghost old_a = a@;
            let ghost vv = value@;
            proof {
                lemma_view_values(old_a);
            }
            if index > a.len() {
                let mut message = string_from("Index out of range: ");
                message.append(int_string(index as i128).as_str());
                return Err(message);
            }
            a.insert(index, value);
            proof {
                lemma_view_values(a@);
                lemma_view_values_ext(a@, view_values(old_a).insert(index as int, vv));
            }
            Ok(ValueObj::List(a))
        },
        _ => Err(string_from("Cannot insert into a non-list")),
    }
}

/// `lis.insert_at(index, value)`: the list with `value` inserted before the
/// element at `index`.
pub open spec fn spec_list_insert_at(args: SpecArgs) -> Result<SpecValue, SpecError> {
    let (a1, lis) = take_arg(args, "Self"@);
    let (a2, index) = take_arg(a1, "Index"@);
    let (_, value) = take_arg(a2, "Value"@);
    if lis is None {
        Err(missing("Self"@))
    } else if index is None {
        Err(missing("Index"@))
    } else if value is None {
        Err(missing("Value"@))
    } else {
        match spec_as_index(index->0) {
            None => Err(mismatch("Nat"@, index->0, "Index"@)),
            Some(i) => Ok(SpecValue::List(lis->0->List_0.insert(i as int, value->0))),
        }
    }
}

/// The arguments of `insert_at` that the list operation accepts: the
/// receiver is a list and the index is at most its length.
pub open spec fn insert_at_defined(args: SpecArgs) -> bool {
    let (a1, lis) = take_arg(args, "Self"@);
    let (a2, index) = take_arg(a1, "Index"@);
    let (_, value) = take_arg(a2, "Value"@);
    match (lis, index, value) {
        (Some(l), Some(ix), Some(_)) => match spec_as_index(ix) {
            Some(i) => l is List && i <= l->List_0.len(),
            None => true,
        },
        _ => true,
    }
}

pub fn list_insert_at(args: ValueArgs) -> (r: Result<ValueObj, EvalValueError>)
    requires
        insert_at_defined(args@),
    ensures
        view_result(r) == spec_list_insert_at(args@),
{
    let mut args = args;
    let lis = args.remove_left_or_key("Self");
    let index = args.remove_left_or_key("Index");
    let value = args.remove_left_or_key("Value");
    let Some(lis) = lis else {
        return Err(not_passed("Self"));
    };
    let Some(index) = index else {
        return Err(not_passed("Index"));
    };
    let Some(value) = value else {
        return Err(not_passed("Value"));
    };
    let Some(i) = as_index(&index) else {
        return Err(type_mismatch("Nat", index, "Index"));
    };
    match _list_insert_at(lis, i, value) {
        Ok(v) => Ok(v),
        Err(_) => Err(not_passed("Self")),
    }
}

/// `lis` without the element at `index`; the index must be below the
/// length, and anything but a list has nothing to remove.
pub fn _list_remove_at(lis: ValueObj, index: usize) -> (r: Result<ValueObj, String>)
    ensures
        lis@ is List && index < lis@->List_0.len() ==> (r matches Ok(v) && v@ == SpecValue::List(
            lis@->List_0.remove(index as int),
        )),
        lis@ is List && index >= lis@->List_0.len() ==> (r matches Err(m) && m@
            == "Index out of range: "@ + int_text(index as int)),
        !(lis@ is List) ==> (r matches Err(m) && m@ == "Cannot remove from a non-list"@),
{
    match lis {
        ValueObj::List(a) => {
            let mut a = a;
            let ghost old_a = a@;
            proof {
                lemma_view_values(old_a);
            }
            if index >= a.len() {
                let mut message = string_from("Index out of range: ");
                message.append(int_string(index as i128).as_str());
                return Err(message);
            }
            a.remove(index);
            proof {
                lemma_view_values(a@);
                lemma_view_values_ext(a@, view_values(old_a).remove(index as int));
            }
            Ok(ValueObj::List(a))
        },
        _ => Err(string_from("Cannot remove from a non-list")),
    }
}

/// `lis.remove_at(index)`: the list without the element at `index`.
pub open spec fn spec_list_remove_at(args: SpecArgs) -> Result<SpecValue, SpecError> {
    let (a1, lis) = take_arg(args, "Self"@);
    let (_, index) = take_arg(a1, "Index"@);
    if lis is None {
        Err(missing("Self"@))
    } else if index is None {
        Err(missing("Index"@))
    } else {
        match spec_as_index(index->0) {
            None => Err(mismatch("Nat"@, index->0, "Index"@)),
            Some(i) => Ok(SpecValue::List(lis->0->List_0.remove(i as int))),
        }
    }
}

/// The arguments of `remove_at` that the list operation accepts: the
/// receiver is a list and the index is below its length.
pub open spec fn remove_at_defined(args: SpecArgs) -> bool {
    let (a1, lis) = take_arg(args, "Self"@);
    let (_, index) = take_arg(a1, "Index"@);
    match (lis, index) {
        (Some(l), Some(ix)) => match spec_as_index(ix) {
            Some(i) => l is List && i < l->List_0.len(),
            None => true,
        },
        _ => true,
    }
}

pub fn list_remove_at(args: ValueArgs) -> (r: Result<ValueObj, EvalValueError>)
    requires
        remove_at_defined(args@),
    ensures
        view_result(r) == spec_list_remove_at(args@),
{
    let mut args = args;
    let lis = args.remove_left_or_key("Self");
    let index = args.remove_left_or_key("Index");
    let Some(lis) = lis else {
        return Err(not_passed("Self"));
    };
    let Some(index) = index else {
        return Err(not_passed("Index"));
    };
    let Some(i) = as_index(&index) else {
        return Err(type_mismatch("Nat", index, "Index"));
    };
    match _list_remove_at(lis, i) {
        Ok(v) => Ok(v),
        Err(_) => Err(not_passed("Self")),
    }
}

/// `s` without the elements equal to `x`, in order.
pub open spec fn without_value(s: Seq<SpecValue>, x: SpecValue) -> Seq<SpecValue>
    decreases s.len(),
{
    if s.len() == 0 {
        s
    } else if s.last() == x {
        without_value(s.drop_last(), x)
    } else {
        without_value(s.drop_last(), x).push(s.last())
    }
}

/// `lis` without the elements equal to `value`, in order; anything but a
/// list has nothing to remove.
pub fn _list_remove_all(lis: ValueObj, value: ValueObj) -> (r: Result<ValueObj, String>)
    ensures
        lis@ is List ==> (r matches Ok(v) && v@ == SpecValue::List(
            without_value(lis@->List_0, value@),
        )),
        !(lis@ is List) ==> (r matches Err(m) && m@ == "Cannot remove from a non-list"@),
{
    match lis {
        ValueObj::List(a) => {
            let ghost orig = a@;
            proof {
                lemma_view_values(orig);
            }
            let mut kept: Vec<ValueObj> = Vec::new();
            let mut j: usize = 0;
            while j < a.len()
                invariant
                    a@ == orig,
                    j <= a@.len(),
                    view_values(kept@) == without_value(
                        view_values(orig).subrange(0, j as int),
                        value@,
                    ),
                    view_values(orig).len() == orig.len(),
                    forall|k: int|
                        0 <= k < orig.len() ==> #[trigger] view_values(orig)[k] == view_value(
                            orig[k],
                        ),
                decreases a.len() - j,
            {
                assert(view_values(orig).subrange(0, j + 1).drop_last() =~= view_values(
                    orig,
                ).subrange(0, j as int));
                assert(view_values(orig).subrange(0, j + 1).last() == a@[j as int]@);
                if !a[j].equals(&value) {
                    let ghost before = kept@;
                    kept.push(a[j].copy_value());
                    proof {
                        assert(kept@.drop_last() =~= before);
                    }
                }
                j = j + 1;
            }
            assert(view_values(orig).subrange(0, orig.len() as int) =~= view_values(orig));
            Ok(ValueObj::List(kept))
        },
        _ => Err(string_from("Cannot remove from a non-list")),
    }
}

/// `lis.remove_all(value)`: the list without the elements equal to `value`.
pub open spec fn spec_list_remove_all(args: SpecArgs) -> Result<SpecValue, SpecError> {
    let (a1, lis) = take_arg(args, "Self"@);
    let (_, value) = take_arg(a1, "Value"@);
    if lis is None {
        Err(missing("Self"@))
    } else if value is None {
        Err(missing("Value"@))
    } else {
        Ok(SpecValue::List(without_value(lis->0->List_0, value->0)))
    }
}

pub fn list_remove_all(args: ValueArgs) -> (r: Result<ValueObj, EvalValueError>)
    requires
        take_arg(args@, "Self"@).1 matches Some(l) ==> l is List,
    ensures
        view_result(r) == spec_list_remove_all(args@),
{
    let mut args = args;
    let lis = args.remove_left_or_key("Self");
    let value = args.remove_left_or_key("Value");
    let Some(lis) = lis else {
        return Err(not_passed("Self"));
    };
    let Some(value) = value else {
        return Err(not_passed("Value"));
    };
    match _list_remove_all(lis, value) {
        Ok(v) => Ok(v),
        Err(_) => Err(not_passed("Self")),
    }
}

/// The integer a constant stands for as a 32-bit `Int` (`as_int`): an
/// `Int` or `Nat` in the 32-bit range, or a `Bool` as 0 or 1.
pub open spec fn spec_as_int(v: SpecValue) -> Option<int> {
    match v {
        SpecValue::Int(i) => if i32::MIN <= i <= i32::MAX {
            Some(i as int)
        } else {
            None
        },
        SpecValue::Nat(n) => if n <= i32::MAX {
            Some(n as int)
        } else {
            None
        },
        SpecValue::Bool(b) => Some(
            if b {
                1int
            } else {
                0int
            },
        ),
        _ => None,
    }
}

pub fn as_int(v: &ValueObj) -> (r: Option<i32>)
    ensures
        match r {
            Some(i) => spec_as_int(v@) == Some(i as int),
            None => spec_as_int(v@) is None,
        },
{
    match v {
        ValueObj::Int(i) => {
            if i32::MIN as i64 <= *i && *i <= i32::MAX as i64 {
                Some(*i as i32)
            } else {
                None
            }
        },
        ValueObj::Nat(n) => {
            if *n <= i32::MAX as u64 {
                Some(*n as i32)
            } else {
                None
            }
        },
        ValueObj::Bool(b) => Some(
            if *b {
                1
            } else {
                0
            },
        ),
        _ => None,
    }
}

/// `abs` of an integer.
pub open spec fn abs(i: int) -> int {
    if i < 0 {
        -i
    } else {
        i
    }
}

/// `Int.abs(self)`: the magnitude, narrowed to a `Nat`; the magnitude of
/// `i32::MIN` does not fit the 32-bit integer it is taken of, so that one is
/// no input.
pub open spec fn spec_int_abs(args: SpecArgs) -> Result<SpecValue, SpecError> {
    match take_arg(args, "self"@).1 {
        None => Err(missing("self"@)),
        Some(v) => match spec_as_int(v) {
            None => Err(mismatch("Int"@, v, "self"@)),
            Some(i) => Ok(SpecValue::Nat(abs(i) as u64)),
        },
    }
}

pub fn int_abs(args: ValueArgs) -> (r: Result<ValueObj, EvalValueError>)
    requires
        take_arg(args@, "self"@).1 matches Some(v) ==> spec_as_int(v) != Some(i32::MIN as int),
    ensures
        view_result(r) == spec_int_abs(args@),
{
    let mut args = args;
    let Some(slf) = args.remove_left_or_key("self") else {
        return Err(not_passed("self"));
    };
    let Some(i) = as_int(&slf) else {
        return Err(type_mismatch("Int", slf, "self"));
    };
    let w = i as i64;
    Ok(ValueObj::Nat(
        if w < 0 {
            (-w) as u64
        } else {
            w as u64
        },
    ))
}

/// `not b`.
pub open spec fn spec_not(args: SpecArgs) -> Result<SpecValue, SpecError> {
    match take_arg(args, "b"@).1 {
        None => Err(missing("b"@)),
        Some(SpecValue::Bool(b)) => Ok(SpecValue::Bool(!b)),
        Some(v) => Err(mismatch("Bool"@, v, "b"@)),
    }
}

pub fn not_func(args: ValueArgs) -> (r: Result<ValueObj, EvalValueError>)
    ensures
        view_result(r) == spec_not(args@),
{
    let mut args = args;
    match args.remove_left_or_key("b") {
        None => Err(not_passed("b")),
        Some(ValueObj::Bool(b)) => Ok(ValueObj::Bool(!b)),
        Some(v) => Err(type_mismatch("Bool", v, "b")),
    }
}

/// `if cond, then, else`: `then` when `cond` is `True`, else `else`
/// (`None` when it is not passed); `cond` must be a `Bool`. A branch is
/// returned as the value it is: these values hold no subroutines to call.
pub open spec fn spec_if(args: SpecArgs) -> Result<SpecValue, SpecError> {
    let (a1, cond) = take_arg(args, "cond"@);
    let (a2, then) = take_arg(a1, "then"@);
    let (_, otherwise) = take_arg(a2, "else"@);
    match (cond, then) {
        (None, _) => Err(missing("cond"@)),
        (_, None) => Err(missing("then"@)),
        (Some(SpecValue::Bool(b)), Some(t)) => Ok(
            if b {
                t
            } else {
                match otherwise {
                    Some(e) => e,
                    None => SpecValue::NoneObj,
                }
            },
        ),
        (Some(c), _) => Err(mismatch("Bool"@, c, "cond"@)),
    }
}

pub fn if_func(args: ValueArgs) -> (r: Result<ValueObj, EvalValueError>)
    ensures
        view_result(r) == spec_if(args@),
{
    let mut args = args;
    let Some(cond) = args.remove_left_or_key("cond") else {
        return Err(not_passed("cond"));
    };
    let Some(then) = args.remove_left_or_key("then") else {
        return Err(not_passed("then"));
    };
    let otherwise = args.remove_left_or_key("else");
    match cond {
        ValueObj::Bool(b) => if b {
            Ok(then)
        } else {
            match otherwise {
                Some(e) => Ok(e),
                None => Ok(ValueObj::NoneObj),
            }
        },
        other => Err(type_mismatch("Bool", other, "cond")),
    }
}

/// `abs` of a number passed to `param`: integers become `Nat`s, a `Ratio`
/// keeps its class, and both infinities become `Inf`.
pub open spec fn spec_abs_of(v: SpecValue, param: Seq<char>) -> Result<SpecValue, SpecError> {
    match v {
        SpecValue::Nat(n) => Ok(SpecValue::Nat(n)),
        SpecValue::Int(i) => Ok(SpecValue::Nat(abs(i as int) as u64)),
        SpecValue::Bool(b) => Ok(
            SpecValue::Nat(
                if b {
                    1
                } else {
                    0
                },
            ),
        ),
        SpecValue::Ratio(n, d) => if n == i128::MIN {
            Err(
                SpecError::NotFoldable {
                    what: "abs"@,
                    operand: None,
                    why: "the result does not fit an `Int`"@,
                },
            )
        } else {
            Ok(SpecValue::Ratio(abs(n as int) as i128, d))
        },
        SpecValue::Inf | SpecValue::NegInf => Ok(SpecValue::Inf),
        _ => Err(mismatch("Num"@, v, param)),
    }
}

pub fn abs_of(num: ValueObj, param: &str) -> (r: Result<ValueObj, EvalValueError>)
    ensures
        view_result(r) == spec_abs_of(num@, param@),
{
    match num {
        ValueObj::Nat(n) => Ok(ValueObj::Nat(n)),
        ValueObj::Int(n) => {
            let m: u64 = if n < 0 {
                ((-(n + 1)) as u64) + 1
            } else {
                n as u64
            };
            Ok(ValueObj::Nat(m))
        },
        ValueObj::Bool(b) => Ok(
            ValueObj::Nat(
                if b {
                    1
                } else {
                    0
                },
            ),
        ),
        ValueObj::Ratio(n, d) => {
            if n == i128::MIN {
                Err(not_foldable("abs", None, "the result does not fit an `Int`"))
            } else {
                Ok(
                    ValueObj::Ratio(
                        if n < 0 {
                            -n
                        } else {
                            n
                        },
                        d,
                    ),
                )
            }
        },
        ValueObj::Inf => Ok(ValueObj::Inf),
        ValueObj::NegInf => Ok(ValueObj::Inf),
        other => Err(type_mismatch("Num", other, param)),
    }
}

/// `abs(n)`.
pub open spec fn spec_abs_func(args: SpecArgs) -> Result<SpecValue, SpecError> {
    match take_arg(args, "n"@).1 {
        None => Err(missing("n"@)),
        Some(v) => spec_abs_of(v, "n"@),
    }
}

pub fn abs_func(args: ValueArgs) -> (r: Result<ValueObj, EvalValueError>)
    ensures
        view_result(r) == spec_abs_func(args@),
{
    let mut args = args;
    match args.remove_left_or_key("n") {
        None => Err(not_passed("n")),
        Some(v) => abs_of(v, "n"),
    }
}

/// `x.abs()` on a `Ratio` (or any number): as [`abs_of`], the receiver
/// being `self`.
pub open spec fn spec_num_abs(args: SpecArgs) -> Result<SpecValue, SpecError> {
    match take_arg(args, "self"@).1 {
        None => Err(missing("self"@)),
        Some(v) => spec_abs_of(v, "self"@),
    }
}

pub fn num_abs(args: ValueArgs) -> (r: Result<ValueObj, EvalValueError>)
    ensures
        view_result(r) == spec_num_abs(args@),
{
    let mut args = args;
    match args.remove_left_or_key("self") {
        None => Err(not_passed("self")),
        Some(v) => abs_of(v, "self"),
    }
}

/// `succ n`: the next number (`Bool` counts as a `Nat`); the infinities
/// are their own successors.
pub open spec fn spec_succ(args: SpecArgs) -> Result<SpecValue, SpecError> {
    match take_arg(args, "n"@).1 {
        None => Err(missing("n"@)),
        Some(SpecValue::Bool(b)) => Ok(
            SpecValue::Nat(
                if b {
                    2
                } else {
                    1
                },
            ),
        ),
        Some(SpecValue::Nat(n)) => Ok(SpecValue::Nat((n + 1) as u64)),
        Some(SpecValue::Int(i)) => Ok(SpecValue::Int((i + 1) as i64)),
        Some(SpecValue::Inf) => Ok(SpecValue::Inf),
        Some(SpecValue::NegInf) => Ok(SpecValue::NegInf),
        Some(v) => Err(mismatch("Number"@, v, "n"@)),
    }
}

pub fn succ_func(args: ValueArgs) -> (r: Result<ValueObj, EvalValueError>)
    requires
        take_arg(args@, "n"@).1 != Some(SpecValue::Nat(u64::MAX)),
        take_arg(args@, "n"@).1 != Some(SpecValue::Int(i64::MAX)),
    ensures
        view_result(r) == spec_succ(args@),
{
    let mut args = args;
    match args.remove_left_or_key("n") {
        None => Err(not_passed("n")),
        Some(ValueObj::Bool(b)) => Ok(
            ValueObj::Nat(
                if b {
                    2
                } else {
                    1
                },
            ),
        ),
        Some(ValueObj::Nat(n)) => Ok(ValueObj::Nat(n + 1)),
        Some(ValueObj::Int(i)) => Ok(ValueObj::Int(i + 1)),
        Some(ValueObj::Inf) => Ok(ValueObj::Inf),
        Some(ValueObj::NegInf) => Ok(ValueObj::NegInf),
        Some(v) => Err(type_mismatch("Number", v, "n")),
    }
}

/// `pred n`: the previous number; a `Nat` (or `Bool`) stops at 0.
pub open spec fn spec_pred(args: SpecArgs) -> Result<SpecValue, SpecError> {
    match take_arg(args, "n"@).1 {
        None => Err(missing("n"@)),
        Some(SpecValue::Bool(_)) => Ok(SpecValue::Nat(0)),
        Some(SpecValue::Nat(n)) => Ok(
            SpecValue::Nat(
                if n == 0 {
                    0
                } else {
                    (n - 1) as u64
                },
            ),
        ),
        Some(SpecValue::Int(i)) => Ok(SpecValue::Int((i - 1) as i64)),
        Some(SpecValue::Inf) => Ok(SpecValue::Inf),
        Some(SpecValue::NegInf) => Ok(SpecValue::NegInf),
        Some(v) => Err(mismatch("Number"@, v, "n"@)),
    }
}

pub fn pred_func(args: ValueArgs) -> (r: Result<ValueObj, EvalValueError>)
    requires
        take_arg(args@, "n"@).1 != Some(SpecValue::Int(i64::MIN)),
    ensures
        view_result(r) == spec_pred(args@),
{
    let mut args = args;
    match args.remove_left_or_key("n") {
        None => Err(not_passed("n")),
        Some(ValueObj::Bool(_)) => Ok(ValueObj::Nat(0)),
        Some(ValueObj::Nat(n)) => Ok(
            ValueObj::Nat(
                if n == 0 {
                    0
                } else {
                    n - 1
                },
            ),
        ),
        Some(ValueObj::Int(i)) => Ok(ValueObj::Int(i - 1)),
        Some(ValueObj::Inf) => Ok(ValueObj::Inf),
        Some(ValueObj::NegInf) => Ok(ValueObj::NegInf),
        Some(v) => Err(type_mismatch("Number", v, "n")),
    }
}

/// The elements of a list, tuple or set, in order.
pub open spec fn iter_elems(v: SpecValue) -> Option<Seq<SpecValue>> {
    match v {
        SpecValue::List(l) | SpecValue::Tuple(l) | SpecValue::SetObj(l) => Some(l),
        _ => None,
    }
}

/// The elements of a list, tuple or set, or the value back if it is none
/// of them.
fn into_elems(v: ValueObj) -> (r: Result<Vec<ValueObj>, ValueObj>)
    ensures
        match r {
            Ok(l) => iter_elems(v@) == Some(view_values(l@)),
            Err(w) => iter_elems(v@) is None && w@ == v@,
        },
{
    match v {
        ValueObj::List(l) => Ok(l),
        ValueObj::Tuple(l) => Ok(l),
        ValueObj::SetObj(l) => Ok(l),
        other => Err(other),
    }
}

/// The number of entries of a container, or of UTF-8 bytes of a string.
pub open spec fn spec_container_len(v: SpecValue) -> Option<nat> {
    match v {
        SpecValue::List(l) | SpecValue::Tuple(l) | SpecValue::SetObj(l) => Some(l.len()),
        SpecValue::Dict(d) => Some(d.len()),
        SpecValue::Record(r) => Some(r.len()),
        SpecValue::Str(s) => Some((vstd::utf8::encode_utf8(s).len() as usize) as nat),
        _ => None,
    }
}

/// `len(s)`.
pub open spec fn spec_len(args: SpecArgs) -> Result<SpecValue, SpecError> {
    match take_arg(args, "s"@).1 {
        None => Err(missing("s"@)),
        Some(v) => match spec_container_len(v) {
            Some(n) => Ok(SpecValue::Nat(n as u64)),
            None => Err(mismatch("Container"@, v, "container"@)),
        },
    }
}

pub fn len_func(args: ValueArgs) -> (r: Result<ValueObj, EvalValueError>)
    ensures
        view_result(r) == spec_len(args@),
{
    let mut args = args;
    let Some(container) = args.remove_left_or_key("s") else {
        return Err(not_passed("s"));
    };
    let n: usize = match &container {
        ValueObj::List(l) => {
            proof {
                lemma_view_values(l@);
            }
            l.len()
        },
        ValueObj::Tuple(l) => {
            proof {
                lemma_view_values(l@);
            }
            l.len()
        },
        ValueObj::SetObj(l) => {
            proof {
                lemma_view_values(l@);
            }
            l.len()
        },
        ValueObj::Dict(d) => {
            proof {
                crate::value::lemma_view_pairs(d@);
            }
            d.len()
        },
        ValueObj::Record(r) => {
            proof {
                lemma_view_fields(r@);
            }
            r.len()
        },
        ValueObj::Str(s) => s.as_str().len(),
        _ => {
            return Err(type_mismatch("Container", container, "container"));
        },
    };
    Ok(ValueObj::Nat(n as u64))
}

/// `k` is the first position of `s` that holds no `Bool`.
pub open spec fn first_non_bool(s: Seq<SpecValue>, k: int) -> bool {
    &&& 0 <= k < s.len()
    &&& !(s[k] is Bool)
    &&& forall|j: int| 0 <= j < k ==> s[j] is Bool
}

/// The Booleans of `s` folded with `&&` (`all`) or `||` (`any`); the first
/// element that is no `Bool` is refused.
pub open spec fn spec_bool_fold(args: SpecArgs, is_all: bool) -> Result<SpecValue, SpecError> {
    match take_arg(args, "iterable"@).1 {
        None => Err(missing("iterable"@)),
        Some(v) => match iter_elems(v) {
            None => Err(mismatch("Iterable(Bool)"@, v, "iterable"@)),
            Some(s) => if exists|k: int| first_non_bool(s, k) {
                Err(
                    mismatch(
                        "Bool"@,
                        s[choose|k: int| first_non_bool(s, k)],
                        "iterable.next()"@,
                    ),
                )
            } else if is_all {
                Ok(SpecValue::Bool(forall|j: int| 0 <= j < s.len() ==> s[j] == SpecValue::Bool(true)))
            } else {
                Ok(SpecValue::Bool(exists|j: int| 0 <= j < s.len() && s[j] == SpecValue::Bool(true)))
            },
        },
    }
}

fn bool_fold(args: ValueArgs, is_all: bool) -> (r: Result<ValueObj, EvalValueError>)
    ensures
        view_result(r) == spec_bool_fold(args@, is_all),
{
    let mut args = args;
    let Some(iterable) = args.remove_left_or_key("iterable") else {
        return Err(not_passed("iterable"));
    };
    let arr = match into_elems(iterable) {
        Ok(a) => a,
        Err(v) => {
            return Err(type_mismatch("Iterable(Bool)", v, "iterable"));
        },
    };
    let ghost s = view_values(arr@);
    proof {
        lemma_view_values(arr@);
    }
    let mut acc = is_all;
    let mut i: usize = 0;
    #[verifier::loop_isolation(false)]
    while i < arr.len()
        invariant
            s == view_values(arr@),
            s.len() == arr@.len(),
            forall|k: int| 0 <= k < arr@.len() ==> #[trigger] s[k] == view_value(arr@[k]),
            i <= arr.len(),
            forall|j: int| 0 <= j < i ==> s[j] is Bool,
            is_all ==> acc == (forall|j: int| 0 <= j < i ==> s[j] == SpecValue::Bool(true)),
            !is_all ==> acc == (exists|j: int| 0 <= j < i && s[j] == SpecValue::Bool(true)),
        decreases arr.len() - i,
    {
        match &arr[i] {
            ValueObj::Bool(b) => {
                if is_all {
                    acc = acc && *b;
                } else {
                    acc = acc || *b;
                }
            },
            _ => {
                assert(first_non_bool(s, i as int));
                assert forall|k: int| first_non_bool(s, k) implies k == i by {
                    if k < i {
                    } else if k > i {
                        assert(s[i as int] is Bool);
                    }
                }
                return Err(type_mismatch("Bool", arr[i].copy_value(), "iterable.next()"));
            },
        }
        i = i + 1;
    }
    assert(!exists|k: int| first_non_bool(s, k));
    Ok(ValueObj::Bool(acc))
}

/// `all(iterable)`.
pub fn all_func(args: ValueArgs) -> (r: Result<ValueObj, EvalValueError>)
    ensures
        view_result(r) == spec_bool_fold(args@, true),
{
    bool_fold(args, true)
}

/// `any(iterable)`.
pub fn any_func(args: ValueArgs) -> (r: Result<ValueObj, EvalValueError>)
    ensures
        view_result(r) == spec_bool_fold(args@, false),
{
    bool_fold(args, false)
}

/// `reversed(seq)`: the elements of a list or tuple, last first.
pub open spec fn spec_reversed(args: SpecArgs) -> Result<SpecValue, SpecError> {
    match take_arg(args, "seq"@).1 {
        None => Err(missing("seq"@)),
        Some(SpecValue::List(l)) | Some(SpecValue::Tuple(l)) => Ok(SpecValue::List(l.reverse())),
        Some(v) => Err(mismatch("Reversible"@, v, "seq"@)),
    }
}

pub fn reversed_func(args: ValueArgs) -> (r: Result<ValueObj, EvalValueError>)
    ensures
        view_result(r) == spec_reversed(args@),
{
    let mut args = args;
    match args.remove_left_or_key("seq") {
        None => Err(not_passed("seq")),
        Some(ValueObj::List(l)) => Ok(ValueObj::List(reversed(l))),
        Some(ValueObj::Tuple(l)) => Ok(ValueObj::List(reversed(l))),
        Some(v) => Err(type_mismatch("Reversible", v, "seq")),
    }
}

/// `zip(iterable1, iterable2)`: the pairs of elements at the same
/// position, as long as the shorter one lasts.
pub open spec fn spec_zip(args: SpecArgs) -> Result<SpecValue, SpecError> {
    let (a1, it1) = take_arg(args, "iterable1"@);
    let (_, it2) = take_arg(a1, "iterable2"@);
    if it1 is None {
        Err(missing("iterable1"@))
    } else if it2 is None {
        Err(missing("iterable2"@))
    } else {
        match (iter_elems(it1->0), iter_elems(it2->0)) {
            (None, _) => Err(mismatch("Iterable(T)"@, it1->0, "iterable1"@)),
            (_, None) => Err(mismatch("Iterable(T)"@, it2->0, "iterable2"@)),
            (Some(s1), Some(s2)) => Ok(
                SpecValue::List(
                    Seq::new(
                        if s1.len() <= s2.len() {
                            s1.len()
                        } else {
                            s2.len()
                        },
                        |i: int| SpecValue::Tuple(seq![s1[i], s2[i]]),
                    ),
                ),
            ),
        }
    }
}

pub fn zip_func(args: ValueArgs) -> (r: Result<ValueObj, EvalValueError>)
    ensures
        view_result(r) == spec_zip(args@),
{
    let mut args = args;
    let it1 = args.remove_left_or_key("iterable1");
    let it2 = args.remove_left_or_key("iterable2");
    let Some(it1) = it1 else {
        return Err(not_passed("iterable1"));
    };
    let Some(it2) = it2 else {
        return Err(not_passed("iterable2"));
    };
    let a = match into_elems(it1) {
        Ok(a) => a,
        Err(v) => {
            return Err(type_mismatch("Iterable(T)", v, "iterable1"));
        },
    };
    let b = match into_elems(it2) {
        Ok(b) => b,
        Err(v) => {
            return Err(type_mismatch("Iterable(T)", v, "iterable2"));
        },
    };
    let n = if a.len() <= b.len() {
        a.len()
    } else {
        b.len()
    };
    let ghost target = Seq::new(
        n as nat,
        |i: int| SpecValue::Tuple(seq![view_values(a@)[i], view_values(b@)[i]]),
    );
    proof {
        lemma_view_values(a@);
        lemma_view_values(b@);
    }
    let mut zipped: Vec<ValueObj> = Vec::new();
    let mut i: usize = 0;
    while i < n
        invariant
            n <= a@.len(),
            n <= b@.len(),
            i <= n,
            zipped@.len() == i,
            forall|j: int| 0 <= j < i ==> view_value(#[trigger] zipped@[j]) == target[j],
            target.len() == n,
            forall|j: int|
                0 <= j < n ==> #[trigger] target[j] == SpecValue::Tuple(
                    seq![view_value(a@[j]), view_value(b@[j])],
                ),
        decreases n - i,
    {
        let mut pair: Vec<ValueObj> = Vec::new();
        pair.push(a[i].copy_value());
        pair.push(b[i].copy_value());
        proof {
            lemma_view_values(pair@);
            lemma_view_values_ext(pair@, seq![view_value(a@[i as int]), view_value(b@[i as int])]);
        }
        zipped.push(ValueObj::Tuple(pair));
        i = i + 1;
    }
    proof {
        lemma_view_values_ext(zipped@, target);
    }
    Ok(ValueObj::List(zipped))
}

/// The truth value CPython gives a constant: what is empty or zero is
/// false; `None` where what the object is at run time decides.
pub open spec fn spec_truth(v: SpecValue) -> Option<bool> {
    match v {
        SpecValue::Bool(b) => Some(b),
        SpecValue::Int(i) => Some(i != 0),
        SpecValue::Nat(n) => Some(n != 0),
        SpecValue::Ratio(n, _) => Some(n != 0),
        SpecValue::Str(s) => Some(s.len() > 0),
        SpecValue::List(l) | SpecValue::Tuple(l) | SpecValue::SetObj(l) => Some(l.len() > 0),
        SpecValue::Dict(d) => Some(d.len() > 0),
        SpecValue::NoneObj => Some(false),
        SpecValue::Ellipsis => Some(true),
        _ => None,
    }
}

/// `bool obj`; `bool()` is `False`.
pub open spec fn spec_bool(args: SpecArgs) -> Result<SpecValue, SpecError> {
    match take_arg(args, "obj"@).1 {
        None => Ok(SpecValue::Bool(false)),
        Some(v) => match spec_truth(v) {
            Some(b) => Ok(SpecValue::Bool(b)),
            None => Err(
                SpecError::NotFoldable {
                    what: "bool"@,
                    operand: Some(v),
                    why: "what the object is at run time decides this"@,
                },
            ),
        },
    }
}

pub fn bool_func(args: ValueArgs) -> (r: Result<ValueObj, EvalValueError>)
    ensures
        view_result(r) == spec_bool(args@),
{
    let mut args = args;
    let Some(obj) = args.remove_left_or_key("obj") else {
        return Ok(ValueObj::Bool(false));
    };
    let b = match &obj {
        ValueObj::Bool(b) => *b,
        ValueObj::Int(i) => *i != 0,
        ValueObj::Nat(n) => *n != 0,
        ValueObj::Ratio(n, _) => *n != 0,
        ValueObj::Str(s) => {
            let n = s.as_str().unicode_len();
            n > 0
        },
        ValueObj::List(l) => {
            proof {
                lemma_view_values(l@);
            }
            l.len() > 0
        },
        ValueObj::Tuple(l) => {
            proof {
                lemma_view_values(l@);
            }
            l.len() > 0
        },
        ValueObj::SetObj(l) => {
            proof {
                lemma_view_values(l@);
            }
            l.len() > 0
        },
        ValueObj::Dict(d) => {
            proof {
                crate::value::lemma_view_pairs(d@);
            }
            d.len() > 0
        },
        ValueObj::NoneObj => false,
        ValueObj::Ellipsis => true,
        _ => {
            return Err(
                not_foldable("bool", Some(obj), "what the object is at run time decides this"),
            );
        },
    };
    Ok(ValueObj::Bool(b))
}

/// `str object`: the text `str` gives at run time, where it is known here.
pub open spec fn spec_str(args: SpecArgs) -> Result<SpecValue, SpecError> {
    let (a1, obj) = take_arg(args, "object"@);
    let (_, encoding) = take_arg(a1, "encoding"@);
    match obj {
        None => Err(missing("object"@)),
        Some(v) => if encoding is Some {
            Err(SpecError::Unsupported { feature: "encoding"@ })
        } else {
            match spec_py_str(v) {
                Some(t) => Ok(SpecValue::Str(t)),
                None => Err(
                    SpecError::NotFoldable {
                        what: "str"@,
                        operand: Some(v),
                        why: "its text at run time is not reproducible here"@,
                    },
                ),
            }
        },
    }
}

pub fn str_func(args: ValueArgs) -> (r: Result<ValueObj, EvalValueError>)
    ensures
        view_result(r) == spec_str(args@),
{
    let mut args = args;
    let Some(val) = args.remove_left_or_key("object") else {
        return Err(not_passed("object"));
    };
    if let Some(_encoding) = args.remove_left_or_key("encoding") {
        return Err(unsupported("encoding"));
    }
    match py_str(&val) {
        Some(t) => Ok(ValueObj::Str(t)),
        None => Err(not_foldable("str", Some(val), "its text at run time is not reproducible here")),
    }
}

/// The value of the field `name` among `fields`, if there is one.
fn field_get(fields: &Vec<(String, ValueObj)>, name: &str) -> (r: Option<usize>)
    ensures
        match r {
            Some(i) => kw_position(view_fields(fields@), name@) == Some(i as int) && i
                < fields@.len(),
            None => kw_position(view_fields(fields@), name@) is None,
        },
{
    proof {
        lemma_view_fields(fields@);
        crate::args::lemma_kw_position(view_fields(fields@), name@);
    }
    let mut i: usize = 0;
    while i < fields.len()
        invariant
            i <= fields.len(),
            view_fields(fields@).len() == fields@.len(),
            forall|j: int|
                0 <= j < fields@.len() ==> #[trigger] view_fields(fields@)[j] == (
                    fields@[j].0@,
                    view_value(fields@[j].1),
                ),
            forall|j: int| 0 <= j < i ==> fields@[j].0@ != name@,
            match kw_position(view_fields(fields@), name@) {
                Some(p) => 0 <= p < fields@.len() && view_fields(fields@)[p].0 == name@ && forall|
                    j: int,
                | 0 <= j < p ==> view_fields(fields@)[j].0 != name@,
                None => forall|j: int|
                    0 <= j < fields@.len() ==> view_fields(fields@)[j].0 != name@,
            },
        decreases fields.len() - i,
    {
        if crate::args::str_eq(fields[i].0.as_str(), name) {
            proof {
                assert(view_fields(fields@)[i as int].0 == name@);
                if let Some(p) = kw_position(view_fields(fields@), name@) {
                    if p < i {
                        assert(view_fields(fields@)[p].0 == fields@[p].0@);
                    }
                }
            }
            return Some(i);
        }
        i = i + 1;
    }
    None
}

/// The text `Index out of range: ` followed by `index`.
pub open spec fn out_of_range(index: nat) -> Seq<char> {
    "Index out of range: "@ + int_text(index as int)
}

/// `range[index]`: the `index`-th number of a range `start..<end`.
pub open spec fn spec_range_getitem(args: SpecArgs) -> Result<SpecValue, SpecError> {
    let (a1, slf) = take_arg(args, "Self"@);
    let (_, index) = take_arg(a1, "Index"@);
    match slf {
        None => Err(missing("Self"@)),
        Some(SpecValue::DataClass { name, fields }) => match index {
            None => Err(missing("Index"@)),
            Some(ix) => match spec_as_index(ix) {
                None => Err(mismatch("Nat"@, ix, "Index"@)),
                Some(i) => match kw_position(fields, "start"@) {
                    None => Err(
                        SpecError::NoKey {
                            container: SpecValue::Record(fields),
                            key: SpecValue::Str("start"@),
                        },
                    ),
                    Some(ps) => match spec_as_index(fields[ps].1) {
                        None => Err(mismatch("Nat"@, fields[ps].1, "start"@)),
                        Some(start) => match kw_position(fields, "end"@) {
                            None => Err(
                                SpecError::NoKey {
                                    container: SpecValue::Record(fields),
                                    key: SpecValue::Str("end"@),
                                },
                            ),
                            Some(pe) => match spec_as_index(fields[pe].1) {
                                None => Err(mismatch("Nat"@, fields[pe].1, "end"@)),
                                Some(end) => if start + i < end {
                                    Ok(SpecValue::Nat((start + i) as u64))
                                } else {
                                    Err(SpecError::IndexError { message: out_of_range(i) })
                                },
                            },
                        },
                    },
                },
            },
        },
        Some(v) => Err(mismatch("Range"@, v, "Self"@)),
    }
}

fn record_of(fields: &Vec<(String, ValueObj)>) -> (r: ValueObj)
    ensures
        r@ == SpecValue::Record(view_fields(fields@)),
{
    let mut out: Vec<(String, ValueObj)> = Vec::new();
    let mut i: usize = 0;
    proof {
        lemma_view_fields(fields@);
    }
    while i < fields.len()
        invariant
            i <= fields.len(),
            out@.len() == i,
            view_fields(fields@).len() == fields@.len(),
            forall|j: int|
                0 <= j < fields@.len() ==> #[trigger] view_fields(fields@)[j] == (
                    fields@[j].0@,
                    view_value(fields@[j].1),
                ),
            forall|j: int|
                0 <= j < i ==> (#[trigger] out@[j].0)@ == fields@[j].0@ && view_value(out@[j].1)
                    == view_value(fields@[j].1),
        decreases fields.len() - i,
    {
        out.push((fields[i].0.clone(), fields[i].1.copy_value()));
        i = i + 1;
    }
    proof {
        crate::value::lemma_view_fields_ext(out@, view_fields(fields@));
    }
    ValueObj::Record(out)
}

/// The arguments of `range[index]` whose position `start + index` is a
/// `usize`: adding past it is an overflow, which is no answer.
pub open spec fn range_index_fits(args: SpecArgs) -> bool {
    let (a1, slf) = take_arg(args, "Self"@);
    let (_, index) = take_arg(a1, "Index"@);
    match (slf, index) {
        (Some(SpecValue::DataClass { name, fields }), Some(ix)) => match (
            spec_as_index(ix),
            kw_position(fields, "start"@),
        ) {
            (Some(i), Some(ps)) => match (spec_as_index(fields[ps].1), kw_position(fields, "end"@)) {
                (Some(start), Some(pe)) => spec_as_index(fields[pe].1) is Some ==> start + i
                    <= usize::MAX,
                _ => true,
            },
            _ => true,
        },
        _ => true,
    }
}

pub fn __range_getitem__(args: ValueArgs) -> (r: Result<ValueObj, EvalValueError>)
    requires
        range_index_fits(args@),
    ensures
        view_result(r) == spec_range_getitem(args@),
{
    let mut args = args;
    let Some(slf) = args.remove_left_or_key("Self") else {
        return Err(not_passed("Self"));
    };
    let fields = match slf {
        ValueObj::DataClass { name: _, fields } => fields,
        other => {
            return Err(type_mismatch("Range", other, "Self"));
        },
    };
    let Some(index) = args.remove_left_or_key("Index") else {
        return Err(not_passed("Index"));
    };
    let Some(i) = as_index(&index) else {
        return Err(type_mismatch("Nat", index, "Index"));
    };
    proof {
        lemma_view_fields(fields@);
    }
    let Some(ps) = field_get(&fields, "start") else {
        return Err(no_key(record_of(&fields), ValueObj::Str(string_from("start"))));
    };
    let Some(start) = as_index(&fields[ps].1) else {
        return Err(type_mismatch("Nat", fields[ps].1.copy_value(), "start"));
    };
    let Some(pe) = field_get(&fields, "end") else {
        return Err(no_key(record_of(&fields), ValueObj::Str(string_from("end"))));
    };
    let Some(end) = as_index(&fields[pe].1) else {
        return Err(type_mismatch("Nat", fields[pe].1.copy_value(), "end"));
    };
    if i < end && start < end - i {
        Ok(ValueObj::Nat((start + i) as u64))
    } else {
        let mut message = string_from("Index out of range: ");
        message.append(int_string(i as i128).as_str());
        Err(index_error(message))
    }
}

/// `p` is a prefix of `s`.
pub open spec fn is_prefix(p: Seq<char>, s: Seq<char>) -> bool {
    p.len() <= s.len() && s.subrange(0, p.len() as int) == p
}

/// `p` is a suffix of `s`.
pub open spec fn is_suffix(p: Seq<char>, s: Seq<char>) -> bool {
    p.len() <= s.len() && s.subrange(s.len() - p.len(), s.len() as int) == p
}

/// `sub` occurs in `s` at position `k`.
pub open spec fn occurs_at(s: Seq<char>, sub: Seq<char>, k: int) -> bool {
    0 <= k && k + sub.len() <= s.len() && s.subrange(k, k + sub.len()) == sub
}

pub(crate) fn occurs_at_exec(s: &Vec<char>, sub: &Vec<char>, k: usize) -> (r: bool)
    ensures
        r == occurs_at(s@, sub@, k as int),
{
    if k > s.len() || sub.len() > s.len() - k {
        return false;
    }
    let mut j: usize = 0;
    assert(k + sub@.len() <= s@.len());
    while j < sub.len()
        invariant
            k <= s@.len(),
            s@.len() <= usize::MAX,
            k + sub@.len() <= s@.len(),
            j <= sub@.len(),
            forall|t: int| 0 <= t < j ==> s@[k + t] == sub@[t],
        decreases sub.len() - j,
    {
        if s[k + j] != sub[j] {
            assert(s@.subrange(k as int, k + sub@.len())[j as int] != sub@[j as int]);
            return false;
        }
        j = j + 1;
    }
    assert(s@.subrange(k as int, k + sub@.len()) =~= sub@);
    true
}

/// The text of a `Str` constant.
fn str_of(v: &ValueObj) -> (r: Option<&String>)
    ensures
        match r {
            Some(t) => v@ == SpecValue::Str(t@),
            None => !(v@ is Str),
        },
{
    match v {
        ValueObj::Str(s) => Some(s),
        _ => None,
    }
}

/// The two-string methods `self.endswith(x)` and `self.startswith(x)`.
pub open spec fn spec_str_affix(args: SpecArgs, param: Seq<char>, suffix: bool) -> Result<
    SpecValue,
    SpecError,
> {
    let (a1, slf) = take_arg(args, "self"@);
    let (_, x) = take_arg(a1, param);
    if slf is None {
        Err(missing("self"@))
    } else if x is None {
        Err(missing(param))
    } else if !(slf->0 is Str) {
        Err(mismatch("Str"@, slf->0, "self"@))
    } else if !(x->0 is Str) {
        Err(mismatch("Str"@, x->0, param))
    } else if suffix {
        Ok(SpecValue::Bool(is_suffix(x->0->Str_0, slf->0->Str_0)))
    } else {
        Ok(SpecValue::Bool(is_prefix(x->0->Str_0, slf->0->Str_0)))
    }
}

fn str_affix(args: ValueArgs, param: &str, suffix: bool) -> (r: Result<ValueObj, EvalValueError>)
    ensures
        view_result(r) == spec_str_affix(args@, param@, suffix),
{
    let mut args = args;
    let slf = args.remove_left_or_key("self");
    let x = args.remove_left_or_key(param);
    let Some(slf) = slf else {
        return Err(not_passed("self"));
    };
    let Some(x) = x else {
        return Err(not_passed(param));
    };
    let Some(s) = str_of(&slf) else {
        return Err(type_mismatch("Str", slf, "self"));
    };
    let Some(p) = str_of(&x) else {
        return Err(type_mismatch("Str", x, param));
    };
    let sv = chars_of(s.as_str());
    let pv = chars_of(p.as_str());
    if pv.len() > sv.len() {
        return Ok(ValueObj::Bool(false));
    }
    let k = if suffix {
        sv.len() - pv.len()
    } else {
        0
    };
    let b = occurs_at_exec(&sv, &pv, k);
    Ok(ValueObj::Bool(b))
}

/// `self.endswith(suffix)`.
pub fn str_endswith(args: ValueArgs) -> (r: Result<ValueObj, EvalValueError>)
    ensures
        view_result(r) == spec_str_affix(args@, "suffix"@, true),
{
    str_affix(args, "suffix", true)
}

/// `self.startswith(prefix)`.
pub fn str_startswith(args: ValueArgs) -> (r: Result<ValueObj, EvalValueError>)
    ensures
        view_result(r) == spec_str_affix(args@, "prefix"@, false),
{
    str_affix(args, "prefix", false)
}

/// `k` is where `sub` first occurs in `s`.
pub open spec fn first_occurrence(s: Seq<char>, sub: Seq<char>, k: int) -> bool {
    occurs_at(s, sub, k) && forall|j: int| 0 <= j < k ==> !occurs_at(s, sub, j)
}

/// `sub` occurs somewhere in `s`.
pub open spec fn occurs(s: Seq<char>, sub: Seq<char>) -> bool {
    exists|k: int| first_occurrence(s, sub, k)
}

/// Where `sub` first occurs in `s`.
pub open spec fn first_position(s: Seq<char>, sub: Seq<char>) -> int {
    choose|k: int| first_occurrence(s, sub, k)
}

/// The number of UTF-8 bytes of `s`, as a `usize`.
pub open spec fn utf8_len(s: Seq<char>) -> usize {
    vstd::utf8::encode_utf8(s).len() as usize
}

/// `self.find(sub)`: the byte offset where `sub` first occurs, or -1.
pub open spec fn spec_str_find(args: SpecArgs) -> Result<SpecValue, SpecError> {
    let (a1, slf) = take_arg(args, "self"@);
    let (_, sub) = take_arg(a1, "sub"@);
    if slf is None {
        Err(missing("self"@))
    } else if sub is None {
        Err(missing("sub"@))
    } else if !(slf->0 is Str) {
        Err(mismatch("Str"@, slf->0, "self"@))
    } else if !(sub->0 is Str) {
        Err(mismatch("Str"@, sub->0, "sub"@))
    } else {
        let s = slf->0->Str_0;
        let t = sub->0->Str_0;
        if occurs(s, t) {
            Ok(SpecValue::Int(utf8_len(s.subrange(0, first_position(s, t))) as i64))
        } else {
            Ok(SpecValue::Int(-1i64))
        }
    }
}

pub fn str_find(args: ValueArgs) -> (r: Result<ValueObj, EvalValueError>)
    ensures
        view_result(r) == spec_str_find(args@),
{
    let mut args = args;
    let slf = args.remove_left_or_key("self");
    let sub = args.remove_left_or_key("sub");
    let Some(slf) = slf else {
        return Err(not_passed("self"));
    };
    let Some(sub) = sub else {
        return Err(not_passed("sub"));
    };
    let Some(s) = str_of(&slf) else {
        return Err(type_mismatch("Str", slf, "self"));
    };
    let Some(t) = str_of(&sub) else {
        return Err(type_mismatch("Str", sub, "sub"));
    };
    let sv = chars_of(s.as_str());
    let tv = chars_of(t.as_str());
    let mut k: usize = 0;
    let mut found = false;
    #[verifier::loop_isolation(false)]
    while k < sv.len()
        invariant
            k <= sv.len(),
            !found,
            forall|j: int| 0 <= j < k ==> !occurs_at(sv@, tv@, j),
        decreases sv.len() - k,
    {
        if occurs_at_exec(&sv, &tv, k) {
            found = true;
            break;
        }
        k = k + 1;
    }
    if found || occurs_at_exec(&sv, &tv, k) {
        assert(occurs_at(sv@, tv@, k as int));
        assert(first_occurrence(sv@, tv@, k as int));
        assert forall|m: int| first_occurrence(sv@, tv@, m) implies m == k by {
            if m > k {
                assert(!occurs_at(sv@, tv@, k as int));
            }
        }
        let prefix = s.as_str().substring_char(0, k);
        let n = prefix.len();
        assert(n == utf8_len(sv@.subrange(0, k as int)));
        assert(occurs(sv@, tv@));
        assert(first_position(sv@, tv@) == k);
        let r = #[verifier::truncate] (n as i64);
        assert(r == utf8_len(sv@.subrange(0, k as int)) as i64);
        assert(slf@ == SpecValue::Str(sv@));
        assert(sub@ == SpecValue::Str(tv@));
        return Ok(ValueObj::Int(r));
    }
    assert forall|m: int| !first_occurrence(sv@, tv@, m) by {
        if 0 <= m < k {
        } else if m > k {
            assert(!occurs_at(sv@, tv@, m));
        }
    }
    assert(!occurs(sv@, tv@));
    Ok(ValueObj::Int(-1))
}

/// `c` has the Unicode `Alphabetic` property.
pub uninterp spec fn char_is_alphabetic(c: char) -> bool;

/// `char::is_alphabetic`: whether `c` has the Unicode `Alphabetic`
/// property. The property's table is not restated here; the result is
/// named `char_is_alphabetic`.
#[verifier::external_body]
fn is_alphabetic(c: char) -> (r: bool)
    ensures
        r == char_is_alphabetic(c),
{
    c.is_alphabetic()
}

/// Which character test a one-string predicate method applies to every
/// character.
#[derive(PartialEq, Eq, Structural, Clone, Copy, Debug)]
pub enum CharClass {
    Alphabetic,
    Ascii,
    AsciiDigit,
}

/// The character test of `class`.
pub open spec fn in_class(c: char, class: CharClass) -> bool {
    match class {
        CharClass::Alphabetic => char_is_alphabetic(c),
        CharClass::Ascii => (c as u32) < 128,
        CharClass::AsciiDigit => '0' <= c <= '9',
    }
}

fn in_class_exec(c: char, class: CharClass) -> (r: bool)
    ensures
        r == in_class(c, class),
{
    match class {
        CharClass::Alphabetic => is_alphabetic(c),
        CharClass::Ascii => (c as u32) < 128,
        CharClass::AsciiDigit => '0' <= c && c <= '9',
    }
}

/// Every character of `s` passes the test of `class`.
pub open spec fn all_in_class(s: Seq<char>, class: CharClass) -> bool {
    forall|i: int| 0 <= i < s.len() ==> in_class(#[trigger] s[i], class)
}

/// `self.isalpha()`, `self.isascii()` and `self.isdecimal()`: every
/// character of the string passes the test.
pub open spec fn spec_str_all(args: SpecArgs, class: CharClass) -> Result<SpecValue, SpecError> {
    match take_arg(args, "self"@).1 {
        None => Err(missing("self"@)),
        Some(SpecValue::Str(s)) => Ok(SpecValue::Bool(all_in_class(s, class))),
        Some(v) => Err(mismatch("Str"@, v, "self"@)),
    }
}

fn str_all(args: ValueArgs, class: CharClass) -> (r: Result<ValueObj, EvalValueError>)
    ensures
        view_result(r) == spec_str_all(args@, class),
{
    let mut args = args;
    let Some(slf) = args.remove_left_or_key("self") else {
        return Err(not_passed("self"));
    };
    let Some(s) = str_of(&slf) else {
        return Err(type_mismatch("Str", slf, "self"));
    };
    let cs = chars_of(s.as_str());
    let mut i: usize = 0;
    #[verifier::loop_isolation(false)]
    while i < cs.len()
        invariant
            i <= cs@.len(),
            forall|j: int| 0 <= j < i ==> in_class(#[trigger] cs@[j], class),
        decreases cs.len() - i,
    {
        if !in_class_exec(cs[i], class) {
            assert(!in_class(cs@[i as int], class));
            assert(cs@ == s@);
            assert(slf@ == SpecValue::Str(cs@));
            assert(!all_in_class(cs@, class));
            return Ok(ValueObj::Bool(false));
        }
        i = i + 1;
    }
    Ok(ValueObj::Bool(true))
}

/// `self.isalpha()`.
pub fn str_isalpha(args: ValueArgs) -> (r: Result<ValueObj, EvalValueError>)
    ensures
        view_result(r) == spec_str_all(args@, CharClass::Alphabetic),
{
    str_all(args, CharClass::Alphabetic)
}

/// `self.isascii()`.
pub fn str_isascii(args: ValueArgs) -> (r: Result<ValueObj, EvalValueError>)
    ensures
        view_result(r) == spec_str_all(args@, CharClass::Ascii),
{
    str_all(args, CharClass::Ascii)
}

/// `self.isdecimal()`: every character is one of `0`-`9`.
pub fn str_isdecimal(args: ValueArgs) -> (r: Result<ValueObj, EvalValueError>)
    ensures
        view_result(r) == spec_str_all(args@, CharClass::AsciiDigit),
{
    str_all(args, CharClass::AsciiDigit)
}

/// `s` with every occurrence of `from` replaced by `to`, left to right and
/// without overlaps; an empty `from` matches before every character and at
/// the end, as `str::replace` does.
pub open spec fn replace_all(s: Seq<char>, from: Seq<char>, to: Seq<char>) -> Seq<char>
    decreases s.len(),
{
    if from.len() == 0 {
        if s.len() == 0 {
            to
        } else {
            to + seq![s[0]] + replace_all(s.drop_first(), from, to)
        }
    } else if is_prefix(from, s) {
        to + replace_all(s.subrange(from.len() as int, s.len() as int), from, to)
    } else if s.len() == 0 {
        s
    } else {
        seq![s[0]] + replace_all(s.drop_first(), from, to)
    }
}

pub(crate) fn append_chars(out: &mut Vec<char>, xs: &Vec<char>)
    ensures
        final(out)@ == old(out)@ + xs@,
{
    let ghost o = out@;
    let mut i: usize = 0;
    while i < xs.len()
        invariant
            i <= xs.len(),
            out@ == o + xs@.subrange(0, i as int),
        decreases xs.len() - i,
    {
        out.push(xs[i]);
        i = i + 1;
        assert(out@ =~= o + xs@.subrange(0, i as int));
    }
    assert(xs@.subrange(0, xs@.len() as int) =~= xs@);
}

pub(crate) fn replace_chars(s: &Vec<char>, from: &Vec<char>, to: &Vec<char>) -> (r: Vec<char>)
    ensures
        r@ == replace_all(s@, from@, to@),
{
    let mut out: Vec<char> = Vec::new();
    let mut i: usize = 0;
    assert(s@.skip(0) =~= s@);
    while i < s.len()
        invariant
            i <= s@.len(),
            replace_all(s@, from@, to@) == out@ + replace_all(s@.skip(i as int), from@, to@),
        decreases s.len() - i,
    {
        let ghost rest = s@.skip(i as int);
        if from.len() > 0 && occurs_at_exec(s, from, i) {
            assert(rest.subrange(0, from@.len() as int) =~= s@.subrange(i as int, i + from@.len()));
            assert(is_prefix(from@, rest));
            assert(rest.subrange(from@.len() as int, rest.len() as int) =~= s@.skip(i + from@.len()));
            let ghost before = out@;
            append_chars(&mut out, to);
            assert(out@ + replace_all(s@.skip(i + from@.len()), from@, to@) =~= before + (to@
                + replace_all(s@.skip(i + from@.len()), from@, to@)));
            i = i + from.len();
        } else {
            if from.len() > 0 {
                assert(!is_prefix(from@, rest)) by {
                    if is_prefix(from@, rest) {
                        assert(s@.subrange(i as int, i + from@.len()) =~= rest.subrange(
                            0,
                            from@.len() as int,
                        ));
                    }
                }
            }
            assert(rest.drop_first() =~= s@.skip(i + 1));
            assert(rest[0] == s@[i as int]);
            let ghost before = out@;
            if from.len() == 0 {
                append_chars(&mut out, to);
            }
            out.push(s[i]);
            if from.len() == 0 {
                assert(out@ + replace_all(s@.skip(i + 1), from@, to@) =~= before + (to@ + seq![
                    s@[i as int],
                ] + replace_all(s@.skip(i + 1), from@, to@)));
            } else {
                assert(out@ + replace_all(s@.skip(i + 1), from@, to@) =~= before + (seq![
                    s@[i as int],
                ] + replace_all(s@.skip(i + 1), from@, to@)));
            }
            i = i + 1;
        }
    }
    assert(s@.skip(i as int) =~= Seq::<char>::empty());
    if from.len() == 0 {
        let ghost before = out@;
        append_chars(&mut out, to);
    } else {
        assert(!is_prefix(from@, Seq::<char>::empty()));
        assert(out@ + Seq::<char>::empty() =~= out@);
    }
    out
}

/// `self.replace(old, new)`.
pub open spec fn spec_str_replace(args: SpecArgs) -> Result<SpecValue, SpecError> {
    let (a1, slf) = take_arg(args, "self"@);
    let (a2, old) = take_arg(a1, "old"@);
    let (_, new) = take_arg(a2, "new"@);
    if slf is None {
        Err(missing("self"@))
    } else if old is None {
        Err(missing("old"@))
    } else if new is None {
        Err(missing("new"@))
    } else if !(slf->0 is Str) {
        Err(mismatch("Str"@, slf->0, "self"@))
    } else if !(old->0 is Str) {
        Err(mismatch("Str"@, old->0, "old"@))
    } else if !(new->0 is Str) {
        Err(mismatch("Str"@, new->0, "new"@))
    } else {
        Ok(SpecValue::Str(replace_all(slf->0->Str_0, old->0->Str_0, new->0->Str_0)))
    }
}

pub fn str_replace(args: ValueArgs) -> (r: Result<ValueObj, EvalValueError>)
    ensures
        view_result(r) == spec_str_replace(args@),
{
    let mut args = args;
    let slf = args.remove_left_or_key("self");
    let old = args.remove_left_or_key("old");
    let new = args.remove_left_or_key("new");
    let Some(slf) = slf else {
        return Err(not_passed("self"));
    };
    let Some(old) = old else {
        return Err(not_passed("old"));
    };
    let Some(new) = new else {
        return Err(not_passed("new"));
    };
    let Some(s) = str_of(&slf) else {
        return Err(type_mismatch("Str", slf, "self"));
    };
    let Some(o) = str_of(&old) else {
        return Err(type_mismatch("Str", old, "old"));
    };
    let Some(n) = str_of(&new) else {
        return Err(type_mismatch("Str", new, "new"));
    };
    let r = replace_chars(&chars_of(s.as_str()), &chars_of(o.as_str()), &chars_of(n.as_str()));
    Ok(ValueObj::Str(string_of(&r)))
}

/// `parts` joined with `sep` between each two of them.
pub open spec fn join_texts(parts: Seq<Seq<char>>, sep: Seq<char>) -> Seq<char>
    decreases parts.len(),
{
    if parts.len() == 0 {
        Seq::empty()
    } else if parts.len() == 1 {
        parts[0]
    } else {
        join_texts(parts.drop_last(), sep) + sep + parts.last()
    }
}

/// The elements `join` reads: those of a list, tuple or set, or the keys of
/// a dictionary.
pub open spec fn join_elems(v: SpecValue) -> Option<Seq<SpecValue>> {
    match v {
        SpecValue::List(l) | SpecValue::Tuple(l) | SpecValue::SetObj(l) => Some(l),
        SpecValue::Dict(d) => Some(Seq::new(d.len(), |i: int| d[i].0)),
        _ => None,
    }
}

/// `k` is the first position of `s` that holds no `Str`.
pub open spec fn first_non_str(s: Seq<SpecValue>, k: int) -> bool {
    &&& 0 <= k < s.len()
    &&& !(s[k] is Str)
    &&& forall|j: int| 0 <= j < k ==> s[j] is Str
}

/// Some element of `s` is no `Str`.
pub open spec fn has_non_str(s: Seq<SpecValue>) -> bool {
    exists|k: int| first_non_str(s, k)
}

/// The first element of `s` that is no `Str`.
pub open spec fn first_non_str_pos(s: Seq<SpecValue>) -> int {
    choose|k: int| first_non_str(s, k)
}

/// The texts of the `Str` elements of `s`.
pub open spec fn texts(s: Seq<SpecValue>) -> Seq<Seq<char>> {
    Seq::new(s.len(), |i: int| s[i]->Str_0)
}

/// `self.join(iterable)`: the strings of `iterable` with `self` between
/// each two of them.
pub open spec fn spec_str_join(args: SpecArgs) -> Result<SpecValue, SpecError> {
    let (a1, slf) = take_arg(args, "self"@);
    let (_, iterable) = take_arg(a1, "iterable"@);
    if slf is None {
        Err(missing("self"@))
    } else if iterable is None {
        Err(missing("iterable"@))
    } else if !(slf->0 is Str) {
        Err(mismatch("Str"@, slf->0, "self"@))
    } else {
        match join_elems(iterable->0) {
            None => Err(mismatch("Iterable(Str)"@, iterable->0, "iterable"@)),
            Some(s) => if has_non_str(s) {
                Err(mismatch("Str"@, s[first_non_str_pos(s)], "arr.next()"@))
            } else {
                Ok(SpecValue::Str(join_texts(texts(s), slf->0->Str_0)))
            },
        }
    }
}

fn into_join_elems(v: ValueObj) -> (r: Result<Vec<ValueObj>, ValueObj>)
    ensures
        match r {
            Ok(l) => join_elems(v@) == Some(view_values(l@)),
            Err(w) => join_elems(v@) is None && w@ == v@,
        },
{
    match v {
        ValueObj::List(l) => Ok(l),
        ValueObj::Tuple(l) => Ok(l),
        ValueObj::SetObj(l) => Ok(l),
        ValueObj::Dict(d) => {
            let ghost dv = crate::value::view_pairs(d@);
            proof {
                crate::value::lemma_view_pairs(d@);
            }
            let mut keys: Vec<ValueObj> = Vec::new();
            let mut i: usize = 0;
            while i < d.len()
                invariant
                    i <= d@.len(),
                    keys@.len() == i,
                    dv.len() == d@.len(),
                    forall|j: int|
                        0 <= j < d@.len() ==> #[trigger] dv[j] == (
                            view_value(d@[j].0),
                            view_value(d@[j].1),
                        ),
                    forall|j: int| 0 <= j < i ==> view_value(#[trigger] keys@[j]) == dv[j].0,
                decreases d.len() - i,
            {
                keys.push(d[i].0.copy_value());
                i = i + 1;
            }
            proof {
                lemma_view_values_ext(keys@, Seq::new(dv.len(), |j: int| dv[j].0));
            }
            Ok(keys)
        },
        other => Err(other),
    }
}

pub fn str_join(args: ValueArgs) -> (r: Result<ValueObj, EvalValueError>)
    ensures
        view_result(r) == spec_str_join(args@),
{
    let mut args = args;
    let slf = args.remove_left_or_key("self");
    let iterable = args.remove_left_or_key("iterable");
    let Some(slf) = slf else {
        return Err(not_passed("self"));
    };
    let Some(iterable) = iterable else {
        return Err(not_passed("iterable"));
    };
    let Some(sep) = str_of(&slf) else {
        return Err(type_mismatch("Str", slf, "self"));
    };
    let arr = match into_join_elems(iterable) {
        Ok(a) => a,
        Err(v) => {
            return Err(type_mismatch("Iterable(Str)", v, "iterable"));
        },
    };
    let sep_chars = chars_of(sep.as_str());
    let ghost s = view_values(arr@);
    proof {
        lemma_view_values(arr@);
    }
    let mut out: Vec<char> = Vec::new();
    let mut i: usize = 0;
    #[verifier::loop_isolation(false)]
    while i < arr.len()
        invariant
            s == view_values(arr@),
            s.len() == arr@.len(),
            i <= arr.len(),
            forall|j: int| 0 <= j < i ==> s[j] is Str,
            out@ == join_texts(texts(s.subrange(0, i as int)), sep_chars@),
        decreases arr.len() - i,
    {
        assert(s[i as int] == view_value(arr@[i as int]));
        let Some(t) = str_of(&arr[i]) else {
            assert(first_non_str(s, i as int));
            assert forall|k: int| first_non_str(s, k) implies k == i by {
                if k > i {
                    assert(s[i as int] is Str);
                }
            }
            assert(has_non_str(s));
            return Err(type_mismatch("Str", arr[i].copy_value(), "arr.next()"));
        };
        let tc = chars_of(t.as_str());
        let ghost before = out@;
        if i > 0 {
            append_chars(&mut out, &sep_chars);
        }
        append_chars(&mut out, &tc);
        proof {
            let p = texts(s.subrange(0, i + 1));
            assert(p.drop_last() =~= texts(s.subrange(0, i as int)));
            assert(p.last() == tc@);
            if i == 0 {
                assert(out@ =~= tc@);
            } else {
                assert(out@ =~= before + sep_chars@ + tc@);
            }
        }
        i = i + 1;
    }
    assert(s.subrange(0, i as int) =~= s);
    assert(!has_non_str(s));
    Ok(ValueObj::Str(string_of(&out)))
}

/// The arguments of a call with the positional arguments `pos` alone.
pub open spec fn positional(pos: Seq<SpecValue>) -> SpecArgs {
    SpecArgs { pos, kw: Seq::empty() }
}

/// `lis.reversed().reversed() == lis`: reversing twice gives the list back.
pub proof fn law_list_reversed_twice(l: Seq<SpecValue>)
    ensures
        spec_list_reversed(positional(seq![SpecValue::List(l)])) matches Ok(r)
            && spec_list_reversed(positional(seq![r])) == Ok::<SpecValue, SpecError>(
            SpecValue::List(l),
        ),
{
    assert(l.reverse().reverse() =~= l);
}

/// `lis.insert_at(i, v).remove_at(i) == lis`: removing what was just
/// inserted gives the list back.
pub proof fn law_list_remove_undoes_insert(l: Seq<SpecValue>, i: u64, v: SpecValue)
    requires
        i <= l.len(),
        i <= usize::MAX,
    ensures
        spec_list_insert_at(positional(seq![SpecValue::List(l), SpecValue::Nat(i), v])) matches Ok(
            r,
        ) && spec_list_remove_at(positional(seq![r, SpecValue::Nat(i)]))
            == Ok::<SpecValue, SpecError>(SpecValue::List(l)),
{
    let a = positional(seq![SpecValue::List(l), SpecValue::Nat(i), v]);
    assert(take_arg(a, "Self"@).0.pos =~= seq![SpecValue::Nat(i), v]);
    assert(take_arg(take_arg(a, "Self"@).0, "Index"@).0.pos =~= seq![v]);
    let inserted = SpecValue::List(l.insert(i as int, v));
    let b = positional(seq![inserted, SpecValue::Nat(i)]);
    assert(take_arg(b, "Self"@).0.pos =~= seq![SpecValue::Nat(i)]);
    assert(l.insert(i as int, v).remove(i as int) =~= l);
}

/// `without_value` keeps the order and drops exactly the elements equal to
/// `x`: none of them is left, and every other element stays.
proof fn lemma_without_value(s: Seq<SpecValue>, x: SpecValue)
    ensures
        !without_value(s, x).contains(x),
        forall|y: SpecValue| y != x ==> (without_value(s, x).contains(y) <==> s.contains(y)),
        without_value(without_value(s, x), x) == without_value(s, x),
    decreases s.len(),
{
    if s.len() > 0 {
        let p = s.drop_last();
        lemma_without_value(p, x);
        let w = without_value(p, x);
        assert(s =~= p.push(s.last()));
        if s.last() != x {
            assert(w.push(s.last()).drop_last() =~= w);
            assert forall|y: SpecValue| y != x implies (w.push(s.last()).contains(y) <==> s.contains(
                y,
            )) by {
                assert(w.contains(y) <==> p.contains(y));
                if w.push(s.last()).contains(y) {
                    let k = choose|k: int| 0 <= k < w.push(s.last()).len() && w.push(s.last())[k] == y;
                    if k < w.len() {
                        assert(w[k] == y);
                        assert(w.contains(y));
                        assert(p.contains(y));
                        let j = choose|j: int| 0 <= j < p.len() && p[j] == y;
                        assert(s[j] == y);
                    } else {
                        assert(s[s.len() - 1] == y);
                    }
                }
                if s.contains(y) {
                    let j = choose|j: int| 0 <= j < s.len() && s[j] == y;
                    if j < p.len() {
                        assert(p[j] == y);
                        assert(p.contains(y));
                        let k = choose|k: int| 0 <= k < w.len() && w[k] == y;
                        assert(w.push(s.last())[k] == y);
                    } else {
                        assert(w.push(s.last())[w.len() as int] == y);
                    }
                }
            }
            if w.push(s.last()).contains(x) {
                let k = choose|k: int| 0 <= k < w.push(s.last()).len() && w.push(s.last())[k] == x;
                assert(w[k] == x);
            }
        } else {
            assert forall|y: SpecValue| y != x implies (w.contains(y) <==> s.contains(y)) by {
                assert(w.contains(y) <==> p.contains(y));
                if s.contains(y) {
                    let j = choose|j: int| 0 <= j < s.len() && s[j] == y;
                    assert(j < p.len());
                    assert(p[j] == y);
                }
                if p.contains(y) {
                    let j = choose|j: int| 0 <= j < p.len() && p[j] == y;
                    assert(s[j] == y);
                }
            }
        }
    }
}

/// `lis.remove_all(x)` holds no `x`, holds every other element of `lis`,
/// and removing `x` again changes nothing.
pub proof fn law_list_remove_all(l: Seq<SpecValue>, x: SpecValue)
    ensures
        spec_list_remove_all(positional(seq![SpecValue::List(l), x])) matches Ok(
            SpecValue::List(r),
        ) && !r.contains(x) && (forall|y: SpecValue| y != x ==> (r.contains(y) <==> l.contains(y)))
            && spec_list_remove_all(positional(seq![SpecValue::List(r), x])) == Ok::<
            SpecValue,
            SpecError,
        >(SpecValue::List(r)),
{
    let a = positional(seq![SpecValue::List(l), x]);
    assert(take_arg(a, "Self"@).0.pos =~= seq![x]);
    lemma_without_value(l, x);
    let r = without_value(l, x);
    let b = positional(seq![SpecValue::List(r), x]);
    assert(take_arg(b, "Self"@).0.pos =~= seq![x]);
}

/// `not(not b) == b` for every `Bool` constant `b`.
pub proof fn law_not_twice(b: bool)
    ensures
        spec_not(positional(seq![SpecValue::Bool(b)])) matches Ok(r) && spec_not(
            positional(seq![r]),
        ) == Ok::<SpecValue, SpecError>(SpecValue::Bool(b)),
{
}

/// `len` of a well-formed set counts its distinct elements: a set holds no
/// element twice.
pub proof fn law_set_len_counts_distinct(l: Seq<SpecValue>)
    requires
        well_formed_value(SpecValue::SetObj(l)),
    ensures
        spec_container_len(SpecValue::SetObj(l)) == Some(l.to_set().len()),
{
    reveal_with_fuel(well_formed_value, 2);
    assert(l.no_duplicates());
    l.unique_seq_to_set();
}

/// Reversing a well-formed list gives a well-formed list.
pub proof fn law_list_reversed_keeps_well_formed(l: Seq<SpecValue>)
    requires
        well_formed_value(SpecValue::List(l)),
    ensures
        spec_list_reversed(positional(seq![SpecValue::List(l)])) matches Ok(r)
            && well_formed_value(r),
{
    lemma_well_formed_values(l);
    lemma_well_formed_values(l.reverse());
    assert forall|i: int| 0 <= i < l.reverse().len() implies #[trigger] well_formed_value(
        l.reverse()[i],
    ) by {
        assert(l.reverse()[i] == l[l.len() - 1 - i]);
    }
}

/// Every container has a length, its number of entries: the elements of a
/// list, tuple or set, the entries of a dictionary, the fields of a record.
pub proof fn law_len_counts_entries(v: SpecValue)
    requires
        v is List || v is Tuple || v is SetObj || v is Dict || v is Record,
    ensures
        spec_len(positional(seq![v])) == Ok::<SpecValue, SpecError>(
            SpecValue::Nat(
                (match v {
                    SpecValue::List(l) => l.len(),
                    SpecValue::Tuple(l) => l.len(),
                    SpecValue::SetObj(l) => l.len(),
                    SpecValue::Dict(d) => d.len(),
                    SpecValue::Record(r) => r.len(),
                    _ => 0,
                }) as u64,
            ),
        ),
{
    let a = positional(seq![v]);
    assert(take_arg(a, "s"@).1 == Some(v));
}

/// `pred(succ(n)) == n` for every `Int` and `Nat` whose successor fits,
/// and `succ(pred(i)) == i` for every `Int` whose predecessor fits: the
/// successor is one more, the predecessor one less.
pub proof fn law_pred_undoes_succ(v: SpecValue)
    requires
        v matches SpecValue::Int(i) ==> i < i64::MAX,
        v matches SpecValue::Nat(n) ==> n < u64::MAX,
        v is Int || v is Nat,
    ensures
        spec_succ(positional(seq![v])) matches Ok(w) && spec_pred(positional(seq![w]))
            == Ok::<SpecValue, SpecError>(v),
        v matches SpecValue::Int(i) ==> (spec_succ(positional(seq![v])) matches Ok(SpecValue::Int(j))
            && j == i + 1),
        v matches SpecValue::Nat(n) ==> (spec_succ(positional(seq![v])) matches Ok(SpecValue::Nat(m))
            && m == n + 1),
{
    let w = spec_succ(positional(seq![v]))->Ok_0;
    assert(take_arg(positional(seq![w]), "n"@).1 == Some(w));
}

/// `succ(pred(i)) == i` for every `Int` whose predecessor fits.
pub proof fn law_succ_undoes_pred(i: i64)
    requires
        i > i64::MIN,
    ensures
        spec_pred(positional(seq![SpecValue::Int(i)])) == Ok::<SpecValue, SpecError>(
            SpecValue::Int((i - 1) as i64),
        ),
        spec_succ(positional(seq![SpecValue::Int((i - 1) as i64)])) == Ok::<SpecValue, SpecError>(
            SpecValue::Int(i),
        ),
{
}

/// `bool(x)` is false exactly for what is empty or zero: a string or
/// container is true when it holds something, a number when it is not 0,
/// and a Boolean is itself.
pub proof fn law_truth_is_nonemptiness(v: SpecValue)
    requires
        v is Str || v is List || v is Tuple || v is SetObj || v is Dict || v is Int || v is Nat
            || v is Bool,
    ensures
        spec_bool(positional(seq![v])) == Ok::<SpecValue, SpecError>(
            SpecValue::Bool(
                match v {
                    SpecValue::Str(t) => t.len() > 0,
                    SpecValue::List(l) => l.len() > 0,
                    SpecValue::Tuple(l) => l.len() > 0,
                    SpecValue::SetObj(l) => l.len() > 0,
                    SpecValue::Dict(d) => d.len() > 0,
                    SpecValue::Int(i) => i != 0,
                    SpecValue::Nat(n) => n != 0,
                    SpecValue::Bool(b) => b,
                    _ => false,
                },
            ),
        ),
{
    assert(take_arg(positional(seq![v]), "obj"@).1 == Some(v));
}

/// The list of the Booleans `l`.
pub open spec fn bool_list(l: Seq<bool>) -> SpecValue {
    SpecValue::List(Seq::new(l.len(), |i: int| SpecValue::Bool(l[i])))
}

/// `all` of Booleans is true exactly when none is false, `any` exactly
/// when one is true; so `all` of an empty list is true and `any` false.
pub proof fn law_all_and_any_of_booleans(l: Seq<bool>)
    ensures
        spec_bool_fold(positional(seq![bool_list(l)]), true) == Ok::<SpecValue, SpecError>(
            SpecValue::Bool(forall|i: int| 0 <= i < l.len() ==> l[i]),
        ),
        spec_bool_fold(positional(seq![bool_list(l)]), false) == Ok::<SpecValue, SpecError>(
            SpecValue::Bool(exists|i: int| 0 <= i < l.len() && l[i]),
        ),
{
    let s = Seq::new(l.len(), |i: int| SpecValue::Bool(l[i]));
    assert(take_arg(positional(seq![bool_list(l)]), "iterable"@).1 == Some(bool_list(l)));
    assert(!exists|k: int| first_non_bool(s, k));
    assert((forall|j: int| 0 <= j < s.len() ==> s[j] == SpecValue::Bool(true)) == (forall|i: int|
        0 <= i < l.len() ==> l[i])) by {
        if forall|i: int| 0 <= i < l.len() ==> l[i] {
            assert forall|j: int| 0 <= j < s.len() implies s[j] == SpecValue::Bool(true) by {
                assert(l[j]);
            }
        }
        if forall|j: int| 0 <= j < s.len() ==> s[j] == SpecValue::Bool(true) {
            assert forall|i: int| 0 <= i < l.len() implies l[i] by {
                assert(s[i] == SpecValue::Bool(true));
            }
        }
    }
    assert((exists|j: int| 0 <= j < s.len() && s[j] == SpecValue::Bool(true)) == (exists|i: int|
        0 <= i < l.len() && l[i])) by {
        if exists|i: int| 0 <= i < l.len() && l[i] {
            let i = choose|i: int| 0 <= i < l.len() && l[i];
            assert(s[i] == SpecValue::Bool(true));
        }
        if exists|j: int| 0 <= j < s.len() && s[j] == SpecValue::Bool(true) {
            let j = choose|j: int| 0 <= j < s.len() && s[j] == SpecValue::Bool(true);
            assert(l[j]);
        }
    }
}

/// `zip` pairs the elements at the same position, as many as the shorter
/// list has: its `i`-th pair is the `i`-th element of each.
pub proof fn law_zip_pairs_positions(s1: Seq<SpecValue>, s2: Seq<SpecValue>)
    ensures
        spec_zip(positional(seq![SpecValue::List(s1), SpecValue::List(s2)])) matches Ok(
            SpecValue::List(r),
        ) && r.len() == (if s1.len() <= s2.len() {
            s1.len()
        } else {
            s2.len()
        }) && r.len() <= s1.len() && r.len() <= s2.len() && forall|i: int|
            0 <= i < r.len() ==> #[trigger] r[i] == SpecValue::Tuple(seq![s1[i], s2[i]]),
{
    let a = positional(seq![SpecValue::List(s1), SpecValue::List(s2)]);
    let (a1, _) = take_arg(a, "iterable1"@);
    assert(a1.pos =~= seq![SpecValue::List(s2)]);
}

/// `reversed` gives the elements last first: its `i`-th element is the
/// `i`-th from the end.
pub proof fn law_reversed_reverses(l: Seq<SpecValue>)
    ensures
        spec_reversed(positional(seq![SpecValue::List(l)])) matches Ok(SpecValue::List(r)) && r.len()
            == l.len() && forall|i: int| 0 <= i < l.len() ==> #[trigger] r[i] == l[l.len() - 1 - i],
{
}

/// A text starts with every text put before something, and ends with
/// every text put after something; every text starts and ends with the
/// empty text.
pub proof fn law_affixes_of_concatenation(p: Seq<char>, q: Seq<char>)
    ensures
        spec_str_affix(positional(seq![SpecValue::Str(p + q), SpecValue::Str(p)]), "prefix"@, false)
            == Ok::<SpecValue, SpecError>(SpecValue::Bool(true)),
        spec_str_affix(positional(seq![SpecValue::Str(q + p), SpecValue::Str(p)]), "suffix"@, true)
            == Ok::<SpecValue, SpecError>(SpecValue::Bool(true)),
        spec_str_affix(
            positional(seq![SpecValue::Str(p), SpecValue::Str(Seq::empty())]),
            "prefix"@,
            false,
        ) == Ok::<SpecValue, SpecError>(SpecValue::Bool(true)),
        spec_str_affix(
            positional(seq![SpecValue::Str(p), SpecValue::Str(Seq::empty())]),
            "suffix"@,
            true,
        ) == Ok::<SpecValue, SpecError>(SpecValue::Bool(true)),
{
    assert((p + q).subrange(0, p.len() as int) =~= p);
    assert((q + p).subrange((q + p).len() - p.len(), (q + p).len() as int) =~= p);
    assert(p.subrange(0, 0) =~= Seq::<char>::empty());
    assert(p.subrange(p.len() as int, p.len() as int) =~= Seq::<char>::empty());
    let a = positional(seq![SpecValue::Str(p + q), SpecValue::Str(p)]);
    assert(take_arg(a, "self"@).0.pos =~= seq![SpecValue::Str(p)]);
    let b = positional(seq![SpecValue::Str(q + p), SpecValue::Str(p)]);
    assert(take_arg(b, "self"@).0.pos =~= seq![SpecValue::Str(p)]);
    let c = positional(seq![SpecValue::Str(p), SpecValue::Str(Seq::empty())]);
    assert(take_arg(c, "self"@).0.pos =~= seq![SpecValue::Str(Seq::<char>::empty())]);
}

proof fn lemma_replace_by_itself(s: Seq<char>, a: Seq<char>)
    ensures
        replace_all(s, a, a) == s,
    decreases s.len(),
{
    if a.len() == 0 {
        if s.len() > 0 {
            lemma_replace_by_itself(s.drop_first(), a);
            assert(a + seq![s[0]] + s.drop_first() =~= s);
        }
    } else if is_prefix(a, s) {
        let rest = s.subrange(a.len() as int, s.len() as int);
        lemma_replace_by_itself(rest, a);
        assert(a + rest =~= s);
    } else if s.len() > 0 {
        lemma_replace_by_itself(s.drop_first(), a);
        assert(seq![s[0]] + s.drop_first() =~= s);
    }
}

proof fn lemma_replace_absent(s: Seq<char>, a: Seq<char>, b: Seq<char>)
    requires
        a.len() > 0,
        forall|k: int| !occurs_at(s, a, k),
    ensures
        replace_all(s, a, b) == s,
    decreases s.len(),
{
    if is_prefix(a, s) {
        assert(occurs_at(s, a, 0));
    } else if s.len() > 0 {
        let t = s.drop_first();
        assert forall|k: int| !occurs_at(t, a, k) by {
            if occurs_at(t, a, k) {
                assert(s.subrange(k + 1, k + 1 + a.len()) =~= t.subrange(k, k + a.len()));
                assert(occurs_at(s, a, k + 1));
            }
        }
        lemma_replace_absent(t, a, b);
        assert(seq![s[0]] + t =~= s);
    }
}

/// Replacing a text by itself changes nothing, and neither does replacing
/// a (non-empty) text that occurs nowhere.
pub proof fn law_replace_changes_only_occurrences(s: Seq<char>, a: Seq<char>, b: Seq<char>)
    ensures
        spec_str_replace(positional(seq![SpecValue::Str(s), SpecValue::Str(a), SpecValue::Str(a)]))
            == Ok::<SpecValue, SpecError>(SpecValue::Str(s)),
        a.len() > 0 && (forall|k: int| !occurs_at(s, a, k)) ==> spec_str_replace(
            positional(seq![SpecValue::Str(s), SpecValue::Str(a), SpecValue::Str(b)]),
        ) == Ok::<SpecValue, SpecError>(SpecValue::Str(s)),
{
    lemma_replace_by_itself(s, a);
    if a.len() > 0 && (forall|k: int| !occurs_at(s, a, k)) {
        lemma_replace_absent(s, a, b);
    }
    let x = positional(seq![SpecValue::Str(s), SpecValue::Str(a), SpecValue::Str(a)]);
    assert(take_arg(x, "self"@).0.pos =~= seq![SpecValue::Str(a), SpecValue::Str(a)]);
    assert(take_arg(take_arg(x, "self"@).0, "old"@).0.pos =~= seq![SpecValue::Str(a)]);
    let y = positional(seq![SpecValue::Str(s), SpecValue::Str(a), SpecValue::Str(b)]);
    assert(take_arg(y, "self"@).0.pos =~= seq![SpecValue::Str(a), SpecValue::Str(b)]);
    assert(take_arg(take_arg(y, "self"@).0, "old"@).0.pos =~= seq![SpecValue::Str(b)]);
}

proof fn lemma_first_occurrence_exists(s: Seq<char>, t: Seq<char>, k: int)
    requires
        occurs_at(s, t, k),
    ensures
        occurs(s, t),
    decreases k,
{
    if forall|j: int| 0 <= j < k ==> !occurs_at(s, t, j) {
        assert(first_occurrence(s, t, k));
    } else {
        let j = choose|j: int| 0 <= j < k && occurs_at(s, t, j);
        lemma_first_occurrence_exists(s, t, j);
    }
}

/// `find` gives -1 when the text occurs nowhere, and otherwise the byte
/// offset of the least position where it occurs.
pub proof fn law_find_gives_the_least_position(s: Seq<char>, t: Seq<char>, k: int)
    ensures
        (forall|j: int| !occurs_at(s, t, j)) ==> spec_str_find(
            positional(seq![SpecValue::Str(s), SpecValue::Str(t)]),
        ) == Ok::<SpecValue, SpecError>(SpecValue::Int(-1i64)),
        occurs_at(s, t, k) && (forall|j: int| 0 <= j < k ==> !occurs_at(s, t, j)) ==> spec_str_find(
            positional(seq![SpecValue::Str(s), SpecValue::Str(t)]),
        ) == Ok::<SpecValue, SpecError>(SpecValue::Int(utf8_len(s.subrange(0, k)) as i64)),
{
    let x = positional(seq![SpecValue::Str(s), SpecValue::Str(t)]);
    assert(take_arg(x, "self"@).0.pos =~= seq![SpecValue::Str(t)]);
    if occurs_at(s, t, k) && (forall|j: int| 0 <= j < k ==> !occurs_at(s, t, j)) {
        lemma_first_occurrence_exists(s, t, k);
        let f = first_position(s, t);
        assert(first_occurrence(s, t, f));
        if f < k {
            assert(!occurs_at(s, t, f));
        } else if f > k {
            assert(!occurs_at(s, t, k));
        }
    }
    if forall|j: int| !occurs_at(s, t, j) {
        if occurs(s, t) {
            let f = choose|f: int| first_occurrence(s, t, f);
            assert(occurs_at(s, t, f));
        }
    }
}

} // verus!
