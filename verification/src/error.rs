//! Errors of constant evaluation.

use vstd::prelude::*;

use crate::text::string_from;
use crate::value::{SpecValue, ValueObj};

verus! {

/// The class of an evaluation error.
#[derive(PartialEq, Eq, Structural, Clone, Copy, Debug)]
pub enum ErrorKind {
    KeyError,
    TypeError,
    IndexError,
    ValueError,
    FeatureError,
    NotConstExpr,
    RecursionError,
    ZeroDivisionError,
    SyntaxError,
}

/// Why a constant function could not produce a value.
#[derive(Debug)]
pub enum EvalValueError {
    /// The parameter `param` received no argument.
    NotPassed { param: String },
    /// `container` has no entry for `key`.
    NoKey { container: ValueObj, key: ValueObj },
    /// `got`, passed to `param`, is not an `expected`.
    TypeMismatch { expected: String, got: ValueObj, param: String },
    /// `name` takes `count` arguments, and more were passed.
    TooManyArgs { name: String, count: usize },
    /// The call is valid, but it cannot be folded at compile time.
    NotFoldable { what: String, operand: Option<ValueObj>, why: String },
    /// A corner of a constant function that is not implemented.
    Unsupported { feature: String },
    /// The call would raise `ValueError` at run time.
    ValueError { message: String },
    /// An index is out of range.
    IndexError { message: String },
}

/// The model of an [`EvalValueError`].
pub enum SpecError {
    NotPassed { param: Seq<char> },
    NoKey { container: SpecValue, key: SpecValue },
    TypeMismatch { expected: Seq<char>, got: SpecValue, param: Seq<char> },
    TooManyArgs { name: Seq<char>, count: usize },
    NotFoldable { what: Seq<char>, operand: Option<SpecValue>, why: Seq<char> },
    Unsupported { feature: Seq<char> },
    ValueError { message: Seq<char> },
    IndexError { message: Seq<char> },
}

impl View for EvalValueError {
    type V = SpecError;

    open spec fn view(&self) -> SpecError {
        match *self {
            EvalValueError::NotPassed { param } => SpecError::NotPassed { param: param@ },
            EvalValueError::NoKey { container, key } => SpecError::NoKey {
                container: container@,
                key: key@,
            },
            EvalValueError::TypeMismatch { expected, got, param } => SpecError::TypeMismatch {
                expected: expected@,
                got: got@,
                param: param@,
            },
            EvalValueError::TooManyArgs { name, count } => SpecError::TooManyArgs {
                name: name@,
                count,
            },
            EvalValueError::NotFoldable { what, operand, why } => SpecError::NotFoldable {
                what: what@,
                operand: match operand {
                    Some(v) => Some(v@),
                    None => None,
                },
                why: why@,
            },
            EvalValueError::Unsupported { feature } => SpecError::Unsupported {
                feature: feature@,
            },
            EvalValueError::ValueError { message } => SpecError::ValueError { message: message@ },
            EvalValueError::IndexError { message } => SpecError::IndexError { message: message@ },
        }
    }
}

/// The result of a constant function, by its model.
pub open spec fn view_result(r: Result<ValueObj, EvalValueError>) -> Result<SpecValue, SpecError> {
    match r {
        Ok(v) => Ok(v@),
        Err(e) => Err(e@),
    }
}

impl EvalValueError {
    /// The class of this error.
    pub fn kind(&self) -> (k: ErrorKind)
        ensures
            k == match self@ {
                SpecError::NotPassed { .. } | SpecError::NoKey { .. } => ErrorKind::KeyError,
                SpecError::TypeMismatch { .. } | SpecError::TooManyArgs { .. } => ErrorKind::TypeError,
                SpecError::NotFoldable { .. } => ErrorKind::NotConstExpr,
                SpecError::Unsupported { .. } => ErrorKind::FeatureError,
                SpecError::ValueError { .. } => ErrorKind::ValueError,
                SpecError::IndexError { .. } => ErrorKind::IndexError,
            },
    {
        match self {
            EvalValueError::NotPassed { .. } => ErrorKind::KeyError,
            EvalValueError::NoKey { .. } => ErrorKind::KeyError,
            EvalValueError::TypeMismatch { .. } => ErrorKind::TypeError,
            EvalValueError::TooManyArgs { .. } => ErrorKind::TypeError,
            EvalValueError::NotFoldable { .. } => ErrorKind::NotConstExpr,
            EvalValueError::Unsupported { .. } => ErrorKind::FeatureError,
            EvalValueError::ValueError { .. } => ErrorKind::ValueError,
            EvalValueError::IndexError { .. } => ErrorKind::IndexError,
        }
    }
}

/// The parameter `param` received no argument.
pub fn not_passed(param: &str) -> (e: EvalValueError)
    ensures
        e@ == (SpecError::NotPassed { param: param@ }),
{
    EvalValueError::NotPassed { param: string_from(param) }
}

/// `container` has no entry for `key`.
pub fn no_key(container: ValueObj, key: ValueObj) -> (e: EvalValueError)
    ensures
        e@ == (SpecError::NoKey { container: container@, key: key@ }),
{
    EvalValueError::NoKey { container, key }
}

/// A non-`expected` object `got` is passed to `param`.
pub fn type_mismatch(expected: &str, got: ValueObj, param: &str) -> (e: EvalValueError)
    ensures
        e@ == (SpecError::TypeMismatch { expected: expected@, got: got@, param: param@ }),
{
    EvalValueError::TypeMismatch {
        expected: string_from(expected),
        got,
        param: string_from(param),
    }
}

/// `name` takes `expected` arguments, but more are passed.
pub fn too_many_args(name: &str, count: usize) -> (e: EvalValueError)
    ensures
        e@ == (SpecError::TooManyArgs { name: name@, count }),
{
    EvalValueError::TooManyArgs { name: string_from(name), count }
}

/// The call is fine; only folding it is not.
pub fn not_foldable(what: &str, operand: Option<ValueObj>, why: &str) -> (e: EvalValueError)
    ensures
        e@ == (SpecError::NotFoldable {
            what: what@,
            operand: match operand {
                Some(v) => Some(v@),
                None => None,
            },
            why: why@,
        }),
{
    EvalValueError::NotFoldable { what: string_from(what), operand, why: string_from(why) }
}

/// A corner of a constant function that is not supported yet.
pub fn unsupported(feature: &str) -> (e: EvalValueError)
    ensures
        e@ == (SpecError::Unsupported { feature: feature@ }),
{
    EvalValueError::Unsupported { feature: string_from(feature) }
}

/// The call would raise `ValueError` with `message`.
pub fn value_error(message: String) -> (e: EvalValueError)
    ensures
        e@ == (SpecError::ValueError { message: message@ }),
{
    EvalValueError::ValueError { message }
}

/// An index is out of range, as `message` says.
pub fn index_error(message: String) -> (e: EvalValueError)
    ensures
        e@ == (SpecError::IndexError { message: message@ }),
{
    EvalValueError::IndexError { message }
}

} // verus!
