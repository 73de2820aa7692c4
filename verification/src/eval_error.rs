//! The errors that the evaluation of constant expressions reports to the
//! user, with their (English) messages.

use vstd::prelude::*;

use crate::error::ErrorKind;
use crate::text::{int_string, int_text, string_from};

verus! {

/// An evaluation error: where it arose (`input`, `loc`, both carried
/// through unread), its number, the context that caused it, its class, its
/// message and, for some, a hint on what to write instead.
pub struct EvalError<I, L> {
    pub input: I,
    pub errno: usize,
    pub loc: L,
    pub caused_by: String,
    pub kind: ErrorKind,
    pub message: String,
    pub hint: Option<String>,
}

impl<I, L> EvalError<I, L> {
    /// `self` arose at `input`, `errno`, `loc` and `caused_by`, and says
    /// `message` (with `hint`) as an error of class `kind`.
    pub open spec fn reports(
        &self,
        input: I,
        errno: usize,
        loc: L,
        caused_by: Seq<char>,
        kind: ErrorKind,
        message: Seq<char>,
        hint: Option<Seq<char>>,
    ) -> bool {
        &&& self.input == input
        &&& self.errno == errno
        &&& self.loc == loc
        &&& self.caused_by@ == caused_by
        &&& self.kind == kind
        &&& self.message@ == message
        &&& match self.hint {
            Some(h) => hint == Some(h@),
            None => hint is None,
        }
    }

    fn build(
        input: I,
        errno: usize,
        loc: L,
        caused_by: String,
        kind: ErrorKind,
        message: String,
        hint: Option<String>,
    ) -> (e: Self)
        ensures
            e.input == input,
            e.errno == errno,
            e.loc == loc,
            e.caused_by == caused_by,
            e.kind == kind,
            e.message == message,
            e.hint == hint,
    {
        EvalError { input, errno, loc, caused_by, kind, message, hint }
    }

    /// The expression is not a constant expression.
    pub fn not_const_expr(input: I, errno: usize, loc: L, caused_by: String) -> (e: Self)
        ensures
            e.reports(
                input,
                errno,
                loc,
                caused_by@,
                ErrorKind::NotConstExpr,
                "not a constant expression"@,
                None,
            ),
    {
        Self::build(
            input,
            errno,
            loc,
            caused_by,
            ErrorKind::NotConstExpr,
            string_from("not a constant expression"),
            None,
        )
    }

    /// The evaluation recursed deeper than its limit.
    pub fn recursion_error(input: I, errno: usize, loc: L, caused_by: String) -> (e: Self)
        ensures
            e.reports(
                input,
                errno,
                loc,
                caused_by@,
                ErrorKind::RecursionError,
                "recursion depth limit exceeded during compile-time evaluation (constant definitions may be cyclic)"@,
                None,
            ),
    {
        Self::build(
            input,
            errno,
            loc,
            caused_by,
            ErrorKind::RecursionError,
            string_from(
                "recursion depth limit exceeded during compile-time evaluation (constant definitions may be cyclic)",
            ),
            None,
        )
    }

    /// The constants `cycle` are defined in terms of each other.
    pub fn cyclic_definition_error(
        input: I,
        errno: usize,
        loc: L,
        caused_by: String,
        cycle: &str,
    ) -> (e: Self)
        ensures
            e.reports(
                input,
                errno,
                loc,
                caused_by@,
                ErrorKind::RecursionError,
                "cyclic definition detected: "@ + cycle@,
                None,
            ),
    {
        let mut message = string_from("cyclic definition detected: ");
        message.append(cycle);
        Self::build(input, errno, loc, caused_by, ErrorKind::RecursionError, message, None)
    }

    /// A division by zero.
    pub fn zero_division(input: I, errno: usize, loc: L, caused_by: String) -> (e: Self)
        ensures
            e.reports(
                input,
                errno,
                loc,
                caused_by@,
                ErrorKind::ZeroDivisionError,
                "division by zero"@,
                None,
            ),
    {
        Self::build(
            input,
            errno,
            loc,
            caused_by,
            ErrorKind::ZeroDivisionError,
            string_from("division by zero"),
            None,
        )
    }

    /// The operator is fine, but this application of it cannot be folded at
    /// compile time (its result overflows `Int` or `Nat`, say).
    pub fn uncomputable_op(input: I, errno: usize, loc: L, caused_by: String, expr: String) -> (e:
        Self)
        ensures
            e.reports(
                input,
                errno,
                loc,
                caused_by@,
                ErrorKind::NotConstExpr,
                "`"@ + expr@ + "` cannot be evaluated at compile time"@,
                None,
            ),
    {
        let mut message = string_from("`");
        message.append(expr.as_str());
        message.append("` cannot be evaluated at compile time");
        Self::build(input, errno, loc, caused_by, ErrorKind::NotConstExpr, message, None)
    }

    /// A decimal literal whose exact value does not fit a `Ratio`: folding
    /// it as the nearest float would make the constant differ from the same
    /// literal written inline.
    pub fn inexact_ratio_literal(
        input: I,
        errno: usize,
        loc: L,
        caused_by: String,
        lit: String,
    ) -> (e: Self)
        ensures
            e.reports(
                input,
                errno,
                loc,
                caused_by@,
                ErrorKind::NotConstExpr,
                "`"@ + lit@ + "` cannot be represented exactly at compile time"@,
                Some(
                    "folding it would not match the run-time value; bind it to a lowercase name (a run-time variable) instead"@,
                ),
            ),
    {
        let mut message = string_from("`");
        message.append(lit.as_str());
        message.append("` cannot be represented exactly at compile time");
        let hint = string_from(
            "folding it would not match the run-time value; bind it to a lowercase name (a run-time variable) instead",
        );
        Self::build(input, errno, loc, caused_by, ErrorKind::NotConstExpr, message, Some(hint))
    }

    /// The element at `index` of a container of `len` elements was asked for.
    pub fn index_out_of_range(
        input: I,
        errno: usize,
        loc: L,
        caused_by: String,
        len: usize,
        index: String,
    ) -> (e: Self)
        ensures
            e.reports(
                input,
                errno,
                loc,
                caused_by@,
                ErrorKind::IndexError,
                "has "@ + int_text(len as int) + " elements, but tried to access the element at "@
                    + index@,
                None,
            ),
    {
        let mut message = string_from("has ");
        message.append(int_string(len as i128).as_str());
        message.append(" elements, but tried to access the element at ");
        message.append(index.as_str());
        Self::build(input, errno, loc, caused_by, ErrorKind::IndexError, message, None)
    }

    /// A malformed literal.
    pub fn invalid_literal(input: I, errno: usize, loc: L, caused_by: String) -> (e: Self)
        ensures
            e.reports(
                input,
                errno,
                loc,
                caused_by@,
                ErrorKind::SyntaxError,
                "invalid literal"@,
                None,
            ),
    {
        Self::build(
            input,
            errno,
            loc,
            caused_by,
            ErrorKind::SyntaxError,
            string_from("invalid literal"),
            None,
        )
    }
}

} // verus!
