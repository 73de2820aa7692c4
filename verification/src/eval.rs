//! The operators of constant expressions: which token denotes which, the
//! names of the dunder methods they dispatch to, and their folding on
//! values; and the types of literal tokens.

use vstd::prelude::*;

use crate::error::ErrorKind;
use crate::eval_error::EvalError;
use crate::text::chars_of;
use crate::transpile::{contains_chars, contains_text};
use crate::const_func::{as_index, occurs_at, spec_as_index, without_value};
use crate::value::{lemma_view_pairs, lemma_view_values, SpecValue, ValueObj};

verus! {

/// The operators of constant expressions.
#[derive(Debug, Clone, Copy, PartialEq, Eq, Hash)]
pub enum OpKind {
    Add,
    Sub,
    Mul,
    Div,
    FloorDiv,
    Mod,
    Pow,
    Pos,
    Neg,
    Eq,
    Ne,
    Lt,
    Le,
    Gt,
    Ge,
    As,
    And,
    Or,
    Not,
    Invert,
    BitAnd,
    BitOr,
    BitXor,
    Shl,
    Shr,
    ClosedRange,
    LeftOpenRange,
    RightOpenRange,
    OpenRange,
}

/// The dunder method that `op` dispatches to.
pub open spec fn op_name(op: OpKind) -> Seq<char> {
    match op {
        OpKind::Add => "__add__"@,
        OpKind::Sub => "__sub__"@,
        OpKind::Mul => "__mul__"@,
        OpKind::Div => "__div__"@,
        OpKind::FloorDiv => "__floordiv__"@,
        OpKind::Mod => "__mod__"@,
        OpKind::Pow => "__pow__"@,
        OpKind::Pos => "__pos__"@,
        OpKind::Neg => "__neg__"@,
        OpKind::Eq => "__eq__"@,
        OpKind::Ne => "__ne__"@,
        OpKind::Lt => "__lt__"@,
        OpKind::Le => "__le__"@,
        OpKind::Gt => "__gt__"@,
        OpKind::Ge => "__ge__"@,
        OpKind::As => "__as__"@,
        OpKind::And => "__and__"@,
        OpKind::Or => "__or__"@,
        OpKind::Not => "__not__"@,
        OpKind::Invert => "__invert__"@,
        OpKind::BitAnd => "__and__"@,
        OpKind::BitOr => "__or__"@,
        OpKind::BitXor => "__xor__"@,
        OpKind::Shl => "__lshift__"@,
        OpKind::Shr => "__rshift__"@,
        OpKind::ClosedRange => "__rng__"@,
        OpKind::LeftOpenRange => "__lorng__"@,
        OpKind::RightOpenRange => "__rorng__"@,
        OpKind::OpenRange => "__orng__"@,
    }
}

/// The dunder method that `op` dispatches to; the logical and the bitwise
/// `and` and `or` share theirs.
pub fn op_to_name(op: OpKind) -> (r: &'static str)
    ensures
        r@ == op_name(op),
{
    match op {
        OpKind::Add => "__add__",
        OpKind::Sub => "__sub__",
        OpKind::Mul => "__mul__",
        OpKind::Div => "__div__",
        OpKind::FloorDiv => "__floordiv__",
        OpKind::Mod => "__mod__",
        OpKind::Pow => "__pow__",
        OpKind::Pos => "__pos__",
        OpKind::Neg => "__neg__",
        OpKind::Eq => "__eq__",
        OpKind::Ne => "__ne__",
        OpKind::Lt => "__lt__",
        OpKind::Le => "__le__",
        OpKind::Gt => "__gt__",
        OpKind::Ge => "__ge__",
        OpKind::As => "__as__",
        OpKind::And => "__and__",
        OpKind::Or => "__or__",
        OpKind::Not => "__not__",
        OpKind::Invert => "__invert__",
        OpKind::BitAnd => "__and__",
        OpKind::BitOr => "__or__",
        OpKind::BitXor => "__xor__",
        OpKind::Shl => "__lshift__",
        OpKind::Shr => "__rshift__",
        OpKind::ClosedRange => "__rng__",
        OpKind::LeftOpenRange => "__lorng__",
        OpKind::RightOpenRange => "__rorng__",
        OpKind::OpenRange => "__orng__",
    }
}

/// The kinds of tokens: the literals, and the other tokens as far as the
/// typing of literals needs to tell them apart.
#[derive(Debug, Clone, Copy, PartialEq, Eq, Hash)]
pub enum TokenKind {
    NatLit,
    BinLit,
    OctLit,
    HexLit,
    IntLit,
    RatioLit,
    StrLit,
    DocComment,
    BoolLit,
    NoneLit,
    EllipsisLit,
    InfLit,
    Symbol,
    Plus,
    Minus,
    Star,
    Slash,
    FloorDiv,
    Pow,
    Mod,
    DblEq,
    NotEq,
    Less,
    Gre,
    LessEq,
    GreEq,
    AndOp,
    OrOp,
    BitAnd,
    BitXor,
    BitOr,
    Shl,
    Shr,
    PrePlus,
    PreMinus,
    PreBitNot,
    Closed,
    LeftOpen,
    RightOpen,
    Open,
    ContainsOp,
    Illegal,
}

/// The builtin types that literals have.
#[derive(Debug, Clone, Copy, PartialEq, Eq, Hash)]
pub enum Type {
    Nat,
    Int,
    Ratio,
    Str,
    Bool,
    NoneType,
    Ellipsis,
    Inf,
}

impl TokenKind {
    /// A token that denotes a value of a builtin type.
    pub open spec fn is_typed_literal(self) -> bool {
        match self {
            TokenKind::NatLit | TokenKind::BinLit | TokenKind::OctLit | TokenKind::HexLit
            | TokenKind::IntLit | TokenKind::RatioLit | TokenKind::StrLit | TokenKind::DocComment
            | TokenKind::BoolLit | TokenKind::NoneLit | TokenKind::EllipsisLit
            | TokenKind::InfLit => true,
            _ => false,
        }
    }
}

/// The type of the literal of kind `kind`.
pub open spec fn literal_type(kind: TokenKind) -> Type
    recommends
        kind.is_typed_literal(),
{
    match kind {
        TokenKind::NatLit | TokenKind::BinLit | TokenKind::OctLit | TokenKind::HexLit => Type::Nat,
        TokenKind::IntLit => Type::Int,
        TokenKind::RatioLit => Type::Ratio,
        TokenKind::StrLit | TokenKind::DocComment => Type::Str,
        TokenKind::BoolLit => Type::Bool,
        TokenKind::NoneLit => Type::NoneType,
        TokenKind::EllipsisLit => Type::Ellipsis,
        _ => Type::Inf,
    }
}

/// The type of a literal token; a token that is no literal has none.
pub fn type_from_token_kind(kind: TokenKind) -> (t: Type)
    requires
        kind.is_typed_literal(),
    ensures
        t == literal_type(kind),
{
    match kind {
        TokenKind::NatLit | TokenKind::BinLit | TokenKind::OctLit | TokenKind::HexLit => Type::Nat,
        TokenKind::IntLit => Type::Int,
        TokenKind::RatioLit => Type::Ratio,
        TokenKind::StrLit | TokenKind::DocComment => Type::Str,
        TokenKind::BoolLit => Type::Bool,
        TokenKind::NoneLit => Type::NoneType,
        TokenKind::EllipsisLit => Type::Ellipsis,
        _ => Type::Inf,
    }
}

/// The operator that an operator token of a constant expression denotes;
/// the containment operator is folded on its own and has none here.
pub open spec fn token_op(kind: TokenKind) -> Option<OpKind> {
    match kind {
        TokenKind::Plus => Some(OpKind::Add),
        TokenKind::Minus => Some(OpKind::Sub),
        TokenKind::Star => Some(OpKind::Mul),
        TokenKind::Slash => Some(OpKind::Div),
        TokenKind::FloorDiv => Some(OpKind::FloorDiv),
        TokenKind::Pow => Some(OpKind::Pow),
        TokenKind::Mod => Some(OpKind::Mod),
        TokenKind::DblEq => Some(OpKind::Eq),
        TokenKind::NotEq => Some(OpKind::Ne),
        TokenKind::Less => Some(OpKind::Lt),
        TokenKind::Gre => Some(OpKind::Gt),
        TokenKind::LessEq => Some(OpKind::Le),
        TokenKind::GreEq => Some(OpKind::Ge),
        TokenKind::AndOp => Some(OpKind::And),
        TokenKind::OrOp => Some(OpKind::Or),
        TokenKind::BitAnd => Some(OpKind::BitAnd),
        TokenKind::BitXor => Some(OpKind::BitXor),
        TokenKind::BitOr => Some(OpKind::BitOr),
        TokenKind::Shl => Some(OpKind::Shl),
        TokenKind::Shr => Some(OpKind::Shr),
        TokenKind::PrePlus => Some(OpKind::Pos),
        TokenKind::PreMinus => Some(OpKind::Neg),
        TokenKind::PreBitNot => Some(OpKind::Invert),
        TokenKind::Closed => Some(OpKind::ClosedRange),
        TokenKind::LeftOpen => Some(OpKind::LeftOpenRange),
        TokenKind::RightOpen => Some(OpKind::RightOpenRange),
        TokenKind::Open => Some(OpKind::OpenRange),
        _ => None,
    }
}

/// The operator of an operator token at `loc`; any other token makes the
/// expression that holds it no constant expression.
pub fn try_get_op_kind_from_token<I, L>(
    kind: TokenKind,
    input: I,
    errno: usize,
    loc: L,
    caused_by: String,
) -> (r: Result<OpKind, EvalError<I, L>>)
    ensures
        match token_op(kind) {
            Some(op) => r == Ok::<OpKind, EvalError<I, L>>(op),
            None => r matches Err(e) && e.reports(
                input,
                errno,
                loc,
                caused_by@,
                ErrorKind::NotConstExpr,
                "not a constant expression"@,
                None,
            ),
        },
{
    match kind {
        TokenKind::Plus => Ok(OpKind::Add),
        TokenKind::Minus => Ok(OpKind::Sub),
        TokenKind::Star => Ok(OpKind::Mul),
        TokenKind::Slash => Ok(OpKind::Div),
        TokenKind::FloorDiv => Ok(OpKind::FloorDiv),
        TokenKind::Pow => Ok(OpKind::Pow),
        TokenKind::Mod => Ok(OpKind::Mod),
        TokenKind::DblEq => Ok(OpKind::Eq),
        TokenKind::NotEq => Ok(OpKind::Ne),
        TokenKind::Less => Ok(OpKind::Lt),
        TokenKind::Gre => Ok(OpKind::Gt),
        TokenKind::LessEq => Ok(OpKind::Le),
        TokenKind::GreEq => Ok(OpKind::Ge),
        TokenKind::AndOp => Ok(OpKind::And),
        TokenKind::OrOp => Ok(OpKind::Or),
        TokenKind::BitAnd => Ok(OpKind::BitAnd),
        TokenKind::BitXor => Ok(OpKind::BitXor),
        TokenKind::BitOr => Ok(OpKind::BitOr),
        TokenKind::Shl => Ok(OpKind::Shl),
        TokenKind::Shr => Ok(OpKind::Shr),
        TokenKind::PrePlus => Ok(OpKind::Pos),
        TokenKind::PreMinus => Ok(OpKind::Neg),
        TokenKind::PreBitNot => Ok(OpKind::Invert),
        TokenKind::Closed => Ok(OpKind::ClosedRange),
        TokenKind::LeftOpen => Ok(OpKind::LeftOpenRange),
        TokenKind::RightOpen => Ok(OpKind::RightOpenRange),
        TokenKind::Open => Ok(OpKind::OpenRange),
        _ => Err(EvalError::not_const_expr(input, errno, loc, caused_by)),
    }
}

/// Why a unary operator could not be folded.
#[derive(Debug, Clone, Copy, PartialEq, Eq)]
pub enum UnaryError {
    /// The value does not support the operator at compile time (the
    /// expression is then reported as not computable).
    Uncomputable,
    /// The operator is no unary operator.
    NotUnary,
}

/// `op val`, folded: `+` turns a `Bool` into a `Nat` and keeps the other
/// numbers; `-` negates, swapping the infinities, where the negation fits
/// the type it comes out in (`Nat` and `Bool` come out as `Int`); `~` is the
/// bitwise complement, `~x == -(x + 1)`, which turns a `Bool` or a `Nat`
/// into an `Int` where it fits one; `not` negates a `Bool`. (Floats, and
/// `not` of a type, are folded outside these values.)
pub open spec fn unary_fold(op: OpKind, v: SpecValue) -> Result<SpecValue, UnaryError> {
    match op {
        OpKind::Pos => match v {
            SpecValue::Bool(b) => Ok(
                SpecValue::Nat(
                    if b {
                        1
                    } else {
                        0
                    },
                ),
            ),
            SpecValue::Nat(_)
            | SpecValue::Int(_)
            | SpecValue::Ratio(..)
            | SpecValue::Inf
            | SpecValue::NegInf => Ok(v),
            _ => Err(UnaryError::Uncomputable),
        },
        OpKind::Neg => match v {
            SpecValue::Bool(b) => Ok(
                SpecValue::Int(
                    if b {
                        -1i64
                    } else {
                        0i64
                    },
                ),
            ),
            SpecValue::Nat(n) => if n <= i64::MAX {
                Ok(SpecValue::Int((-n) as i64))
            } else {
                Err(UnaryError::Uncomputable)
            },
            SpecValue::Int(i) => if i > i64::MIN {
                Ok(SpecValue::Int((-i) as i64))
            } else {
                Err(UnaryError::Uncomputable)
            },
            SpecValue::Ratio(n, d) => if n > i128::MIN {
                Ok(SpecValue::Ratio((-n) as i128, d))
            } else {
                Err(UnaryError::Uncomputable)
            },
            SpecValue::Inf => Ok(SpecValue::NegInf),
            SpecValue::NegInf => Ok(SpecValue::Inf),
            _ => Err(UnaryError::Uncomputable),
        },
        OpKind::Invert => match v {
            SpecValue::Bool(b) => Ok(
                SpecValue::Int(
                    if b {
                        -2i64
                    } else {
                        -1i64
                    },
                ),
            ),
            SpecValue::Int(i) => Ok(SpecValue::Int((-(i + 1)) as i64)),
            SpecValue::Nat(n) => if n <= i64::MAX {
                Ok(SpecValue::Int((-(n + 1)) as i64))
            } else {
                Err(UnaryError::Uncomputable)
            },
            _ => Err(UnaryError::Uncomputable),
        },
        OpKind::Not => match v {
            SpecValue::Bool(b) => Ok(SpecValue::Bool(!b)),
            _ => Err(UnaryError::Uncomputable),
        },
        _ => Err(UnaryError::NotUnary),
    }
}

/// Folds the unary operator `op` on the value `val`.
pub fn eval_unary_val(op: OpKind, val: ValueObj) -> (r: Result<ValueObj, UnaryError>)
    ensures
        match r {
            Ok(v) => unary_fold(op, val@) == Ok::<SpecValue, UnaryError>(v@),
            Err(e) => unary_fold(op, val@) == Err::<SpecValue, UnaryError>(e),
        },
{
    match op {
        OpKind::Pos => match val {
            ValueObj::Bool(b) => Ok(
                ValueObj::Nat(
                    if b {
                        1
                    } else {
                        0
                    },
                ),
            ),
            ValueObj::Nat(_)
            | ValueObj::Int(_)
            | ValueObj::Ratio(..)
            | ValueObj::Inf
            | ValueObj::NegInf => Ok(val),
            _ => Err(UnaryError::Uncomputable),
        },
        OpKind::Neg => match val {
            ValueObj::Bool(b) => Ok(
                ValueObj::Int(
                    if b {
                        -1
                    } else {
                        0
                    },
                ),
            ),
            ValueObj::Nat(n) => if n <= i64::MAX as u64 {
                Ok(ValueObj::Int(-(n as i64)))
            } else {
                Err(UnaryError::Uncomputable)
            },
            ValueObj::Int(i) => if i > i64::MIN {
                Ok(ValueObj::Int(-i))
            } else {
                Err(UnaryError::Uncomputable)
            },
            ValueObj::Ratio(n, d) => if n > i128::MIN {
                Ok(ValueObj::Ratio(-n, d))
            } else {
                Err(UnaryError::Uncomputable)
            },
            ValueObj::Inf => Ok(ValueObj::NegInf),
            ValueObj::NegInf => Ok(ValueObj::Inf),
            _ => Err(UnaryError::Uncomputable),
        },
        OpKind::Invert => match val {
            ValueObj::Bool(b) => Ok(
                ValueObj::Int(
                    if b {
                        -2
                    } else {
                        -1
                    },
                ),
            ),
            ValueObj::Int(i) => Ok(ValueObj::Int(-1 - i)),
            ValueObj::Nat(n) => if n <= i64::MAX as u64 {
                Ok(ValueObj::Int(-1 - (n as i64)))
            } else {
                Err(UnaryError::Uncomputable)
            },
            _ => Err(UnaryError::Uncomputable),
        },
        OpKind::Not => match val {
            ValueObj::Bool(b) => Ok(ValueObj::Bool(!b)),
            _ => Err(UnaryError::Uncomputable),
        },
        _ => Err(UnaryError::NotUnary),
    }
}

/// `lhs or rhs` (and `lhs | rhs`) on two booleans or two integers; on other
/// operands the union of types is meant, which is no value to fold here.
pub open spec fn or_fold(lhs: SpecValue, rhs: SpecValue) -> Option<SpecValue> {
    match (lhs, rhs) {
        (SpecValue::Bool(l), SpecValue::Bool(r)) => Some(SpecValue::Bool(l || r)),
        (SpecValue::Int(l), SpecValue::Int(r)) => Some(SpecValue::Int(l | r)),
        _ => None,
    }
}

/// `lhs and rhs` (and `lhs & rhs`) on two booleans or two integers; on
/// other operands the intersection of types is meant.
pub open spec fn and_fold(lhs: SpecValue, rhs: SpecValue) -> Option<SpecValue> {
    match (lhs, rhs) {
        (SpecValue::Bool(l), SpecValue::Bool(r)) => Some(SpecValue::Bool(l && r)),
        (SpecValue::Int(l), SpecValue::Int(r)) => Some(SpecValue::Int(l & r)),
        _ => None,
    }
}

/// Folds `lhs or rhs` where both are booleans or both integers.
pub fn eval_or(lhs: &ValueObj, rhs: &ValueObj) -> (r: Option<ValueObj>)
    ensures
        match r {
            Some(v) => or_fold(lhs@, rhs@) == Some(v@),
            None => or_fold(lhs@, rhs@) is None,
        },
{
    match (lhs, rhs) {
        (ValueObj::Bool(l), ValueObj::Bool(r)) => Some(ValueObj::Bool(*l || *r)),
        (ValueObj::Int(l), ValueObj::Int(r)) => Some(ValueObj::Int(*l | *r)),
        _ => None,
    }
}

/// Folds `lhs and rhs` where both are booleans or both integers.
pub fn eval_and(lhs: &ValueObj, rhs: &ValueObj) -> (r: Option<ValueObj>)
    ensures
        match r {
            Some(v) => and_fold(lhs@, rhs@) == Some(v@),
            None => and_fold(lhs@, rhs@) is None,
        },
{
    match (lhs, rhs) {
        (ValueObj::Bool(l), ValueObj::Bool(r)) => Some(ValueObj::Bool(*l && *r)),
        (ValueObj::Int(l), ValueObj::Int(r)) => Some(ValueObj::Int(*l & *r)),
        _ => None,
    }
}

/// `container contains elem` as far as values decide it: a list, tuple or
/// set holds an equal element, a dictionary an equal key, a string the
/// string as a substring. Any other pair is a question on types.
pub open spec fn contains_fold(container: SpecValue, elem: SpecValue) -> Option<bool> {
    match container {
        SpecValue::List(xs) => Some(xs.contains(elem)),
        SpecValue::Tuple(xs) => Some(xs.contains(elem)),
        SpecValue::SetObj(xs) => Some(xs.contains(elem)),
        SpecValue::Dict(d) => Some(has_key(d, elem)),
        SpecValue::Str(s) => match elem {
            SpecValue::Str(sub) => Some(contains_text(s, sub)),
            _ => None,
        },
        _ => None,
    }
}

fn any_equal(xs: &Vec<ValueObj>, elem: &ValueObj) -> (r: bool)
    ensures
        r == crate::value::view_values(xs@).contains(elem@),
{
    proof {
        lemma_view_values(xs@);
    }
    let mut i: usize = 0;
    while i < xs.len()
        invariant
            i <= xs@.len(),
            crate::value::view_values(xs@).len() == xs@.len(),
            forall|k: int|
                0 <= k < xs@.len() ==> #[trigger] crate::value::view_values(xs@)[k]
                    == crate::value::view_value(xs@[k]),
            forall|k: int| 0 <= k < i ==> xs@[k]@ != elem@,
        decreases xs.len() - i,
    {
        if xs[i].equals(elem) {
            assert(crate::value::view_values(xs@)[i as int] == elem@);
            return true;
        }
        i = i + 1;
    }
    proof {
        if crate::value::view_values(xs@).contains(elem@) {
            let k = choose|k: int|
                0 <= k < crate::value::view_values(xs@).len()
                    && crate::value::view_values(xs@)[k] == elem@;
            assert(xs@[k]@ == elem@);
        }
    }
    false
}

/// Some entry of `d` has the key `k`.
pub open spec fn has_key(d: Seq<(SpecValue, SpecValue)>, k: SpecValue) -> bool {
    exists|i: int| 0 <= i < d.len() && #[trigger] d[i].0 == k
}

fn any_key_equal(d: &Vec<(ValueObj, ValueObj)>, elem: &ValueObj) -> (r: bool)
    ensures
        r == has_key(crate::value::view_pairs(d@), elem@),
{
    proof {
        lemma_view_pairs(d@);
    }
    let mut i: usize = 0;
    while i < d.len()
        invariant
            i <= d@.len(),
            crate::value::view_pairs(d@).len() == d@.len(),
            forall|k: int|
                0 <= k < d@.len() ==> #[trigger] crate::value::view_pairs(d@)[k] == (
                    crate::value::view_value(d@[k].0),
                    crate::value::view_value(d@[k].1),
                ),
            forall|k: int| 0 <= k < i ==> d@[k].0@ != elem@,
        decreases d.len() - i,
    {
        if d[i].0.equals(elem) {
            assert(crate::value::view_pairs(d@)[i as int].0 == elem@);
            return true;
        }
        i = i + 1;
    }
    proof {
        assert forall|k: int| 0 <= k < d@.len() implies #[trigger] crate::value::view_pairs(
            d@,
        )[k].0 != elem@ by {
            assert(d@[k].0@ != elem@);
        }
    }
    false
}

/// Folds `container contains elem` where the values decide it.
pub fn eval_contains(container: &ValueObj, elem: &ValueObj) -> (r: Option<bool>)
    ensures
        r == contains_fold(container@, elem@),
{
    match container {
        ValueObj::List(xs) => {
            assert(container@ == SpecValue::List(crate::value::view_values(xs@)));
            Some(any_equal(xs, elem))
        },
        ValueObj::Tuple(xs) => {
            assert(container@ == SpecValue::Tuple(crate::value::view_values(xs@)));
            Some(any_equal(xs, elem))
        },
        ValueObj::SetObj(xs) => {
            assert(container@ == SpecValue::SetObj(crate::value::view_values(xs@)));
            Some(any_equal(xs, elem))
        },
        ValueObj::Dict(d) => {
            assert(container@ == SpecValue::Dict(crate::value::view_pairs(d@)));
            Some(any_key_equal(d, elem))
        },
        ValueObj::Str(s) => match elem {
            ValueObj::Str(sub) => {
                let sc = chars_of(s.as_str());
                let subc = chars_of(sub.as_str());
                Some(contains_chars(&sc, &subc))
            },
            _ => None,
        },
        _ => None,
    }
}

/// Negating an integer, a ratio or an infinity twice gives it back,
/// wherever the first negation folds.
pub proof fn law_negation_is_involutive(v: SpecValue)
    requires
        v is Int || v is Ratio || v is Inf || v is NegInf,
        unary_fold(OpKind::Neg, v) is Ok,
    ensures
        unary_fold(OpKind::Neg, unary_fold(OpKind::Neg, v)->Ok_0) == Ok::<SpecValue, UnaryError>(v),
{
}

/// The bitwise complement of the complement of an integer is the integer.
pub proof fn law_complement_is_involutive(i: i64)
    ensures
        unary_fold(OpKind::Invert, unary_fold(OpKind::Invert, SpecValue::Int(i))->Ok_0)
            == Ok::<SpecValue, UnaryError>(SpecValue::Int(i)),
{
}

/// The complement of a number is its negation less one: `~x == -x - 1`,
/// wherever the negation folds.
pub proof fn law_complement_is_negation_less_one(v: SpecValue)
    requires
        v is Int || v is Nat || v is Bool,
        unary_fold(OpKind::Neg, v) is Ok,
    ensures
        unary_fold(OpKind::Invert, v) is Ok,
        unary_fold(OpKind::Invert, v)->Ok_0 is Int,
        unary_fold(OpKind::Neg, v)->Ok_0 is Int,
        unary_fold(OpKind::Invert, v)->Ok_0->Int_0 == unary_fold(OpKind::Neg, v)->Ok_0->Int_0 - 1,
{
}

/// `obj[index]` on a tuple or a string, where the values decide it: the
/// element (for a string, the character as a string) at a position within
/// bounds; any other index is out of range, of the length given. Other
/// objects are subscripted by their class's `__getitem__`.
pub open spec fn getitem_fold(obj: SpecValue, index: SpecValue) -> Option<Result<SpecValue, nat>> {
    match obj {
        SpecValue::Tuple(elems) => Some(
            match spec_as_index(index) {
                Some(i) => if i < elems.len() {
                    Ok(elems[i as int])
                } else {
                    Err(elems.len())
                },
                None => Err(elems.len()),
            },
        ),
        SpecValue::Str(s) => Some(
            match spec_as_index(index) {
                Some(i) => if i < s.len() {
                    Ok(SpecValue::Str(seq![s[i as int]]))
                } else {
                    Err(s.len())
                },
                None => Err(s.len()),
            },
        ),
        _ => None,
    }
}

/// Subscripts a tuple or a string: `Some(Ok(item))`, or `Some(Err(len))`
/// where the index is out of range; `None` for any other object.
pub fn eval_getitem(obj: &ValueObj, index: &ValueObj) -> (r: Option<Result<ValueObj, usize>>)
    ensures
        match r {
            Some(Ok(v)) => getitem_fold(obj@, index@) == Some(Ok::<SpecValue, nat>(v@)),
            Some(Err(n)) => getitem_fold(obj@, index@) == Some(Err::<SpecValue, nat>(n as nat)),
            None => getitem_fold(obj@, index@) is None,
        },
{
    match obj {
        ValueObj::Tuple(elems) => {
            proof {
                lemma_view_values(elems@);
            }
            assert(obj@ == SpecValue::Tuple(crate::value::view_values(elems@)));
            match as_index(index) {
                Some(i) => if i < elems.len() {
                    Some(Ok(elems[i].copy_value()))
                } else {
                    Some(Err(elems.len()))
                },
                None => Some(Err(elems.len())),
            }
        },
        ValueObj::Str(s) => {
            let cs = chars_of(s.as_str());
            match as_index(index) {
                Some(i) => if i < cs.len() {
                    let mut one = String::new();
                    one.push(cs[i]);
                    proof {
                        assert(one@ =~= seq![s@[i as int]]);
                    }
                    Some(Ok(ValueObj::Str(one)))
                } else {
                    Some(Err(cs.len()))
                },
                None => Some(Err(cs.len())),
            }
        },
        _ => None,
    }
}

proof fn lemma_without_value_len(l: Seq<SpecValue>, x: SpecValue)
    ensures
        without_value(l, x).len() <= l.len(),
        without_value(l, x).len() == l.len() <==> !l.contains(x),
    decreases l.len(),
{
    if l.len() > 0 {
        let p = l.drop_last();
        lemma_without_value_len(p, x);
        if p.contains(x) {
            let k = choose|k: int| 0 <= k < p.len() && p[k] == x;
            assert(l[k] == x);
        }
        if l.contains(x) && l.last() != x {
            let k = choose|k: int| 0 <= k < l.len() && l[k] == x;
            assert(k < p.len());
            assert(p[k] == x);
        }
        if l.last() == x {
            assert(l[l.len() - 1] == x);
        }
    }
}

/// Containment in a list and `remove_all` agree: `x` is in `l` exactly
/// when removing every `x` from `l` leaves it shorter.
pub proof fn law_containment_agrees_with_remove_all(l: Seq<SpecValue>, x: SpecValue)
    ensures
        contains_fold(SpecValue::List(l), x) == Some(without_value(l, x).len() < l.len()),
{
    lemma_without_value_len(l, x);
}

/// De Morgan's laws for the folded operators: `not (a or b)` is
/// `not a and not b` on booleans, and `~(a | b)` is `~a & ~b` on integers
/// (and the same with `and` and `or` swapped).
pub proof fn law_de_morgan(a: SpecValue, b: SpecValue)
    requires
        (a is Bool && b is Bool) || (a is Int && b is Int),
    ensures
        ({
            let neg = if a is Bool {
                OpKind::Not
            } else {
                OpKind::Invert
            };
            &&& unary_fold(neg, or_fold(a, b)->0) == Ok::<SpecValue, UnaryError>(
                and_fold(unary_fold(neg, a)->Ok_0, unary_fold(neg, b)->Ok_0)->0,
            )
            &&& unary_fold(neg, and_fold(a, b)->0) == Ok::<SpecValue, UnaryError>(
                or_fold(unary_fold(neg, a)->Ok_0, unary_fold(neg, b)->Ok_0)->0,
            )
        }),
{
    if let (SpecValue::Int(x), SpecValue::Int(y)) = (a, b) {
        assert((-((x | y) + 1)) as i64 == ((-(x + 1)) as i64 & (-(y + 1)) as i64)) by (bit_vector);
        assert((-((x & y) + 1)) as i64 == ((-(x + 1)) as i64 | (-(y + 1)) as i64)) by (bit_vector);
    }
}

/// `not` negates a boolean: the result is a boolean other than its
/// operand, and negating it again gives the operand back.
pub proof fn law_not_negates(b: bool)
    ensures
        unary_fold(OpKind::Not, SpecValue::Bool(b)) matches Ok(SpecValue::Bool(r)) && r != b,
        unary_fold(OpKind::Not, unary_fold(OpKind::Not, SpecValue::Bool(b))->Ok_0)
            == Ok::<SpecValue, UnaryError>(SpecValue::Bool(b)),
{
}

/// Unary `+` keeps a number as it is.
pub proof fn law_plus_keeps_numbers(v: SpecValue)
    requires
        v is Nat || v is Int || v is Ratio || v is Inf || v is NegInf,
    ensures
        unary_fold(OpKind::Pos, v) == Ok::<SpecValue, UnaryError>(v),
{
}

/// A container holds each of its elements (a dictionary each of its
/// keys), and a string holds every text that occurs in it, itself and the
/// empty text among them.
pub proof fn law_container_holds_its_elements(
    l: Seq<SpecValue>,
    d: Seq<(SpecValue, SpecValue)>,
    i: int,
    p: Seq<char>,
    q: Seq<char>,
    r: Seq<char>,
)
    requires
        0 <= i < l.len(),
        0 <= i < d.len(),
    ensures
        contains_fold(SpecValue::List(l), l[i]) == Some(true),
        contains_fold(SpecValue::Tuple(l), l[i]) == Some(true),
        contains_fold(SpecValue::SetObj(l), l[i]) == Some(true),
        contains_fold(SpecValue::Dict(d), d[i].0) == Some(true),
        contains_fold(SpecValue::Str(p + q + r), SpecValue::Str(q)) == Some(true),
        contains_fold(SpecValue::Str(p), SpecValue::Str(p)) == Some(true),
        contains_fold(SpecValue::Str(p), SpecValue::Str(Seq::empty())) == Some(true),
{
    assert(l.contains(l[i]));
    assert((p + q + r).subrange(p.len() as int, (p.len() + q.len()) as int) =~= q);
    assert(occurs_at(p + q + r, q, p.len() as int));
    assert(p.subrange(0, p.len() as int) =~= p);
    assert(occurs_at(p, p, 0));
    assert(p.subrange(0, 0) =~= Seq::<char>::empty());
    assert(occurs_at(p, Seq::empty(), 0));
}

/// An empty list, tuple, set or dictionary holds nothing.
pub proof fn law_empty_container_holds_nothing(x: SpecValue)
    ensures
        contains_fold(SpecValue::List(Seq::empty()), x) == Some(false),
        contains_fold(SpecValue::Tuple(Seq::empty()), x) == Some(false),
        contains_fold(SpecValue::SetObj(Seq::empty()), x) == Some(false),
        contains_fold(SpecValue::Dict(Seq::empty()), x) == Some(false),
{
}

/// Subscripting a tuple or a string at a position within bounds gives the
/// element (the character, as a string) there; at any other position the
/// index is out of range of the length.
pub proof fn law_subscript_gives_the_element_at(elems: Seq<SpecValue>, s: Seq<char>, i: u64)
    requires
        i <= usize::MAX,
    ensures
        getitem_fold(SpecValue::Tuple(elems), SpecValue::Nat(i)) == Some(
            if i < elems.len() {
                Ok::<SpecValue, nat>(elems[i as int])
            } else {
                Err::<SpecValue, nat>(elems.len())
            },
        ),
        getitem_fold(SpecValue::Str(s), SpecValue::Nat(i)) == Some(
            if i < s.len() {
                Ok::<SpecValue, nat>(SpecValue::Str(seq![s[i as int]]))
            } else {
                Err::<SpecValue, nat>(s.len())
            },
        ),
{
}

/// `or` and `and` on booleans are the logical ones: each commutes, `False`
/// is neutral for `or` and `True` for `and`, and `a or a == a and a == a`;
/// on integers they are bitwise, and likewise idempotent and commutative.
pub proof fn law_or_and_are_logical(a: bool, b: bool, x: i64, y: i64)
    ensures
        or_fold(SpecValue::Bool(a), SpecValue::Bool(b)) == or_fold(SpecValue::Bool(b), SpecValue::Bool(a)),
        and_fold(SpecValue::Bool(a), SpecValue::Bool(b)) == and_fold(SpecValue::Bool(b), SpecValue::Bool(a)),
        or_fold(SpecValue::Bool(a), SpecValue::Bool(false)) == Some(SpecValue::Bool(a)),
        and_fold(SpecValue::Bool(a), SpecValue::Bool(true)) == Some(SpecValue::Bool(a)),
        or_fold(SpecValue::Bool(a), SpecValue::Bool(true)) == Some(SpecValue::Bool(true)),
        and_fold(SpecValue::Bool(a), SpecValue::Bool(false)) == Some(SpecValue::Bool(false)),
        or_fold(SpecValue::Bool(a), SpecValue::Bool(a)) == Some(SpecValue::Bool(a)),
        and_fold(SpecValue::Bool(a), SpecValue::Bool(a)) == Some(SpecValue::Bool(a)),
        or_fold(SpecValue::Int(x), SpecValue::Int(y)) == or_fold(SpecValue::Int(y), SpecValue::Int(x)),
        and_fold(SpecValue::Int(x), SpecValue::Int(y)) == and_fold(SpecValue::Int(y), SpecValue::Int(x)),
        or_fold(SpecValue::Int(x), SpecValue::Int(x)) == Some(SpecValue::Int(x)),
        and_fold(SpecValue::Int(x), SpecValue::Int(x)) == Some(SpecValue::Int(x)),
        or_fold(SpecValue::Int(x), SpecValue::Int(0)) == Some(SpecValue::Int(x)),
        and_fold(SpecValue::Int(x), SpecValue::Int(0)) == Some(SpecValue::Int(0)),
{
    assert(x | y == y | x) by (bit_vector);
    assert(x & y == y & x) by (bit_vector);
    assert(x | x == x) by (bit_vector);
    assert(x & x == x) by (bit_vector);
    assert(x | 0 == x) by (bit_vector);
    assert(x & 0 == 0) by (bit_vector);
}

} // verus!
