//! Verified parts of the Erg compiler: the compile-time evaluation of the
//! constant builtin functions (with the Python-compatible integer and text
//! conversions they rest on), the folding of operators on values and the
//! binding of constant calls' arguments, the errors that evaluation
//! reports, the detection of cyclic class definitions, the name mangling,
//! text helpers and prelude of the Python transpiler, and the bookkeeping
//! of the ownership checker (which variables are alive or moved in which
//! scope, what closures capture, and the cycles of references that stores
//! between mutable objects can build), and the reference count's walk over
//! an expression.

pub mod args;
pub mod call;
pub mod const_func;
pub mod convert;
pub mod error;
pub mod eval;
pub mod eval_error;
pub mod order;
pub mod ownercheck;
pub mod ownerwalk;
pub mod pyint;
pub mod refwalk;
pub mod register;
pub mod store_graph;
pub mod text;
pub mod textmap;
pub mod transpile;
pub mod value;
