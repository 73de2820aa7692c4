# erg_compiler (verified parts)

Parts of the Erg compiler, written in Verus and proved against their
contracts.

- `src/const_func.rs`, `src/convert.rs`, `src/pyint.rs`: the constant
  builtins that the compiler folds at compile time (`len`, `int`, `bin`,
  `str.replace`, `list.insert_at`, ...), each specified over a model of
  constant values (`src/value.rs`) and of call arguments (`src/args.rs`),
  with Python's `int()` and `str()` on integers and fractions.
- `src/error.rs`, `src/eval_error.rs`: why a fold fails, and the errors
  that evaluation reports.
- `src/eval.rs`, `src/call.rs`: the operator of each operator token and
  the dunder method it dispatches to, the folding of unary operators,
  `or`/`and`, containment and subscripts on values, the type of each
  literal; and the binding of a constant function's arguments to its
  parameters.
- `src/transpile.rs`: name mangling, escaping, indentation and import
  stripping of the Python transpiler, and the prelude of core runtime
  modules that a generated script inlines, each at most once.
- `src/register.rs`: which module names can be imported, and which class
  and trait definitions are cyclic (their chain of bases leads back to
  them).
- `src/ownercheck.rs`, `src/store_graph.rs`: the ownership checker's
  bookkeeping (scopes, moves, borrows, the captures of closures, where
  each variable was dropped) and the search for cycles of references among
  stored objects.
- `src/ownerwalk.rs`: the ownership checker's walk over a checked program
  (`check`, `check_expr`): which node is used as owned and which as
  borrowed, how call arguments are matched to the callee's parameter
  ownerships, and the errors reported for a use after a move.
- `src/refwalk.rs`: the reference count's walk over an expression
  (`inc_ref_expr`): which names and attributes it refers to, in order, and
  whether it refers to a known one, with the namespace lookups handed in.
- `src/order.rs`, `src/text.rs`, `src/textmap.rs`: text order and sorting,
  character-level text helpers, and text-keyed maps and sets.

`app/` holds what goes through floating point (`float`, `round` of a
float, `sum` and `prod` of a list) on top of the library, and the reading
of the core runtime modules' sources from disk. `tests/` holds the tests.
