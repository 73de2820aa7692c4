//! The ownership checker's walk over a program: which expression is used
//! as owned and which as borrowed, how the arguments of a call meet the
//! ownership of its parameters, and what each use does to the scopes.

use vstd::prelude::*;

use crate::args::str_eq;
use crate::ownercheck::{
    can_form_ref_cycle, first_alive, first_dropped, is_mutable_scalar, path_text, spec_check_acc,
    spec_define, spec_enter_module, spec_enter_scope, spec_leave_def, spec_leave_scope,
    spec_moved_capture, spec_note_capture, MoveError, OwnershipChecker, ScopeState,
};
use crate::store_graph::{has_store_cycle, report_texts, reports_cycles};
use crate::text::string_from;

verus! {

/// How a parameter takes its argument.
#[derive(Debug, Clone, Copy, PartialEq, Eq, Structural)]
pub enum Ownership {
    Owned,
    Ref,
    RefMut,
}

/// The ownership of each parameter of a subroutine's signature: those
/// without a default (by name, when they have one), the variadic ones, and
/// those with a default.
pub struct ParamOwnerships {
    pub non_defaults: Vec<(Option<String>, Ownership)>,
    pub var_params: Option<Ownership>,
    pub defaults: Vec<(String, Ownership)>,
    pub kw_var_params: Option<Ownership>,
}

/// An expression as the ownership checker reads it.
pub enum CheckedExpr<L> {
    /// A definition: of a variable or subroutine `name` (`None` for a glob
    /// definition), with the named parameters of a subroutine, its body,
    /// the key under which a closure records its captures, and whether it
    /// is a closure (a subroutine, or a variable bound to one lambda).
    Def {
        name: Option<String>,
        public: bool,
        is_subr: bool,
        params: Vec<String>,
        body: Vec<CheckedExpr<L>>,
        closure_key: String,
        is_closure: bool,
    },
    /// A class or patch definition: its base, then its methods.
    Class { base: Option<Box<CheckedExpr<L>>>, methods: Vec<CheckedExpr<L>> },
    /// A variable: its name, its key (where it is defined, and its name),
    /// whether its type is mutable, the local name of that type, and where
    /// it is used.
    Accessor { name: String, key: String, is_mut: bool, class_name: String, loc: L },
    /// An attribute of an object.
    Attr(Box<CheckedExpr<L>>),
    /// A call: the callee (or receiver), the ownership of the parameters
    /// when the callee is a subroutine, whether it is a method call, the
    /// arguments, whether the method called is procedural (it may store its
    /// arguments in the receiver), and where.
    Call {
        obj: Box<CheckedExpr<L>>,
        sig: Option<ParamOwnerships>,
        is_method: bool,
        pos_args: Vec<CheckedExpr<L>>,
        kw_args: Vec<(String, CheckedExpr<L>)>,
        procedural: bool,
        loc: L,
    },
    BinOp(Box<CheckedExpr<L>>, Box<CheckedExpr<L>>),
    UnaryOp(Box<CheckedExpr<L>>),
    /// The elements of a list, tuple, set or dictionary, or the bodies of a
    /// record's attributes: each is used as the container is.
    Elems(Vec<CheckedExpr<L>>),
    /// A lambda, numbered `id`.
    Lambda { id: String, body: Vec<CheckedExpr<L>> },
    /// A type ascription.
    TypeAsc(Box<CheckedExpr<L>>),
    /// Anything that uses no variable.
    Other,
}

/// What the walk has done so far: the scopes, the stores seen and the
/// names of the objects in them, and the moves refused.
pub struct Checked<L> {
    pub scope: ScopeState<L>,
    pub stores: Map<Seq<char>, Seq<(Seq<char>, L)>>,
    pub names: Map<Seq<char>, Seq<char>>,
    pub errors: Seq<(Seq<char>, L, L)>,
}

/// The object a store can involve: a variable (under its key, and its
/// name) whose type can hold other objects, possibly under a type
/// ascription.
pub open spec fn container_of<L>(e: CheckedExpr<L>) -> Option<(Seq<char>, Seq<char>)>
    decreases e,
{
    match e {
        CheckedExpr::Accessor { name, key, is_mut, class_name, .. } => if is_mut
            && !is_mutable_scalar(class_name@) {
            Some((key@, name@))
        } else {
            None
        },
        CheckedExpr::TypeAsc(x) => container_of(*x),
        _ => None,
    }
}

/// The store of `to` into `from` at `loc` is recorded.
pub open spec fn add_store<L>(c: Checked<L>, from: (Seq<char>, Seq<char>), to: (Seq<char>, Seq<char>), loc: L) -> Checked<L> {
    Checked {
        scope: c.scope,
        stores: c.stores.insert(
            from.0,
            (if c.stores.contains_key(from.0) {
                c.stores[from.0]
            } else {
                Seq::empty()
            }).push((to.0, loc)),
        ),
        names: c.names.insert(from.0, from.1).insert(to.0, to.1),
        errors: c.errors,
    }
}

/// The objects among `args` that a procedural method may store.
pub open spec fn stored_objects<L>(args: Seq<CheckedExpr<L>>) -> Seq<(Seq<char>, Seq<char>)>
    decreases args.len(),
{
    if args.len() == 0 {
        Seq::empty()
    } else {
        let rest = stored_objects(args.drop_last());
        match container_of(args.last()) {
            Some(t) => rest.push(t),
            None => rest,
        }
    }
}

/// Records the stores of `tos` into `from`, in order.
pub open spec fn add_stores<L>(
    c: Checked<L>,
    from: (Seq<char>, Seq<char>),
    tos: Seq<(Seq<char>, Seq<char>)>,
    loc: L,
) -> Checked<L>
    decreases tos.len(),
{
    if tos.len() == 0 {
        c
    } else {
        add_store(add_stores(c, from, tos.drop_last(), loc), from, tos.last(), loc)
    }
}

/// A procedural method call on a container may store in it each argument
/// that is a container, positional ones first.
pub open spec fn record_mut_store<L>(
    c: Checked<L>,
    obj: CheckedExpr<L>,
    pos_args: Seq<CheckedExpr<L>>,
    kw_args: Seq<(String, CheckedExpr<L>)>,
    procedural: bool,
    loc: L,
) -> Checked<L> {
    if !procedural {
        c
    } else {
        match container_of(obj) {
            None => c,
            Some(from) => add_stores(
                c,
                from,
                stored_objects(pos_args) + stored_objects(kw_args.map_values(|a: (String, CheckedExpr<L>)| a.1)),
                loc,
            ),
        }
    }
}

/// The parameter name `o` is `name`.
pub open spec fn named(o: Option<String>, name: Seq<char>) -> bool {
    match o {
        Some(k) => k@ == name,
        None => false,
    }
}

/// The ownership of the parameter a keyword argument `name` goes to: the
/// first default parameter of that name, else the first parameter without
/// a default of that name, else the variadic keyword parameters; `None`
/// when there is none, where the checker stops.
pub open spec fn kw_ownership(p: ParamOwnerships, name: Seq<char>) -> Option<Ownership> {
    let ds = p.defaults@;
    let nd = p.non_defaults@;
    if exists|j: int| 0 <= j < ds.len() && ds[j].0@ == name {
        let j = choose|j: int| 0 <= j < ds.len() && ds[j].0@ == name && forall|k: int| 0 <= k < j ==> ds[k].0@ != name;
        Some(ds[j].1)
    } else if exists|i: int| 0 <= i < nd.len() && named(nd[i].0, name) {
        let i = choose|i: int| 0 <= i < nd.len() && named(nd[i].0, name) && forall|q: int| 0 <= q < i ==> !named(nd[q].0, name);
        Some(nd[i].1)
    } else {
        p.kw_var_params
    }
}

/// The names of keyword arguments.
pub open spec fn kw_names<L>(kw: Seq<(String, CheckedExpr<L>)>) -> Seq<Seq<char>> {
    kw.map_values(|a: (String, CheckedExpr<L>)| a.0@)
}

/// The smaller of two numbers.
pub open spec fn min_nat(a: nat, b: nat) -> nat {
    if a <= b {
        a
    } else {
        b
    }
}

/// The arguments of a call to check, in order, each as (keyword or
/// positional, index, the ownership its parameter takes it with): the
/// positional ones against the parameters without a default (not counting
/// the receiver of a method), the rest against the variadic parameter or
/// else the default ones; the first keyword ones by their names, the rest
/// against the variadic keyword parameters or else the default ones. An
/// argument that meets no parameter is not checked. `None` where the
/// checker stops: a method without a receiver parameter, or a keyword
/// that names no parameter.
pub open spec fn arg_plan(p: ParamOwnerships, is_method: bool, n_pos: nat, kw: Seq<Seq<char>>) -> Option<
    Seq<(bool, nat, Ownership)>,
> {
    let nd = p.non_defaults@;
    let ds = p.defaults@;
    if is_method && nd.len() == 0 {
        None
    } else {
        let nd_len: nat = if is_method {
            (nd.len() - 1) as nat
        } else {
            nd.len()
        };
        let split = min_nat(nd_len, n_pos);
        let rest_n = (n_pos - split) as nat;
        let first = Seq::new(split, |i: int| (false, i as nat, nd[i].1));
        let second = match p.var_params {
            Some(o) => Seq::new(rest_n, |i: int| (false, (split + i) as nat, o)),
            None => Seq::new(min_nat(rest_n, ds.len()), |i: int| (false, (split + i) as nat, ds[i].1)),
        };
        let dsplit = min_nat(ds.len(), kw.len());
        if exists|j: int| 0 <= j < dsplit && #[trigger] kw_ownership(p, kw[j]) is None {
            None
        } else {
            let krest = (kw.len() - dsplit) as nat;
            let third = Seq::new(dsplit, |j: int| (true, j as nat, kw_ownership(p, kw[j])->0));
            let fourth = match p.kw_var_params {
                Some(o) => Seq::new(krest, |j: int| (true, (dsplit + j) as nat, o)),
                None => Seq::new(
                    min_nat(krest, ds.len()),
                    |j: int| (true, (dsplit + j) as nat, ds[j].1),
                ),
            };
            Some(first + second + third + fourth)
        }
    }
}

/// The named parameters `ps` are defined in the current scope, in order.
pub open spec fn define_params<L>(s: ScopeState<L>, ps: Seq<String>) -> ScopeState<L>
    decreases ps.len(),
{
    if ps.len() == 0 {
        s
    } else {
        spec_define(define_params(s, ps.drop_last()), Some(ps.last()@))
    }
}

/// `c` with its scopes replaced.
pub open spec fn with_scope<L>(c: Checked<L>, s: ScopeState<L>) -> Checked<L> {
    Checked { scope: s, stores: c.stores, names: c.names, errors: c.errors }
}

/// A use of the variable `name` (key `key`), as `spec_check_acc` makes
/// it, with the move refused recorded; `None` where the use would move a
/// variable that no scope has, where the checker stops.
pub open spec fn walk_acc<L>(
    c: Checked<L>,
    name: Seq<char>,
    key: Seq<char>,
    is_mut: bool,
    own: Ownership,
    chunk: bool,
    loc: L,
) -> Option<Checked<L>> {
    let s = c.scope;
    let owned = own is Owned;
    if first_dropped(s, name, 0) is None && spec_moved_capture(s, key) is None && is_mut && owned
        && !chunk && first_alive(s, name, 0) is None {
        None
    } else {
        let (s2, err) = spec_check_acc(s, name, key, is_mut, owned, chunk, loc);
        Some(
            Checked {
                scope: s2,
                stores: c.stores,
                names: c.names,
                errors: match err {
                    Some(x) => c.errors.push(x),
                    None => c.errors,
                },
            },
        )
    }
}

/// `check_expr`: the walk over `e`, used with `own` (`chunk` when it is a
/// statement of its own); `None` where the checker stops.
pub open spec fn spec_check_expr<L>(c: Checked<L>, e: CheckedExpr<L>, own: Ownership, chunk: bool) -> Option<
    Checked<L>,
>
    decreases e, 1nat, 0nat,
{
    match e {
        CheckedExpr::Def { name, public, is_subr, params, body, closure_key, is_closure } => {
            let s1 = spec_define(
                c.scope,
                match name {
                    Some(n) => Some(n@),
                    None => None,
                },
            );
            let path_name = match name {
                Some(n) => n@,
                None => "*"@,
            };
            let s2 = define_params(spec_enter_scope(s1, public, path_name, is_subr), params@);
            let inner = if body@.len() == 1 {
                spec_check_expr(with_scope(c, s2), body@[0], Ownership::Owned, false)
            } else {
                spec_check_exprs(with_scope(c, s2), body@, Ownership::Owned, true)
            };
            match inner {
                None => None,
                Some(c2) => Some(with_scope(c2, spec_leave_def(c2.scope, is_subr, closure_key@, is_closure))),
            }
        },
        CheckedExpr::Class { base, methods } => {
            let c1 = match base {
                Some(b) => spec_check_expr(c, *b, Ownership::Owned, false),
                None => Some(c),
            };
            match c1 {
                None => None,
                Some(c1) => spec_check_exprs(c1, methods@, Ownership::Owned, true),
            }
        },
        CheckedExpr::Accessor { name, key, is_mut, loc, .. } => walk_acc(c, name@, key@, is_mut, own, chunk, loc),
        CheckedExpr::Attr(obj) => spec_check_expr(c, *obj, Ownership::Ref, false),
        CheckedExpr::Call { obj, sig, is_method, pos_args, kw_args, procedural, loc } => {
            let c1 = record_mut_store(c, *obj, pos_args@, kw_args@, procedural, loc);
            match spec_check_expr(c1, *obj, Ownership::Ref, false) {
                None => None,
                Some(c2) => match sig {
                    None => Some(c2),
                    Some(p) => match arg_plan(
                        p,
                        is_method,
                        pos_args@.len(),
                        kw_names(kw_args@),
                    ) {
                        None => None,
                        Some(plan) => spec_check_args(c2, e, plan),
                    },
                },
            }
        },
        CheckedExpr::BinOp(l, r) => match spec_check_expr(c, *l, Ownership::Ref, false) {
            None => None,
            Some(c1) => spec_check_expr(c1, *r, Ownership::Ref, false),
        },
        CheckedExpr::UnaryOp(x) => spec_check_expr(c, *x, Ownership::Ref, false),
        CheckedExpr::Elems(xs) => spec_check_exprs(c, xs@, own, false),
        CheckedExpr::Lambda { id, body } => {
            let s1 = spec_enter_scope(c.scope, false, "<lambda_"@ + id@ + ">"@, true);
            let inner = if body@.len() == 1 {
                spec_check_expr(with_scope(c, s1), body@[0], Ownership::Owned, false)
            } else {
                spec_check_exprs(with_scope(c, s1), body@, Ownership::Owned, true)
            };
            match inner {
                None => None,
                Some(c2) => Some(with_scope(c2, spec_leave_scope(c2.scope, true).0)),
            }
        },
        CheckedExpr::TypeAsc(x) => spec_check_expr(c, *x, own, chunk),
        CheckedExpr::Other => Some(c),
    }
}

/// The walk over `es`, one after the other, each used with `own`.
pub open spec fn spec_check_exprs<L>(c: Checked<L>, es: Seq<CheckedExpr<L>>, own: Ownership, chunk: bool) -> Option<
    Checked<L>,
>
    decreases es, 1nat, 0nat,
{
    if es.len() == 0 {
        Some(c)
    } else {
        match spec_check_exprs(c, es.subrange(0, es.len() - 1), own, chunk) {
            None => None,
            Some(c1) => spec_check_expr(c1, es[es.len() - 1], own, chunk),
        }
    }
}

/// The walk over the arguments of the call `call` that `plan` lists, each
/// used with the ownership of its parameter.
pub open spec fn spec_check_args<L>(c: Checked<L>, call: CheckedExpr<L>, plan: Seq<(bool, nat, Ownership)>) -> Option<
    Checked<L>,
>
    decreases call, 0nat, plan.len(),
{
    if plan.len() == 0 {
        Some(c)
    } else {
        match spec_check_args(c, call, plan.drop_last()) {
            None => None,
            Some(c1) => match call {
                CheckedExpr::Call { pos_args, kw_args, .. } => {
                    let (is_kw, i, o) = plan.last();
                    if !is_kw && i < pos_args@.len() {
                        spec_check_expr(c1, pos_args@[i as int], o, false)
                    } else if is_kw && i < kw_args@.len() {
                        spec_check_expr(c1, kw_args@[i as int].1, o, false)
                    } else {
                        Some(c1)
                    }
                },
                _ => Some(c1),
            },
        }
    }
}

/// The walk from `c` to `d` kept every move refused before it, at the
/// front.
pub open spec fn keeps_errors<L>(c: Checked<L>, d: Checked<L>) -> bool {
    c.errors.len() <= d.errors.len() && d.errors.subrange(0, c.errors.len() as int) == c.errors
}

proof fn lemma_keeps_errors_trans<L>(a: Checked<L>, b: Checked<L>, c: Checked<L>)
    requires
        keeps_errors(a, b),
        keeps_errors(b, c),
    ensures
        keeps_errors(a, c),
{
    assert(c.errors.subrange(0, a.errors.len() as int) =~= c.errors.subrange(
        0,
        b.errors.len() as int,
    ).subrange(0, a.errors.len() as int));
}

proof fn lemma_define_params_path<L>(s: ScopeState<L>, ps: Seq<String>)
    ensures
        define_params(s, ps).path == s.path,
    decreases ps.len(),
{
    if ps.len() > 0 {
        lemma_define_params_path(s, ps.drop_last());
    }
}

/// The walk leaves the scope it started in: it enters and leaves scopes in
/// pairs.
pub proof fn lemma_check_expr_path<L>(c: Checked<L>, e: CheckedExpr<L>, own: Ownership, chunk: bool)
    requires
        spec_check_expr(c, e, own, chunk) is Some,
    ensures
        spec_check_expr(c, e, own, chunk)->0.scope.path == c.scope.path,
    decreases e, 1nat, 0nat,
{
    match e {
        CheckedExpr::Def { name, public, is_subr, params, body, closure_key, is_closure } => {
            let s1 = spec_define(
                c.scope,
                match name {
                    Some(n) => Some(n@),
                    None => None,
                },
            );
            let path_name = match name {
                Some(n) => n@,
                None => "*"@,
            };
            let s0 = spec_enter_scope(s1, public, path_name, is_subr);
            lemma_define_params_path(s0, params@);
            let s2 = define_params(s0, params@);
            if body@.len() == 1 {
                lemma_check_expr_path(with_scope(c, s2), body@[0], Ownership::Owned, false);
            } else {
                lemma_check_exprs_path(with_scope(c, s2), body@, Ownership::Owned, true);
            }
            assert(s0.path.drop_last() =~= c.scope.path);
        },
        CheckedExpr::Class { base, methods } => {
            let c1 = match base {
                Some(b) => spec_check_expr(c, *b, Ownership::Owned, false),
                None => Some(c),
            };
            if let Some(b) = base {
                lemma_check_expr_path(c, *b, Ownership::Owned, false);
            }
            lemma_check_exprs_path(c1->0, methods@, Ownership::Owned, true);
        },
        CheckedExpr::Accessor { .. } => {},
        CheckedExpr::Attr(obj) => {
            lemma_check_expr_path(c, *obj, Ownership::Ref, false);
        },
        CheckedExpr::Call { obj, sig, is_method, pos_args, kw_args, procedural, loc } => {
            let c1 = record_mut_store(c, *obj, pos_args@, kw_args@, procedural, loc);
            lemma_record_mut_store_scope(c, *obj, pos_args@, kw_args@, procedural, loc);
            lemma_check_expr_path(c1, *obj, Ownership::Ref, false);
            let c2 = spec_check_expr(c1, *obj, Ownership::Ref, false)->0;
            if let Some(p) = sig {
                let plan = arg_plan(
                    p,
                    is_method,
                    pos_args@.len(),
                    kw_names(kw_args@),
                )->0;
                lemma_check_args_path(c2, e, plan);
            }
        },
        CheckedExpr::BinOp(l, r) => {
            lemma_check_expr_path(c, *l, Ownership::Ref, false);
            let c1 = spec_check_expr(c, *l, Ownership::Ref, false)->0;
            lemma_check_expr_path(c1, *r, Ownership::Ref, false);
        },
        CheckedExpr::UnaryOp(x) => {
            lemma_check_expr_path(c, *x, Ownership::Ref, false);
        },
        CheckedExpr::Elems(xs) => {
            lemma_check_exprs_path(c, xs@, own, false);
        },
        CheckedExpr::Lambda { id, body } => {
            let s1 = spec_enter_scope(c.scope, false, "<lambda_"@ + id@ + ">"@, true);
            if body@.len() == 1 {
                lemma_check_expr_path(with_scope(c, s1), body@[0], Ownership::Owned, false);
            } else {
                lemma_check_exprs_path(with_scope(c, s1), body@, Ownership::Owned, true);
            }
            assert(s1.path.drop_last() =~= c.scope.path);
        },
        CheckedExpr::TypeAsc(x) => {
            lemma_check_expr_path(c, *x, own, chunk);
        },
        CheckedExpr::Other => {},
    }
}

pub proof fn lemma_check_exprs_path<L>(c: Checked<L>, es: Seq<CheckedExpr<L>>, own: Ownership, chunk: bool)
    requires
        spec_check_exprs(c, es, own, chunk) is Some,
    ensures
        spec_check_exprs(c, es, own, chunk)->0.scope.path == c.scope.path,
    decreases es, 1nat, 0nat,
{
    if es.len() > 0 {
        let pre = es.subrange(0, es.len() - 1);
        lemma_check_exprs_path(c, pre, own, chunk);
        let c1 = spec_check_exprs(c, pre, own, chunk)->0;
        lemma_check_expr_path(c1, es[es.len() - 1], own, chunk);
    }
}

pub proof fn lemma_check_args_path<L>(c: Checked<L>, call: CheckedExpr<L>, plan: Seq<(bool, nat, Ownership)>)
    requires
        spec_check_args(c, call, plan) is Some,
    ensures
        spec_check_args(c, call, plan)->0.scope.path == c.scope.path,
    decreases call, 0nat, plan.len(),
{
    if plan.len() > 0 {
        lemma_check_args_path(c, call, plan.drop_last());
        let c1 = spec_check_args(c, call, plan.drop_last())->0;
        if let CheckedExpr::Call { pos_args, kw_args, .. } = call {
            let (is_kw, i, o) = plan.last();
            if !is_kw && i < pos_args@.len() {
                lemma_check_expr_path(c1, pos_args@[i as int], o, false);
            } else if is_kw && i < kw_args@.len() {
                lemma_check_expr_path(c1, kw_args@[i as int].1, o, false);
            }
        }
    }
}

proof fn lemma_add_stores_scope<L>(
    c: Checked<L>,
    from: (Seq<char>, Seq<char>),
    tos: Seq<(Seq<char>, Seq<char>)>,
    loc: L,
)
    ensures
        add_stores(c, from, tos, loc).scope == c.scope,
        add_stores(c, from, tos, loc).errors == c.errors,
    decreases tos.len(),
{
    if tos.len() > 0 {
        lemma_add_stores_scope(c, from, tos.drop_last(), loc);
    }
}

proof fn lemma_record_mut_store_scope<L>(
    c: Checked<L>,
    obj: CheckedExpr<L>,
    pos_args: Seq<CheckedExpr<L>>,
    kw_args: Seq<(String, CheckedExpr<L>)>,
    procedural: bool,
    loc: L,
)
    ensures
        record_mut_store(c, obj, pos_args, kw_args, procedural, loc).scope == c.scope,
        record_mut_store(c, obj, pos_args, kw_args, procedural, loc).errors == c.errors,
{
    if procedural {
        if let Some(from) = container_of(obj) {
            lemma_add_stores_scope(
                c,
                from,
                stored_objects(pos_args) + stored_objects(
                    kw_args.map_values(|a: (String, CheckedExpr<L>)| a.1),
                ),
                loc,
            );
        }
    }
}

/// The moves refused, as texts.
pub open spec fn move_errors<L>(v: Seq<MoveError<L>>) -> Seq<(Seq<char>, L, L)> {
    v.map_values(|e: MoveError<L>| (e.name@, e.used_at, e.moved_at))
}

fn container_of_exec<L>(e: &CheckedExpr<L>) -> (r: Option<(String, String)>)
    ensures
        match r {
            Some((k, n)) => container_of(*e) == Some((k@, n@)),
            None => container_of(*e) is None,
        },
    decreases e,
{
    match e {
        CheckedExpr::Accessor { name, key, is_mut, class_name, .. } => {
            if can_form_ref_cycle(*is_mut, class_name.as_str()) {
                Some((string_from(key.as_str()), string_from(name.as_str())))
            } else {
                None
            }
        },
        CheckedExpr::TypeAsc(x) => container_of_exec(x),
        _ => None,
    }
}

fn stored_objects_exec<L>(args: &Vec<CheckedExpr<L>>, out: &mut Vec<(String, String)>)
    ensures
        final(out)@.map_values(|t: (String, String)| (t.0@, t.1@)) == old(out)@.map_values(
            |t: (String, String)| (t.0@, t.1@),
        ) + stored_objects(args@),
{
    let ghost start = old(out)@.map_values(|t: (String, String)| (t.0@, t.1@));
    let mut i: usize = 0;
    assert(args@.subrange(0, 0) =~= Seq::<CheckedExpr<L>>::empty());
    assert(start + stored_objects(Seq::<CheckedExpr<L>>::empty()) =~= start);
    while i < args.len()
        invariant
            i <= args@.len(),
            out@.map_values(|t: (String, String)| (t.0@, t.1@)) == start + stored_objects(
                args@.subrange(0, i as int),
            ),
        decreases args.len() - i,
    {
        let ghost before = out@.map_values(|t: (String, String)| (t.0@, t.1@));
        assert(args@.subrange(0, i + 1).drop_last() =~= args@.subrange(0, i as int));
        assert(args@.subrange(0, i + 1).last() == args@[i as int]);
        match container_of_exec(&args[i]) {
            Some(t) => {
                out.push(t);
                assert(out@.map_values(|t: (String, String)| (t.0@, t.1@)) =~= before.push(
                    (out@.last().0@, out@.last().1@),
                ));
            },
            None => {},
        }
        i = i + 1;
    }
    assert(args@.subrange(0, args@.len() as int) =~= args@);
}

fn stored_kw_objects_exec<L>(kw: &Vec<(String, CheckedExpr<L>)>, out: &mut Vec<(String, String)>)
    ensures
        final(out)@.map_values(|t: (String, String)| (t.0@, t.1@)) == old(out)@.map_values(
            |t: (String, String)| (t.0@, t.1@),
        ) + stored_objects(kw@.map_values(|a: (String, CheckedExpr<L>)| a.1)),
{
    let ghost start = old(out)@.map_values(|t: (String, String)| (t.0@, t.1@));
    let ghost vals = kw@.map_values(|a: (String, CheckedExpr<L>)| a.1);
    let mut i: usize = 0;
    assert(vals.subrange(0, 0) =~= Seq::<CheckedExpr<L>>::empty());
    assert(start + stored_objects(Seq::<CheckedExpr<L>>::empty()) =~= start);
    while i < kw.len()
        invariant
            i <= kw@.len(),
            vals == kw@.map_values(|a: (String, CheckedExpr<L>)| a.1),
            out@.map_values(|t: (String, String)| (t.0@, t.1@)) == start + stored_objects(
                vals.subrange(0, i as int),
            ),
        decreases kw.len() - i,
    {
        let ghost before = out@.map_values(|t: (String, String)| (t.0@, t.1@));
        assert(vals.subrange(0, i + 1).drop_last() =~= vals.subrange(0, i as int));
        assert(vals.subrange(0, i + 1).last() == kw@[i as int].1);
        match container_of_exec(&kw[i].1) {
            Some(t) => {
                out.push(t);
                assert(out@.map_values(|t: (String, String)| (t.0@, t.1@)) =~= before.push(
                    (out@.last().0@, out@.last().1@),
                ));
            },
            None => {},
        }
        i = i + 1;
    }
    assert(vals.subrange(0, vals.len() as int) =~= vals);
}

fn first_default(ds: &Vec<(String, Ownership)>, name: &str) -> (r: Option<usize>)
    ensures
        match r {
            Some(j) => j < ds@.len() && ds@[j as int].0@ == name@ && forall|k: int|
                0 <= k < j ==> ds@[k].0@ != name@,
            None => forall|k: int| 0 <= k < ds@.len() ==> ds@[k].0@ != name@,
        },
{
    let mut j: usize = 0;
    while j < ds.len()
        invariant
            j <= ds@.len(),
            forall|k: int| 0 <= k < j ==> ds@[k].0@ != name@,
        decreases ds.len() - j,
    {
        if str_eq(ds[j].0.as_str(), name) {
            return Some(j);
        }
        j = j + 1;
    }
    None
}

fn first_named(nd: &Vec<(Option<String>, Ownership)>, name: &str) -> (r: Option<usize>)
    ensures
        match r {
            Some(i) => i < nd@.len() && named(nd@[i as int].0, name@) && forall|k: int|
                0 <= k < i ==> !named(nd@[k].0, name@),
            None => forall|k: int| 0 <= k < nd@.len() ==> !named(nd@[k].0, name@),
        },
{
    let mut i: usize = 0;
    while i < nd.len()
        invariant
            i <= nd@.len(),
            forall|k: int| 0 <= k < i ==> !named(nd@[k].0, name@),
        decreases nd.len() - i,
    {
        match &nd[i].0 {
            Some(k) => {
                if str_eq(k.as_str(), name) {
                    return Some(i);
                }
            },
            None => {},
        }
        i = i + 1;
    }
    None
}

fn kw_ownership_exec(p: &ParamOwnerships, name: &str) -> (r: Option<Ownership>)
    ensures
        r == kw_ownership(*p, name@),
{
    let ghost ds = p.defaults@;
    let ghost nd = p.non_defaults@;
    match first_default(&p.defaults, name) {
        Some(j) => {
            proof {
                let j2 = choose|j2: int|
                    0 <= j2 < ds.len() && ds[j2].0@ == name@ && forall|k: int|
                        0 <= k < j2 ==> ds[k].0@ != name@;
                if j2 < j {
                    assert(ds[j2].0@ != name@);
                }
                if j < j2 {
                    assert(ds[j as int].0@ != name@);
                }
            }
            Some(p.defaults[j].1)
        },
        None => match first_named(&p.non_defaults, name) {
            Some(i) => {
                proof {
                    assert(!exists|j: int| 0 <= j < ds.len() && ds[j].0@ == name@);
                    let i2 = choose|i2: int|
                        0 <= i2 < nd.len() && named(nd[i2].0, name@) && forall|q: int|
                            0 <= q < i2 ==> !named(nd[q].0, name@);
                    if i2 < i {
                        assert(!named(nd[i2].0, name@));
                    }
                    if i < i2 {
                        assert(!named(nd[i as int].0, name@));
                    }
                }
                Some(p.non_defaults[i].1)
            },
            None => {
                proof {
                    assert(!exists|j: int| 0 <= j < ds.len() && ds[j].0@ == name@);
                    assert(!exists|i: int| 0 <= i < nd.len() && named(nd[i].0, name@));
                }
                p.kw_var_params
            },
        },
    }
}

/// The plan as numbers.
pub open spec fn plan_view(v: Seq<(bool, usize, Ownership)>) -> Seq<(bool, nat, Ownership)> {
    v.map_values(|t: (bool, usize, Ownership)| (t.0, t.1 as nat, t.2))
}

proof fn lemma_plan_view_push(v: Seq<(bool, usize, Ownership)>, x: (bool, usize, Ownership))
    ensures
        plan_view(v.push(x)) == plan_view(v).push((x.0, x.1 as nat, x.2)),
{
    assert(plan_view(v.push(x)) =~= plan_view(v).push((x.0, x.1 as nat, x.2)));
}

fn push_run(
    plan: &mut Vec<(bool, usize, Ownership)>,
    is_kw: bool,
    start: usize,
    count: usize,
    fixed: Option<Ownership>,
    ds: &Vec<(String, Ownership)>,
)
    requires
        start + count <= usize::MAX,
        fixed is None ==> count <= ds@.len(),
    ensures
        plan_view(final(plan)@) == plan_view(old(plan)@) + match fixed {
            Some(o) => Seq::new(count as nat, |i: int| (is_kw, (start + i) as nat, o)),
            None => Seq::new(count as nat, |i: int| (is_kw, (start + i) as nat, ds@[i].1)),
        },
{
    let ghost run = match fixed {
        Some(o) => Seq::new(count as nat, |i: int| (is_kw, (start + i) as nat, o)),
        None => Seq::new(count as nat, |i: int| (is_kw, (start + i) as nat, ds@[i].1)),
    };
    let ghost before = plan_view(plan@);
    let mut i: usize = 0;
    assert(before + run.subrange(0, 0) =~= before);
    while i < count
        invariant
            i <= count,
            start + count <= usize::MAX,
            fixed is None ==> count <= ds@.len(),
            run == match fixed {
                Some(o) => Seq::new(count as nat, |i: int| (is_kw, (start + i) as nat, o)),
                None => Seq::new(count as nat, |i: int| (is_kw, (start + i) as nat, ds@[i].1)),
            },
            plan_view(plan@) == before + run.subrange(0, i as int),
        decreases count - i,
    {
        let o = match fixed {
            Some(o) => o,
            None => ds[i].1,
        };
        let ghost prev = plan@;
        plan.push((is_kw, start + i, o));
        proof {
            lemma_plan_view_push(prev, (is_kw, (start + i) as usize, o));
            assert(run[i as int] == (is_kw, (start + i) as nat, o));
        }
        assert(plan_view(plan@) =~= before + run.subrange(0, i + 1));
        i = i + 1;
    }
    assert(run.subrange(0, count as int) =~= run);
}

fn push_positional(plan: &mut Vec<(bool, usize, Ownership)>, split: usize, nd: &Vec<(Option<String>, Ownership)>)
    requires
        old(plan)@.len() == 0,
        split <= nd@.len(),
    ensures
        plan_view(final(plan)@) == Seq::new(split as nat, |k: int| (false, k as nat, nd@[k].1)),
{
    let mut i: usize = 0;
    assert(plan_view(plan@) =~= Seq::new(0nat, |k: int| (false, k as nat, nd@[k].1)));
    while i < split
        invariant
            i <= split,
            split <= nd@.len(),
            plan_view(plan@) == Seq::new(i as nat, |k: int| (false, k as nat, nd@[k].1)),
        decreases split - i,
    {
        let ghost prev = plan@;
        plan.push((false, i, nd[i].1));
        proof {
            lemma_plan_view_push(prev, (false, i, nd@[i as int].1));
        }
        assert(plan_view(plan@) =~= Seq::new((i + 1) as nat, |k: int| (false, k as nat, nd@[k].1)));
        i = i + 1;
    }
}

fn keyword_ownerships<L>(p: &ParamOwnerships, kw: &Vec<(String, CheckedExpr<L>)>, dsplit: usize) -> (r: Option<Vec<Ownership>>)
    requires
        dsplit <= kw@.len(),
    ensures
        match r {
            Some(v) => v@.len() == dsplit && forall|q: int|
                0 <= q < dsplit ==> kw_ownership(*p, #[trigger] kw_names(kw@)[q]) == Some(v@[q]),
            None => exists|q: int|
                0 <= q < dsplit && #[trigger] kw_ownership(*p, kw_names(kw@)[q]) is None,
        },
{
    let ghost names = kw_names(kw@);
    let mut kw_owns: Vec<Ownership> = Vec::new();
    let mut j: usize = 0;
    while j < dsplit
        invariant
            j <= dsplit,
            dsplit <= kw@.len(),
            names == kw_names(kw@),
            kw_owns@.len() == j,
            forall|k: int| 0 <= k < j ==> kw_ownership(*p, #[trigger] names[k]) == Some(kw_owns@[k]),
        decreases dsplit - j,
    {
        assert(names[j as int] == kw@[j as int].0@);
        match kw_ownership_exec(p, kw[j].0.as_str()) {
            Some(o) => {
                kw_owns.push(o);
            },
            None => {
                assert(kw_ownership(*p, names[j as int]) is None);
                return None;
            },
        }
        j = j + 1;
    }
    Some(kw_owns)
}

fn push_keywords(plan: &mut Vec<(bool, usize, Ownership)>, owns: &Vec<Ownership>)
    ensures
        plan_view(final(plan)@) == plan_view(old(plan)@) + Seq::new(owns@.len(), |q: int| (true, q as nat, owns@[q])),
{
    let ghost base = plan_view(plan@);
    let mut k: usize = 0;
    assert(base + Seq::new(0nat, |q: int| (true, q as nat, owns@[q])) =~= base);
    while k < owns.len()
        invariant
            k <= owns@.len(),
            plan_view(plan@) == base + Seq::new(k as nat, |q: int| (true, q as nat, owns@[q])),
        decreases owns.len() - k,
    {
        let ghost prev = plan@;
        plan.push((true, k, owns[k]));
        proof {
            lemma_plan_view_push(prev, (true, k, owns@[k as int]));
        }
        assert(plan_view(plan@) =~= base + Seq::new((k + 1) as nat, |q: int| (true, q as nat, owns@[q])));
        k = k + 1;
    }
}

#[verifier::rlimit(30)]
fn arg_plan_exec<L>(p: &ParamOwnerships, is_method: bool, n_pos: usize, kw: &Vec<(String, CheckedExpr<L>)>) -> (r: Option<Vec<(bool, usize, Ownership)>>)
    ensures
        match r {
            Some(v) => arg_plan(*p, is_method, n_pos as nat, kw_names(kw@))
                == Some(plan_view(v@)),
            None => arg_plan(*p, is_method, n_pos as nat, kw_names(kw@)) is None,
        },
{
    let ghost names = kw_names(kw@);
    if is_method && p.non_defaults.len() == 0 {
        return None;
    }
    let nd_len: usize = if is_method {
        p.non_defaults.len() - 1
    } else {
        p.non_defaults.len()
    };
    let split: usize = if nd_len <= n_pos {
        nd_len
    } else {
        n_pos
    };
    let rest_n: usize = n_pos - split;
    let dsplit: usize = if p.defaults.len() <= kw.len() {
        p.defaults.len()
    } else {
        kw.len()
    };
    let Some(kw_owns) = keyword_ownerships(p, kw, dsplit) else {
        return None;
    };
    let mut plan: Vec<(bool, usize, Ownership)> = Vec::new();
    push_positional(&mut plan, split, &p.non_defaults);
    let n2: usize = match p.var_params {
        Some(_) => rest_n,
        None => if rest_n <= p.defaults.len() {
            rest_n
        } else {
            p.defaults.len()
        },
    };
    push_run(&mut plan, false, split, n2, p.var_params, &p.defaults);
    push_keywords(&mut plan, &kw_owns);
    let krest: usize = kw.len() - dsplit;
    let n4: usize = match p.kw_var_params {
        Some(_) => krest,
        None => if krest <= p.defaults.len() {
            krest
        } else {
            p.defaults.len()
        },
    };
    push_run(&mut plan, true, dsplit, n4, p.kw_var_params, &p.defaults);
    proof {
        assert(!exists|q: int| 0 <= q < dsplit && #[trigger] kw_ownership(*p, names[q]) is None);
        assert(Seq::new(dsplit as nat, |q: int| (true, q as nat, kw_owns@[q])) =~= Seq::new(
            dsplit as nat,
            |j: int| (true, j as nat, kw_ownership(*p, names[j])->0),
        ));
        let spec_plan = arg_plan(*p, is_method, n_pos as nat, names);
        assert(spec_plan is Some);
        assert(plan_view(plan@) =~= spec_plan->0);
    }
    Some(plan)
}

impl<L: Copy> OwnershipChecker<L> {
    /// What the walk sees of this checker, with the moves refused `errors`.
    pub open spec fn checked(&self, errors: Seq<(Seq<char>, L, L)>) -> Checked<L> {
        Checked { scope: self@, stores: self.store_map(), names: self.name_map(), errors }
    }

    fn record_mut_store_exec(
        &mut self,
        obj: &CheckedExpr<L>,
        pos_args: &Vec<CheckedExpr<L>>,
        kw_args: &Vec<(String, CheckedExpr<L>)>,
        procedural: bool,
        loc: L,
        Ghost(errors): Ghost<Seq<(Seq<char>, L, L)>>,
    )
        requires
            old(self).wf(),
        ensures
            final(self).wf(),
            final(self).checked(errors) == record_mut_store(
                old(self).checked(errors),
                *obj,
                pos_args@,
                kw_args@,
                procedural,
                loc,
            ),
    {
        if !procedural {
            return;
        }
        let Some((fk, fname)) = container_of_exec(obj) else {
            return;
        };
        let mut tos: Vec<(String, String)> = Vec::new();
        stored_objects_exec(pos_args, &mut tos);
        stored_kw_objects_exec(kw_args, &mut tos);
        let ghost tv = tos@.map_values(|t: (String, String)| (t.0@, t.1@));
        assert(Seq::<(Seq<char>, Seq<char>)>::empty() + stored_objects(pos_args@) =~= stored_objects(pos_args@));
        let ghost c0 = old(self).checked(errors);
        let ghost from = (fk@, fname@);
        let mut i: usize = 0;
        assert(tv.subrange(0, 0) =~= Seq::<(Seq<char>, Seq<char>)>::empty());
        while i < tos.len()
            invariant
                self.wf(),
                i <= tos@.len(),
                tv == tos@.map_values(|t: (String, String)| (t.0@, t.1@)),
                from == (fk@, fname@),
                self.checked(errors) == add_stores(c0, from, tv.subrange(0, i as int), loc),
            decreases tos.len() - i,
        {
            let ghost prev = self.checked(errors);
            self.add_store_edge(
                string_from(fk.as_str()),
                string_from(fname.as_str()),
                string_from(tos[i].0.as_str()),
                string_from(tos[i].1.as_str()),
                loc,
            );
            assert(tv.subrange(0, i + 1).drop_last() =~= tv.subrange(0, i as int));
            assert(tv.subrange(0, i + 1).last() == tv[i as int]);
            assert(self.checked(errors) == add_store(prev, from, tv[i as int], loc));
            i = i + 1;
        }
        assert(tv.subrange(0, tv.len() as int) =~= tv);
    }
}

proof fn lemma_exprs_prefix<L>(c: Checked<L>, es: Seq<CheckedExpr<L>>, own: Ownership, chunk: bool, i: int)
    requires
        spec_check_exprs(c, es, own, chunk) is Some,
        0 <= i <= es.len(),
    ensures
        spec_check_exprs(c, es.subrange(0, i), own, chunk) is Some,
    decreases es.len() - i,
{
    if i < es.len() {
        lemma_exprs_prefix(c, es, own, chunk, i + 1);
        let t = es.subrange(0, i + 1);
        assert(t.subrange(0, t.len() - 1) =~= es.subrange(0, i));
    } else {
        assert(es.subrange(0, es.len() as int) =~= es);
    }
}

proof fn lemma_args_prefix<L>(c: Checked<L>, call: CheckedExpr<L>, plan: Seq<(bool, nat, Ownership)>, k: int)
    requires
        spec_check_args(c, call, plan) is Some,
        0 <= k <= plan.len(),
    ensures
        spec_check_args(c, call, plan.subrange(0, k)) is Some,
    decreases plan.len() - k,
{
    if k < plan.len() {
        lemma_args_prefix(c, call, plan, k + 1);
        let t = plan.subrange(0, k + 1);
        assert(t.drop_last() =~= plan.subrange(0, k));
    } else {
        assert(plan.subrange(0, plan.len() as int) =~= plan);
    }
}

proof fn lemma_errors_push<L>(v: Seq<MoveError<L>>, e: MoveError<L>)
    ensures
        move_errors(v.push(e)) == move_errors(v).push((e.name@, e.used_at, e.moved_at)),
{
    assert(move_errors(v.push(e)) =~= move_errors(v).push((e.name@, e.used_at, e.moved_at)));
}

impl<L: Copy> OwnershipChecker<L> {
    fn walk_all(&mut self, es: &Vec<CheckedExpr<L>>, own: Ownership, chunk: bool, errs: &mut Vec<MoveError<L>>)
        requires
            old(self).wf(),
            old(self)@.path.len() > 0,
            spec_check_exprs(old(self).checked(move_errors(old(errs)@)), es@, own, chunk) is Some,
        ensures
            final(self).wf(),
            spec_check_exprs(old(self).checked(move_errors(old(errs)@)), es@, own, chunk) == Some(
                final(self).checked(move_errors(final(errs)@)),
            ),
        decreases es, 1nat,
    {
        let ghost c0 = self.checked(move_errors(errs@));
        let mut i: usize = 0;
        assert(es@.subrange(0, 0) =~= Seq::<CheckedExpr<L>>::empty());
        while i < es.len()
            invariant
                self.wf(),
                i <= es@.len(),
                self@.path == c0.scope.path,
                c0.scope.path.len() > 0,
                spec_check_exprs(c0, es@, own, chunk) is Some,
                spec_check_exprs(c0, es@.subrange(0, i as int), own, chunk) == Some(
                    self.checked(move_errors(errs@)),
                ),
            decreases es.len() - i,
        {
            let ghost t = es@.subrange(0, i + 1);
            proof {
                assert(t.subrange(0, t.len() - 1) =~= es@.subrange(0, i as int));
                assert(t[t.len() - 1] == es@[i as int]);
                lemma_exprs_prefix(c0, es@, own, chunk, i + 1);
                assert(decreases_to!(es => es@));
            }
            self.walk(&es[i], own, chunk, errs);
            proof {
                lemma_check_exprs_path(c0, t, own, chunk);
            }
            i = i + 1;
        }
        assert(es@.subrange(0, es@.len() as int) =~= es@);
    }

    fn walk_args(
        &mut self,
        call: &CheckedExpr<L>,
        plan: &Vec<(bool, usize, Ownership)>,
        errs: &mut Vec<MoveError<L>>,
    )
        requires
            old(self).wf(),
            old(self)@.path.len() > 0,
            spec_check_args(old(self).checked(move_errors(old(errs)@)), *call, plan_view(plan@)) is Some,
        ensures
            final(self).wf(),
            spec_check_args(old(self).checked(move_errors(old(errs)@)), *call, plan_view(plan@))
                == Some(final(self).checked(move_errors(final(errs)@))),
        decreases call, 0nat,
    {
        let ghost c0 = self.checked(move_errors(errs@));
        let ghost pv = plan_view(plan@);
        let mut k: usize = 0;
        assert(pv.subrange(0, 0) =~= Seq::<(bool, nat, Ownership)>::empty());
        while k < plan.len()
            invariant
                self.wf(),
                k <= plan@.len(),
                pv == plan_view(plan@),
                self@.path == c0.scope.path,
                c0.scope.path.len() > 0,
                spec_check_args(c0, *call, pv) is Some,
                spec_check_args(c0, *call, pv.subrange(0, k as int)) == Some(
                    self.checked(move_errors(errs@)),
                ),
            decreases plan.len() - k,
        {
            let ghost t = pv.subrange(0, k + 1);
            proof {
                assert(t.drop_last() =~= pv.subrange(0, k as int));
                assert(t.last() == (plan@[k as int].0, plan@[k as int].1 as nat, plan@[k as int].2));
                lemma_args_prefix(c0, *call, pv, k + 1);
            }
            let (is_kw, i, o) = plan[k];
            match call {
                CheckedExpr::Call { pos_args, kw_args, .. } => {
                    if !is_kw && i < pos_args.len() {
                        self.walk(&pos_args[i], o, false, errs);
                    } else if is_kw && i < kw_args.len() {
                        self.walk(&kw_args[i].1, o, false, errs);
                    }
                },
                _ => {},
            }
            proof {
                lemma_check_args_path(c0, *call, t);
            }
            k = k + 1;
        }
        assert(pv.subrange(0, pv.len() as int) =~= pv);
    }

    fn walk(&mut self, e: &CheckedExpr<L>, own: Ownership, chunk: bool, errs: &mut Vec<MoveError<L>>)
        requires
            old(self).wf(),
            old(self)@.path.len() > 0,
            spec_check_expr(old(self).checked(move_errors(old(errs)@)), *e, own, chunk) is Some,
        ensures
            final(self).wf(),
            spec_check_expr(old(self).checked(move_errors(old(errs)@)), *e, own, chunk) == Some(
                final(self).checked(move_errors(final(errs)@)),
            ),
        decreases e, 1nat,
    {
        let ghost c0 = self.checked(move_errors(errs@));
        match e {
            CheckedExpr::Def { name, public, is_subr, params, body, closure_key, is_closure } => {
                let nm: Option<String> = match name {
                    Some(n) => Some(string_from(n.as_str())),
                    None => None,
                };
                self.define(nm);
                let pn = match name {
                    Some(n) => string_from(n.as_str()),
                    None => string_from("*"),
                };
                self.enter_def(pn, *public, *is_subr);
                let ghost s0 = self@;
                let mut i: usize = 0;
                assert(params@.subrange(0, 0) =~= Seq::<String>::empty());
                while i < params.len()
                    invariant
                        self.wf(),
                        i <= params@.len(),
                        self@.path.len() > 0,
                        self@ == define_params(s0, params@.subrange(0, i as int)),
                        self.store_map() == c0.stores,
                        self.name_map() == c0.names,
                    decreases params.len() - i,
                {
                    self.define_param(string_from(params[i].as_str()));
                    proof {
                        let t = params@.subrange(0, i + 1);
                        assert(t.drop_last() =~= params@.subrange(0, i as int));
                        assert(t.last() == params@[i as int]);
                        lemma_define_params_path(s0, params@.subrange(0, i + 1));
                    }
                    i = i + 1;
                }
                assert(params@.subrange(0, params@.len() as int) =~= params@);
                if body.len() == 1 {
                    self.walk(&body[0], Ownership::Owned, false, errs);
                } else {
                    self.walk_all(body, Ownership::Owned, true, errs);
                }
                self.leave_def(*is_subr, string_from(closure_key.as_str()), *is_closure);
            },
            CheckedExpr::Class { base, methods } => {
                match base {
                    Some(b) => {
                        self.walk(b, Ownership::Owned, false, errs);
                        proof {
                            lemma_check_expr_path(c0, **b, Ownership::Owned, false);
                        }
                    },
                    None => {},
                }
                self.walk_all(methods, Ownership::Owned, true, errs);
            },
            CheckedExpr::Accessor { name, key, is_mut, loc, .. } => {
                let owned = match own {
                    Ownership::Owned => true,
                    _ => false,
                };
                match self.check_acc(name.as_str(), key.as_str(), *is_mut, owned, chunk, *loc) {
                    Ok(()) => {},
                    Err(me) => {
                        let ghost prev = errs@;
                        let ghost mv = (me.name@, me.used_at, me.moved_at);
                        errs.push(me);
                        proof {
                            assert(errs@ == prev.push(errs@.last()));
                            lemma_errors_push(prev, errs@.last());
                        }
                    },
                }
            },
            CheckedExpr::Attr(obj) => {
                self.walk(obj, Ownership::Ref, false, errs);
            },
            CheckedExpr::Call { obj, sig, is_method, pos_args, kw_args, procedural, loc } => {
                self.record_mut_store_exec(obj, pos_args, kw_args, *procedural, *loc, Ghost(move_errors(errs@)));
                proof {
                    lemma_record_mut_store_scope(c0, **obj, pos_args@, kw_args@, *procedural, *loc);
                }
                self.walk(obj, Ownership::Ref, false, errs);
                proof {
                    let c1 = record_mut_store(c0, **obj, pos_args@, kw_args@, *procedural, *loc);
                    lemma_check_expr_path(c1, **obj, Ownership::Ref, false);
                }
                match sig {
                    None => {},
                    Some(p) => {
                        match arg_plan_exec(p, *is_method, pos_args.len(), kw_args) {
                            None => {},
                            Some(plan) => {
                                self.walk_args(e, &plan, errs);
                            },
                        }
                    },
                }
            },
            CheckedExpr::BinOp(l, r) => {
                self.walk(l, Ownership::Ref, false, errs);
                proof {
                    lemma_check_expr_path(c0, **l, Ownership::Ref, false);
                }
                self.walk(r, Ownership::Ref, false, errs);
            },
            CheckedExpr::UnaryOp(x) => {
                self.walk(x, Ownership::Ref, false, errs);
            },
            CheckedExpr::Elems(xs) => {
                self.walk_all(xs, own, false, errs);
            },
            CheckedExpr::Lambda { id, body } => {
                self.enter_lambda(id.as_str());
                if body.len() == 1 {
                    self.walk(&body[0], Ownership::Owned, false, errs);
                } else {
                    self.walk_all(body, Ownership::Owned, true, errs);
                }
                self.leave_lambda();
            },
            CheckedExpr::TypeAsc(x) => {
                self.walk(x, own, chunk, errs);
            },
            CheckedExpr::Other => {},
        }
    }
}

/// Checking the module `name`, whose statements are `module`: the walk
/// over them, each a statement of its own, in the module's scope.
pub open spec fn spec_check_module<L>(c: Checked<L>, name: Seq<char>, module: Seq<CheckedExpr<L>>) -> Option<
    Checked<L>,
> {
    spec_check_exprs(with_scope(c, spec_enter_module(c.scope, name)), module, Ownership::Owned, true)
}

impl<L: Copy> OwnershipChecker<L> {
    /// `check_expr`: walks `e`, used with `ownership` (`chunk` when it is a
    /// statement of its own, whose use moves nothing), and gives the uses of
    /// moved variables it meets. The walk is defined wherever the checker
    /// does not stop: a use that would move a variable no scope has, a
    /// method without a receiver parameter, a keyword that names no
    /// parameter.
    pub fn check_expr(&mut self, e: &CheckedExpr<L>, ownership: Ownership, chunk: bool) -> (r: Vec<
        MoveError<L>,
    >)
        requires
            old(self).wf(),
            old(self)@.path.len() > 0,
            spec_check_expr(old(self).checked(Seq::empty()), *e, ownership, chunk) is Some,
        ensures
            final(self).wf(),
            spec_check_expr(old(self).checked(Seq::empty()), *e, ownership, chunk) == Some(
                final(self).checked(move_errors(r@)),
            ),
    {
        let mut errs: Vec<MoveError<L>> = Vec::new();
        assert(move_errors(errs@) =~= Seq::<(Seq<char>, L, L)>::empty());
        self.walk(e, ownership, chunk, &mut errs);
        errs
    }

    /// `check`: checks the module `name`, whose statements are `module`.
    /// It passes when no moved variable is used again and no objects store
    /// one another in a cycle; else it gives the uses of moved variables
    /// and the cycles of stores.
    pub fn check(&mut self, name: String, module: &Vec<CheckedExpr<L>>) -> (r: Result<
        (),
        (Vec<MoveError<L>>, Vec<(L, String)>),
    >)
        requires
            old(self).wf(),
            spec_check_module(old(self).checked(Seq::empty()), name@, module@) is Some,
        ensures
            final(self).wf(),
            ({
                let c = spec_check_module(old(self).checked(Seq::empty()), name@, module@)->0;
                &&& final(self)@ == c.scope
                &&& final(self).store_map() == c.stores
                &&& final(self).name_map() == c.names
                &&& match r {
                    Ok(()) => c.errors.len() == 0 && !has_store_cycle(c.stores),
                    Err((moves, cycles)) => {
                        &&& move_errors(moves@) == c.errors
                        &&& reports_cycles(c.stores, c.names, report_texts(cycles@))
                        &&& (cycles@.len() == 0 <==> !has_store_cycle(c.stores))
                        &&& (c.errors.len() > 0 || cycles@.len() > 0)
                    },
                }
            }),
    {
        let ghost c0 = self.checked(Seq::empty());
        self.enter_module(name);
        proof {
            reveal_strlit("::");
            let p = c0.scope.path;
            if path_text(p) == "::"@ + name@ {
                if p.len() == 0 {
                    assert(path_text(p).len() == 0);
                    assert(("::"@ + name@).len() >= 2);
                }
            }
        }
        let mut errs: Vec<MoveError<L>> = Vec::new();
        assert(move_errors(errs@) =~= Seq::<(Seq<char>, L, L)>::empty());
        self.walk_all(module, Ownership::Owned, true, &mut errs);
        let cycles = self.emit_cycle_errors();
        if errs.len() == 0 && cycles.len() == 0 {
            Ok(())
        } else {
            Err((errs, cycles))
        }
    }
}

proof fn lemma_keeps_same<L>(c: Checked<L>, s: ScopeState<L>)
    ensures
        keeps_errors(c, with_scope(c, s)),
        keeps_errors(c, c),
{
    assert(c.errors.subrange(0, c.errors.len() as int) =~= c.errors);
}

/// A use of a moved variable, once reported, stays reported: the walk
/// over any expression only adds to the moves refused before it.
pub proof fn law_refused_moves_stay_reported<L>(c: Checked<L>, e: CheckedExpr<L>, own: Ownership, chunk: bool)
    requires
        spec_check_expr(c, e, own, chunk) is Some,
    ensures
        keeps_errors(c, spec_check_expr(c, e, own, chunk)->0),
    decreases e, 1nat, 0nat,
{
    lemma_keeps_same(c, c.scope);
    match e {
        CheckedExpr::Def { name, public, is_subr, params, body, closure_key, is_closure } => {
            let s1 = spec_define(
                c.scope,
                match name {
                    Some(n) => Some(n@),
                    None => None,
                },
            );
            let path_name = match name {
                Some(n) => n@,
                None => "*"@,
            };
            let s2 = define_params(spec_enter_scope(s1, public, path_name, is_subr), params@);
            let c1 = with_scope(c, s2);
            lemma_keeps_same(c, s2);
            if body@.len() == 1 {
                law_refused_moves_stay_reported(c1, body@[0], Ownership::Owned, false);
            } else {
                lemma_exprs_keep_errors(c1, body@, Ownership::Owned, true);
            }
            let inner = if body@.len() == 1 {
                spec_check_expr(c1, body@[0], Ownership::Owned, false)
            } else {
                spec_check_exprs(c1, body@, Ownership::Owned, true)
            };
            let c2 = inner->0;
            lemma_keeps_same(c2, spec_leave_def(c2.scope, is_subr, closure_key@, is_closure));
            lemma_keeps_errors_trans(c, c1, c2);
            lemma_keeps_errors_trans(c, c2, with_scope(c2, spec_leave_def(c2.scope, is_subr, closure_key@, is_closure)));
        },
        CheckedExpr::Class { base, methods } => {
            if let Some(b) = base {
                law_refused_moves_stay_reported(c, *b, Ownership::Owned, false);
                let c1 = spec_check_expr(c, *b, Ownership::Owned, false)->0;
                lemma_exprs_keep_errors(c1, methods@, Ownership::Owned, true);
                lemma_keeps_errors_trans(c, c1, spec_check_exprs(c1, methods@, Ownership::Owned, true)->0);
            } else {
                lemma_exprs_keep_errors(c, methods@, Ownership::Owned, true);
            }
        },
        CheckedExpr::Accessor { .. } => {
            let d = spec_check_expr(c, e, own, chunk)->0;
            if d.errors.len() > c.errors.len() {
                assert(d.errors.subrange(0, c.errors.len() as int) =~= c.errors);
            }
        },
        CheckedExpr::Attr(obj) => {
            law_refused_moves_stay_reported(c, *obj, Ownership::Ref, false);
        },
        CheckedExpr::Call { obj, sig, is_method, pos_args, kw_args, procedural, loc } => {
            let c1 = record_mut_store(c, *obj, pos_args@, kw_args@, procedural, loc);
            lemma_record_mut_store_scope(c, *obj, pos_args@, kw_args@, procedural, loc);
            lemma_keeps_same(c1, c1.scope);
            assert(keeps_errors(c, c1));
            law_refused_moves_stay_reported(c1, *obj, Ownership::Ref, false);
            let c2 = spec_check_expr(c1, *obj, Ownership::Ref, false)->0;
            lemma_keeps_errors_trans(c, c1, c2);
            if let Some(p) = sig {
                let plan = arg_plan(p, is_method, pos_args@.len(), kw_names(kw_args@))->0;
                lemma_args_keep_errors(c2, e, plan);
                lemma_keeps_errors_trans(c, c2, spec_check_args(c2, e, plan)->0);
            }
        },
        CheckedExpr::BinOp(l, r) => {
            law_refused_moves_stay_reported(c, *l, Ownership::Ref, false);
            let c1 = spec_check_expr(c, *l, Ownership::Ref, false)->0;
            law_refused_moves_stay_reported(c1, *r, Ownership::Ref, false);
            lemma_keeps_errors_trans(c, c1, spec_check_expr(c1, *r, Ownership::Ref, false)->0);
        },
        CheckedExpr::UnaryOp(x) => {
            law_refused_moves_stay_reported(c, *x, Ownership::Ref, false);
        },
        CheckedExpr::Elems(xs) => {
            lemma_exprs_keep_errors(c, xs@, own, false);
        },
        CheckedExpr::Lambda { id, body } => {
            let s1 = spec_enter_scope(c.scope, false, "<lambda_"@ + id@ + ">"@, true);
            let c1 = with_scope(c, s1);
            lemma_keeps_same(c, s1);
            if body@.len() == 1 {
                law_refused_moves_stay_reported(c1, body@[0], Ownership::Owned, false);
            } else {
                lemma_exprs_keep_errors(c1, body@, Ownership::Owned, true);
            }
            let inner = if body@.len() == 1 {
                spec_check_expr(c1, body@[0], Ownership::Owned, false)
            } else {
                spec_check_exprs(c1, body@, Ownership::Owned, true)
            };
            let c2 = inner->0;
            lemma_keeps_same(c2, spec_leave_scope(c2.scope, true).0);
            lemma_keeps_errors_trans(c, c1, c2);
            lemma_keeps_errors_trans(c, c2, with_scope(c2, spec_leave_scope(c2.scope, true).0));
        },
        CheckedExpr::TypeAsc(x) => {
            law_refused_moves_stay_reported(c, *x, own, chunk);
        },
        CheckedExpr::Other => {},
    }
}

proof fn lemma_exprs_keep_errors<L>(c: Checked<L>, es: Seq<CheckedExpr<L>>, own: Ownership, chunk: bool)
    requires
        spec_check_exprs(c, es, own, chunk) is Some,
    ensures
        keeps_errors(c, spec_check_exprs(c, es, own, chunk)->0),
    decreases es, 1nat, 0nat,
{
    lemma_keeps_same(c, c.scope);
    if es.len() > 0 {
        let pre = es.subrange(0, es.len() - 1);
        lemma_exprs_keep_errors(c, pre, own, chunk);
        let c1 = spec_check_exprs(c, pre, own, chunk)->0;
        law_refused_moves_stay_reported(c1, es[es.len() - 1], own, chunk);
        lemma_keeps_errors_trans(c, c1, spec_check_expr(c1, es[es.len() - 1], own, chunk)->0);
    }
}

proof fn lemma_args_keep_errors<L>(c: Checked<L>, call: CheckedExpr<L>, plan: Seq<(bool, nat, Ownership)>)
    requires
        spec_check_args(c, call, plan) is Some,
    ensures
        keeps_errors(c, spec_check_args(c, call, plan)->0),
    decreases call, 0nat, plan.len(),
{
    lemma_keeps_same(c, c.scope);
    if plan.len() > 0 {
        lemma_args_keep_errors(c, call, plan.drop_last());
        let c1 = spec_check_args(c, call, plan.drop_last())->0;
        lemma_keeps_same(c1, c1.scope);
        if let CheckedExpr::Call { pos_args, kw_args, .. } = call {
            let (is_kw, i, o) = plan.last();
            if !is_kw && i < pos_args@.len() {
                law_refused_moves_stay_reported(c1, pos_args@[i as int], o, false);
                lemma_keeps_errors_trans(c, c1, spec_check_expr(c1, pos_args@[i as int], o, false)->0);
            } else if is_kw && i < kw_args@.len() {
                law_refused_moves_stay_reported(c1, kw_args@[i as int].1, o, false);
                lemma_keeps_errors_trans(c, c1, spec_check_expr(c1, kw_args@[i as int].1, o, false)->0);
            }
        }
    }
}

/// A moved variable is not used again: wherever in a program a variable
/// that was moved out of a scope around it is used, the use is reported
/// (its name, where it is used, where it was moved), and nothing else
/// changes.
pub proof fn law_use_of_moved_variable_is_reported<L>(
    c: Checked<L>,
    name: String,
    key: String,
    is_mut: bool,
    class_name: String,
    loc: L,
    own: Ownership,
    chunk: bool,
)
    requires
        first_dropped(c.scope, name@, 0) is Some,
    ensures
        spec_check_expr(
            c,
            CheckedExpr::Accessor { name, key, is_mut, class_name, loc },
            own,
            chunk,
        ) == Some(
            Checked {
                scope: c.scope,
                stores: c.stores,
                names: c.names,
                errors: c.errors.push((name@, loc, first_dropped(c.scope, name@, 0)->0)),
            },
        ),
{
}

/// Variables, and attributes of and unary and binary operations on them.
pub open spec fn operand_tree<L>(e: CheckedExpr<L>) -> bool
    decreases e,
{
    match e {
        CheckedExpr::Accessor { .. } => true,
        CheckedExpr::Other => true,
        CheckedExpr::BinOp(l, r) => operand_tree(*l) && operand_tree(*r),
        CheckedExpr::UnaryOp(x) => operand_tree(*x),
        CheckedExpr::Attr(x) => operand_tree(*x),
        _ => false,
    }
}

/// From `c` to `d` no variable was moved or defined, no scope entered or
/// left, no store recorded: only captures may have been noted and uses of
/// moved variables reported.
pub open spec fn moves_nothing<L>(c: Checked<L>, d: Checked<L>) -> bool {
    &&& d.scope.path == c.scope.path
    &&& d.scope.scopes == c.scope.scopes
    &&& d.scope.fn_scopes == c.scope.fn_scopes
    &&& d.scope.captures == c.scope.captures
    &&& d.stores == c.stores
    &&& d.names == c.names
}

/// Walking a binary operation walks both operands as borrowed, the left
/// one first, whatever the operation itself is used as.
pub proof fn law_binary_operands_are_borrowed<L>(
    c: Checked<L>,
    l: CheckedExpr<L>,
    r: CheckedExpr<L>,
    own: Ownership,
    chunk: bool,
)
    ensures
        spec_check_expr(c, CheckedExpr::BinOp(Box::new(l), Box::new(r)), own, chunk) == match spec_check_expr(
            c,
            l,
            Ownership::Ref,
            false,
        ) {
            None => None,
            Some(c1) => spec_check_expr(c1, r, Ownership::Ref, false),
        },
{
}

/// The operand of a unary operation, and the object of an attribute, are
/// walked as borrowed, whatever the whole is used as.
pub proof fn law_unary_operand_and_attribute_object_are_borrowed<L>(
    c: Checked<L>,
    x: CheckedExpr<L>,
    own: Ownership,
    chunk: bool,
)
    ensures
        spec_check_expr(c, CheckedExpr::UnaryOp(Box::new(x)), own, chunk) == spec_check_expr(
            c,
            x,
            Ownership::Ref,
            false,
        ),
        spec_check_expr(c, CheckedExpr::Attr(Box::new(x)), own, chunk) == spec_check_expr(
            c,
            x,
            Ownership::Ref,
            false,
        ),
{
}

proof fn lemma_borrowed_operands<L>(c: Checked<L>, e: CheckedExpr<L>)
    requires
        operand_tree(e),
    ensures
        spec_check_expr(c, e, Ownership::Ref, false) matches Some(d) && moves_nothing(c, d),
    decreases e,
{
    match e {
        CheckedExpr::BinOp(l, r) => {
            lemma_borrowed_operands(c, *l);
            let c1 = spec_check_expr(c, *l, Ownership::Ref, false)->0;
            lemma_borrowed_operands(c1, *r);
        },
        CheckedExpr::UnaryOp(x) => lemma_borrowed_operands(c, *x),
        CheckedExpr::Attr(x) => lemma_borrowed_operands(c, *x),
        CheckedExpr::Accessor { name, key, is_mut, loc, .. } => {
            let s = c.scope;
            if is_mut && first_dropped(s, name@, 0) is None && spec_moved_capture(s, key@) is None {
                let t = spec_note_capture(s, name@);
                assert(t.path == s.path && t.scopes == s.scopes && t.fn_scopes == s.fn_scopes
                    && t.captures == s.captures);
            }
        },
        _ => {},
    }
}

/// A binary or unary operation on variables (or on attributes of them)
/// moves none of them: it only borrows its operands, so the walk never
/// stops on it, and no scope, move or store changes.
pub proof fn law_operations_move_nothing<L>(c: Checked<L>, e: CheckedExpr<L>, own: Ownership, chunk: bool)
    requires
        e is BinOp || e is UnaryOp || e is Attr,
        operand_tree(e),
    ensures
        spec_check_expr(c, e, own, chunk) matches Some(d) && moves_nothing(c, d),
{
    match e {
        CheckedExpr::BinOp(l, r) => {
            lemma_borrowed_operands(c, *l);
            let c1 = spec_check_expr(c, *l, Ownership::Ref, false)->0;
            lemma_borrowed_operands(c1, *r);
        },
        CheckedExpr::UnaryOp(x) => lemma_borrowed_operands(c, *x),
        CheckedExpr::Attr(x) => lemma_borrowed_operands(c, *x),
        _ => {},
    }
}

proof fn lemma_first_dropped_same<L>(s: ScopeState<L>, t: ScopeState<L>, name: Seq<char>, from: int)
    requires
        s.path == t.path,
        s.scopes == t.scopes,
    ensures
        first_dropped(s, name, from) == first_dropped(t, name, from),
    decreases s.path.len() - from,
{
    if 0 <= from < s.path.len() {
        assert(s.outer(from) == t.outer(from));
        lemma_first_dropped_same(s, t, name, from + 1);
    }
}

/// After an operation on variables, any later use of a variable is judged
/// as it would have been before: it is a use after a move exactly when it
/// was one before, with the same report. In particular a mutable variable
/// used as an operand stays usable, even as owned.
pub proof fn law_later_uses_unaffected_by_operations<L>(
    c: Checked<L>,
    e: CheckedExpr<L>,
    own: Ownership,
    chunk: bool,
    name: Seq<char>,
    key: Seq<char>,
    is_mut: bool,
    owned: bool,
    later_chunk: bool,
    loc: L,
)
    requires
        e is BinOp || e is UnaryOp || e is Attr,
        operand_tree(e),
    ensures
        spec_check_expr(c, e, own, chunk) matches Some(d) && spec_check_acc(
            d.scope,
            name,
            key,
            is_mut,
            owned,
            later_chunk,
            loc,
        ).1 == spec_check_acc(c.scope, name, key, is_mut, owned, later_chunk, loc).1,
        spec_check_expr(c, e, own, chunk) matches Some(d) && first_dropped(d.scope, name, 0)
            == first_dropped(c.scope, name, 0),
{
    law_operations_move_nothing(c, e, own, chunk);
    let d = spec_check_expr(c, e, own, chunk)->0;
    lemma_first_dropped_same(d.scope, c.scope, name, 0);
}

/// The elements of a container are used as the container is (each as an
/// expression, not a statement of its own), and a type ascription is used
/// as what it ascribes.
pub proof fn law_elements_and_ascriptions_pass_ownership_on<L>(
    c: Checked<L>,
    xs: Vec<CheckedExpr<L>>,
    x: CheckedExpr<L>,
    own: Ownership,
    chunk: bool,
)
    ensures
        spec_check_expr(c, CheckedExpr::Elems(xs), own, chunk) == spec_check_exprs(c, xs@, own, false),
        spec_check_expr(c, CheckedExpr::TypeAsc(Box::new(x)), own, chunk) == spec_check_expr(
            c,
            x,
            own,
            chunk,
        ),
{
}

/// The callee (or receiver) of a call is borrowed: a call whose callee
/// has no known signature walks only the callee, as borrowed, after
/// recording what a procedural method may store in its receiver.
pub proof fn law_callee_is_borrowed<L>(
    c: Checked<L>,
    obj: CheckedExpr<L>,
    is_method: bool,
    pos_args: Vec<CheckedExpr<L>>,
    kw_args: Vec<(String, CheckedExpr<L>)>,
    procedural: bool,
    loc: L,
    own: Ownership,
    chunk: bool,
)
    ensures
        spec_check_expr(
            c,
            CheckedExpr::Call { obj: Box::new(obj), sig: None, is_method, pos_args, kw_args, procedural, loc },
            own,
            chunk,
        ) == spec_check_expr(
            record_mut_store(c, obj, pos_args@, kw_args@, procedural, loc),
            obj,
            Ownership::Ref,
            false,
        ),
{
}

} // verus!
