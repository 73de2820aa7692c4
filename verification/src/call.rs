//! How the arguments of a call of a user-defined constant function are
//! bound to its parameters, as the constants of the frame that evaluates
//! its body.

use vstd::prelude::*;

use crate::args::{take_arg, SpecArgs, ValueArgs};
use crate::text::string_from;
use crate::textmap::{distinct_keys, lemma_text_map, set_entry, text_map};
use crate::value::{
    lemma_view_fields, lemma_view_fields_ext, lemma_view_values, lemma_view_values_ext, view_fields,
    view_values, SpecValue, ValueObj,
};

verus! {

/// The parameters of a constant function, by name: those without a
/// default, the variadic one if there is one, and those with a default. A
/// parameter that is a pattern rather than a name has `None`.
pub struct ConstParams {
    pub non_defaults: Vec<Option<String>>,
    pub var_params: Option<Option<String>>,
    pub defaults: Vec<Option<String>>,
}

/// What a parameter is bound to: a value passed (or gathered, for the
/// variadic parameter), or its default, which the frame evaluates.
#[derive(Debug)]
pub enum Bound {
    Value(ValueObj),
    Default,
}

/// The model of a [`Bound`].
pub enum SpecBound {
    Value(SpecValue),
    Default,
}

impl View for Bound {
    type V = SpecBound;

    open spec fn view(&self) -> SpecBound {
        match self {
            Bound::Value(v) => SpecBound::Value(v@),
            Bound::Default => SpecBound::Default,
        }
    }
}

/// The frame's constants that the binding makes, and how many parameters
/// without a default are patterns, which are not supported.
pub struct Bindings {
    pub consts: Vec<(String, Bound)>,
    pub unnamed: usize,
}

/// The names of parameters.
pub open spec fn param_names(ps: Seq<Option<String>>) -> Seq<Option<Seq<char>>> {
    Seq::new(
        ps.len(),
        |i: int|
            match ps[i] {
                Some(n) => Some(n@),
                None => None,
            },
    )
}

/// Where the binding stands: the arguments left, the constants bound so
/// far and the count of unnamed parameters met.
pub struct BindState {
    pub args: SpecArgs,
    pub consts: Map<Seq<char>, SpecBound>,
    pub unnamed: nat,
}

/// A parameter without a default takes the leftmost positional argument,
/// or else the keyword argument of its name; one that is a pattern only
/// uses up a positional argument.
pub open spec fn bind_non_default(st: BindState, p: Option<Seq<char>>) -> BindState {
    match p {
        None => BindState {
            args: SpecArgs {
                pos: if st.args.pos.len() > 0 {
                    st.args.pos.drop_first()
                } else {
                    st.args.pos
                },
                kw: st.args.kw,
            },
            consts: st.consts,
            unnamed: st.unnamed + 1,
        },
        Some(x) => {
            let (a, v) = take_arg(st.args, x);
            BindState {
                args: a,
                consts: match v {
                    Some(v) => st.consts.insert(x, SpecBound::Value(v)),
                    None => st.consts,
                },
                unnamed: st.unnamed,
            }
        },
    }
}

pub open spec fn bind_non_defaults(st: BindState, ps: Seq<Option<Seq<char>>>) -> BindState
    decreases ps.len(),
{
    if ps.len() == 0 {
        st
    } else {
        bind_non_default(bind_non_defaults(st, ps.drop_last()), ps.last())
    }
}

/// The variadic parameter gathers the positional arguments left into a
/// list.
pub open spec fn bind_var(st: BindState, var: Option<Option<Seq<char>>>) -> BindState {
    match var {
        None => st,
        Some(v) => BindState {
            args: SpecArgs { pos: Seq::empty(), kw: st.args.kw },
            consts: match v {
                Some(x) => st.consts.insert(x, SpecBound::Value(SpecValue::List(st.args.pos))),
                None => st.consts,
            },
            unnamed: st.unnamed,
        },
    }
}

/// A parameter with a default takes an argument as one without does, and
/// its default when there is none; one that is a pattern is skipped.
pub open spec fn bind_default(st: BindState, p: Option<Seq<char>>) -> BindState {
    match p {
        None => st,
        Some(x) => {
            let (a, v) = take_arg(st.args, x);
            BindState {
                args: a,
                consts: st.consts.insert(
                    x,
                    match v {
                        Some(v) => SpecBound::Value(v),
                        None => SpecBound::Default,
                    },
                ),
                unnamed: st.unnamed,
            }
        },
    }
}

pub open spec fn bind_defaults(st: BindState, ps: Seq<Option<Seq<char>>>) -> BindState
    decreases ps.len(),
{
    if ps.len() == 0 {
        st
    } else {
        bind_default(bind_defaults(st, ps.drop_last()), ps.last())
    }
}

/// The keyword arguments that no parameter took are bound too, under their
/// own names.
pub open spec fn bind_keywords(
    consts: Map<Seq<char>, SpecBound>,
    kw: Seq<(Seq<char>, SpecValue)>,
) -> Map<Seq<char>, SpecBound>
    decreases kw.len(),
{
    if kw.len() == 0 {
        consts
    } else {
        bind_keywords(consts, kw.drop_last()).insert(kw.last().0, SpecBound::Value(kw.last().1))
    }
}

/// The binding of `args` to the parameters: the frame's constants and the
/// count of unnamed parameters without a default. Positional arguments
/// that no parameter takes are dropped.
pub open spec fn spec_bind(
    non_defaults: Seq<Option<Seq<char>>>,
    var_params: Option<Option<Seq<char>>>,
    defaults: Seq<Option<Seq<char>>>,
    args: SpecArgs,
) -> (Map<Seq<char>, SpecBound>, nat) {
    let st0 = BindState { args, consts: Map::empty(), unnamed: 0 };
    let st = bind_defaults(bind_var(bind_non_defaults(st0, non_defaults), var_params), defaults);
    (bind_keywords(st.consts, st.args.kw), st.unnamed)
}

/// The map that bound constants make.
pub open spec fn bound_map(consts: Seq<(String, Bound)>) -> Map<Seq<char>, SpecBound> {
    text_map(consts).map_values(|b: Bound| b@)
}

impl ConstParams {
    pub open spec fn var_names(&self) -> Option<Option<Seq<char>>> {
        match self.var_params {
            Some(Some(x)) => Some(Some(x@)),
            Some(None) => Some(None),
            None => None,
        }
    }
}

fn bind_const(consts: &mut Vec<(String, Bound)>, name: &str, b: Bound)
    requires
        distinct_keys(old(consts)@),
    ensures
        distinct_keys(final(consts)@),
        bound_map(final(consts)@) == bound_map(old(consts)@).insert(name@, b@),
{
    let ghost before = consts@;
    let ghost bv = b@;
    set_entry(consts, string_from(name), b);
    proof {
        assert(bound_map(consts@) =~= bound_map(before).insert(name@, bv));
    }
}

/// Binds `args` to the parameters `params` of a constant function.
pub fn bind_params(params: &ConstParams, args: ValueArgs) -> (r: Bindings)
    ensures
        distinct_keys(r.consts@),
        (bound_map(r.consts@), r.unnamed as nat) == spec_bind(
            param_names(params.non_defaults@),
            params.var_names(),
            param_names(params.defaults@),
            args@,
        ),
{
    let ghost nd = param_names(params.non_defaults@);
    let ghost ds = param_names(params.defaults@);
    let ghost st0 = BindState { args: args@, consts: Map::empty(), unnamed: 0 };
    let mut args = args;
    let mut consts: Vec<(String, Bound)> = Vec::new();
    let mut unnamed: usize = 0;
    assert(bound_map(consts@) =~= Map::<Seq<char>, SpecBound>::empty());
    let mut i: usize = 0;
    assert(nd.subrange(0, 0) =~= Seq::<Option<Seq<char>>>::empty());
    while i < params.non_defaults.len()
        invariant
            nd == param_names(params.non_defaults@),
            i <= params.non_defaults@.len(),
            unnamed <= i,
            distinct_keys(consts@),
            bind_non_defaults(st0, nd.subrange(0, i as int)) == (BindState {
                args: args@,
                consts: bound_map(consts@),
                unnamed: unnamed as nat,
            }),
        decreases params.non_defaults.len() - i,
    {
        let ghost st = BindState {
            args: args@,
            consts: bound_map(consts@),
            unnamed: unnamed as nat,
        };
        proof {
            assert(nd.subrange(0, i + 1).drop_last() =~= nd.subrange(0, i as int));
            assert(nd.subrange(0, i + 1).last() == nd[i as int]);
        }
        match &params.non_defaults[i] {
            None => {
                if args.pos_args.len() > 0 {
                    let ghost old_pos = args.pos_args@;
                    proof {
                        lemma_view_values(old_pos);
                    }
                    args.pos_args.remove(0);
                    proof {
                        lemma_view_values_ext(args.pos_args@, view_values(old_pos).drop_first());
                    }
                }
                unnamed = unnamed + 1;
                assert(bind_non_default(st, nd[i as int]) == (BindState {
                    args: args@,
                    consts: bound_map(consts@),
                    unnamed: unnamed as nat,
                }));
            },
            Some(x) => {
                match args.remove_left_or_key(x.as_str()) {
                    Some(v) => bind_const(&mut consts, x.as_str(), Bound::Value(v)),
                    None => {},
                }
            },
        }
        i = i + 1;
    }
    assert(nd.subrange(0, nd.len() as int) =~= nd);
    let ghost st1 = bind_var(bind_non_defaults(st0, nd), params.var_names());
    match &params.var_params {
        None => {},
        Some(var) => {
            let mut rest: Vec<ValueObj> = Vec::new();
            std::mem::swap(&mut rest, &mut args.pos_args);
            proof {
                lemma_view_values(args.pos_args@);
                assert(view_values(args.pos_args@) =~= Seq::<SpecValue>::empty());
            }
            match var {
                Some(x) => bind_const(&mut consts, x.as_str(), Bound::Value(ValueObj::List(rest))),
                None => {},
            }
        },
    }
    assert(st1 == (BindState { args: args@, consts: bound_map(consts@), unnamed: unnamed as nat }));
    let mut j: usize = 0;
    assert(ds.subrange(0, 0) =~= Seq::<Option<Seq<char>>>::empty());
    while j < params.defaults.len()
        invariant
            ds == param_names(params.defaults@),
            j <= params.defaults@.len(),
            distinct_keys(consts@),
            bind_defaults(st1, ds.subrange(0, j as int)) == (BindState {
                args: args@,
                consts: bound_map(consts@),
                unnamed: unnamed as nat,
            }),
        decreases params.defaults.len() - j,
    {
        proof {
            assert(ds.subrange(0, j + 1).drop_last() =~= ds.subrange(0, j as int));
            assert(ds.subrange(0, j + 1).last() == ds[j as int]);
        }
        match &params.defaults[j] {
            None => {},
            Some(x) => {
                match args.remove_left_or_key(x.as_str()) {
                    Some(v) => bind_const(&mut consts, x.as_str(), Bound::Value(v)),
                    None => bind_const(&mut consts, x.as_str(), Bound::Default),
                }
            },
        }
        j = j + 1;
    }
    assert(ds.subrange(0, ds.len() as int) =~= ds);
    let ghost consts2 = bound_map(consts@);
    let ghost kw_all = args@.kw;
    let mut kw = args.kw_args;
    let ghost mut k: int = 0;
    proof {
        lemma_view_fields(kw@);
        assert(kw_all.subrange(0, kw_all.len() as int) =~= kw_all);
    }
    while kw.len() > 0
        invariant
            distinct_keys(consts@),
            view_fields(kw@) == kw_all.subrange(k, kw_all.len() as int),
            0 <= k <= kw_all.len(),
            kw@.len() + k == kw_all.len(),
            bound_map(consts@) == bind_keywords(consts2, kw_all.subrange(0, k)),
        decreases kw.len(),
    {
        let ghost old_kw = kw@;
        proof {
            lemma_view_fields(old_kw);
        }
        let (name, v) = kw.remove(0);
        proof {
            lemma_view_fields(kw@);
            lemma_view_fields_ext(kw@, view_fields(old_kw).drop_first());
            assert(kw_all.subrange(0, k + 1).drop_last() =~= kw_all.subrange(0, k));
            assert(kw_all.subrange(0, k + 1).last() == kw_all[k]);
            assert(kw_all[k] == view_fields(old_kw)[0]);
            assert(kw_all.subrange(k + 1, kw_all.len() as int) =~= view_fields(old_kw).drop_first());
        }
        bind_const(&mut consts, name.as_str(), Bound::Value(v));
        proof {
            k = k + 1;
        }
    }
    assert(kw_all.subrange(0, k) =~= kw_all);
    Bindings { consts, unnamed }
}

/// The number of parameters among `ps` that are patterns.
pub open spec fn count_unnamed(ps: Seq<Option<Seq<char>>>) -> nat
    decreases ps.len(),
{
    if ps.len() == 0 {
        0
    } else {
        count_unnamed(ps.drop_last()) + if ps.last() is None {
            1nat
        } else {
            0nat
        }
    }
}

proof fn lemma_non_defaults_count(st: BindState, ps: Seq<Option<Seq<char>>>)
    ensures
        bind_non_defaults(st, ps).unnamed == st.unnamed + count_unnamed(ps),
    decreases ps.len(),
{
    if ps.len() > 0 {
        lemma_non_defaults_count(st, ps.drop_last());
    }
}

proof fn lemma_defaults_keep_count(st: BindState, ps: Seq<Option<Seq<char>>>)
    ensures
        bind_defaults(st, ps).unnamed == st.unnamed,
    decreases ps.len(),
{
    if ps.len() > 0 {
        lemma_defaults_keep_count(st, ps.drop_last());
    }
}

/// Only the parameters without a default that are patterns are counted as
/// unsupported, each once.
pub proof fn law_unnamed_parameters_are_counted(
    non_defaults: Seq<Option<Seq<char>>>,
    var_params: Option<Option<Seq<char>>>,
    defaults: Seq<Option<Seq<char>>>,
    args: SpecArgs,
)
    ensures
        spec_bind(non_defaults, var_params, defaults, args).1 == count_unnamed(non_defaults),
{
    let st0 = BindState { args, consts: Map::empty(), unnamed: 0 };
    lemma_non_defaults_count(st0, non_defaults);
    lemma_defaults_keep_count(bind_var(bind_non_defaults(st0, non_defaults), var_params), defaults);
}

proof fn lemma_defaults_bind(st: BindState, ps: Seq<Option<Seq<char>>>)
    ensures
        forall|x: Seq<char>|
            #[trigger] st.consts.contains_key(x) ==> bind_defaults(st, ps).consts.contains_key(x),
        forall|i: int|
            0 <= i < ps.len() && #[trigger] ps[i] is Some ==> bind_defaults(
                st,
                ps,
            ).consts.contains_key(ps[i]->0),
    decreases ps.len(),
{
    if ps.len() > 0 {
        lemma_defaults_bind(st, ps.drop_last());
        assert forall|i: int| 0 <= i < ps.len() && #[trigger] ps[i] is Some implies bind_defaults(
            st,
            ps,
        ).consts.contains_key(ps[i]->0) by {
            if i < ps.len() - 1 {
                assert(ps.drop_last()[i] == ps[i]);
            }
        }
    }
}

proof fn lemma_keywords_keep(consts: Map<Seq<char>, SpecBound>, kw: Seq<(Seq<char>, SpecValue)>)
    ensures
        forall|x: Seq<char>|
            #[trigger] consts.contains_key(x) ==> bind_keywords(consts, kw).contains_key(x),
    decreases kw.len(),
{
    if kw.len() > 0 {
        lemma_keywords_keep(consts, kw.drop_last());
    }
}

/// Every parameter with a default that has a name is bound: to the
/// argument passed for it, or to its default.
pub proof fn law_parameters_with_defaults_are_bound(
    non_defaults: Seq<Option<Seq<char>>>,
    var_params: Option<Option<Seq<char>>>,
    defaults: Seq<Option<Seq<char>>>,
    args: SpecArgs,
    i: int,
)
    requires
        0 <= i < defaults.len(),
        defaults[i] is Some,
    ensures
        spec_bind(non_defaults, var_params, defaults, args).0.contains_key(defaults[i]->0),
{
    let st0 = BindState { args, consts: Map::empty(), unnamed: 0 };
    let st1 = bind_var(bind_non_defaults(st0, non_defaults), var_params);
    lemma_defaults_bind(st1, defaults);
    let st = bind_defaults(st1, defaults);
    lemma_keywords_keep(st.consts, st.args.kw);
}

/// No keyword argument among `kw` is named `x`.
pub open spec fn no_keyword(kw: Seq<(Seq<char>, SpecValue)>, x: Seq<char>) -> bool {
    forall|k: int| 0 <= k < kw.len() ==> #[trigger] kw[k].0 != x
}

proof fn lemma_take_keeps_no_keyword(a: SpecArgs, key: Seq<char>, x: Seq<char>)
    requires
        no_keyword(a.kw, x),
    ensures
        no_keyword(take_arg(a, key).0.kw, x),
{
    crate::args::lemma_kw_position(a.kw, key);
    if a.pos.len() == 0 {
        if let Some(i) = crate::args::kw_position(a.kw, key) {
            let r = a.kw.remove(i);
            assert forall|k: int| 0 <= k < r.len() implies #[trigger] r[k].0 != x by {
                if k < i {
                    assert(r[k] == a.kw[k]);
                } else {
                    assert(r[k] == a.kw[k + 1]);
                }
            }
        }
    }
}

/// While positional arguments are left, each parameter without a default
/// takes the next one and the keyword arguments stay as they are.
proof fn lemma_positional_prefix(st0: BindState, nd: Seq<Option<Seq<char>>>, m: int)
    requires
        0 <= m <= nd.len(),
        m <= st0.args.pos.len(),
    ensures
        bind_non_defaults(st0, nd.subrange(0, m)).args == (SpecArgs {
            pos: st0.args.pos.subrange(m, st0.args.pos.len() as int),
            kw: st0.args.kw,
        }),
    decreases m,
{
    if m == 0 {
        assert(st0.args.pos.subrange(0, st0.args.pos.len() as int) =~= st0.args.pos);
    } else {
        lemma_positional_prefix(st0, nd, m - 1);
        assert(nd.subrange(0, m).drop_last() =~= nd.subrange(0, m - 1));
        assert(st0.args.pos.subrange(m - 1, st0.args.pos.len() as int).drop_first()
            =~= st0.args.pos.subrange(m, st0.args.pos.len() as int));
    }
}

/// Once a parameter has taken its argument, a later parameter of another
/// name leaves it bound to it, and no keyword argument of its name appears.
proof fn lemma_binding_stays(
    st0: BindState,
    nd: Seq<Option<Seq<char>>>,
    x: Seq<char>,
    b: SpecBound,
    i: int,
    m: int,
)
    requires
        0 <= i < m <= nd.len(),
        bind_non_defaults(st0, nd.subrange(0, i + 1)).consts.contains_key(x),
        bind_non_defaults(st0, nd.subrange(0, i + 1)).consts[x] == b,
        no_keyword(bind_non_defaults(st0, nd.subrange(0, i + 1)).args.kw, x),
        forall|j: int| i < j < nd.len() ==> #[trigger] nd[j] != Some(x),
    ensures
        bind_non_defaults(st0, nd.subrange(0, m)).consts.contains_key(x),
        bind_non_defaults(st0, nd.subrange(0, m)).consts[x] == b,
        no_keyword(bind_non_defaults(st0, nd.subrange(0, m)).args.kw, x),
    decreases m,
{
    if m > i + 1 {
        lemma_binding_stays(st0, nd, x, b, i, m - 1);
        assert(nd.subrange(0, m).drop_last() =~= nd.subrange(0, m - 1));
        assert(nd.subrange(0, m).last() == nd[m - 1]);
        let prev = bind_non_defaults(st0, nd.subrange(0, m - 1));
        if let Some(y) = nd[m - 1] {
            lemma_take_keeps_no_keyword(prev.args, y, x);
        }
    }
}

proof fn lemma_defaults_keep(st: BindState, ps: Seq<Option<Seq<char>>>, x: Seq<char>, b: SpecBound)
    requires
        st.consts.contains_key(x),
        st.consts[x] == b,
        no_keyword(st.args.kw, x),
        forall|j: int| 0 <= j < ps.len() ==> #[trigger] ps[j] != Some(x),
    ensures
        bind_defaults(st, ps).consts.contains_key(x),
        bind_defaults(st, ps).consts[x] == b,
        no_keyword(bind_defaults(st, ps).args.kw, x),
    decreases ps.len(),
{
    if ps.len() > 0 {
        let p = ps.drop_last();
        assert forall|j: int| 0 <= j < p.len() implies #[trigger] p[j] != Some(x) by {
            assert(p[j] == ps[j]);
        }
        lemma_defaults_keep(st, p, x, b);
        assert(ps.last() == ps[ps.len() - 1]);
        if let Some(y) = ps.last() {
            lemma_take_keeps_no_keyword(bind_defaults(st, p).args, y, x);
        }
    }
}

proof fn lemma_keywords_keep_other(
    consts: Map<Seq<char>, SpecBound>,
    kw: Seq<(Seq<char>, SpecValue)>,
    x: Seq<char>,
)
    requires
        no_keyword(kw, x),
    ensures
        bind_keywords(consts, kw).contains_key(x) == consts.contains_key(x),
        bind_keywords(consts, kw)[x] == consts[x],
    decreases kw.len(),
{
    if kw.len() > 0 {
        assert(kw.last() == kw[kw.len() - 1]);
        lemma_keywords_keep_other(consts, kw.drop_last(), x);
    }
}

/// The argument at position `i` is bound to the parameter without a default
/// at position `i`, where that parameter's name is its own (no other
/// parameter, and no keyword argument, has it).
pub proof fn law_positional_arguments_bind_in_order(
    non_defaults: Seq<Option<Seq<char>>>,
    var_params: Option<Option<Seq<char>>>,
    defaults: Seq<Option<Seq<char>>>,
    args: SpecArgs,
    i: int,
    x: Seq<char>,
)
    requires
        0 <= i < non_defaults.len(),
        i < args.pos.len(),
        non_defaults[i] == Some(x),
        forall|j: int|
            0 <= j < non_defaults.len() && j != i ==> #[trigger] non_defaults[j] != Some(x),
        var_params != Some(Some(x)),
        forall|j: int| 0 <= j < defaults.len() ==> #[trigger] defaults[j] != Some(x),
        no_keyword(args.kw, x),
    ensures
        spec_bind(non_defaults, var_params, defaults, args).0.contains_key(x),
        spec_bind(non_defaults, var_params, defaults, args).0[x] == SpecBound::Value(args.pos[i]),
{
    let st0 = BindState { args, consts: Map::empty(), unnamed: 0 };
    let nd = non_defaults;
    let b = SpecBound::Value(args.pos[i]);
    lemma_positional_prefix(st0, nd, i);
    assert(nd.subrange(0, i + 1).drop_last() =~= nd.subrange(0, i));
    assert(nd.subrange(0, i + 1).last() == nd[i]);
    lemma_take_keeps_no_keyword(bind_non_defaults(st0, nd.subrange(0, i)).args, x, x);
    if i + 1 < nd.len() {
        lemma_binding_stays(st0, nd, x, b, i, nd.len() as int);
    }
    assert(nd.subrange(0, nd.len() as int) =~= nd);
    let st1 = bind_var(bind_non_defaults(st0, nd), var_params);
    lemma_defaults_keep(st1, defaults, x, b);
    let st = bind_defaults(st1, defaults);
    lemma_keywords_keep_other(st.consts, st.args.kw, x);
}

} // verus!
