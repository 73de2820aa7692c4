//! The count of references to each definition: the walk over an
//! expression that finds the names it refers to, where, and whether each
//! is known.

use vstd::prelude::*;

use crate::args::str_eq;
use crate::text::string_from;

verus! {

/// An expression as the reference count reads it. Whether a name is
/// defined is looked up in the namespaces by the caller and handed in.
pub enum RefExpr<L> {
    /// A literal: it names nothing.
    Literal,
    /// A name, whether a definition of it is in sight (in the namespaces,
    /// or among the type variables of the signature being read), and
    /// where it stands.
    Ident { name: String, found: bool, loc: L },
    /// An attribute `obj.name`: for each namespace that `obj` denotes, in
    /// order, whether `name` is defined there (none where `obj` denotes no
    /// namespace), and where it stands.
    Attr { obj: Box<RefExpr<L>>, name: String, found_in: Vec<bool>, loc: L },
    BinOp(Box<RefExpr<L>>, Box<RefExpr<L>>),
    UnaryOp(Box<RefExpr<L>>),
    /// A call: the callee, then its positional, variadic and keyword
    /// arguments, in that order.
    Call { obj: Box<RefExpr<L>>, args: Vec<RefExpr<L>> },
    /// The elements of a list, tuple or set, the keys and values of a
    /// dictionary in turn, or the expressions of a compound.
    Elems(Vec<RefExpr<L>>),
    /// A record: the body of each attribute (a `Block`), or a bare name
    /// (an `Ident`).
    Record(Vec<RefExpr<L>>),
    /// A block of expressions.
    Block(Vec<RefExpr<L>>),
    /// A set or dictionary comprehension: its generators, then its guard.
    Comprehension { generators: Vec<RefExpr<L>>, guard: Option<Box<RefExpr<L>>> },
    TypeAsc(Box<RefExpr<L>>),
    /// A lambda: the type specifications and default values of its
    /// parameters, in order, then its body.
    Lambda { params: Vec<RefExpr<L>>, body: Vec<RefExpr<L>> },
    /// Any other expression: the walk does not enter it.
    Other,
}

/// A reference found: the name, where it stands, and, for an attribute,
/// the position of the namespace it was found in.
pub struct RefSite<L> {
    pub name: String,
    pub loc: L,
    pub ctx: Option<usize>,
}

/// The model of a reference found.
pub open spec fn site_view<L>(s: RefSite<L>) -> (Seq<char>, L, Option<nat>) {
    (
        s.name@,
        s.loc,
        match s.ctx {
            Some(i) => Some(i as nat),
            None => None,
        },
    )
}

pub open spec fn sites_view<L>(v: Seq<RefSite<L>>) -> Seq<(Seq<char>, L, Option<nat>)> {
    Seq::new(v.len(), |i: int| site_view(v[i]))
}

/// `module` and `global` name the scopes themselves: they count as known
/// though no definition of them is found.
pub open spec fn is_scope_name(name: Seq<char>) -> bool {
    name == "module"@ || name == "global"@
}

/// Whether any reference was known, and the references found, of two
/// walks one after the other.
pub open spec fn join<L>(
    a: (bool, Seq<(Seq<char>, L, Option<nat>)>),
    b: (bool, Seq<(Seq<char>, L, Option<nat>)>),
) -> (bool, Seq<(Seq<char>, L, Option<nat>)>) {
    (a.0 || b.0, a.1 + b.1)
}

/// The search for `name` among the namespaces of an attribute's object,
/// from the `i`-th on: found in one (and which), known as a scope name, or
/// not found.
pub open spec fn attr_lookup(name: Seq<char>, found_in: Seq<bool>, i: nat) -> (bool, Option<nat>)
    decreases found_in.len() - i,
{
    if i >= found_in.len() {
        (false, None)
    } else if found_in[i as int] {
        (true, Some(i))
    } else if is_scope_name(name) {
        (true, None)
    } else {
        attr_lookup(name, found_in, i + 1)
    }
}

/// `inc_ref_expr`: whether `e` refers to a known name, and the references
/// to definitions that it makes, in the order the walk meets them.
pub open spec fn spec_inc_ref_expr<L>(e: RefExpr<L>) -> (bool, Seq<(Seq<char>, L, Option<nat>)>)
    decreases e,
{
    match e {
        RefExpr::Literal => (false, Seq::empty()),
        RefExpr::Other => (false, Seq::empty()),
        RefExpr::Ident { name, found, loc } => if found {
            (true, seq![(name@, loc, None)])
        } else {
            (is_scope_name(name@), Seq::empty())
        },
        RefExpr::Attr { obj, name, found_in, loc } => {
            let s = spec_inc_ref_expr(*obj).1;
            let k = attr_lookup(name@, found_in@, 0);
            (
                k.0,
                match k.1 {
                    Some(i) => s.push((name@, loc, Some(i))),
                    None => s,
                },
            )
        },
        RefExpr::BinOp(l, r) => join(spec_inc_ref_expr(*l), spec_inc_ref_expr(*r)),
        RefExpr::UnaryOp(x) => spec_inc_ref_expr(*x),
        RefExpr::TypeAsc(x) => spec_inc_ref_expr(*x),
        RefExpr::Call { obj, args } => join(spec_inc_ref_expr(*obj), spec_inc_ref_exprs(args@)),
        RefExpr::Elems(xs) => spec_inc_ref_exprs(xs@),
        RefExpr::Record(xs) => spec_inc_ref_exprs(xs@),
        RefExpr::Block(xs) => spec_inc_ref_exprs(xs@),
        RefExpr::Comprehension { generators, guard } => match guard {
            Some(g) => join(spec_inc_ref_exprs(generators@), spec_inc_ref_expr(*g)),
            None => spec_inc_ref_exprs(generators@),
        },
        RefExpr::Lambda { params, body } => join(
            spec_inc_ref_exprs(params@),
            spec_inc_ref_exprs(body@),
        ),
    }
}

/// The walk over `es`, one after the other.
pub open spec fn spec_inc_ref_exprs<L>(es: Seq<RefExpr<L>>) -> (bool, Seq<(Seq<char>, L, Option<nat>)>)
    decreases es,
{
    if es.len() == 0 {
        (false, Seq::empty())
    } else {
        join(spec_inc_ref_exprs(es.subrange(0, es.len() - 1)), spec_inc_ref_expr(es[es.len() - 1]))
    }
}

proof fn lemma_sites_push<L>(v: Seq<RefSite<L>>, x: RefSite<L>)
    ensures
        sites_view(v.push(x)) == sites_view(v).push(site_view(x)),
{
    assert(sites_view(v.push(x)) =~= sites_view(v).push(site_view(x)));
}

fn push_site<L>(out: &mut Vec<RefSite<L>>, name: &String, loc: L, ctx: Option<usize>)
    ensures
        sites_view(final(out)@) == sites_view(old(out)@).push(
            (
                name@,
                loc,
                match ctx {
                    Some(i) => Some(i as nat),
                    None => None,
                },
            ),
        ),
{
    let s = RefSite { name: string_from(name.as_str()), loc, ctx };
    proof {
        lemma_sites_push(out@, s);
    }
    out.push(s);
}

fn scope_name(name: &String) -> (r: bool)
    ensures
        r == is_scope_name(name@),
{
    str_eq(name.as_str(), "module") || str_eq(name.as_str(), "global")
}

fn walk<L: Copy>(e: &RefExpr<L>, out: &mut Vec<RefSite<L>>) -> (b: bool)
    ensures
        b == spec_inc_ref_expr(*e).0,
        sites_view(final(out)@) == sites_view(old(out)@) + spec_inc_ref_expr(*e).1,
    decreases e,
{
    let ghost o0 = sites_view(out@);
    match e {
        RefExpr::Literal => {
            assert(o0 + Seq::<(Seq<char>, L, Option<nat>)>::empty() =~= o0);
            false
        },
        RefExpr::Other => {
            assert(o0 + Seq::<(Seq<char>, L, Option<nat>)>::empty() =~= o0);
            false
        },
        RefExpr::Ident { name, found, loc } => {
            if *found {
                push_site(out, name, *loc, None);
                assert(o0.push((name@, *loc, None)) =~= o0 + seq![(name@, *loc, None::<nat>)]);
                true
            } else {
                assert(o0 + Seq::<(Seq<char>, L, Option<nat>)>::empty() =~= o0);
                scope_name(name)
            }
        },
        RefExpr::Attr { obj, name, found_in, loc } => {
            walk(obj, out);
            let ghost o1 = sites_view(out@);
            let ghost s = spec_inc_ref_expr(**obj).1;
            let is_scope = scope_name(name);
            let mut i: usize = 0;
            while i < found_in.len()
                invariant
                    i <= found_in@.len(),
                    is_scope == is_scope_name(name@),
                    sites_view(out@) == o1,
                    o1 == o0 + s,
                    attr_lookup(name@, found_in@, 0) == attr_lookup(name@, found_in@, i as nat),
                    o0 == sites_view(old(out)@),
                    spec_inc_ref_expr(*e) == (
                        attr_lookup(name@, found_in@, 0).0,
                        match attr_lookup(name@, found_in@, 0).1 {
                            Some(j) => s.push((name@, *loc, Some(j))),
                            None => s,
                        },
                    ),
                decreases found_in.len() - i,
            {
                if found_in[i] {
                    assert(attr_lookup(name@, found_in@, i as nat) == (true, Some(i as nat)));
                    push_site(out, name, *loc, Some(i));
                    assert((o0 + s).push((name@, *loc, Some(i as nat))) =~= o0 + s.push(
                        (name@, *loc, Some(i as nat)),
                    ));
                    return true;
                }
                if is_scope {
                    assert(attr_lookup(name@, found_in@, i as nat) == (true, None::<nat>));
                    return true;
                }
                i = i + 1;
            }
            assert(attr_lookup(name@, found_in@, i as nat) == (false, None::<nat>));
            false
        },
        RefExpr::BinOp(l, r) => {
            let a = walk(l, out);
            let b = walk(r, out);
            assert(o0 + spec_inc_ref_expr(**l).1 + spec_inc_ref_expr(**r).1 =~= o0 + (
            spec_inc_ref_expr(**l).1 + spec_inc_ref_expr(**r).1));
            a || b
        },
        RefExpr::UnaryOp(x) => walk(x, out),
        RefExpr::TypeAsc(x) => walk(x, out),
        RefExpr::Call { obj, args } => {
            let a = walk(obj, out);
            proof {
                assert(decreases_to!(args => args@));
            }
            let b = walk_all(args, out);
            assert(o0 + spec_inc_ref_expr(**obj).1 + spec_inc_ref_exprs(args@).1 =~= o0 + (
            spec_inc_ref_expr(**obj).1 + spec_inc_ref_exprs(args@).1));
            a || b
        },
        RefExpr::Elems(xs) => walk_all(xs, out),
        RefExpr::Record(xs) => walk_all(xs, out),
        RefExpr::Block(xs) => walk_all(xs, out),
        RefExpr::Comprehension { generators, guard } => {
            let a = walk_all(generators, out);
            match guard {
                Some(g) => {
                    let b = walk(g, out);
                    assert(o0 + spec_inc_ref_exprs(generators@).1 + spec_inc_ref_expr(**g).1 =~= o0
                        + (spec_inc_ref_exprs(generators@).1 + spec_inc_ref_expr(**g).1));
                    a || b
                },
                None => a,
            }
        },
        RefExpr::Lambda { params, body } => {
            let a = walk_all(params, out);
            let b = walk_all(body, out);
            assert(o0 + spec_inc_ref_exprs(params@).1 + spec_inc_ref_exprs(body@).1 =~= o0 + (
            spec_inc_ref_exprs(params@).1 + spec_inc_ref_exprs(body@).1));
            a || b
        },
    }
}

fn walk_all<L: Copy>(es: &Vec<RefExpr<L>>, out: &mut Vec<RefSite<L>>) -> (b: bool)
    ensures
        b == spec_inc_ref_exprs(es@).0,
        sites_view(final(out)@) == sites_view(old(out)@) + spec_inc_ref_exprs(es@).1,
    decreases es,
{
    let ghost o0 = sites_view(out@);
    let mut res = false;
    let mut i: usize = 0;
    assert(es@.subrange(0, 0) =~= Seq::<RefExpr<L>>::empty());
    assert(o0 + Seq::<(Seq<char>, L, Option<nat>)>::empty() =~= o0);
    while i < es.len()
        invariant
            i <= es@.len(),
            res == spec_inc_ref_exprs(es@.subrange(0, i as int)).0,
            sites_view(out@) == o0 + spec_inc_ref_exprs(es@.subrange(0, i as int)).1,
        decreases es.len() - i,
    {
        let ghost t = es@.subrange(0, i + 1);
        let ghost p = spec_inc_ref_exprs(es@.subrange(0, i as int)).1;
        proof {
            assert(t.subrange(0, t.len() - 1) =~= es@.subrange(0, i as int));
            assert(t[t.len() - 1] == es@[i as int]);
            assert(decreases_to!(es => es@));
        }
        let b = walk(&es[i], out);
        assert(o0 + p + spec_inc_ref_expr(es@[i as int]).1 =~= o0 + (p + spec_inc_ref_expr(
            es@[i as int],
        ).1));
        res = res || b;
        i = i + 1;
    }
    assert(es@.subrange(0, es@.len() as int) =~= es@);
    res
}

/// `inc_ref_expr`: walks `e` and gives whether it refers to a known name,
/// and the references to definitions that it makes, in order.
pub fn inc_ref_expr<L: Copy>(e: &RefExpr<L>) -> (r: (bool, Vec<RefSite<L>>))
    ensures
        r.0 == spec_inc_ref_expr(*e).0,
        sites_view(r.1@) == spec_inc_ref_expr(*e).1,
{
    let mut out: Vec<RefSite<L>> = Vec::new();
    assert(sites_view(out@) =~= Seq::<(Seq<char>, L, Option<nat>)>::empty());
    let b = walk(e, &mut out);
    assert(Seq::<(Seq<char>, L, Option<nat>)>::empty() + spec_inc_ref_expr(*e).1 =~= spec_inc_ref_expr(
        *e,
    ).1);
    (b, out)
}

/// A binary operation refers to a known name when either operand does,
/// and makes the references of its left operand, then of its right one.
pub proof fn law_binary_operation_refers_through_operands<L>(l: RefExpr<L>, r: RefExpr<L>)
    ensures
        spec_inc_ref_expr(RefExpr::BinOp(Box::new(l), Box::new(r))).0 == (spec_inc_ref_expr(l).0
            || spec_inc_ref_expr(r).0),
        spec_inc_ref_expr(RefExpr::BinOp(Box::new(l), Box::new(r))).1 == spec_inc_ref_expr(l).1
            + spec_inc_ref_expr(r).1,
{
}

/// A call refers to a known name when its callee or any argument does,
/// and makes the references of its callee, then of each argument in turn.
pub proof fn law_call_refers_through_callee_and_arguments<L>(obj: RefExpr<L>, args: Vec<RefExpr<L>>)
    ensures
        spec_inc_ref_expr(RefExpr::Call { obj: Box::new(obj), args }).0 == (spec_inc_ref_expr(obj).0
            || exists|i: int| 0 <= i < args@.len() && #[trigger] spec_inc_ref_expr(args@[i]).0),
        spec_inc_ref_expr(RefExpr::Call { obj: Box::new(obj), args }).1 == spec_inc_ref_expr(obj).1
            + spec_inc_ref_exprs(args@).1,
{
    law_sequence_refers_through_its_members(args@);
}

/// A sequence of expressions refers to a known name exactly when one of
/// them does; its references are those of the first, then of the rest.
pub proof fn law_sequence_refers_through_its_members<L>(es: Seq<RefExpr<L>>)
    ensures
        spec_inc_ref_exprs(es).0 == exists|i: int| 0 <= i < es.len() && #[trigger] spec_inc_ref_expr(es[i]).0,
        es.len() > 0 ==> spec_inc_ref_exprs(es).1 == spec_inc_ref_expr(es[0]).1 + spec_inc_ref_exprs(
            es.drop_first(),
        ).1,
    decreases es.len(),
{
    if es.len() > 0 {
        let p = es.subrange(0, es.len() - 1);
        law_sequence_refers_through_its_members(p);
        if spec_inc_ref_exprs(es).0 {
            if spec_inc_ref_exprs(p).0 {
                let i = choose|i: int| 0 <= i < p.len() && #[trigger] spec_inc_ref_expr(p[i]).0;
                assert(es[i] == p[i]);
            } else {
                assert(spec_inc_ref_expr(es[es.len() - 1]).0);
            }
        }
        if exists|i: int| 0 <= i < es.len() && #[trigger] spec_inc_ref_expr(es[i]).0 {
            let i = choose|i: int| 0 <= i < es.len() && #[trigger] spec_inc_ref_expr(es[i]).0;
            if i < es.len() - 1 {
                assert(p[i] == es[i]);
            }
        }
        if p.len() > 0 {
            let q = es.drop_first();
            law_sequence_refers_through_its_members(q);
            assert(p.drop_first() =~= q.subrange(0, q.len() - 1));
            assert(p[0] == es[0]);
            assert(q[q.len() - 1] == es[es.len() - 1]);
            assert(spec_inc_ref_expr(es[0]).1 + spec_inc_ref_exprs(p.drop_first()).1
                + spec_inc_ref_expr(es[es.len() - 1]).1 =~= spec_inc_ref_expr(es[0]).1 + (
            spec_inc_ref_exprs(p.drop_first()).1 + spec_inc_ref_expr(es[es.len() - 1]).1));
        } else {
            assert(es.drop_first() =~= Seq::<RefExpr<L>>::empty());
            assert(spec_inc_ref_exprs(p).1 =~= Seq::<(Seq<char>, L, Option<nat>)>::empty());
            assert(Seq::<(Seq<char>, L, Option<nat>)>::empty() + spec_inc_ref_expr(es[0]).1
                =~= spec_inc_ref_expr(es[0]).1 + Seq::<(Seq<char>, L, Option<nat>)>::empty());
        }
    }
}

/// A name refers to its definition exactly when one is found, and is
/// known then, or when it names a scope (`module`, `global`).
pub proof fn law_name_refers_when_found<L>(name: String, found: bool, loc: L)
    ensures
        spec_inc_ref_expr(RefExpr::Ident { name, found, loc }).0 == (found || is_scope_name(name@)),
        spec_inc_ref_expr(RefExpr::Ident { name, found, loc }).1 == if found {
            seq![(name@, loc, None::<nat>)]
        } else {
            Seq::empty()
        },
{
}

proof fn lemma_attr_lookup(name: Seq<char>, found_in: Seq<bool>, i: nat)
    requires
        i <= found_in.len(),
        forall|j: int| 0 <= j < i ==> !found_in[j],
    ensures
        attr_lookup(name, found_in, i).1 matches Some(k) ==> k < found_in.len() && found_in[k as int]
            && forall|j: int| 0 <= j < k ==> !found_in[j],
        (forall|j: int| 0 <= j < found_in.len() ==> !found_in[j]) ==> attr_lookup(name, found_in, i).1 is None,
        attr_lookup(name, found_in, i).0 == ((exists|j: int| 0 <= j < found_in.len() && found_in[j])
            || (i < found_in.len() && is_scope_name(name))),
        !is_scope_name(name) && (exists|j: int| 0 <= j < found_in.len() && found_in[j]) ==> attr_lookup(
            name,
            found_in,
            i,
        ).1 is Some,
    decreases found_in.len() - i,
{
    if i < found_in.len() && !found_in[i as int] && !is_scope_name(name) {
        lemma_attr_lookup(name, found_in, i + 1);
    }
}

/// An attribute refers to `name` in the first namespace of its object
/// that defines it, after the references of its object; it is known when
/// a namespace defines it, or when it names a scope and its object denotes
/// a namespace. A scope name not defined in the first namespace refers to
/// nothing. What its object refers to does not make it known.
pub proof fn law_attribute_refers_to_first_definition<L>(
    obj: RefExpr<L>,
    name: String,
    found_in: Vec<bool>,
    loc: L,
)
    ensures
        ({
            let r = spec_inc_ref_expr(RefExpr::Attr { obj: Box::new(obj), name, found_in, loc });
            let f = found_in@;
            &&& r.0 == ((exists|j: int| 0 <= j < f.len() && f[j]) || (f.len() > 0 && is_scope_name(
                name@,
            )))
            &&& (forall|j: int| 0 <= j < f.len() ==> !f[j]) ==> r.1 == spec_inc_ref_expr(obj).1
            &&& (is_scope_name(name@) && f.len() > 0 && !f[0]) ==> r.1 == spec_inc_ref_expr(obj).1
            &&& forall|k: int|
                0 <= k < f.len() && f[k] && (forall|j: int| 0 <= j < k ==> !f[j]) && (k == 0
                    || !is_scope_name(name@)) ==> r.1 == spec_inc_ref_expr(obj).1.push(
                    (name@, loc, Some(k as nat)),
                )
        }),
{
    let f = found_in@;
    lemma_attr_lookup(name@, f, 0);
    assert forall|k: int|
        0 <= k < f.len() && f[k] && (forall|j: int| 0 <= j < k ==> !f[j]) && (k == 0 || !is_scope_name(
            name@,
        )) implies attr_lookup(name@, f, 0).1 == Some(k as nat) by {
        if k != 0 {
            let a = attr_lookup(name@, f, 0).1;
            assert(a is Some);
            let k2 = a->0;
            if k2 < k {
                assert(!f[k2 as int]);
            } else if k2 > k {
                assert(!f[k]);
            }
        }
    }
}

/// The other expressions refer through their parts: a unary operation and
/// a type ascription as their operand does, a list, record or block as the
/// sequence of its members, a comprehension through its generators then
/// its guard, a lambda through its parameters then its body; a literal,
/// or an expression the walk does not enter, refers to nothing.
pub proof fn law_parts_refer_for_the_whole<L>(
    x: RefExpr<L>,
    xs: Vec<RefExpr<L>>,
    ys: Vec<RefExpr<L>>,
)
    ensures
        spec_inc_ref_expr(RefExpr::UnaryOp(Box::new(x))) == spec_inc_ref_expr(x),
        spec_inc_ref_expr(RefExpr::TypeAsc(Box::new(x))) == spec_inc_ref_expr(x),
        spec_inc_ref_expr(RefExpr::Elems(xs)) == spec_inc_ref_exprs(xs@),
        spec_inc_ref_expr(RefExpr::Record(xs)) == spec_inc_ref_exprs(xs@),
        spec_inc_ref_expr(RefExpr::Block(xs)) == spec_inc_ref_exprs(xs@),
        spec_inc_ref_expr(RefExpr::Comprehension { generators: xs, guard: Some(Box::new(x)) }).0
            == (spec_inc_ref_exprs(xs@).0 || spec_inc_ref_expr(x).0),
        spec_inc_ref_expr(RefExpr::Comprehension { generators: xs, guard: Some(Box::new(x)) }).1
            == spec_inc_ref_exprs(xs@).1 + spec_inc_ref_expr(x).1,
        spec_inc_ref_expr(RefExpr::Comprehension { generators: xs, guard: None }) == spec_inc_ref_exprs(
            xs@,
        ),
        spec_inc_ref_expr(RefExpr::Lambda { params: xs, body: ys }).0 == (spec_inc_ref_exprs(xs@).0
            || spec_inc_ref_exprs(ys@).0),
        spec_inc_ref_expr(RefExpr::Lambda { params: xs, body: ys }).1 == spec_inc_ref_exprs(xs@).1
            + spec_inc_ref_exprs(ys@).1,
        spec_inc_ref_expr(RefExpr::<L>::Literal).0 == false,
        spec_inc_ref_expr(RefExpr::<L>::Literal).1.len() == 0,
        spec_inc_ref_expr(RefExpr::<L>::Other).0 == false,
        spec_inc_ref_expr(RefExpr::<L>::Other).1.len() == 0,
{
}

} // verus!
