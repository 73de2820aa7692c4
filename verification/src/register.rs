//! Checks made when names are registered in a context: which module names
//! can be imported, and which class and trait definitions are cyclic.

use vstd::prelude::*;

use crate::args::str_eq;
use crate::const_func::join_texts;
use crate::error::ErrorKind;
use crate::eval_error::EvalError;
use crate::order::texts_of;
use crate::store_graph::join_chars;
use crate::text::{chars_of, string_from, string_of, trim, trim_chars};
use crate::textmap::{distinct_keys, find_entry, lemma_text_map, set_entry, text_map};

verus! {

/// A module name that can be imported: not empty, not an absolute path, and
/// without surrounding white space.
pub open spec fn spec_valid_mod_name(name: Seq<char>) -> bool {
    name.len() > 0 && name[0] != '/' && trim(name) == name
}

pub fn valid_mod_name(name: &str) -> (r: bool)
    ensures
        r == spec_valid_mod_name(name@),
{
    let cs = chars_of(name);
    if cs.len() == 0 || cs[0] == '/' {
        return false;
    }
    let t = trim_chars(&cs);
    if t.len() != cs.len() {
        return false;
    }
    let mut i: usize = 0;
    while i < t.len()
        invariant
            cs@ == name@,
            cs@.len() > 0,
            cs@[0] != '/',
            t@ == trim(cs@),
            t@.len() == cs@.len(),
            i <= t@.len(),
            forall|k: int| 0 <= k < i ==> t@[k] == cs@[k],
        decreases t.len() - i,
    {
        if t[i] != cs[i] {
            assert(t@[i as int] != cs@[i as int]);
            return false;
        }
        i = i + 1;
    }
    assert(t@ =~= cs@);
    true
}

/// A generated class or trait that names a base type (a class its
/// superclass, a trait the trait it requires), both by qualified name, and
/// where it is defined.
pub struct TypeDefinition<L> {
    pub loc: L,
    pub qual_name: String,
    pub base: String,
}

/// The link from each defined type to its base; a type defined twice keeps
/// the base of its last definition.
pub open spec fn base_links<L>(defs: Seq<TypeDefinition<L>>) -> Map<Seq<char>, Seq<char>>
    decreases defs.len(),
{
    if defs.len() == 0 {
        Map::empty()
    } else {
        base_links(defs.drop_last()).insert(defs.last().qual_name@, defs.last().base@)
    }
}

/// Where `k` steps along the base links from `s` lead, if they can be
/// taken.
pub open spec fn follow(links: Map<Seq<char>, Seq<char>>, s: Seq<char>, k: nat) -> Option<Seq<char>>
    decreases k,
{
    if k == 0 {
        Some(s)
    } else {
        match follow(links, s, (k - 1) as nat) {
            Some(c) => if links.contains_key(c) {
                Some(links[c])
            } else {
                None
            },
            None => None,
        }
    }
}

/// Following the base links from `s` leads back to `s`.
pub open spec fn on_cycle(links: Map<Seq<char>, Seq<char>>, s: Seq<char>) -> bool {
    exists|k: nat| k >= 1 && #[trigger] follow(links, s, k) == Some(s)
}

/// `k` steps from `s` lead back to `s` for the first time.
pub open spec fn first_return(links: Map<Seq<char>, Seq<char>>, s: Seq<char>, k: nat) -> bool {
    &&& k >= 1
    &&& follow(links, s, k) == Some(s)
    &&& forall|j: nat| 1 <= j < k ==> #[trigger] follow(links, s, j) != Some(s)
}

/// The length of the cycle through `s`.
pub open spec fn return_step(links: Map<Seq<char>, Seq<char>>, s: Seq<char>) -> nat {
    choose|k: nat| first_return(links, s, k)
}

/// The last segment of a qualified name: what follows its last `:` or `.`.
pub open spec fn local_name(q: Seq<char>) -> Seq<char>
    decreases q.len(),
{
    if q.len() == 0 {
        q
    } else if q.last() == ':' || q.last() == '.' {
        Seq::empty()
    } else {
        local_name(q.drop_last()).push(q.last())
    }
}

/// The cycle through `s`, from `s` back to it, by local names joined with
/// ` -> `.
pub open spec fn cycle_text(links: Map<Seq<char>, Seq<char>>, s: Seq<char>) -> Seq<char> {
    join_texts(cycle_path(links, s), " -> "@)
}

/// The local names along the cycle through `s`, from `s` back to it.
pub open spec fn cycle_path(links: Map<Seq<char>, Seq<char>>, s: Seq<char>) -> Seq<Seq<char>> {
    Seq::new(return_step(links, s) + 1, |j: int| local_name(follow(links, s, j as nat)->0))
}

/// The definitions among `defs` whose types lie on a cycle of `links`, in
/// order, each with where it is defined and its cycle.
pub open spec fn cyclic_reports<L>(
    defs: Seq<TypeDefinition<L>>,
    links: Map<Seq<char>, Seq<char>>,
) -> Seq<(L, Seq<char>)>
    decreases defs.len(),
{
    if defs.len() == 0 {
        Seq::empty()
    } else {
        let rest = cyclic_reports(defs.drop_last(), links);
        let d = defs.last();
        if on_cycle(links, d.qual_name@) {
            rest.push((d.loc, cycle_text(links, d.qual_name@)))
        } else {
            rest
        }
    }
}

proof fn lemma_follow_add(links: Map<Seq<char>, Seq<char>>, s: Seq<char>, a: nat, b: nat)
    ensures
        follow(links, s, a + b) == match follow(links, s, a) {
            Some(c) => follow(links, c, b),
            None => None,
        },
    decreases b,
{
    if b > 0 {
        lemma_follow_add(links, s, a, (b - 1) as nat);
        assert((a + b - 1) as nat == a + (b - 1) as nat);
    } else {
        assert(a + b == a);
        if let Some(c) = follow(links, s, a) {
            assert(follow(links, c, 0) == Some(c));
        }
    }
}

proof fn lemma_stuck_stays_stuck(links: Map<Seq<char>, Seq<char>>, s: Seq<char>, a: nat, b: nat)
    requires
        follow(links, s, a) is None,
        a <= b,
    ensures
        follow(links, s, b) is None,
    decreases b - a,
{
    if a < b {
        lemma_stuck_stays_stuck(links, s, a, (b - 1) as nat);
    }
}

proof fn lemma_first_return_exists(links: Map<Seq<char>, Seq<char>>, s: Seq<char>, k: nat)
    requires
        k >= 1,
        follow(links, s, k) == Some(s),
    ensures
        first_return(links, s, return_step(links, s)),
        return_step(links, s) <= k,
    decreases k,
{
    if exists|j: nat| 1 <= j < k && #[trigger] follow(links, s, j) == Some(s) {
        let j = choose|j: nat| 1 <= j < k && #[trigger] follow(links, s, j) == Some(s);
        lemma_first_return_exists(links, s, j);
    } else {
        assert(first_return(links, s, k));
        lemma_first_return_unique(links, s, k, return_step(links, s));
    }
}

proof fn lemma_first_return_unique(links: Map<Seq<char>, Seq<char>>, s: Seq<char>, k: nat, j: nat)
    requires
        first_return(links, s, k),
        first_return(links, s, j),
    ensures
        k == j,
{
    if k < j {
        assert(follow(links, s, k) != Some(s));
    } else if j < k {
        assert(follow(links, s, j) != Some(s));
    }
}

/// Before it first returns, the walk from `s` meets no type twice, and
/// takes a link at each type it meets.
proof fn lemma_cycle_is_simple(links: Map<Seq<char>, Seq<char>>, s: Seq<char>, k: nat)
    requires
        first_return(links, s, k),
    ensures
        Seq::new(k, |j: int| follow(links, s, j as nat)->0).no_duplicates(),
        forall|j: nat|
            j < k ==> #[trigger] follow(links, s, j) is Some && links.contains_key(
                follow(links, s, j)->0,
            ),
{
    let c = Seq::new(k, |j: int| follow(links, s, j as nat)->0);
    assert forall|j: nat| j < k implies #[trigger] follow(links, s, j) is Some
        && links.contains_key(follow(links, s, j)->0) by {
        if follow(links, s, j) is None {
            lemma_stuck_stays_stuck(links, s, j, k);
        }
        assert(follow(links, s, j + 1) is Some) by {
            if follow(links, s, j + 1) is None {
                lemma_stuck_stays_stuck(links, s, j + 1, k);
            }
        }
    }
    assert forall|a: int, b: int| 0 <= a < b < k implies c[a] != c[b] by {
        if c[a] == c[b] {
            let t = (k - b) as nat;
            lemma_follow_add(links, s, a as nat, t);
            lemma_follow_add(links, s, b as nat, t);
            assert(b as nat + t == k);
            assert(follow(links, s, a as nat) == Some(c[a]));
            assert(follow(links, s, b as nat) == Some(c[b]));
            assert(follow(links, s, (a + t) as nat) == Some(s));
            assert(1 <= a + t < k);
        }
    }
}

/// The base links that the entries `links` hold.
pub open spec fn link_map(links: Seq<(String, String)>) -> Map<Seq<char>, Seq<char>> {
    text_map(links).map_values(|v: String| v@)
}

/// A cycle through `s` is no longer than the number of types with a base.
proof fn lemma_cycle_fits(links: Seq<(String, String)>, s: Seq<char>, k: nat)
    requires
        distinct_keys(links),
        first_return(link_map(links), s, k),
    ensures
        k <= links.len(),
{
    let m = link_map(links);
    lemma_text_map(links);
    lemma_cycle_is_simple(m, s, k);
    let c = Seq::new(k, |j: int| follow(m, s, j as nat)->0);
    let keys = Seq::new(links.len(), |i: int| links[i].0@);
    c.unique_seq_to_set();
    keys.lemma_cardinality_of_set();
    assert forall|x: Seq<char>| c.to_set().contains(x) implies keys.to_set().contains(x) by {
        let j = choose|j: int| 0 <= j < c.len() && c[j] == x;
        assert(follow(m, s, j as nat) is Some);
        assert(m.contains_key(follow(m, s, j as nat)->0));
        let i = choose|i: int| 0 <= i < links.len() && links[i].0@ == x;
        assert(keys[i] == x);
    }
    vstd::set_lib::lemma_len_subset(c.to_set(), keys.to_set());
}

proof fn lemma_local_name_step(q: Seq<char>, i: int)
    requires
        0 <= i < q.len(),
    ensures
        local_name(q.subrange(0, i + 1)) == if q[i] == ':' || q[i] == '.' {
            Seq::<char>::empty()
        } else {
            local_name(q.subrange(0, i)).push(q[i])
        },
{
    assert(q.subrange(0, i + 1).drop_last() =~= q.subrange(0, i));
}

/// The last segment of the qualified name `q`.
fn local_chars(q: &str) -> (r: Vec<char>)
    ensures
        r@ == local_name(q@),
{
    let cs = chars_of(q);
    let n = cs.len();
    let mut i: usize = n;
    assert(q@.subrange(0, n as int) =~= q@);
    assert(q@.subrange(n as int, n as int) =~= Seq::<char>::empty());
    while i > 0 && cs[i - 1] != ':' && cs[i - 1] != '.'
        invariant
            cs@ == q@,
            n == cs@.len(),
            i <= n,
            local_name(q@) == local_name(q@.subrange(0, i as int)) + q@.subrange(i as int, n as int),
        decreases i,
    {
        proof {
            lemma_local_name_step(q@, i - 1);
            assert(q@.subrange(i - 1, n as int) =~= seq![q@[i - 1]] + q@.subrange(i as int, n as int));
            assert(local_name(q@.subrange(0, i as int)) + q@.subrange(i as int, n as int)
                =~= local_name(q@.subrange(0, i - 1)) + q@.subrange(i - 1, n as int));
        }
        i = i - 1;
    }
    proof {
        if i > 0 {
            lemma_local_name_step(q@, i - 1);
        }
        assert(local_name(q@.subrange(0, i as int)) =~= Seq::<char>::empty());
    }
    let mut r: Vec<char> = Vec::new();
    let mut j: usize = i;
    while j < n
        invariant
            cs@ == q@,
            n == cs@.len(),
            i <= j <= n,
            r@ == q@.subrange(i as int, j as int),
        decreases n - j,
    {
        r.push(cs[j]);
        proof {
            assert(r@ =~= q@.subrange(i as int, j + 1));
        }
        j = j + 1;
    }
    assert(local_name(q@) =~= r@);
    r
}

/// The cycle of base links through `start`, as its text, if there is one.
fn cycle_from(links: &Vec<(String, String)>, start: &str) -> (r: Option<String>)
    requires
        distinct_keys(links@),
    ensures
        match r {
            Some(t) => on_cycle(link_map(links@), start@) && t@ == cycle_text(
                link_map(links@),
                start@,
            ),
            None => !on_cycle(link_map(links@), start@),
        },
{
    let ghost m = link_map(links@);
    proof {
        lemma_text_map(links@);
    }
    let arrow = chars_of(" -> ");
    let mut parts: Vec<Vec<char>> = Vec::new();
    parts.push(local_chars(start));
    let mut cur = string_from(start);
    let mut step: usize = 0;
    assert(texts_of(parts@) =~= Seq::new(1, |j: int| local_name(follow(m, start@, j as nat)->0)));
    loop
        invariant
            distinct_keys(links@),
            m == link_map(links@),
            arrow@ == " -> "@,
            step <= links@.len(),
            follow(m, start@, step as nat) == Some(cur@),
            forall|j: nat| 1 <= j <= step ==> #[trigger] follow(m, start@, j) != Some(start@),
            texts_of(parts@) == Seq::new(
                (step + 1) as nat,
                |j: int| local_name(follow(m, start@, j as nat)->0),
            ),
        decreases links.len() + 1 - step,
    {
        proof {
            lemma_text_map(links@);
        }
        match find_entry(links, cur.as_str()) {
            None => {
                proof {
                    assert(!m.contains_key(cur@));
                    assert(follow(m, start@, (step + 1) as nat) is None);
                    if on_cycle(m, start@) {
                        let k = choose|k: nat| k >= 1 && #[trigger] follow(m, start@, k) == Some(
                            start@,
                        );
                        if k > step {
                            lemma_stuck_stays_stuck(m, start@, (step + 1) as nat, k);
                        }
                    }
                }
                return None;
            },
            Some(e) => {
                let next = links[e].1.as_str();
                let ghost step_next = (step + 1) as nat;
                proof {
                    assert(m.contains_key(cur@));
                    assert(m[cur@] == links@[e as int].1@);
                    assert(follow(m, start@, step_next) == Some(next@));
                }
                let ghost before = texts_of(parts@);
                let local = local_chars(next);
                parts.push(local);
                proof {
                    assert(texts_of(parts@) =~= before.push(local_name(next@)));
                    assert(texts_of(parts@) =~= Seq::new(
                        step_next + 1,
                        |j: int| local_name(follow(m, start@, j as nat)->0),
                    ));
                }
                if str_eq(next, start) {
                    proof {
                        assert(first_return(m, start@, step_next));
                        lemma_first_return_exists(m, start@, step_next);
                        lemma_first_return_unique(
                            m,
                            start@,
                            step_next,
                            return_step(m, start@),
                        );
                    }
                    let text = join_chars(&parts, &arrow);
                    return Some(string_of(&text));
                }
                if step == links.len() {
                    proof {
                        if on_cycle(m, start@) {
                            let k = choose|k: nat| k >= 1 && #[trigger] follow(m, start@, k) == Some(
                                start@,
                            );
                            lemma_first_return_exists(m, start@, k);
                            let f = return_step(m, start@);
                            lemma_cycle_fits(links@, start@, f);
                            assert(follow(m, start@, f) == Some(start@));
                        }
                    }
                    return None;
                }
                cur = string_from(next);
                step = step + 1;
            },
        }
    }
}

/// Reports each cyclic class or trait definition, such as
/// `C = Class D; D = Class C`: each definition among `defs` whose type, by
/// following base links, leads back to itself, in the order of `defs`, with
/// the cycle by local names (`C -> D -> C`). Recursion through container
/// types is no base link, and so is never reported.
pub fn check_cyclic_definitions<I: Copy, L: Copy>(
    defs: &Vec<TypeDefinition<L>>,
    input: I,
    errno: usize,
    caused_by: &str,
) -> (r: Vec<EvalError<I, L>>)
    ensures
        r@.len() == cyclic_reports(defs@, base_links(defs@)).len(),
        forall|i: int|
            0 <= i < r@.len() ==> #[trigger] r@[i].reports(
                input,
                errno,
                cyclic_reports(defs@, base_links(defs@))[i].0,
                caused_by@,
                ErrorKind::RecursionError,
                "cyclic definition detected: "@ + cyclic_reports(defs@, base_links(defs@))[i].1,
                None,
            ),
{
    let mut links: Vec<(String, String)> = Vec::new();
    let mut i: usize = 0;
    while i < defs.len()
        invariant
            i <= defs@.len(),
            distinct_keys(links@),
            link_map(links@) == base_links(defs@.subrange(0, i as int)),
        decreases defs.len() - i,
    {
        let ghost before = links@;
        set_entry(
            &mut links,
            string_from(defs[i].qual_name.as_str()),
            string_from(defs[i].base.as_str()),
        );
        proof {
            let d = defs@.subrange(0, i + 1);
            assert(d.drop_last() =~= defs@.subrange(0, i as int));
            assert(link_map(links@) =~= link_map(before).insert(
                defs@[i as int].qual_name@,
                defs@[i as int].base@,
            ));
        }
        i = i + 1;
    }
    assert(defs@.subrange(0, defs@.len() as int) =~= defs@);
    let ghost m = base_links(defs@);
    let mut errs: Vec<EvalError<I, L>> = Vec::new();
    let mut j: usize = 0;
    while j < defs.len()
        invariant
            j <= defs@.len(),
            distinct_keys(links@),
            link_map(links@) == m,
            m == base_links(defs@),
            errs@.len() == cyclic_reports(defs@.subrange(0, j as int), m).len(),
            forall|k: int|
                0 <= k < errs@.len() ==> #[trigger] errs@[k].reports(
                    input,
                    errno,
                    cyclic_reports(defs@.subrange(0, j as int), m)[k].0,
                    caused_by@,
                    ErrorKind::RecursionError,
                    "cyclic definition detected: "@ + cyclic_reports(
                        defs@.subrange(0, j as int),
                        m,
                    )[k].1,
                    None,
                ),
        decreases defs.len() - j,
    {
        let ghost prefix = defs@.subrange(0, j + 1);
        proof {
            assert(prefix.drop_last() =~= defs@.subrange(0, j as int));
        }
        match cycle_from(&links, defs[j].qual_name.as_str()) {
            Some(path) => {
                let e = EvalError::cyclic_definition_error(
                    input,
                    errno,
                    defs[j].loc,
                    string_from(caused_by),
                    path.as_str(),
                );
                errs.push(e);
            },
            None => {},
        }
        j = j + 1;
    }
    errs
}

/// A reported cycle runs from the type back to it: its path starts and
/// ends with the type's own local name and takes at least one link.
pub proof fn law_cycle_path_returns_to_its_start(links: Map<Seq<char>, Seq<char>>, s: Seq<char>)
    requires
        on_cycle(links, s),
    ensures
        cycle_path(links, s).len() >= 2,
        cycle_path(links, s)[0] == local_name(s),
        cycle_path(links, s).last() == local_name(s),
{
    let k = choose|k: nat| k >= 1 && #[trigger] follow(links, s, k) == Some(s);
    lemma_first_return_exists(links, s, k);
}

/// Every type on a cycle is itself on a cycle: each definition that takes
/// part in a cyclic definition is reported, not only the first.
pub proof fn law_every_member_of_a_cycle_is_on_it(
    links: Map<Seq<char>, Seq<char>>,
    s: Seq<char>,
    j: nat,
)
    requires
        on_cycle(links, s),
    ensures
        follow(links, s, j) is Some,
        on_cycle(links, follow(links, s, j)->0),
{
    let k = choose|k: nat| k >= 1 && #[trigger] follow(links, s, k) == Some(s);
    lemma_always_some(links, s, k, j);
    let c = follow(links, s, j)->0;
    lemma_follow_add(links, s, j, k);
    lemma_follow_add(links, s, k, j);
    assert(j + k == k + j);
    assert(follow(links, c, k) == Some(c));
}

/// On a cycle every number of steps can be taken.
proof fn lemma_always_some(links: Map<Seq<char>, Seq<char>>, s: Seq<char>, k: nat, j: nat)
    requires
        k >= 1,
        follow(links, s, k) == Some(s),
    ensures
        follow(links, s, j) is Some,
    decreases j,
{
    if j >= k {
        lemma_always_some(links, s, k, (j - k) as nat);
        lemma_follow_add(links, s, k, (j - k) as nat);
        assert(k + (j - k) as nat == j);
    } else if follow(links, s, j) is None {
        lemma_stuck_stays_stuck(links, s, j, k);
    }
}

/// A chain of bases that ends at a type without one is no cycle.
pub proof fn law_a_chain_that_ends_is_no_cycle(
    links: Map<Seq<char>, Seq<char>>,
    s: Seq<char>,
    a: nat,
)
    requires
        follow(links, s, a) is None,
    ensures
        !on_cycle(links, s),
{
    if on_cycle(links, s) {
        let k = choose|k: nat| k >= 1 && #[trigger] follow(links, s, k) == Some(s);
        lemma_always_some(links, s, k, a);
    }
}

} // verus!
