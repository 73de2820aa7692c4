//! Which named mutable objects may store one another, and the cycles of
//! references that such stores can build.

use vstd::prelude::*;

use crate::args::str_eq;
use crate::const_func::{append_chars, join_texts};
use crate::order::{sort_texts, text_order, texts_of};
use crate::text::{chars_of, string_of};

verus! {

/// The edges out of one node: each destination's key, and where the store
/// happens.
pub open spec fn edges_view<L>(es: Seq<(String, L)>) -> Seq<(Seq<char>, L)> {
    es.map_values(|e: (String, L)| (e.0@, e.1))
}

/// The map from node key to out-edges that the entries `s` make.
pub open spec fn stores_map<L>(s: Seq<(String, Vec<(String, L)>)>) -> Map<
    Seq<char>,
    Seq<(Seq<char>, L)>,
>
    decreases s.len(),
{
    if s.len() == 0 {
        Map::empty()
    } else {
        stores_map(s.drop_last()).insert(s.last().0@, edges_view(s.last().1@))
    }
}

/// The map from node key to variable name that the entries `s` make.
pub open spec fn names_map(s: Seq<(String, String)>) -> Map<Seq<char>, Seq<char>>
    decreases s.len(),
{
    if s.len() == 0 {
        Map::empty()
    } else {
        names_map(s.drop_last()).insert(s.last().0@, s.last().1@)
    }
}

/// No key occurs twice among the entries `s`.
pub open spec fn unique_keys<V>(s: Seq<(String, V)>) -> bool {
    forall|i: int, j: int| 0 <= i < j < s.len() ==> s[i].0@ != s[j].0@
}

proof fn lemma_stores_map<L>(s: Seq<(String, Vec<(String, L)>)>)
    requires
        unique_keys(s),
    ensures
        forall|k: Seq<char>|
            #[trigger] stores_map(s).contains_key(k) <==> exists|i: int|
                0 <= i < s.len() && s[i].0@ == k,
        forall|i: int|
            0 <= i < s.len() ==> #[trigger] stores_map(s)[s[i].0@] == edges_view(s[i].1@),
    decreases s.len(),
{
    if s.len() > 0 {
        let p = s.drop_last();
        let last = s.last();
        assert(unique_keys(p));
        lemma_stores_map(p);
        assert(stores_map(s) == stores_map(p).insert(last.0@, edges_view(last.1@)));
        assert forall|k: Seq<char>|
            #[trigger] stores_map(s).contains_key(k) implies exists|i: int|
                0 <= i < s.len() && s[i].0@ == k by {
            if k == last.0@ {
                assert(s[s.len() - 1].0@ == k);
            } else {
                assert(stores_map(p).contains_key(k));
                let i = choose|i: int| 0 <= i < p.len() && p[i].0@ == k;
                assert(s[i] == p[i]);
            }
        }
        assert forall|k: Seq<char>|
            (exists|i: int| 0 <= i < s.len() && s[i].0@ == k) implies #[trigger] stores_map(
            s,
        ).contains_key(k) by {
            let i = choose|i: int| 0 <= i < s.len() && s[i].0@ == k;
            if i < p.len() {
                assert(p[i] == s[i]);
                assert(stores_map(p).contains_key(k));
            }
        }
        assert forall|i: int| 0 <= i < s.len() implies #[trigger] stores_map(s)[s[i].0@]
            == edges_view(s[i].1@) by {
            if i < p.len() {
                assert(p[i] == s[i]);
                assert(s[i].0@ != last.0@);
                assert(stores_map(p)[p[i].0@] == edges_view(p[i].1@));
            }
        }
    }
}

proof fn lemma_names_map(s: Seq<(String, String)>)
    requires
        unique_keys(s),
    ensures
        forall|k: Seq<char>|
            #[trigger] names_map(s).contains_key(k) <==> exists|i: int|
                0 <= i < s.len() && s[i].0@ == k,
        forall|i: int| 0 <= i < s.len() ==> #[trigger] names_map(s)[s[i].0@] == s[i].1@,
    decreases s.len(),
{
    if s.len() > 0 {
        let p = s.drop_last();
        let last = s.last();
        assert(unique_keys(p));
        lemma_names_map(p);
        assert(names_map(s) == names_map(p).insert(last.0@, last.1@));
        assert forall|k: Seq<char>|
            #[trigger] names_map(s).contains_key(k) implies exists|i: int|
                0 <= i < s.len() && s[i].0@ == k by {
            if k == last.0@ {
                assert(s[s.len() - 1].0@ == k);
            } else {
                assert(names_map(p).contains_key(k));
                let i = choose|i: int| 0 <= i < p.len() && p[i].0@ == k;
                assert(s[i] == p[i]);
            }
        }
        assert forall|k: Seq<char>|
            (exists|i: int| 0 <= i < s.len() && s[i].0@ == k) implies #[trigger] names_map(
            s,
        ).contains_key(k) by {
            let i = choose|i: int| 0 <= i < s.len() && s[i].0@ == k;
            if i < p.len() {
                assert(p[i] == s[i]);
                assert(names_map(p).contains_key(k));
            }
        }
        assert forall|i: int| 0 <= i < s.len() implies #[trigger] names_map(s)[s[i].0@]
            == s[i].1@ by {
            if i < p.len() {
                assert(p[i] == s[i]);
                assert(s[i].0@ != last.0@);
                assert(names_map(p)[p[i].0@] == p[i].1@);
            }
        }
    }
}

/// Which named mutable objects may store one another: for each variable
/// (by a key that tells it apart from others of the same name), the
/// variables it was seen to store and where; and the name of each.
pub struct StoreGraph<L> {
    stores: Vec<(String, Vec<(String, L)>)>,
    store_names: Vec<(String, String)>,
}

impl<L: Copy> StoreGraph<L> {
    /// The out-edges of each node that stores another.
    pub closed spec fn store_map(&self) -> Map<Seq<char>, Seq<(Seq<char>, L)>> {
        stores_map(self.stores@)
    }

    /// The variable name of each node.
    pub closed spec fn name_map(&self) -> Map<Seq<char>, Seq<char>> {
        names_map(self.store_names@)
    }

    pub closed spec fn wf(&self) -> bool {
        unique_keys(self.stores@) && unique_keys(self.store_names@)
    }

    /// No stores yet.
    pub fn new() -> (g: Self)
        ensures
            g.wf(),
            g.store_map() == Map::<Seq<char>, Seq<(Seq<char>, L)>>::empty(),
            g.name_map() == Map::<Seq<char>, Seq<char>>::empty(),
    {
        StoreGraph { stores: Vec::new(), store_names: Vec::new() }
    }

    fn set_name(&mut self, key: String, name: String)
        requires
            unique_keys(old(self).store_names@),
        ensures
            unique_keys(final(self).store_names@),
            final(self).stores == old(self).stores,
            names_map(final(self).store_names@) == names_map(old(self).store_names@).insert(
                key@,
                name@,
            ),
    {
        proof {
            lemma_names_map(self.store_names@);
        }
        let mut i: usize = 0;
        while i < self.store_names.len()
            invariant
                i <= self.store_names@.len(),
                self.store_names@ == old(self).store_names@,
                self.stores == old(self).stores,
                unique_keys(self.store_names@),
                forall|j: int| 0 <= j < i ==> self.store_names@[j].0@ != key@,
            decreases self.store_names.len() - i,
        {
            if str_eq(self.store_names[i].0.as_str(), key.as_str()) {
                let ghost old_names = self.store_names@;
                self.store_names.set(i, (key, name));
                proof {
                    let s = self.store_names@;
                    assert(unique_keys(s)) by {
                        assert forall|a: int, b: int| 0 <= a < b < s.len() implies s[a].0@
                            != s[b].0@ by {
                            assert(s[a].0@ == old_names[a].0@);
                            assert(s[b].0@ == old_names[b].0@);
                        }
                    }
                    lemma_names_map(s);
                    lemma_names_map(old_names);
                    assert(names_map(s) =~= names_map(old_names).insert(key@, name@)) by {
                        assert forall|k: Seq<char>| names_map(s).contains_key(k)
                            <==> names_map(old_names).insert(key@, name@).contains_key(k) by {
                            if names_map(old_names).contains_key(k) {
                                let j = choose|j: int| 0 <= j < old_names.len() && old_names[j].0@ == k;
                                assert(s[j].0@ == k);
                            }
                            if names_map(s).contains_key(k) {
                                let j = choose|j: int| 0 <= j < s.len() && s[j].0@ == k;
                                assert(old_names[j].0@ == k);
                            }
                        }
                        assert forall|k: Seq<char>| #[trigger] names_map(s).contains_key(k) implies names_map(s)[k]
                            == names_map(old_names).insert(key@, name@)[k] by {
                            let j = choose|j: int| 0 <= j < s.len() && s[j].0@ == k;
                            if j != i {
                                assert(s[j] == old_names[j]);
                            }
                        }
                    }
                }
                return;
            }
            i = i + 1;
        }
        let ghost old_names = self.store_names@;
        self.store_names.push((key, name));
        proof {
            assert(self.store_names@.drop_last() =~= old_names);
        }
    }

    /// Records that the variable `from_key` (named `from_name`) may store
    /// the variable `to_key` (named `to_name`), as seen at `loc`.
    pub fn add_store_edge(
        &mut self,
        from_key: String,
        from_name: String,
        to_key: String,
        to_name: String,
        loc: L,
    )
        requires
            old(self).wf(),
        ensures
            final(self).wf(),
            final(self).name_map() == old(self).name_map().insert(from_key@, from_name@).insert(
                to_key@,
                to_name@,
            ),
            final(self).store_map() == old(self).store_map().insert(
                from_key@,
                (if old(self).store_map().contains_key(from_key@) {
                    old(self).store_map()[from_key@]
                } else {
                    Seq::empty()
                }).push((to_key@, loc)),
            ),
    {
        proof {
            lemma_stores_map(self.stores@);
        }
        let from_text = from_key.clone();
        let to_text = to_key.clone();
        self.set_name(from_key, from_name);
        self.set_name(to_key, to_name);
        let ghost old_stores = self.stores@;
        match Self::position_of_key(&self.stores, from_text.as_str()) {
            Some(i) => {
                let (k, mut es) = self.stores.remove(i);
                let ghost old_es = es@;
                es.push((to_text, loc));
                self.stores.insert(i, (k, es));
                proof {
                    let s = self.stores@;
                    assert(forall|j: int| 0 <= j < s.len() && j != i ==> s[j] == old_stores[j]);
                    assert(unique_keys(s)) by {
                        assert forall|a: int, b: int| 0 <= a < b < s.len() implies s[a].0@
                            != s[b].0@ by {
                            assert(s[a].0@ == old_stores[a].0@);
                            assert(s[b].0@ == old_stores[b].0@);
                        }
                    }
                    lemma_stores_map(s);
                    lemma_stores_map(old_stores);
                    assert(edges_view(es@) =~= edges_view(old_es).push((to_text@, loc)));
                    let expected = stores_map(old_stores).insert(
                        from_text@,
                        stores_map(old_stores)[from_text@].push((to_text@, loc)),
                    );
                    assert(stores_map(s) =~= expected) by {
                        assert forall|key: Seq<char>| stores_map(s).contains_key(key)
                            <==> expected.contains_key(key) by {
                            if stores_map(old_stores).contains_key(key) {
                                let j = choose|j: int| 0 <= j < old_stores.len() && old_stores[j].0@ == key;
                                assert(s[j].0@ == key);
                            }
                            if stores_map(s).contains_key(key) {
                                let j = choose|j: int| 0 <= j < s.len() && s[j].0@ == key;
                                assert(old_stores[j].0@ == key);
                            }
                        }
                        assert forall|key: Seq<char>| #[trigger] stores_map(s).contains_key(key) implies stores_map(s)[key]
                            == expected[key] by {
                            let j = choose|j: int| 0 <= j < s.len() && s[j].0@ == key;
                            if j != i {
                                assert(s[j] == old_stores[j]);
                                assert(old_stores[j].0@ != old_stores[i as int].0@);
                            }
                        }
                    }
                }
            },
            None => {
                let mut es: Vec<(String, L)> = Vec::new();
                es.push((to_text, loc));
                self.stores.push((from_text, es));
                proof {
                    let s = self.stores@;
                    assert(s.drop_last() =~= old_stores);
                    assert(edges_view(es@) =~= Seq::<(Seq<char>, L)>::empty().push((to_text@, loc)));
                    assert(!stores_map(old_stores).contains_key(from_text@));
                }
            },
        }
    }

    /// The nodes of the graph by index: the keys of the nodes that store
    /// others first, in order, then those only stored; their names; and the
    /// edges of each by index.
    fn index_graph(&self) -> (r: (Vec<Vec<char>>, Vec<Vec<char>>, Vec<Vec<(usize, L)>>))
        requires
            self.wf(),
        ensures
            represents(r.0@, r.1@, r.2@, self.store_map(), self.name_map()),
    {
        proof {
            lemma_stores_map(self.stores@);
            lemma_names_map(self.store_names@);
        }
        let ghost st = self.stores@;
        let ghost g = self.store_map();
        let m = self.stores.len();
        let mut keys: Vec<Vec<char>> = Vec::new();
        let mut i: usize = 0;
        while i < m
            invariant
                m == st.len(),
                st == self.stores@,
                i <= m,
                keys@.len() == i,
                forall|k: int| 0 <= k < i ==> #[trigger] keys@[k]@ == st[k].0@,
            decreases m - i,
        {
            keys.push(chars_of(self.stores[i].0.as_str()));
            i = i + 1;
        }
        assert(forall|a: int, b: int| 0 <= a < b < keys@.len() ==> keys@[a]@ != keys@[b]@) by {
            assert(unique_keys(st));
        }
        let mut i: usize = 0;
        while i < m
            invariant
                m == st.len(),
                st == self.stores@,
                i <= m,
                keys@.len() >= m,
                forall|k: int| 0 <= k < m ==> #[trigger] keys@[k]@ == st[k].0@,
                forall|a: int, b: int| 0 <= a < b < keys@.len() ==> keys@[a]@ != keys@[b]@,
                forall|a: int, e: int|
                    0 <= a < i && 0 <= e < st[a].1@.len() ==> has_key(keys@, (#[trigger] st[a].1@[e]).0@),
            decreases m - i,
        {
            let mut e: usize = 0;
            while e < self.stores[i].1.len()
                invariant
                    m == st.len(),
                    st == self.stores@,
                    i < m,
                    e <= st[i as int].1@.len(),
                    keys@.len() >= m,
                    forall|k: int| 0 <= k < m ==> #[trigger] keys@[k]@ == st[k].0@,
                    forall|a: int, b: int| 0 <= a < b < keys@.len() ==> keys@[a]@ != keys@[b]@,
                    forall|a: int, e2: int|
                        0 <= a < i && 0 <= e2 < st[a].1@.len() ==> has_key(keys@, (#[trigger] st[a].1@[e2]).0@),
                    forall|e2: int|
                        0 <= e2 < e ==> has_key(keys@, (#[trigger] st[i as int].1@[e2]).0@),
                decreases st[i as int].1@.len() - e,
            {
                let d = chars_of(self.stores[i].1[e].0.as_str());
                match find_key(&keys, &d) {
                    Some(j) => {
                        assert(keys@[j as int]@ == st[i as int].1@[e as int].0@);
                    },
                    None => {
                        let ghost before = keys@;
                        keys.push(d);
                        assert(keys@[before.len() as int]@ == st[i as int].1@[e as int].0@);
                        assert forall|a: int, e2: int|
                            0 <= a < i && 0 <= e2 < st[a].1@.len() implies has_key(keys@, (#[trigger] st[a].1@[e2]).0@) by {
                            let j = choose|j: int| 0 <= j < before.len() && before[j]@ == st[a].1@[e2].0@;
                            assert(keys@[j] == before[j]);
                        }
                        assert forall|e2: int| 0 <= e2 < e implies has_key(keys@, (#[trigger] st[i as int].1@[e2]).0@) by {
                            let j = choose|j: int| 0 <= j < before.len() && before[j]@ == st[i as int].1@[e2].0@;
                            assert(keys@[j] == before[j]);
                        }
                        assert(forall|a: int, b: int| 0 <= a < b < before.len() ==> keys@[a] == before[a] && keys@[b] == before[b]);
                    },
                }
                assert(has_key(keys@, st[i as int].1@[e as int].0@));
                e = e + 1;
            }
            assert forall|a: int, e2: int|
                0 <= a < i + 1 && 0 <= e2 < st[a].1@.len() implies has_key(keys@, (#[trigger] st[a].1@[e2]).0@) by {
            }
            i = i + 1;
        }
        let n = keys.len();
        let mut adj: Vec<Vec<(usize, L)>> = Vec::new();
        let mut i: usize = 0;
        while i < n
            invariant
                m == st.len(),
                st == self.stores@,
                n == keys@.len(),
                m <= n,
                i <= n,
                adj@.len() == i,
                forall|k: int| 0 <= k < m ==> #[trigger] keys@[k]@ == st[k].0@,
                forall|a: int, b: int| 0 <= a < b < keys@.len() ==> keys@[a]@ != keys@[b]@,
                forall|a: int, e: int|
                    0 <= a < m && 0 <= e < st[a].1@.len() ==> has_key(keys@, (#[trigger] st[a].1@[e]).0@),
                forall|a: int|
                    0 <= a < i ==> if a < m {
                        adj@[a]@.len() == st[a].1@.len()
                    } else {
                        adj@[a]@.len() == 0
                    },
                forall|a: int, e: int|
                    0 <= a < i && a < m && 0 <= e < adj@[a]@.len() ==> (#[trigger] adj@[a]@[e]).0
                        < n && keys@[adj@[a]@[e].0 as int]@ == st[a].1@[e].0@ && adj@[a]@[e].1
                        == st[a].1@[e].1,
            decreases n - i,
        {
            let mut row: Vec<(usize, L)> = Vec::new();
            if i < m {
                let mut e: usize = 0;
                while e < self.stores[i].1.len()
                    invariant
                        m == st.len(),
                        st == self.stores@,
                        n == keys@.len(),
                        i < m,
                        e <= st[i as int].1@.len(),
                        row@.len() == e,
                        forall|a: int, e2: int|
                            0 <= a < m && 0 <= e2 < st[a].1@.len() ==> has_key(keys@, (#[trigger] st[a].1@[e2]).0@),
                        forall|e2: int|
                            0 <= e2 < e ==> (#[trigger] row@[e2]).0 < n && keys@[row@[e2].0 as int]@
                                == st[i as int].1@[e2].0@ && row@[e2].1 == st[i as int].1@[e2].1,
                    decreases st[i as int].1@.len() - e,
                {
                    let d = chars_of(self.stores[i].1[e].0.as_str());
                    let loc = self.stores[i].1[e].1;
                    assert(has_key(keys@, st[i as int].1@[e as int].0@));
                    match find_key(&keys, &d) {
                        Some(j) => {
                            row.push((j, loc));
                        },
                        None => {
                            proof {
                                let j = choose|j: int| 0 <= j < keys@.len() && keys@[j]@ == st[i as int].1@[e as int].0@;
                                assert(keys@[j]@ != d@);
                            }
                            row.push((0, loc));
                        },
                    }
                    e = e + 1;
                }
            }
            adj.push(row);
            i = i + 1;
        }
        let mut labels: Vec<Vec<char>> = Vec::new();
        let mut i: usize = 0;
        while i < n
            invariant
                n == keys@.len(),
                i <= n,
                labels@.len() == i,
                unique_keys(self.store_names@),
                forall|k: int| 0 <= k < i ==> #[trigger] labels@[k]@ == name_of(self.name_map(), keys@[k]@),
            decreases n - i,
        {
            proof {
                lemma_names_map(self.store_names@);
            }
            let kc = copy_key(&keys[i]);
            let label: Option<Vec<char>> = match find_name(&self.store_names, &kc) {
                Some(t) => {
                    assert(self.name_map()[keys@[i as int]@] == self.store_names@[t as int].1@);
                    Some(chars_of(self.store_names[t].1.as_str()))
                },
                None => None,
            };
            match label {
                Some(l) => {
                    labels.push(l);
                },
                None => {
                    assert(!self.name_map().contains_key(keys@[i as int]@));
                    labels.push(copy_key(&keys[i]));
                },
            }
            i = i + 1;
        }
        proof {
            let ks = keys@;
            let ad = adj@;
            assert forall|a: int, b: int, loc: L|
                #![trigger ix_edge(ad, a, b, loc)]
                #![trigger store_edge(g, ks[a]@, ks[b]@, loc)]
                0 <= a < ks.len() && 0 <= b < ks.len() implies (ix_edge(ad, a, b, loc)
                <==> store_edge(g, ks[a]@, ks[b]@, loc)) by {
                if a < m {
                    assert(g.contains_key(ks[a]@));
                    assert(g[ks[a]@] == edges_view(st[a].1@));
                    if ix_edge(ad, a, b, loc) {
                        let e = choose|e: int| 0 <= e < ad[a]@.len() && ad[a]@[e] == (b as usize, loc);
                        assert(g[ks[a]@][e] == (ks[b]@, loc));
                    }
                    if store_edge(g, ks[a]@, ks[b]@, loc) {
                        let e = choose|e: int| 0 <= e < g[ks[a]@].len() && g[ks[a]@][e] == (ks[b]@, loc);
                        let j = ad[a]@[e].0 as int;
                        assert(ks[j]@ == ks[b]@);
                        assert(j == b);
                        assert(ad[a]@[e] == (b as usize, loc));
                    }
                } else {
                    assert forall|k: int| 0 <= k < st.len() implies st[k].0@ != ks[a]@ by {
                        assert(ks[k]@ == st[k].0@);
                    }
                    assert(!g.contains_key(ks[a]@));
                }
            }
            assert forall|x: Seq<char>, y: Seq<char>, loc: L|
                #[trigger] store_edge(g, x, y, loc) implies (exists|i: int|
                    0 <= i < ks.len() && ks[i]@ == x) && (exists|j: int|
                    0 <= j < ks.len() && ks[j]@ == y) by {
                let a = choose|a: int| 0 <= a < st.len() && st[a].0@ == x;
                assert(ks[a]@ == x);
                assert(g[x] == edges_view(st[a].1@));
                let e = choose|e: int| 0 <= e < g[x].len() && g[x][e] == (y, loc);
                assert(st[a].1@[e].0@ == y);
            }
        }
        (keys, labels, adj)
    }

    /// The cycles of stores, each reported once, by where the store that
    /// closes it happens and by the names along it (`a → b → a`). A cycle
    /// is found by a depth-first search from each node in turn; which of
    /// the cycles through the same nodes is reported, and in what order,
    /// follows the order of the nodes and edges.
    pub fn emit_cycle_errors(&self) -> (r: Vec<(L, String)>)
        requires
            self.wf(),
        ensures
            reports_cycles(self.store_map(), self.name_map(), report_texts(r@)),
            r@.len() == 0 <==> !has_store_cycle(self.store_map()),
    {
        let ghost g = self.store_map();
        let ghost names = self.name_map();
        let (keys, labels, adj) = self.index_graph();
        let n = keys.len();
        let mut color: Vec<u8> = Vec::new();
        let mut k: usize = 0;
        while k < n
            invariant
                k <= n,
                color@.len() == k,
                forall|j: int| 0 <= j < k ==> color@[j] == 0,
            decreases n - k,
        {
            color.push(0);
            k = k + 1;
        }
        let mut st = CycleSearch {
            color,
            stack: Vec::new(),
            reported: Vec::new(),
            errors: Vec::new(),
            cycles: Ghost(Seq::empty()),
            finish: Ghost(Seq::new(n as nat, |j: int| 0int)),
            clock: Ghost(0int),
        };
        let mut i: usize = 0;
        while i < n
            invariant
                n == keys@.len(),
                represents(keys@, labels@, adj@, g, names),
                search_inv(st, keys@, adj@, g, names),
                st.stack@.len() == 0,
                i <= n,
                forall|j: int| 0 <= j < i ==> #[trigger] st.color@[j] == 2,
            decreases n - i,
        {
            if st.color[i] == 0 {
                dfs_cycles(&keys, &labels, &adj, i, &mut st, Ghost(g), Ghost(names));
            } else {
                assert(st.color@[i as int] == 1 ==> st.stack@.contains(i));
            }
            i = i + 1;
        }
        proof {
            let r = report_texts(st.errors@);
            assert(reported_as(g, names, r, st.cycles@)) by {
                assert forall|x: int| 0 <= x < r.len() implies is_store_cycle(
                    g,
                    #[trigger] st.cycles@[x],
                    r[x].0,
                ) && r[x].1 == cycle_text(names, st.cycles@[x]) by {
                    assert(r[x] == (st.errors@[x].0, st.errors@[x].1@));
                }
                assert forall|a: int, b: int| 0 <= a < b < r.len() implies cycle_key(
                    #[trigger] st.cycles@[a],
                ) != cycle_key(#[trigger] st.cycles@[b]) by {
                    assert(st.reported@[a]@ != st.reported@[b]@);
                }
            }
            if st.errors@.len() == 0 {
                lemma_finish_order_acyclic(keys@, labels@, adj@, g, names, st.finish@);
            } else {
                assert(is_store_cycle(g, st.cycles@[0], st.errors@[0].0));
            }
        }
        st.errors
    }

    fn position_of_key(stores: &Vec<(String, Vec<(String, L)>)>, key: &str) -> (r: Option<usize>)
        ensures
            match r {
                Some(i) => i < stores@.len() && stores@[i as int].0@ == key@,
                None => forall|i: int| 0 <= i < stores@.len() ==> stores@[i].0@ != key@,
            },
    {
        let mut i: usize = 0;
        while i < stores.len()
            invariant
                i <= stores@.len(),
                forall|j: int| 0 <= j < i ==> stores@[j].0@ != key@,
            decreases stores.len() - i,
        {
            if str_eq(stores[i].0.as_str(), key) {
                return Some(i);
            }
            i = i + 1;
        }
        None
    }
}

/// `a` stores `b`, at `loc`.
pub open spec fn store_edge<L>(
    g: Map<Seq<char>, Seq<(Seq<char>, L)>>,
    a: Seq<char>,
    b: Seq<char>,
    loc: L,
) -> bool {
    g.contains_key(a) && exists|e: int| 0 <= e < g[a].len() && g[a][e] == (b, loc)
}

/// `a` stores `b` somewhere.
pub open spec fn stores_some<L>(g: Map<Seq<char>, Seq<(Seq<char>, L)>>, a: Seq<char>, b: Seq<char>) -> bool {
    exists|loc: L| store_edge(g, a, b, loc)
}

/// `cycle` (one node or more) is a cycle of stores: each node stores the
/// next, and the last stores the first, at `loc`.
pub open spec fn is_store_cycle<L>(
    g: Map<Seq<char>, Seq<(Seq<char>, L)>>,
    cycle: Seq<Seq<char>>,
    loc: L,
) -> bool {
    &&& cycle.len() > 0
    &&& forall|k: int| 0 <= k < cycle.len() - 1 ==> #[trigger] stores_some(g, cycle[k], cycle[k + 1])
    &&& store_edge(g, cycle.last(), cycle[0], loc)
}

/// Some objects may store one another in a cycle.
pub open spec fn has_store_cycle<L>(g: Map<Seq<char>, Seq<(Seq<char>, L)>>) -> bool {
    exists|cycle: Seq<Seq<char>>, loc: L| is_store_cycle(g, cycle, loc)
}

/// The variable name of the node `k`, or the key itself if it has none.
pub open spec fn name_of(names: Map<Seq<char>, Seq<char>>, k: Seq<char>) -> Seq<char> {
    if names.contains_key(k) {
        names[k]
    } else {
        k
    }
}

/// How a cycle is reported: the names along it, back to the first, joined
/// by arrows.
pub open spec fn cycle_text(names: Map<Seq<char>, Seq<char>>, cycle: Seq<Seq<char>>) -> Seq<char> {
    join_texts(
        cycle.map_values(|k: Seq<char>| name_of(names, k)).push(name_of(names, cycle[0])),
        " → "@,
    )
}

/// What tells cycles apart: their node keys, sorted and joined by `|`, so
/// that a cycle entered at another node is the same cycle.
pub open spec fn cycle_key(cycle: Seq<Seq<char>>) -> Seq<char> {
    join_texts(cycle.sort_by(text_order()), "|"@)
}

/// `cycles` are the cycles that the entries `r` report: each entry's is a
/// cycle of stores, closed at the entry's location and named by the
/// entry's text, and no two are the same cycle.
pub open spec fn reported_as<L>(
    g: Map<Seq<char>, Seq<(Seq<char>, L)>>,
    names: Map<Seq<char>, Seq<char>>,
    r: Seq<(L, Seq<char>)>,
    cycles: Seq<Seq<Seq<char>>>,
) -> bool {
    &&& cycles.len() == r.len()
    &&& forall|i: int|
        0 <= i < r.len() ==> is_store_cycle(g, #[trigger] cycles[i], r[i].0) && r[i].1
            == cycle_text(names, cycles[i])
    &&& forall|i: int, j: int|
        0 <= i < j < r.len() ==> cycle_key(#[trigger] cycles[i]) != cycle_key(#[trigger] cycles[j])
}

/// The entries `r` report cycles of stores, each a different one.
pub open spec fn reports_cycles<L>(
    g: Map<Seq<char>, Seq<(Seq<char>, L)>>,
    names: Map<Seq<char>, Seq<char>>,
    r: Seq<(L, Seq<char>)>,
) -> bool {
    exists|cycles: Seq<Seq<Seq<char>>>| #[trigger] reported_as(g, names, r, cycles)
}

/// The texts of reported entries.
pub open spec fn report_texts<L>(r: Seq<(L, String)>) -> Seq<(L, Seq<char>)> {
    r.map_values(|e: (L, String)| (e.0, e.1@))
}

/// An edge `i -> j` at `loc` of the graph of node indices `adj`.
pub open spec fn ix_edge<L>(adj: Seq<Vec<(usize, L)>>, i: int, j: int, loc: L) -> bool {
    0 <= i < adj.len() && exists|e: int| 0 <= e < adj[i]@.len() && adj[i]@[e] == (j as usize, loc)
}

/// The node keys `keys`, their `labels` and the adjacency lists `adj`
/// (by index) stand for the stores `g` with the names `names`.
pub open spec fn represents<L>(
    keys: Seq<Vec<char>>,
    labels: Seq<Vec<char>>,
    adj: Seq<Vec<(usize, L)>>,
    g: Map<Seq<char>, Seq<(Seq<char>, L)>>,
    names: Map<Seq<char>, Seq<char>>,
) -> bool {
    &&& keys.len() == labels.len() == adj.len()
    &&& forall|i: int, j: int| 0 <= i < j < keys.len() ==> keys[i]@ != keys[j]@
    &&& forall|i: int, e: int|
        0 <= i < adj.len() && 0 <= e < adj[i]@.len() ==> (#[trigger] adj[i]@[e]).0 < keys.len()
    &&& forall|i: int, j: int, loc: L|
        #![trigger ix_edge(adj, i, j, loc)]
        #![trigger store_edge(g, keys[i]@, keys[j]@, loc)]
        0 <= i < keys.len() && 0 <= j < keys.len() ==> (ix_edge(adj, i, j, loc) <==> store_edge(
            g,
            keys[i]@,
            keys[j]@,
            loc,
        ))
    &&& forall|a: Seq<char>, b: Seq<char>, loc: L|
        #[trigger] store_edge(g, a, b, loc) ==> (exists|i: int|
            0 <= i < keys.len() && keys[i]@ == a) && (exists|j: int|
            0 <= j < keys.len() && keys[j]@ == b)
    &&& forall|i: int| 0 <= i < keys.len() ==> #[trigger] labels[i]@ == name_of(names, keys[i]@)
}

fn find_key(keys: &Vec<Vec<char>>, key: &Vec<char>) -> (r: Option<usize>)
    ensures
        match r {
            Some(i) => i < keys@.len() && keys@[i as int]@ == key@,
            None => forall|i: int| 0 <= i < keys@.len() ==> keys@[i]@ != key@,
        },
{
    let mut i: usize = 0;
    while i < keys.len()
        invariant
            i <= keys@.len(),
            forall|j: int| 0 <= j < i ==> keys@[j]@ != key@,
        decreases keys.len() - i,
    {
        if chars_eq(&keys[i], key) {
            return Some(i);
        }
        i = i + 1;
    }
    None
}

/// Some node has the key `k`.
pub open spec fn has_key(keys: Seq<Vec<char>>, k: Seq<char>) -> bool {
    exists|j: int| 0 <= j < keys.len() && keys[j]@ == k
}

fn find_name(names: &Vec<(String, String)>, key: &Vec<char>) -> (r: Option<usize>)
    ensures
        match r {
            Some(t) => t < names@.len() && names@[t as int].0@ == key@,
            None => forall|t: int| 0 <= t < names@.len() ==> names@[t].0@ != key@,
        },
{
    let mut t: usize = 0;
    while t < names.len()
        invariant
            t <= names@.len(),
            forall|q: int| 0 <= q < t ==> names@[q].0@ != key@,
        decreases names.len() - t,
    {
        let kc = chars_of(names[t].0.as_str());
        if chars_eq(&kc, key) {
            return Some(t);
        }
        t = t + 1;
    }
    None
}

fn copy_key(v: &Vec<char>) -> (r: Vec<char>)
    ensures
        r@ == v@,
{
    let mut r: Vec<char> = Vec::new();
    let mut i: usize = 0;
    while i < v.len()
        invariant
            i <= v@.len(),
            r@ == v@.subrange(0, i as int),
        decreases v.len() - i,
    {
        r.push(v[i]);
        i = i + 1;
        assert(r@ =~= v@.subrange(0, i as int));
    }
    assert(v@.subrange(0, v@.len() as int) =~= v@);
    r
}

fn chars_eq(a: &Vec<char>, b: &Vec<char>) -> (r: bool)
    ensures
        r == (a@ == b@),
{
    if a.len() != b.len() {
        return false;
    }
    let mut i: usize = 0;
    while i < a.len()
        invariant
            a@.len() == b@.len(),
            i <= a@.len(),
            forall|j: int| 0 <= j < i ==> a@[j] == b@[j],
        decreases a.len() - i,
    {
        if a[i] != b[i] {
            return false;
        }
        i = i + 1;
    }
    assert(a@ =~= b@);
    true
}

/// The keys of the nodes at the indices `idx`.
pub open spec fn key_cycle(keys: Seq<Vec<char>>, idx: Seq<usize>) -> Seq<Seq<char>> {
    idx.map_values(|i: usize| keys[i as int]@)
}

/// The number of white (unvisited) nodes.
spec fn white_count(c: Seq<u8>) -> nat
    decreases c.len(),
{
    if c.len() == 0 {
        0
    } else {
        white_count(c.drop_last()) + (if c.last() == 0 {
            1nat
        } else {
            0nat
        })
    }
}

/// Fewer whites when no node turned white and one turned from white.
proof fn lemma_white_count(c1: Seq<u8>, c2: Seq<u8>)
    requires
        c1.len() == c2.len(),
        forall|i: int| 0 <= i < c2.len() && c2[i] == 0 ==> c1[i] == 0,
    ensures
        white_count(c2) <= white_count(c1),
        (exists|k: int| 0 <= k < c1.len() && c1[k] == 0 && c2[k] != 0) ==> white_count(c2)
            < white_count(c1),
    decreases c1.len(),
{
    if c1.len() > 0 {
        let p1 = c1.drop_last();
        let p2 = c2.drop_last();
        assert forall|i: int| 0 <= i < p2.len() && p2[i] == 0 implies p1[i] == 0 by {
            assert(c2[i] == p2[i] && c1[i] == p1[i]);
        }
        lemma_white_count(p1, p2);
        if exists|k: int| 0 <= k < c1.len() && c1[k] == 0 && c2[k] != 0 {
            let k = choose|k: int| 0 <= k < c1.len() && c1[k] == 0 && c2[k] != 0;
            if k < p1.len() {
                assert(p1[k] == 0 && p2[k] != 0);
            }
        }
    }
}

pub(crate) fn join_chars(parts: &Vec<Vec<char>>, sep: &Vec<char>) -> (r: Vec<char>)
    ensures
        r@ == join_texts(texts_of(parts@), sep@),
{
    let mut out: Vec<char> = Vec::new();
    let mut i: usize = 0;
    while i < parts.len()
        invariant
            i <= parts@.len(),
            out@ == join_texts(texts_of(parts@).subrange(0, i as int), sep@),
        decreases parts.len() - i,
    {
        let ghost before = out@;
        if i > 0 {
            append_chars(&mut out, sep);
        }
        append_chars(&mut out, &parts[i]);
        proof {
            let t = texts_of(parts@);
            let sub = t.subrange(0, i + 1);
            assert(sub.drop_last() =~= t.subrange(0, i as int));
            assert(sub.last() == parts@[i as int]@);
            if i == 0 {
                assert(out@ =~= parts@[0]@);
            } else {
                assert(out@ =~= before + sep@ + parts@[i as int]@);
            }
        }
        i = i + 1;
    }
    assert(texts_of(parts@).subrange(0, parts@.len() as int) =~= texts_of(parts@));
    out
}

/// The cycle closed by an edge back to `dest`: where it starts on the
/// stack, its key, and its text; `None` when `dest` is not on the stack.
fn cycle_from_stack(
    stack: &Vec<usize>,
    keys: &Vec<Vec<char>>,
    labels: &Vec<Vec<char>>,
    dest: usize,
    Ghost(names): Ghost<Map<Seq<char>, Seq<char>>>,
) -> (r: Option<(usize, Vec<char>, String)>)
    requires
        keys@.len() == labels@.len(),
        (dest as int) < keys@.len(),
        forall|k: int| 0 <= k < stack@.len() ==> (#[trigger] stack@[k] as int) < keys@.len(),
        forall|i: int| 0 <= i < keys@.len() ==> #[trigger] labels@[i]@ == name_of(names, keys@[i]@),
    ensures
        r is None <==> !stack@.contains(dest),
        r matches Some(t) ==> {
            &&& t.0 < stack@.len()
            &&& stack@[t.0 as int] == dest
            &&& forall|k: int| 0 <= k < t.0 ==> stack@[k] != dest
            &&& t.1@ == cycle_key(key_cycle(keys@, stack@.subrange(t.0 as int, stack@.len() as int)))
            &&& t.2@ == cycle_text(
                names,
                key_cycle(keys@, stack@.subrange(t.0 as int, stack@.len() as int)),
            )
        },
{
    let mut start: usize = 0;
    while start < stack.len() && stack[start] != dest
        invariant
            start <= stack@.len(),
            forall|k: int| 0 <= k < start ==> stack@[k] != dest,
        decreases stack.len() - start,
    {
        start = start + 1;
    }
    if start == stack.len() {
        proof {
            if stack@.contains(dest) {
                let k = choose|k: int| 0 <= k < stack@.len() && stack@[k] == dest;
                assert(stack@[k] != dest);
            }
        }
        return None;
    }
    assert(stack@[start as int] == dest);
    let ghost idx = stack@.subrange(start as int, stack@.len() as int);
    let ghost cyc = key_cycle(keys@, idx);
    let mut node_keys: Vec<Vec<char>> = Vec::new();
    let mut node_names: Vec<Vec<char>> = Vec::new();
    let mut k: usize = start;
    while k < stack.len()
        invariant
            start < stack@.len(),
            start <= k <= stack@.len(),
            idx == stack@.subrange(start as int, stack@.len() as int),
            cyc == key_cycle(keys@, idx),
            keys@.len() == labels@.len(),
            forall|q: int| 0 <= q < stack@.len() ==> (#[trigger] stack@[q] as int) < keys@.len(),
            forall|i: int| 0 <= i < keys@.len() ==> #[trigger] labels@[i]@ == name_of(names, keys@[i]@),
            texts_of(node_keys@) == cyc.subrange(0, k - start),
            texts_of(node_names@) == cyc.subrange(0, k - start).map_values(
                |t: Seq<char>| name_of(names, t),
            ),
        decreases stack.len() - k,
    {
        let ix = stack[k];
        let ghost kk = node_keys@;
        let ghost nn = node_names@;
        node_keys.push(copy_key(&keys[ix]));
        node_names.push(copy_key(&labels[ix]));
        assert(cyc[k - start] == keys@[ix as int]@);
        assert(labels@[ix as int]@ == name_of(names, keys@[ix as int]@));
        assert(texts_of(node_keys@) =~= cyc.subrange(0, k + 1 - start));
        assert(texts_of(node_names@) =~= texts_of(nn).push(labels@[ix as int]@));
        assert(texts_of(node_names@) =~= cyc.subrange(0, k + 1 - start).map_values(
            |t: Seq<char>| name_of(names, t),
        ));
        k = k + 1;
    }
    assert(cyc.subrange(0, cyc.len() as int) =~= cyc);
    let ghost before = node_names@;
    node_names.push(copy_key(&labels[dest]));
    assert(cyc[0] == keys@[dest as int]@);
    assert(texts_of(node_names@) =~= cyc.map_values(|t: Seq<char>| name_of(names, t)).push(
        name_of(names, cyc[0]),
    ));
    let sorted = sort_texts(&node_keys);
    let key = join_chars(&sorted, &chars_of("|"));
    let text = join_chars(&node_names, &chars_of(" → "));
    Some((start, key, string_of(&text)))
}

/// The state of the search for cycles: the color of each node (white
/// unvisited, gray on the path being explored, black done), the path, the
/// keys of the cycles reported and the reports; with, for the proof, the
/// cycles reported, when each black node was finished, and the clock.
struct CycleSearch<L> {
    color: Vec<u8>,
    stack: Vec<usize>,
    reported: Vec<Vec<char>>,
    errors: Vec<(L, String)>,
    cycles: Ghost<Seq<Seq<Seq<char>>>>,
    finish: Ghost<Seq<int>>,
    clock: Ghost<int>,
}

spec fn search_inv<L>(
    st: CycleSearch<L>,
    keys: Seq<Vec<char>>,
    adj: Seq<Vec<(usize, L)>>,
    g: Map<Seq<char>, Seq<(Seq<char>, L)>>,
    names: Map<Seq<char>, Seq<char>>,
) -> bool {
    let n = keys.len();
    &&& st.color@.len() == n
    &&& st.finish@.len() == n
    &&& forall|i: int| 0 <= i < n ==> #[trigger] st.color@[i] <= 2
    &&& forall|k: int| 0 <= k < st.stack@.len() ==> (#[trigger] st.stack@[k] as int) < n
    &&& forall|i: int| 0 <= i < n ==> (#[trigger] st.color@[i] == 1 <==> st.stack@.contains(i as usize))
    &&& forall|k: int|
        0 <= k < st.stack@.len() - 1 ==> #[trigger] stores_some(
            g,
            keys[st.stack@[k] as int]@,
            keys[st.stack@[k + 1] as int]@,
        )
    &&& st.errors@.len() == st.reported@.len()
    &&& st.errors@.len() == st.cycles@.len()
    &&& forall|e: int|
        0 <= e < st.errors@.len() ==> is_store_cycle(g, #[trigger] st.cycles@[e], st.errors@[e].0)
            && st.errors@[e].1@ == cycle_text(names, st.cycles@[e]) && st.reported@[e]@ == cycle_key(
            st.cycles@[e],
        )
    &&& forall|a: int, b: int|
        0 <= a < b < st.reported@.len() ==> #[trigger] st.reported@[a]@ != #[trigger] st.reported@[b]@
    &&& forall|i: int| 0 <= i < n && #[trigger] st.color@[i] == 2 ==> st.finish@[i] < st.clock@
    &&& st.errors@.len() == 0 ==> forall|a: int, b: int, loc: L|
        0 <= a < n && 0 <= b < n && st.color@[a] == 2 && #[trigger] ix_edge(adj, a, b, loc)
            ==> st.color@[b] == 2 && st.finish@[b] < st.finish@[a]
}

/// Explores from `node`: every edge to a node on the path closes a cycle,
/// reported unless the same cycle was reported before.
fn dfs_cycles<L: Copy>(
    keys: &Vec<Vec<char>>,
    labels: &Vec<Vec<char>>,
    adj: &Vec<Vec<(usize, L)>>,
    node: usize,
    st: &mut CycleSearch<L>,
    Ghost(g): Ghost<Map<Seq<char>, Seq<(Seq<char>, L)>>>,
    Ghost(names): Ghost<Map<Seq<char>, Seq<char>>>,
)
    requires
        represents(keys@, labels@, adj@, g, names),
        search_inv(*old(st), keys@, adj@, g, names),
        (node as int) < keys@.len(),
        old(st).color@[node as int] == 0,
        old(st).stack@.len() > 0 ==> stores_some(
            g,
            keys@[old(st).stack@.last() as int]@,
            keys@[node as int]@,
        ),
    ensures
        search_inv(*final(st), keys@, adj@, g, names),
        final(st).color@[node as int] == 2,
        final(st).stack@ == old(st).stack@,
        forall|i: int|
            0 <= i < keys@.len() && #[trigger] final(st).color@[i] == 0 ==> old(st).color@[i] == 0,
        forall|i: int|
            0 <= i < keys@.len() && #[trigger] old(st).color@[i] == 2 ==> final(st).color@[i] == 2
                && final(st).finish@[i] == old(st).finish@[i],
        final(st).errors@.len() >= old(st).errors@.len(),
        final(st).clock@ >= old(st).clock@,
    decreases white_count(st.color@),
{
    let n_exec = keys.len();
    let ghost n = keys@.len();
    assert(n == n_exec);
    let ghost entry = st.color@;
    let ghost old_stack = st.stack@;
    let ghost old_finish = st.finish@;
    let ghost old_errors = st.errors@.len();
    let ghost old_clock = st.clock@;
    st.color.set(node, 1);
    st.stack.push(node);
    proof {
        assert(!old_stack.contains(node));
        assert forall|i: int| 0 <= i < n implies (#[trigger] st.color@[i] == 1 <==> st.stack@.contains(
            i as usize,
        )) by {
            if i != node {
                if old_stack.contains(i as usize) {
                    let k = choose|k: int| 0 <= k < old_stack.len() && old_stack[k] == i as usize;
                    assert(st.stack@[k] == i as usize);
                }
                if st.stack@.contains(i as usize) {
                    let k = choose|k: int| 0 <= k < st.stack@.len() && st.stack@[k] == i as usize;
                    if k == old_stack.len() {
                        assert(st.stack@[k] == node);
                        assert((i as usize) != node);
                    }
                    assert(old_stack[k] == i as usize);
                }
            } else {
                assert(st.stack@[old_stack.len() as int] == node);
            }
        }
        assert forall|k: int| 0 <= k < st.stack@.len() - 1 implies #[trigger] stores_some(
            g,
            keys@[st.stack@[k] as int]@,
            keys@[st.stack@[k + 1] as int]@,
        ) by {
            if k + 1 < old_stack.len() {
                assert(st.stack@[k] == old_stack[k] && st.stack@[k + 1] == old_stack[k + 1]);
                assert(stores_some(g, keys@[old_stack[k] as int]@, keys@[old_stack[k + 1] as int]@));
            } else {
                assert(st.stack@[k + 1] == node);
                assert(st.stack@[k] == old_stack.last());
            }
        }
    }
    let mut e: usize = 0;
    while e < adj[node].len()
        invariant
            represents(keys@, labels@, adj@, g, names),
            search_inv(*st, keys@, adj@, g, names),
            n == keys@.len(),
            (node as int) < n,
            entry == old(st).color@,
            entry.len() == n,
            old_finish.len() == n,
            entry[node as int] == 0,
            st.color@[node as int] == 1,
            st.stack@ == old_stack.push(node),
            e <= adj@[node as int]@.len(),
            forall|i: int| 0 <= i < n && #[trigger] st.color@[i] == 0 ==> entry[i] == 0,
            forall|i: int|
                0 <= i < n && #[trigger] entry[i] == 2 ==> st.color@[i] == 2 && st.finish@[i]
                    == old_finish[i],
            st.errors@.len() >= old_errors,
            st.clock@ >= old_clock,
            st.errors@.len() == 0 ==> forall|e2: int|
                0 <= e2 < e ==> st.color@[(#[trigger] adj@[node as int]@[e2]).0 as int] == 2
                    && st.finish@[adj@[node as int]@[e2].0 as int] < st.clock@,
        decreases adj@[node as int]@.len() - e,
    {
        let (dest, loc) = adj[node][e];
        assert(adj@[node as int]@[e as int] == (dest, loc));
        assert((dest as int) < n);
        assert(ix_edge(adj@, node as int, dest as int, loc));
        assert(store_edge(g, keys@[node as int]@, keys@[dest as int]@, loc));
        if st.color[dest] == 1 {
            let found = cycle_from_stack(&st.stack, keys, labels, dest, Ghost(names));
            let Some((start, key, text)) = found else {
                proof {
                    assert(st.stack@.contains(dest));
                }
                return unreached();
            };
            let ghost cyc = key_cycle(keys@, st.stack@.subrange(start as int, st.stack@.len() as int));
            proof {
                let sk = st.stack@;
                assert(cyc.len() == sk.len() - start);
                assert forall|q: int| 0 <= q < cyc.len() - 1 implies #[trigger] stores_some(
                    g,
                    cyc[q],
                    cyc[q + 1],
                ) by {
                    assert(cyc[q] == keys@[sk[start + q] as int]@);
                    assert(cyc[q + 1] == keys@[sk[start + q + 1] as int]@);
                    assert(stores_some(g, keys@[sk[start + q] as int]@, keys@[sk[start + q + 1] as int]@));
                }
                assert(cyc.last() == keys@[node as int]@);
                assert(cyc[0] == keys@[dest as int]@);
                assert(is_store_cycle(g, cyc, loc));
            }
            match find_key(&st.reported, &key) {
                None => {
                    let ghost before = *st;
                    st.reported.push(key);
                    st.errors.push((loc, text));
                    st.cycles = Ghost(st.cycles@.push(cyc));
                    proof {
                        assert forall|x: int|
                            0 <= x < st.errors@.len() implies is_store_cycle(
                            g,
                            #[trigger] st.cycles@[x],
                            st.errors@[x].0,
                        ) && st.errors@[x].1@ == cycle_text(names, st.cycles@[x]) && st.reported@[x]@
                            == cycle_key(st.cycles@[x]) by {
                            if x < before.errors@.len() {
                                assert(st.cycles@[x] == before.cycles@[x]);
                                assert(st.errors@[x] == before.errors@[x]);
                                assert(st.reported@[x] == before.reported@[x]);
                            }
                        }
                        assert forall|a: int, b: int|
                            0 <= a < b < st.reported@.len() implies #[trigger] st.reported@[a]@
                            != #[trigger] st.reported@[b]@ by {
                            if b < before.reported@.len() {
                                assert(st.reported@[a] == before.reported@[a]);
                                assert(st.reported@[b] == before.reported@[b]);
                            } else {
                                assert(st.reported@[a] == before.reported@[a]);
                            }
                        }
                    }
                },
                Some(_) => {},
            }
        } else if st.color[dest] == 0 {
            proof {
                assert(entry[node as int] == 0 && st.color@[node as int] != 0);
                lemma_white_count(entry, st.color@);
                assert(white_count(st.color@) < white_count(entry));
            }
            dfs_cycles(keys, labels, adj, dest, st, Ghost(g), Ghost(names));
        }
        e = e + 1;
    }
    let ghost before = *st;
    st.stack.pop();
    st.color.set(node, 2);
    st.finish = Ghost(st.finish@.update(node as int, st.clock@));
    st.clock = Ghost(st.clock@ + 1);
    proof {
        assert(st.stack@ =~= old_stack);
        assert forall|i: int| 0 <= i < n implies (#[trigger] st.color@[i] == 1 <==> st.stack@.contains(
            i as usize,
        )) by {
            if i != node {
                assert(st.color@[i] == before.color@[i]);
                if before.stack@.contains(i as usize) {
                    let k = choose|k: int| 0 <= k < before.stack@.len() && before.stack@[k] == i as usize;
                    if k == old_stack.len() {
                        assert(before.stack@[k] == node);
                        assert((i as usize) != node);
                    }
                    assert(old_stack[k] == i as usize);
                }
                if st.stack@.contains(i as usize) {
                    let k = choose|k: int| 0 <= k < st.stack@.len() && st.stack@[k] == i as usize;
                    assert(before.stack@[k] == i as usize);
                }
            }
        }
        if st.errors@.len() == 0 {
            assert forall|a: int, b: int, loc: L|
                0 <= a < n && 0 <= b < n && st.color@[a] == 2 && #[trigger] ix_edge(adj@, a, b, loc)
                    implies st.color@[b] == 2 && st.finish@[b] < st.finish@[a] by {
                if a == node {
                    let x = choose|x: int| 0 <= x < adj@[a]@.len() && adj@[a]@[x] == (b as usize, loc);
                    assert(adj@[node as int]@[x].0 == b as usize);
                    assert(before.color@[b] == 2);
                    assert(b != node);
                } else {
                    assert(before.color@[a] == 2);
                    assert(before.color@[b] == 2);
                    assert(b != node);
                }
            }
        }
    }
}

/// Along edges that always go to a node finished earlier, a path's nodes
/// are finished ever earlier.
proof fn lemma_path_finishes_earlier<L>(
    keys: Seq<Vec<char>>,
    labels: Seq<Vec<char>>,
    adj: Seq<Vec<(usize, L)>>,
    g: Map<Seq<char>, Seq<(Seq<char>, L)>>,
    names: Map<Seq<char>, Seq<char>>,
    finish: Seq<int>,
    cyc: Seq<Seq<char>>,
    idx: Seq<int>,
    q: int,
)
    requires
        represents(keys, labels, adj, g, names),
        forall|a: int, b: int, l: L|
            0 <= a < keys.len() && 0 <= b < keys.len() && #[trigger] ix_edge(adj, a, b, l) ==> finish[b]
                < finish[a],
        idx.len() == cyc.len(),
        forall|k: int| 0 <= k < idx.len() ==> 0 <= #[trigger] idx[k] < keys.len() && keys[idx[k]]@ == cyc[k],
        forall|k: int| 0 <= k < cyc.len() - 1 ==> #[trigger] stores_some(g, cyc[k], cyc[k + 1]),
        0 <= q < cyc.len(),
    ensures
        finish[idx[q]] <= finish[idx[0]] - q,
    decreases q,
{
    if q > 0 {
        lemma_path_finishes_earlier(keys, labels, adj, g, names, finish, cyc, idx, q - 1);
        let p = q - 1;
        assert(stores_some(g, cyc[p], cyc[p + 1]));
        assert(p + 1 == q);
        let l = choose|l: L| #[trigger] store_edge(g, cyc[q - 1], cyc[q], l);
        assert(store_edge(g, keys[idx[q - 1]]@, keys[idx[q]]@, l));
        assert(ix_edge(adj, idx[q - 1], idx[q], l));
    }
}

/// When every edge goes to a node finished earlier, there is no cycle.
proof fn lemma_finish_order_acyclic<L>(
    keys: Seq<Vec<char>>,
    labels: Seq<Vec<char>>,
    adj: Seq<Vec<(usize, L)>>,
    g: Map<Seq<char>, Seq<(Seq<char>, L)>>,
    names: Map<Seq<char>, Seq<char>>,
    finish: Seq<int>,
)
    requires
        represents(keys, labels, adj, g, names),
        forall|a: int, b: int, l: L|
            0 <= a < keys.len() && 0 <= b < keys.len() && #[trigger] ix_edge(adj, a, b, l) ==> finish[b]
                < finish[a],
    ensures
        !has_store_cycle(g),
{
    if has_store_cycle(g) {
        let (cyc, loc) = choose|cyc: Seq<Seq<char>>, loc: L| is_store_cycle(g, cyc, loc);
        assert forall|k: int| 0 <= k < cyc.len() implies has_key(keys, #[trigger] cyc[k]) by {
            if k < cyc.len() - 1 {
                assert(stores_some(g, cyc[k], cyc[k + 1]));
                let l = choose|l: L| #[trigger] store_edge(g, cyc[k], cyc[k + 1], l);
                assert(store_edge(g, cyc[k], cyc[k + 1], l));
            } else {
                assert(store_edge(g, cyc.last(), cyc[0], loc));
            }
        }
        let idx = Seq::new(cyc.len(), |k: int| choose|j: int| 0 <= j < keys.len() && keys[j]@ == cyc[k]);
        assert forall|k: int| 0 <= k < idx.len() implies 0 <= #[trigger] idx[k] < keys.len() && keys[idx[k]]@
            == cyc[k] by {
            assert(has_key(keys, cyc[k]));
        }
        let last = cyc.len() - 1;
        lemma_path_finishes_earlier(keys, labels, adj, g, names, finish, cyc, idx, last);
        assert(store_edge(g, keys[idx[last]]@, keys[idx[0]]@, loc));
        assert(ix_edge(adj, idx[last], idx[0], loc));
    }
}

} // verus!
