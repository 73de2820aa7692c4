//! Maps and sets keyed by text, held as vectors of distinct keys in
//! insertion order.

use vstd::prelude::*;

use crate::args::str_eq;

verus! {

/// No key occurs twice among the entries `s`.
pub open spec fn distinct_keys<V>(s: Seq<(String, V)>) -> bool {
    forall|i: int, j: int| 0 <= i < j < s.len() ==> s[i].0@ != s[j].0@
}

/// The map that the entries `s` make.
pub open spec fn text_map<V>(s: Seq<(String, V)>) -> Map<Seq<char>, V>
    decreases s.len(),
{
    if s.len() == 0 {
        Map::empty()
    } else {
        text_map(s.drop_last()).insert(s.last().0@, s.last().1)
    }
}

/// With distinct keys, the map holds exactly the keys of the entries, each
/// with its entry's value.
pub proof fn lemma_text_map<V>(s: Seq<(String, V)>)
    requires
        distinct_keys(s),
    ensures
        forall|k: Seq<char>|
            #[trigger] text_map(s).contains_key(k) <==> exists|i: int|
                0 <= i < s.len() && s[i].0@ == k,
        forall|i: int| 0 <= i < s.len() ==> #[trigger] text_map(s)[s[i].0@] == s[i].1,
    decreases s.len(),
{
    if s.len() > 0 {
        let p = s.drop_last();
        let last = s.last();
        assert(distinct_keys(p));
        lemma_text_map(p);
        assert(text_map(s) == text_map(p).insert(last.0@, last.1));
        assert forall|k: Seq<char>|
            #[trigger] text_map(s).contains_key(k) implies exists|i: int|
                0 <= i < s.len() && s[i].0@ == k by {
            if k == last.0@ {
                assert(s[s.len() - 1].0@ == k);
            } else {
                assert(text_map(p).contains_key(k));
                let i = choose|i: int| 0 <= i < p.len() && p[i].0@ == k;
                assert(s[i] == p[i]);
            }
        }
        assert forall|k: Seq<char>|
            (exists|i: int| 0 <= i < s.len() && s[i].0@ == k) implies #[trigger] text_map(
            s,
        ).contains_key(k) by {
            let i = choose|i: int| 0 <= i < s.len() && s[i].0@ == k;
            if i < p.len() {
                assert(p[i] == s[i]);
                assert(text_map(p).contains_key(k));
            }
        }
        assert forall|i: int| 0 <= i < s.len() implies #[trigger] text_map(s)[s[i].0@] == s[i].1 by {
            if i < p.len() {
                assert(p[i] == s[i]);
                assert(s[i].0@ != last.0@);
                assert(text_map(p)[p[i].0@] == p[i].1);
            }
        }
    }
}

/// Where the key `key` stands among the entries `s`.
pub fn find_entry<V>(s: &Vec<(String, V)>, key: &str) -> (r: Option<usize>)
    ensures
        match r {
            Some(i) => i < s@.len() && s@[i as int].0@ == key@,
            None => forall|i: int| 0 <= i < s@.len() ==> s@[i].0@ != key@,
        },
{
    let mut i: usize = 0;
    while i < s.len()
        invariant
            i <= s@.len(),
            forall|j: int| 0 <= j < i ==> s@[j].0@ != key@,
        decreases s.len() - i,
    {
        if str_eq(s[i].0.as_str(), key) {
            return Some(i);
        }
        i = i + 1;
    }
    None
}

/// Maps `key` to `value`, in place of its old value if it had one.
pub fn set_entry<V>(s: &mut Vec<(String, V)>, key: String, value: V)
    requires
        distinct_keys(old(s)@),
    ensures
        distinct_keys(final(s)@),
        text_map(final(s)@) == text_map(old(s)@).insert(key@, value),
{
    let ghost old_s = s@;
    proof {
        lemma_text_map(old_s);
    }
    match find_entry(s, key.as_str()) {
        Some(i) => {
            let ghost k = key@;
            let ghost v = value;
            s.set(i, (key, value));
            proof {
                let t = s@;
                assert forall|a: int, b: int| 0 <= a < b < t.len() implies t[a].0@ != t[b].0@ by {
                    assert(t[a].0@ == old_s[a].0@);
                    assert(t[b].0@ == old_s[b].0@);
                }
                lemma_text_map(t);
                let expected = text_map(old_s).insert(k, v);
                assert forall|x: Seq<char>| text_map(t).contains_key(x) <==> expected.contains_key(
                    x,
                ) by {
                    if text_map(old_s).contains_key(x) {
                        let j = choose|j: int| 0 <= j < old_s.len() && old_s[j].0@ == x;
                        assert(t[j].0@ == x);
                    }
                    if text_map(t).contains_key(x) {
                        let j = choose|j: int| 0 <= j < t.len() && t[j].0@ == x;
                        assert(old_s[j].0@ == x);
                    }
                }
                assert forall|x: Seq<char>| #[trigger]
                    text_map(t).contains_key(x) implies text_map(t)[x] == expected[x] by {
                    let j = choose|j: int| 0 <= j < t.len() && t[j].0@ == x;
                    if j != i {
                        assert(t[j] == old_s[j]);
                    }
                }
                assert(text_map(t) =~= expected);
            }
        },
        None => {
            s.push((key, value));
            proof {
                assert(s@.drop_last() =~= old_s);
            }
        },
    }
}

/// The texts of a vector of strings, as a set.
pub open spec fn text_set(s: Seq<String>) -> Set<Seq<char>> {
    Set::new(|k: Seq<char>| exists|i: int| 0 <= i < s.len() && s[i]@ == k)
}

/// Whether the text `k` is among `s`.
pub fn set_contains(s: &Vec<String>, k: &str) -> (r: bool)
    ensures
        r == text_set(s@).contains(k@),
{
    let mut i: usize = 0;
    while i < s.len()
        invariant
            i <= s@.len(),
            forall|j: int| 0 <= j < i ==> s@[j]@ != k@,
        decreases s.len() - i,
    {
        if str_eq(s[i].as_str(), k) {
            return true;
        }
        i = i + 1;
    }
    false
}

/// Adds the text `k` to `s`, unless it is there already.
pub fn set_insert(s: &mut Vec<String>, k: String)
    ensures
        text_set(final(s)@) == text_set(old(s)@).insert(k@),
{
    if !set_contains(s, k.as_str()) {
        let ghost old_s = s@;
        s.push(k);
        proof {
            assert forall|x: Seq<char>| text_set(s@).contains(x) <==> text_set(old_s).insert(
                k@,
            ).contains(x) by {
                if text_set(old_s).contains(x) {
                    let j = choose|j: int| 0 <= j < old_s.len() && old_s[j]@ == x;
                    assert(s@[j]@ == x);
                }
                if text_set(s@).contains(x) && x != k@ {
                    let j = choose|j: int| 0 <= j < s@.len() && s@[j]@ == x;
                    assert(j < old_s.len());
                    assert(old_s[j]@ == x);
                }
                if x == k@ {
                    assert(s@[old_s.len() as int]@ == x);
                }
            }
            assert(text_set(s@) =~= text_set(old_s).insert(k@));
        }
    } else {
        assert(text_set(s@) =~= text_set(s@).insert(k@));
    }
}

/// Removes every copy of the text `k` from `s`.
pub fn set_remove(s: &mut Vec<String>, k: &str)
    ensures
        text_set(final(s)@) == text_set(old(s)@).remove(k@),
{
    let ghost old_s = s@;
    let mut kept: Vec<String> = Vec::new();
    let mut i: usize = 0;
    while i < s.len()
        invariant
            s@ == old_s,
            i <= s@.len(),
            forall|x: Seq<char>|
                text_set(kept@).contains(x) <==> (x != k@ && exists|j: int|
                    0 <= j < i && old_s[j]@ == x),
        decreases s.len() - i,
    {
        if !str_eq(s[i].as_str(), k) {
            let ghost before = kept@;
            kept.push(s[i].clone());
            proof {
                assert forall|x: Seq<char>| text_set(kept@).contains(x) <==> (x != k@ && exists|j: int|
                    0 <= j < i + 1 && old_s[j]@ == x) by {
                    if text_set(kept@).contains(x) {
                        let q = choose|q: int| 0 <= q < kept@.len() && kept@[q]@ == x;
                        if q < before.len() {
                            assert(before[q] == kept@[q]);
                            assert(text_set(before).contains(x));
                        } else {
                            assert(old_s[i as int]@ == x);
                        }
                    }
                    if x != k@ && exists|j: int| 0 <= j < i + 1 && old_s[j]@ == x {
                        let j = choose|j: int| 0 <= j < i + 1 && old_s[j]@ == x;
                        if j < i {
                            assert(text_set(before).contains(x));
                            let q = choose|q: int| 0 <= q < before.len() && before[q]@ == x;
                            assert(kept@[q] == before[q]);
                        } else {
                            assert(kept@[before.len() as int]@ == x);
                        }
                    }
                }
            }
        } else {
            proof {
                assert forall|x: Seq<char>| text_set(kept@).contains(x) <==> (x != k@ && exists|j: int|
                    0 <= j < i + 1 && old_s[j]@ == x) by {
                    if x != k@ && exists|j: int| 0 <= j < i + 1 && old_s[j]@ == x {
                        let j = choose|j: int| 0 <= j < i + 1 && old_s[j]@ == x;
                        assert(j != i);
                    }
                }
            }
        }
        i = i + 1;
    }
    *s = kept;
    assert(text_set(s@) =~= text_set(old_s).remove(k@));
}

/// Takes the entry at `i` out.
pub fn take_entry<V>(s: &mut Vec<(String, V)>, i: usize) -> (r: (String, V))
    requires
        distinct_keys(old(s)@),
        i < old(s)@.len(),
    ensures
        r == old(s)@[i as int],
        distinct_keys(final(s)@),
        text_map(final(s)@) == text_map(old(s)@).remove(r.0@),
{
    let ghost old_s = s@;
    proof {
        lemma_text_map(old_s);
    }
    let r = s.remove(i);
    proof {
        let t = s@;
        assert forall|a: int, b: int| 0 <= a < b < t.len() implies t[a].0@ != t[b].0@ by {
            let a0 = if a < i { a } else { a + 1 };
            let b0 = if b < i { b } else { b + 1 };
            assert(t[a] == old_s[a0]);
            assert(t[b] == old_s[b0]);
        }
        lemma_text_map(t);
        let expected = text_map(old_s).remove(r.0@);
        assert forall|x: Seq<char>| text_map(t).contains_key(x) <==> expected.contains_key(x) by {
            if expected.contains_key(x) {
                let j = choose|j: int| 0 <= j < old_s.len() && old_s[j].0@ == x;
                assert(j != i);
                let j2 = if j < i { j } else { j - 1 };
                assert(t[j2] == old_s[j]);
            }
            if text_map(t).contains_key(x) {
                let j = choose|j: int| 0 <= j < t.len() && t[j].0@ == x;
                let j0 = if j < i { j } else { j + 1 };
                assert(old_s[j0] == t[j]);
                assert(old_s[j0].0@ != r.0@);
            }
        }
        assert forall|x: Seq<char>| #[trigger]
            text_map(t).contains_key(x) implies text_map(t)[x] == expected[x] by {
            let j = choose|j: int| 0 <= j < t.len() && t[j].0@ == x;
            let j0 = if j < i { j } else { j + 1 };
            assert(old_s[j0] == t[j]);
        }
        assert(text_map(t) =~= expected);
    }
    r
}

} // verus!
