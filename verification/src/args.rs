//! Arguments of a constant function call: positional ones first, then
//! keyword ones.

use vstd::prelude::*;

use crate::value::{
    lemma_view_fields, lemma_view_fields_ext, lemma_view_values, lemma_view_values_ext, view_fields,
    view_value, view_values, SpecValue, ValueObj,
};

verus! {

/// The arguments of a call: `pos_args` in order, then `kw_args` by name.
#[derive(Debug)]
pub struct ValueArgs {
    pub pos_args: Vec<ValueObj>,
    pub kw_args: Vec<(String, ValueObj)>,
}

/// The model of [`ValueArgs`].
pub struct SpecArgs {
    pub pos: Seq<SpecValue>,
    pub kw: Seq<(Seq<char>, SpecValue)>,
}

impl View for ValueArgs {
    type V = SpecArgs;

    open spec fn view(&self) -> SpecArgs {
        SpecArgs { pos: view_values(self.pos_args@), kw: view_fields(self.kw_args@) }
    }
}

/// The index of the first keyword argument named `key`.
pub open spec fn kw_position(kw: Seq<(Seq<char>, SpecValue)>, key: Seq<char>) -> Option<int>
    decreases kw.len(),
{
    if kw.len() == 0 {
        None
    } else if kw[0].0 == key {
        Some(0)
    } else {
        match kw_position(kw.drop_first(), key) {
            Some(i) => Some(i + 1),
            None => None,
        }
    }
}

/// The argument for the parameter `key`, and the arguments left after it is
/// taken: the first positional argument if there is one, else the keyword
/// argument named `key`.
pub open spec fn take_arg(a: SpecArgs, key: Seq<char>) -> (SpecArgs, Option<SpecValue>) {
    if a.pos.len() > 0 {
        (SpecArgs { pos: a.pos.drop_first(), kw: a.kw }, Some(a.pos[0]))
    } else {
        match kw_position(a.kw, key) {
            Some(i) => (SpecArgs { pos: a.pos, kw: a.kw.remove(i) }, Some(a.kw[i].1)),
            None => (a, None),
        }
    }
}

/// Whether `a` and `b` hold the same text.
pub fn str_eq(a: &str, b: &str) -> (r: bool)
    ensures
        r == (a@ == b@),
{
    let n = a.unicode_len();
    if n != b.unicode_len() {
        return false;
    }
    let mut i: usize = 0;
    while i < n
        invariant
            n == a@.len(),
            n == b@.len(),
            i <= n,
            forall|j: int| 0 <= j < i ==> a@[j] == b@[j],
        decreases n - i,
    {
        if a.get_char(i) != b.get_char(i) {
            return false;
        }
        i = i + 1;
    }
    assert(a@ =~= b@);
    true
}

/// `kw_position` finds the first keyword argument of the name, and only it.
pub proof fn lemma_kw_position(kw: Seq<(Seq<char>, SpecValue)>, key: Seq<char>)
    ensures
        match kw_position(kw, key) {
            Some(i) => 0 <= i < kw.len() && kw[i].0 == key && forall|j: int|
                0 <= j < i ==> kw[j].0 != key,
            None => forall|j: int| 0 <= j < kw.len() ==> kw[j].0 != key,
        },
    decreases kw.len(),
{
    if kw.len() > 0 {
        lemma_kw_position(kw.drop_first(), key);
        if kw[0].0 != key {
            assert forall|j: int| 0 < j < kw.len() implies kw[j].0 == kw.drop_first()[j - 1].0 by {}
        }
    }
}

impl ValueArgs {
    pub fn new(pos_args: Vec<ValueObj>, kw_args: Vec<(String, ValueObj)>) -> (r: ValueArgs)
        ensures
            r.pos_args == pos_args,
            r.kw_args == kw_args,
    {
        ValueArgs { pos_args, kw_args }
    }

    /// Positional arguments only.
    pub fn pos_only(pos_args: Vec<ValueObj>) -> (r: ValueArgs)
        ensures
            r.pos_args == pos_args,
            r.kw_args@.len() == 0,
    {
        ValueArgs { pos_args, kw_args: Vec::new() }
    }

    /// No arguments.
    pub fn empty() -> (r: ValueArgs)
        ensures
            r.pos_args@.len() == 0,
            r.kw_args@.len() == 0,
    {
        ValueArgs { pos_args: Vec::new(), kw_args: Vec::new() }
    }

    /// Whether no argument is left.
    pub fn is_empty(&self) -> (r: bool)
        ensures
            r == (self@.pos.len() == 0 && self@.kw.len() == 0),
    {
        proof {
            lemma_view_values(self.pos_args@);
            lemma_view_fields(self.kw_args@);
        }
        self.pos_args.len() == 0 && self.kw_args.len() == 0
    }

    /// Takes the argument for the parameter `key`: the leftmost positional
    /// argument if any is left, else the keyword argument named `key`.
    pub fn remove_left_or_key(&mut self, key: &str) -> (r: Option<ValueObj>)
        ensures
            (final(self)@, match r {
                Some(v) => Some(v@),
                None => None,
            }) == take_arg(old(self)@, key@),
    {
        proof {
            lemma_view_values(self.pos_args@);
            lemma_view_fields(self.kw_args@);
            lemma_kw_position(self@.kw, key@);
        }
        if self.pos_args.len() > 0 {
            let ghost old_pos = self.pos_args@;
            let v = self.pos_args.remove(0);
            proof {
                lemma_view_values(self.pos_args@);
                lemma_view_values_ext(self.pos_args@, view_values(old_pos).drop_first());
            }
            return Some(v);
        }
        let mut i: usize = 0;
        while i < self.kw_args.len()
            invariant
                i <= self.kw_args.len(),
                self@ == old(self)@,
                old(self)@.pos.len() == 0,
                view_fields(self.kw_args@).len() == self.kw_args@.len(),
                forall|j: int|
                    0 <= j < self.kw_args@.len() ==> #[trigger] view_fields(self.kw_args@)[j] == (
                        self.kw_args@[j].0@,
                        view_value(self.kw_args@[j].1),
                    ),
                forall|j: int| 0 <= j < i ==> self.kw_args@[j].0@ != key@,
            decreases self.kw_args.len() - i,
        {
            if str_eq(self.kw_args[i].0.as_str(), key) {
                let ghost old_kw = self.kw_args@;
                proof {
                    lemma_kw_position(self@.kw, key@);
                    assert(self@.kw[i as int].0 == key@);
                    if let Some(p) = kw_position(self@.kw, key@) {
                        if p < i {
                            assert(self@.kw[p].0 == self.kw_args@[p].0@);
                        }
                    }
                }
                assert(kw_position(old(self)@.kw, key@) == Some(i as int));
                let (_, v) = self.kw_args.remove(i);
                proof {
                    lemma_view_fields(self.kw_args@);
                    lemma_view_fields_ext(self.kw_args@, view_fields(old_kw).remove(i as int));
                    assert(self@.kw =~= old(self)@.kw.remove(i as int));
                    assert(self@.pos =~= old(self)@.pos);
                    assert(old(self)@.kw[i as int].1 == v@);
                }
                return Some(v);
            }
            i = i + 1;
        }
        proof {
            lemma_kw_position(self@.kw, key@);
        }
        None
    }
}

} // verus!
