//! Constant values that the compiler folds at compile time, and their
//! mathematical model.

use vstd::prelude::*;

verus! {

/// A constant value, as the constant evaluator sees it.
///
/// `Ratio(num, den)` is a fraction in lowest terms with `den > 0`.
/// Sets, dictionaries and records keep their entries in insertion order; a
/// set holds no element twice, a dictionary no key twice and a record no
/// field name twice (`well_formed_value`).
#[derive(Debug)]
pub enum ValueObj {
    Int(i64),
    Nat(u64),
    Bool(bool),
    Str(String),
    NoneObj,
    Ellipsis,
    Inf,
    NegInf,
    Ratio(i128, u128),
    List(Vec<ValueObj>),
    Tuple(Vec<ValueObj>),
    SetObj(Vec<ValueObj>),
    Dict(Vec<(ValueObj, ValueObj)>),
    Record(Vec<(String, ValueObj)>),
    DataClass { name: String, fields: Vec<(String, ValueObj)> },
}

/// The mathematical model of a [`ValueObj`]: texts are sequences of
/// characters and containers are sequences of models.
pub enum SpecValue {
    Int(i64),
    Nat(u64),
    Bool(bool),
    Str(Seq<char>),
    NoneObj,
    Ellipsis,
    Inf,
    NegInf,
    Ratio(i128, u128),
    List(Seq<SpecValue>),
    Tuple(Seq<SpecValue>),
    SetObj(Seq<SpecValue>),
    Dict(Seq<(SpecValue, SpecValue)>),
    Record(Seq<(Seq<char>, SpecValue)>),
    DataClass { name: Seq<char>, fields: Seq<(Seq<char>, SpecValue)> },
}

pub open spec fn view_value(v: ValueObj) -> SpecValue
    decreases v,
{
    match v {
        ValueObj::Int(i) => SpecValue::Int(i),
        ValueObj::Nat(n) => SpecValue::Nat(n),
        ValueObj::Bool(b) => SpecValue::Bool(b),
        ValueObj::Str(s) => SpecValue::Str(s@),
        ValueObj::NoneObj => SpecValue::NoneObj,
        ValueObj::Ellipsis => SpecValue::Ellipsis,
        ValueObj::Inf => SpecValue::Inf,
        ValueObj::NegInf => SpecValue::NegInf,
        ValueObj::Ratio(n, d) => SpecValue::Ratio(n, d),
        ValueObj::List(l) => SpecValue::List(view_values(l@)),
        ValueObj::Tuple(l) => SpecValue::Tuple(view_values(l@)),
        ValueObj::SetObj(l) => SpecValue::SetObj(view_values(l@)),
        ValueObj::Dict(d) => SpecValue::Dict(view_pairs(d@)),
        ValueObj::Record(r) => SpecValue::Record(view_fields(r@)),
        ValueObj::DataClass { name, fields } => SpecValue::DataClass {
            name: name@,
            fields: view_fields(fields@),
        },
    }
}

pub open spec fn view_values(s: Seq<ValueObj>) -> Seq<SpecValue>
    decreases s,
{
    if s.len() == 0 {
        Seq::empty()
    } else {
        view_values(s.drop_last()).push(view_value(s.last()))
    }
}

pub open spec fn view_pairs(s: Seq<(ValueObj, ValueObj)>) -> Seq<(SpecValue, SpecValue)>
    decreases s,
{
    if s.len() == 0 {
        Seq::empty()
    } else {
        view_pairs(s.drop_last()).push((view_value(s.last().0), view_value(s.last().1)))
    }
}

pub open spec fn view_fields(s: Seq<(String, ValueObj)>) -> Seq<(Seq<char>, SpecValue)>
    decreases s,
{
    if s.len() == 0 {
        Seq::empty()
    } else {
        view_fields(s.drop_last()).push((s.last().0@, view_value(s.last().1)))
    }
}

/// A value as constants hold them: a set holds no element twice, a
/// dictionary no key twice, a record (or data class) no field twice, and so
/// every value inside.
pub open spec fn well_formed_value(v: SpecValue) -> bool
    decreases v, 1nat,
{
    match v {
        SpecValue::List(l) => well_formed_values(l),
        SpecValue::Tuple(l) => well_formed_values(l),
        SpecValue::SetObj(l) => l.no_duplicates() && well_formed_values(l),
        SpecValue::Dict(d) => distinct_firsts(d) && well_formed_pairs(d),
        SpecValue::Record(r) => distinct_firsts(r) && well_formed_fields(r),
        SpecValue::DataClass { fields, .. } => distinct_firsts(fields) && well_formed_fields(fields),
        _ => true,
    }
}

/// No two entries of `s` share their first component.
pub open spec fn distinct_firsts<A, B>(s: Seq<(A, B)>) -> bool {
    forall|i: int, j: int| 0 <= i < j < s.len() ==> s[i].0 != s[j].0
}

pub open spec fn well_formed_values(s: Seq<SpecValue>) -> bool
    decreases s, 1nat,
{
    if s.len() == 0 {
        true
    } else {
        well_formed_values(s.subrange(0, s.len() - 1)) && well_formed_value(s[s.len() - 1])
    }
}

pub open spec fn well_formed_pairs(s: Seq<(SpecValue, SpecValue)>) -> bool
    decreases s, 1nat,
{
    if s.len() == 0 {
        true
    } else {
        well_formed_pairs(s.subrange(0, s.len() - 1)) && well_formed_value(s[s.len() - 1].0)
            && well_formed_value(s[s.len() - 1].1)
    }
}

pub open spec fn well_formed_fields(s: Seq<(Seq<char>, SpecValue)>) -> bool
    decreases s, 1nat,
{
    if s.len() == 0 {
        true
    } else {
        well_formed_fields(s.subrange(0, s.len() - 1)) && well_formed_value(s[s.len() - 1].1)
    }
}

/// The values `s` are well formed exactly when each is.
pub proof fn lemma_well_formed_values(s: Seq<SpecValue>)
    ensures
        well_formed_values(s) <==> forall|i: int| 0 <= i < s.len() ==> #[trigger] well_formed_value(s[i]),
    decreases s.len(),
{
    if s.len() > 0 {
        let p = s.subrange(0, s.len() - 1);
        lemma_well_formed_values(p);
        assert(well_formed_values(s) == (well_formed_values(p) && well_formed_value(s[s.len() - 1])));
        if well_formed_values(s) {
            assert forall|i: int| 0 <= i < s.len() implies #[trigger] well_formed_value(s[i]) by {
                if i < s.len() - 1 {
                    assert(p[i] == s[i]);
                }
            }
        }
        if forall|i: int| 0 <= i < s.len() ==> #[trigger] well_formed_value(s[i]) {
            assert forall|i: int| 0 <= i < p.len() implies #[trigger] well_formed_value(p[i]) by {
                assert(p[i] == s[i]);
                assert(well_formed_value(s[i]));
            }
            assert(well_formed_value(s[s.len() - 1]));
        }
    }
}

impl View for ValueObj {
    type V = SpecValue;

    open spec fn view(&self) -> SpecValue {
        view_value(*self)
    }
}

/// The models of a sequence of values, element by element.
pub proof fn lemma_view_values(s: Seq<ValueObj>)
    ensures
        view_values(s).len() == s.len(),
        forall|i: int| 0 <= i < s.len() ==> #[trigger] view_values(s)[i] == view_value(s[i]),
    decreases s.len(),
{
    if s.len() > 0 {
        lemma_view_values(s.drop_last());
    }
}

pub proof fn lemma_view_pairs(s: Seq<(ValueObj, ValueObj)>)
    ensures
        view_pairs(s).len() == s.len(),
        forall|i: int|
            0 <= i < s.len() ==> #[trigger] view_pairs(s)[i] == (
                view_value(s[i].0),
                view_value(s[i].1),
            ),
    decreases s.len(),
{
    if s.len() > 0 {
        lemma_view_pairs(s.drop_last());
    }
}

pub proof fn lemma_view_fields(s: Seq<(String, ValueObj)>)
    ensures
        view_fields(s).len() == s.len(),
        forall|i: int|
            0 <= i < s.len() ==> #[trigger] view_fields(s)[i] == (s[i].0@, view_value(s[i].1)),
    decreases s.len(),
{
    if s.len() > 0 {
        lemma_view_fields(s.drop_last());
    }
}

/// The model of a sequence of values is determined element by element.
pub proof fn lemma_view_values_ext(a: Seq<ValueObj>, b: Seq<SpecValue>)
    requires
        a.len() == b.len(),
        forall|i: int| 0 <= i < a.len() ==> view_value(#[trigger] a[i]) == b[i],
    ensures
        view_values(a) == b,
{
    lemma_view_values(a);
    assert(view_values(a) =~= b);
}

pub proof fn lemma_view_pairs_ext(a: Seq<(ValueObj, ValueObj)>, b: Seq<(SpecValue, SpecValue)>)
    requires
        a.len() == b.len(),
        forall|i: int|
            0 <= i < a.len() ==> (view_value(#[trigger] a[i].0), view_value(a[i].1)) == b[i],
    ensures
        view_pairs(a) == b,
{
    lemma_view_pairs(a);
    assert(view_pairs(a) =~= b);
}

pub proof fn lemma_view_fields_ext(a: Seq<(String, ValueObj)>, b: Seq<(Seq<char>, SpecValue)>)
    requires
        a.len() == b.len(),
        forall|i: int| 0 <= i < a.len() ==> (#[trigger] a[i].0@, view_value(a[i].1)) == b[i],
    ensures
        view_fields(a) == b,
{
    lemma_view_fields(a);
    assert(view_fields(a) =~= b);
}

fn copy_values(v: &ValueObj, l: &Vec<ValueObj>) -> (r: Vec<ValueObj>)
    requires
        decreases_to!(*v => *l),
    ensures
        view_values(r@) == view_values(l@),
    decreases v, 0nat,
{
    let mut r: Vec<ValueObj> = Vec::new();
    let mut i: usize = 0;
    while i < l.len()
        invariant
            decreases_to!(*v => *l),
            i <= l.len(),
            r@.len() == i,
            forall|j: int| 0 <= j < i ==> view_value(#[trigger] r@[j]) == view_value(l@[j]),
        decreases l.len() - i,
    {
        proof {
            assert(decreases_to!(*l => l@));
            assert(decreases_to!(l@ => l@[i as int]));
        }
        let c = l[i].copy_value();
        r.push(c);
        i = i + 1;
    }
    proof {
        lemma_view_values(l@);
        lemma_view_values_ext(r@, view_values(l@));
    }
    r
}

fn copy_pairs(v: &ValueObj, l: &Vec<(ValueObj, ValueObj)>) -> (r: Vec<(ValueObj, ValueObj)>)
    requires
        decreases_to!(*v => *l),
    ensures
        view_pairs(r@) == view_pairs(l@),
    decreases v, 0nat,
{
    let mut r: Vec<(ValueObj, ValueObj)> = Vec::new();
    let mut i: usize = 0;
    while i < l.len()
        invariant
            decreases_to!(*v => *l),
            i <= l.len(),
            r@.len() == i,
            forall|j: int|
                0 <= j < i ==> view_value(#[trigger] r@[j].0) == view_value(l@[j].0)
                    && view_value(r@[j].1) == view_value(l@[j].1),
        decreases l.len() - i,
    {
        proof {
            assert(decreases_to!(*l => l@));
            assert(decreases_to!(l@ => l@[i as int]));
            assert(decreases_to!(l@[i as int] => l@[i as int].0));
            assert(decreases_to!(l@[i as int] => l@[i as int].1));
        }
        let k = l[i].0.copy_value();
        let x = l[i].1.copy_value();
        r.push((k, x));
        i = i + 1;
    }
    proof {
        lemma_view_pairs(l@);
        lemma_view_pairs_ext(r@, view_pairs(l@));
    }
    r
}

fn copy_fields(v: &ValueObj, l: &Vec<(String, ValueObj)>) -> (r: Vec<(String, ValueObj)>)
    requires
        decreases_to!(*v => *l),
    ensures
        view_fields(r@) == view_fields(l@),
    decreases v, 0nat,
{
    let mut r: Vec<(String, ValueObj)> = Vec::new();
    let mut i: usize = 0;
    while i < l.len()
        invariant
            decreases_to!(*v => *l),
            i <= l.len(),
            r@.len() == i,
            forall|j: int|
                0 <= j < i ==> (#[trigger] r@[j].0)@ == l@[j].0@ && view_value(r@[j].1)
                    == view_value(l@[j].1),
        decreases l.len() - i,
    {
        proof {
            assert(decreases_to!(*l => l@));
            assert(decreases_to!(l@ => l@[i as int]));
            assert(decreases_to!(l@[i as int] => l@[i as int].1));
        }
        let k = l[i].0.clone();
        let x = l[i].1.copy_value();
        r.push((k, x));
        i = i + 1;
    }
    proof {
        lemma_view_fields(l@);
        lemma_view_fields_ext(r@, view_fields(l@));
    }
    r
}


fn values_eq(v: &ValueObj, a: &Vec<ValueObj>, b: &Vec<ValueObj>) -> (r: bool)
    requires
        decreases_to!(*v => *a),
    ensures
        r == (view_values(a@) == view_values(b@)),
    decreases v, 0nat,
{
    proof {
        lemma_view_values(a@);
        lemma_view_values(b@);
    }
    if a.len() != b.len() {
        return false;
    }
    let mut i: usize = 0;
    while i < a.len()
        invariant
            decreases_to!(*v => *a),
            a.len() == b.len(),
            i <= a.len(),
            view_values(a@).len() == a.len(),
            view_values(b@).len() == b.len(),
            forall|j: int| 0 <= j < a.len() ==> #[trigger] view_values(a@)[j] == view_value(a@[j]),
            forall|j: int| 0 <= j < b.len() ==> #[trigger] view_values(b@)[j] == view_value(b@[j]),
            forall|j: int| 0 <= j < i ==> view_value(#[trigger] a@[j]) == view_value(b@[j]),
        decreases a.len() - i,
    {
        proof {
            assert(decreases_to!(*a => a@));
            assert(decreases_to!(a@ => a@[i as int]));
        }
        if !a[i].equals(&b[i]) {
            assert(view_values(a@)[i as int] != view_values(b@)[i as int]);
            return false;
        }
        i = i + 1;
    }
    assert(view_values(a@) =~= view_values(b@));
    true
}

fn pairs_eq(v: &ValueObj, a: &Vec<(ValueObj, ValueObj)>, b: &Vec<(ValueObj, ValueObj)>) -> (r: bool)
    requires
        decreases_to!(*v => *a),
    ensures
        r == (view_pairs(a@) == view_pairs(b@)),
    decreases v, 0nat,
{
    proof {
        lemma_view_pairs(a@);
        lemma_view_pairs(b@);
    }
    if a.len() != b.len() {
        return false;
    }
    let mut i: usize = 0;
    while i < a.len()
        invariant
            decreases_to!(*v => *a),
            a.len() == b.len(),
            i <= a.len(),
            view_pairs(a@).len() == a.len(),
            view_pairs(b@).len() == b.len(),
            forall|j: int|
                0 <= j < a.len() ==> #[trigger] view_pairs(a@)[j] == (
                    view_value(a@[j].0),
                    view_value(a@[j].1),
                ),
            forall|j: int|
                0 <= j < b.len() ==> #[trigger] view_pairs(b@)[j] == (
                    view_value(b@[j].0),
                    view_value(b@[j].1),
                ),
            forall|j: int| 0 <= j < i ==> #[trigger] view_pairs(a@)[j] == view_pairs(b@)[j],
        decreases a.len() - i,
    {
        proof {
            assert(decreases_to!(*a => a@));
            assert(decreases_to!(a@ => a@[i as int]));
            assert(decreases_to!(a@[i as int] => a@[i as int].0));
            assert(decreases_to!(a@[i as int] => a@[i as int].1));
        }
        if !a[i].0.equals(&b[i].0) || !a[i].1.equals(&b[i].1) {
            assert(view_pairs(a@)[i as int] != view_pairs(b@)[i as int]);
            return false;
        }
        i = i + 1;
    }
    assert(view_pairs(a@) =~= view_pairs(b@));
    true
}

fn fields_eq(v: &ValueObj, a: &Vec<(String, ValueObj)>, b: &Vec<(String, ValueObj)>) -> (r: bool)
    requires
        decreases_to!(*v => *a),
    ensures
        r == (view_fields(a@) == view_fields(b@)),
    decreases v, 0nat,
{
    proof {
        lemma_view_fields(a@);
        lemma_view_fields(b@);
    }
    if a.len() != b.len() {
        return false;
    }
    let mut i: usize = 0;
    while i < a.len()
        invariant
            decreases_to!(*v => *a),
            a.len() == b.len(),
            i <= a.len(),
            view_fields(a@).len() == a.len(),
            view_fields(b@).len() == b.len(),
            forall|j: int|
                0 <= j < a.len() ==> #[trigger] view_fields(a@)[j] == (
                    a@[j].0@,
                    view_value(a@[j].1),
                ),
            forall|j: int|
                0 <= j < b.len() ==> #[trigger] view_fields(b@)[j] == (
                    b@[j].0@,
                    view_value(b@[j].1),
                ),
            forall|j: int| 0 <= j < i ==> #[trigger] view_fields(a@)[j] == view_fields(b@)[j],
        decreases a.len() - i,
    {
        proof {
            assert(decreases_to!(*a => a@));
            assert(decreases_to!(a@ => a@[i as int]));
            assert(decreases_to!(a@[i as int] => a@[i as int].1));
        }
        if a[i].0 != b[i].0 || !a[i].1.equals(&b[i].1) {
            assert(view_fields(a@)[i as int] != view_fields(b@)[i as int]);
            return false;
        }
        i = i + 1;
    }
    assert(view_fields(a@) =~= view_fields(b@));
    true
}

impl ValueObj {

    /// Whether `self` and `other` are the same value: same variant and equal
    /// contents, element by element.
    pub fn equals(&self, other: &ValueObj) -> (r: bool)
        ensures
            r == (self@ == other@),
        decreases self, 1nat,
    {
        match (self, other) {
            (ValueObj::Int(a), ValueObj::Int(b)) => *a == *b,
            (ValueObj::Nat(a), ValueObj::Nat(b)) => *a == *b,
            (ValueObj::Bool(a), ValueObj::Bool(b)) => *a == *b,
            (ValueObj::Str(a), ValueObj::Str(b)) => *a == *b,
            (ValueObj::NoneObj, ValueObj::NoneObj) => true,
            (ValueObj::Ellipsis, ValueObj::Ellipsis) => true,
            (ValueObj::Inf, ValueObj::Inf) => true,
            (ValueObj::NegInf, ValueObj::NegInf) => true,
            (ValueObj::Ratio(a, b), ValueObj::Ratio(c, d)) => *a == *c && *b == *d,
            (ValueObj::List(a), ValueObj::List(b)) => {
                proof {
                    assert(decreases_to!(*self => self->List_0));
                }
                values_eq(self, a, b)
            },
            (ValueObj::Tuple(a), ValueObj::Tuple(b)) => {
                proof {
                    assert(decreases_to!(*self => self->Tuple_0));
                }
                values_eq(self, a, b)
            },
            (ValueObj::SetObj(a), ValueObj::SetObj(b)) => {
                proof {
                    assert(decreases_to!(*self => self->SetObj_0));
                }
                values_eq(self, a, b)
            },
            (ValueObj::Dict(a), ValueObj::Dict(b)) => {
                proof {
                    assert(decreases_to!(*self => self->Dict_0));
                }
                pairs_eq(self, a, b)
            },
            (ValueObj::Record(a), ValueObj::Record(b)) => {
                proof {
                    assert(decreases_to!(*self => self->Record_0));
                }
                fields_eq(self, a, b)
            },
            (
                ValueObj::DataClass { name: n1, fields: f1 },
                ValueObj::DataClass { name: n2, fields: f2 },
            ) => {
                proof {
                    assert(decreases_to!(*self => self->fields));
                }
                *n1 == *n2 && fields_eq(self, f1, f2)
            },
            _ => false,
        }
    }

    /// A value with the same model as `self`.
    pub fn copy_value(&self) -> (r: ValueObj)
        ensures
            r@ == self@,
        decreases self, 1nat,
    {
        match self {
            ValueObj::Int(i) => ValueObj::Int(*i),
            ValueObj::Nat(n) => ValueObj::Nat(*n),
            ValueObj::Bool(b) => ValueObj::Bool(*b),
            ValueObj::Str(s) => ValueObj::Str(s.clone()),
            ValueObj::NoneObj => ValueObj::NoneObj,
            ValueObj::Ellipsis => ValueObj::Ellipsis,
            ValueObj::Inf => ValueObj::Inf,
            ValueObj::NegInf => ValueObj::NegInf,
            ValueObj::Ratio(n, d) => ValueObj::Ratio(*n, *d),
            ValueObj::List(l) => {
                proof {
                    assert(decreases_to!(*self => self->List_0));
                }
                ValueObj::List(copy_values(self, l))
            },
            ValueObj::Tuple(l) => {
                proof {
                    assert(decreases_to!(*self => self->Tuple_0));
                }
                ValueObj::Tuple(copy_values(self, l))
            },
            ValueObj::SetObj(l) => {
                proof {
                    assert(decreases_to!(*self => self->SetObj_0));
                }
                ValueObj::SetObj(copy_values(self, l))
            },
            ValueObj::Dict(d) => {
                proof {
                    assert(decreases_to!(*self => self->Dict_0));
                }
                ValueObj::Dict(copy_pairs(self, d))
            },
            ValueObj::Record(r) => {
                proof {
                    assert(decreases_to!(*self => self->Record_0));
                }
                ValueObj::Record(copy_fields(self, r))
            },
            ValueObj::DataClass { name, fields } => {
                proof {
                    assert(decreases_to!(*self => self->fields));
                }
                ValueObj::DataClass { name: name.clone(), fields: copy_fields(self, fields) }
            },
        }
    }
}

} // verus!
