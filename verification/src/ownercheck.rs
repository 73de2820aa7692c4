//! The ownership checker's bookkeeping: the paths of the scopes being
//! checked, which variables each has alive or moved, what closures capture,
//! and the rules by which a use of a variable moves it or is refused.

use vstd::prelude::*;

use crate::args::str_eq;
use crate::store_graph::{has_store_cycle, report_texts, reports_cycles, StoreGraph};
use crate::text::string_from;
use crate::textmap::{
    distinct_keys, find_entry, lemma_text_map, set_contains, set_entry, set_insert, set_remove,
    take_entry, text_map, text_set,
};

verus! {

/// A reference or a smart pointer around a value.
#[derive(Debug, Clone, Copy, PartialEq, Eq, Hash)]
pub enum WrapperKind {
    Ref,
    Rc,
    Box,
}

/// A scope on the path of the code being checked: the namespace it
/// defines, and whether it is public.
pub struct Scope {
    pub public: bool,
    pub namespace: String,
}

/// What the path of a scope reads of it: whether it is public, and its
/// namespace.
pub open spec fn scope_view(s: Scope) -> (bool, Seq<char>) {
    (s.public, s.namespace@)
}

/// The views of the scopes `s`.
pub open spec fn scope_views(s: Seq<Scope>) -> Seq<(bool, Seq<char>)> {
    s.map_values(|x: Scope| scope_view(x))
}

/// The path of the scopes `scopes`, outermost first: each namespace after
/// `.` when public and `::` when private.
pub open spec fn path_text(scopes: Seq<(bool, Seq<char>)>) -> Seq<char>
    decreases scopes.len(),
{
    if scopes.len() == 0 {
        Seq::empty()
    } else {
        path_text(scopes.drop_last()) + (if scopes.last().0 {
            "."@
        } else {
            "::"@
        }) + scopes.last().1
    }
}

/// The path of the outermost `k` scopes of `path`.
pub open spec fn prefix_path(path: Seq<(bool, Seq<char>)>, k: int) -> Seq<char> {
    path_text(path.subrange(0, k))
}

fn path_of(path_stack: &Vec<Scope>, count: usize) -> (r: String)
    requires
        count <= path_stack@.len(),
    ensures
        r@ == prefix_path(scope_views(path_stack@), count as int),
{
    let ghost views = scope_views(path_stack@);
    let mut r = String::new();
    let mut i: usize = 0;
    while i < count
        invariant
            i <= count <= path_stack@.len(),
            views == scope_views(path_stack@),
            r@ == path_text(views.subrange(0, i as int)),
        decreases count - i,
    {
        if path_stack[i].public {
            r.append(".");
        } else {
            r.append("::");
        }
        r.append(path_stack[i].namespace.as_str());
        assert(views.subrange(0, i + 1).drop_last() =~= views.subrange(0, i as int));
        assert(views.subrange(0, i + 1).last() == scope_view(path_stack@[i as int]));
        i = i + 1;
    }
    r
}

/// The path of the scope being checked.
pub fn full_path(path_stack: &Vec<Scope>) -> (r: String)
    ensures
        r@ == path_text(scope_views(path_stack@)),
{
    assert(scope_views(path_stack@).subrange(0, path_stack@.len() as int) =~= scope_views(
        path_stack@,
    ));
    path_of(path_stack, path_stack.len())
}

/// The path of the scope `n` entries above the one being checked (`0` is
/// that one itself).
pub fn nth_outer_path(path_stack: &Vec<Scope>, n: usize) -> (r: String)
    requires
        n <= path_stack@.len(),
    ensures
        r@ == prefix_path(scope_views(path_stack@), path_stack@.len() - n),
{
    path_of(path_stack, path_stack.len() - n)
}

/// The mutable scalar classes: a value of one of them holds no other
/// object.
pub open spec fn is_mutable_scalar(local_name: Seq<char>) -> bool {
    ||| local_name == "Int!"@
    ||| local_name == "Nat!"@
    ||| local_name == "Bool!"@
    ||| local_name == "Float!"@
    ||| local_name == "Ratio!"@
    ||| local_name == "Str!"@
    ||| local_name == "Complex!"@
}

/// A value of a type can take part in a cycle of references when the type
/// is mutable and can hold other objects: mutable, and no mutable scalar.
pub fn can_form_ref_cycle(is_mut: bool, local_name: &str) -> (r: bool)
    ensures
        r == (is_mut && !is_mutable_scalar(local_name@)),
{
    if !is_mut {
        return false;
    }
    !(str_eq(local_name, "Int!") || str_eq(local_name, "Nat!") || str_eq(local_name, "Bool!")
        || str_eq(local_name, "Float!") || str_eq(local_name, "Ratio!") || str_eq(
        local_name,
        "Str!",
    ) || str_eq(local_name, "Complex!"))
}

/// What a scope knows of its variables: those alive, and those moved out,
/// each with where it was moved.
pub struct VarsState<L> {
    pub alive: Set<Seq<char>>,
    pub dropped: Map<Seq<char>, L>,
}

/// A scope's variables before anything is defined in it.
pub open spec fn no_vars<L>() -> VarsState<L> {
    VarsState { alive: Set::empty(), dropped: Map::empty() }
}

/// The pairs of texts `s` (owner path and variable name of a capture).
pub open spec fn pairs_view(s: Seq<(String, String)>) -> Seq<(Seq<char>, Seq<char>)> {
    s.map_values(|p: (String, String)| (p.0@, p.1@))
}

/// The state of the ownership checker's scopes: the path of the scope
/// being checked; the variables of each scope, by its path; the depths of
/// the function-like scopes being checked; for each scope below the
/// outermost, the outer variables it has captured (with the path of the
/// scope that owns each); and, for each closure, the variables it
/// captures.
pub struct ScopeState<L> {
    pub path: Seq<(bool, Seq<char>)>,
    pub scopes: Map<Seq<char>, VarsState<L>>,
    pub fn_scopes: Seq<usize>,
    pub frames: Seq<Seq<(Seq<char>, Seq<char>)>>,
    pub captures: Map<Seq<char>, Seq<(Seq<char>, Seq<char>)>>,
}

impl<L> ScopeState<L> {
    /// Every scope on the path has its variables.
    pub open spec fn wf(self) -> bool {
        forall|k: int| 1 <= k <= self.path.len() ==> self.scopes.contains_key(#[trigger] prefix_path(self.path, k))
    }

    /// The path of the scope `n` entries above the current one.
    pub open spec fn outer_path(self, n: int) -> Seq<char> {
        prefix_path(self.path, self.path.len() - n)
    }

    /// The variables of the scope `n` entries above the current one.
    pub open spec fn outer(self, n: int) -> VarsState<L> {
        self.scopes[self.outer_path(n)]
    }

    /// `self` with the variables of the scope `n` entries up replaced.
    pub open spec fn with_outer(self, n: int, v: VarsState<L>) -> Self {
        ScopeState {
            path: self.path,
            scopes: self.scopes.insert(self.outer_path(n), v),
            fn_scopes: self.fn_scopes,
            frames: self.frames,
            captures: self.captures,
        }
    }
}

/// `define`: `name` (if the definition names one) is alive in the current
/// scope.
pub open spec fn spec_define<L>(s: ScopeState<L>, name: Option<Seq<char>>) -> ScopeState<L> {
    match name {
        Some(x) => s.with_outer(
            0,
            VarsState { alive: s.outer(0).alive.insert(x), dropped: s.outer(0).dropped },
        ),
        None => s,
    }
}

/// Entering the scope `name`: a fresh set of variables under its path, an
/// empty capture frame, and, for a function-like scope, its depth.
pub open spec fn spec_enter_scope<L>(
    s: ScopeState<L>,
    public: bool,
    name: Seq<char>,
    is_fn: bool,
) -> ScopeState<L> {
    let path = s.path.push((public, name));
    ScopeState {
        path,
        scopes: s.scopes.insert(path_text(path), no_vars()),
        fn_scopes: if is_fn {
            s.fn_scopes.push(path.len() as usize)
        } else {
            s.fn_scopes
        },
        frames: s.frames.push(Seq::empty()),
        captures: s.captures,
    }
}

/// Leaving the current scope: its depth (for a function-like one) and its
/// capture frame are dropped; the frame is what it captured.
pub open spec fn spec_leave_scope<L>(s: ScopeState<L>, is_fn: bool) -> (
    ScopeState<L>,
    Seq<(Seq<char>, Seq<char>)>,
) {
    (
        ScopeState {
            path: if s.path.len() > 0 {
                s.path.drop_last()
            } else {
                s.path
            },
            scopes: s.scopes,
            fn_scopes: if is_fn && s.fn_scopes.len() > 0 {
                s.fn_scopes.drop_last()
            } else {
                s.fn_scopes
            },
            frames: if s.frames.len() > 0 {
                s.frames.drop_last()
            } else {
                s.frames
            },
            captures: s.captures,
        },
        if s.frames.len() > 0 {
            s.frames.last()
        } else {
            Seq::empty()
        },
    )
}

/// `record_captures`: a closure that captured outer variables remembers
/// them under its key.
pub open spec fn spec_record_captures<L>(
    s: ScopeState<L>,
    key: Seq<char>,
    is_closure: bool,
    captured: Seq<(Seq<char>, Seq<char>)>,
) -> ScopeState<L> {
    if is_closure && captured.len() > 0 {
        ScopeState {
            path: s.path,
            scopes: s.scopes,
            fn_scopes: s.fn_scopes,
            frames: s.frames,
            captures: s.captures.insert(key, captured),
        }
    } else {
        s
    }
}

/// Leaving a definition's scope, and recording what it captured when it is
/// a closure (under `key`).
pub open spec fn spec_leave_def<L>(
    s: ScopeState<L>,
    is_subr: bool,
    key: Seq<char>,
    is_closure: bool,
) -> ScopeState<L> {
    let (t, captured) = spec_leave_scope(s, is_subr);
    spec_record_captures(t, key, is_closure, captured)
}

/// Checking module `name` starts in its scope, unless already there.
pub open spec fn spec_enter_module<L>(s: ScopeState<L>, name: Seq<char>) -> ScopeState<L> {
    if path_text(s.path) == "::"@ + name {
        s
    } else {
        let path = s.path.push((false, name));
        ScopeState {
            path,
            scopes: s.scopes.insert(path_text(path), no_vars()),
            fn_scopes: s.fn_scopes,
            frames: s.frames,
            captures: s.captures,
        }
    }
}

/// The innermost scope, at least `from` entries up, where `name` is alive.
pub open spec fn first_alive<L>(s: ScopeState<L>, name: Seq<char>, from: int) -> Option<int>
    decreases s.path.len() - from,
{
    if from < 0 || from >= s.path.len() {
        None
    } else if s.outer(from).alive.contains(name) {
        Some(from)
    } else {
        first_alive(s, name, from + 1)
    }
}

/// The innermost scope, at least `from` entries up, where `name` was moved
/// out, and where.
pub open spec fn first_dropped<L>(s: ScopeState<L>, name: Seq<char>, from: int) -> Option<L>
    decreases s.path.len() - from,
{
    if from < 0 || from >= s.path.len() {
        None
    } else if s.outer(from).dropped.contains_key(name) {
        Some(s.outer(from).dropped[name])
    } else {
        first_dropped(s, name, from + 1)
    }
}

/// The frame `f` holds a capture of `name`.
pub open spec fn frame_has(f: Seq<(Seq<char>, Seq<char>)>, name: Seq<char>) -> bool {
    exists|i: int| 0 <= i < f.len() && f[i].1 == name
}

/// `note_capture`: reading `name`, a variable of an enclosing scope, from
/// the current one makes every closure between that scope and here capture
/// it (once).
pub open spec fn spec_note_capture<L>(s: ScopeState<L>, name: Seq<char>) -> ScopeState<L> {
    if s.outer(0).alive.contains(name) {
        s
    } else {
        match first_alive(s, name, 1) {
            None => s,
            Some(n) => {
                let depth = s.path.len() - 1 - n;
                let owner = prefix_path(s.path, depth + 1);
                ScopeState {
                    path: s.path,
                    scopes: s.scopes,
                    fn_scopes: s.fn_scopes,
                    frames: Seq::new(
                        s.frames.len(),
                        |i: int|
                            if i >= depth && !frame_has(s.frames[i], name) {
                                s.frames[i].push((owner, name))
                            } else {
                                s.frames[i]
                            },
                    ),
                    captures: s.captures,
                }
            },
        }
    }
}

/// `drop`: using `name` takes it out of the innermost scope that has it
/// alive, which records where; but a closure's own body only captures a
/// variable of a scope outside the closure.
pub open spec fn spec_drop<L>(s: ScopeState<L>, name: Seq<char>, loc: L) -> ScopeState<L> {
    let innermost_fn: int = if s.fn_scopes.len() > 0 {
        s.fn_scopes.last() as int
    } else {
        0
    };
    let len = s.path.len() as int;
    match first_alive(s, name, 0) {
        Some(n) => if len == innermost_fn && len - n < innermost_fn {
            spec_note_capture(s, name)
        } else {
            s.with_outer(
                n,
                VarsState {
                    alive: s.outer(n).alive.remove(name),
                    dropped: s.outer(n).dropped.insert(name, loc),
                },
            )
        },
        None => s,
    }
}

/// The first of the captured variables `c` that was moved out of its
/// owner's scope, and where.
pub open spec fn first_moved_capture<L>(
    scopes: Map<Seq<char>, VarsState<L>>,
    c: Seq<(Seq<char>, Seq<char>)>,
) -> Option<(Seq<char>, L)>
    decreases c.len(),
{
    if c.len() == 0 {
        None
    } else if scopes.contains_key(c[0].0) && scopes[c[0].0].dropped.contains_key(c[0].1) {
        Some((c[0].1, scopes[c[0].0].dropped[c[0].1]))
    } else {
        first_moved_capture(scopes, c.drop_first())
    }
}

/// `check_captures_alive`: a closure is used; the first of its captured
/// variables that was moved, if any.
pub open spec fn spec_moved_capture<L>(s: ScopeState<L>, key: Seq<char>) -> Option<(Seq<char>, L)> {
    if s.captures.contains_key(key) {
        first_moved_capture(s.scopes, s.captures[key])
    } else {
        None
    }
}

/// A variable used after it was moved: its name, where it is used and
/// where it was moved.
#[derive(Debug)]
pub struct MoveError<L> {
    pub name: String,
    pub used_at: L,
    pub moved_at: L,
}

/// `check_acc` on a variable: a use of a moved variable, or of a closure
/// whose captured variable was moved, is an error; otherwise an owned use
/// of a mutable variable (but in a chunk) moves it, and another use of one
/// reads it, which a closure around may capture.
pub open spec fn spec_check_acc<L>(
    s: ScopeState<L>,
    name: Seq<char>,
    closure_key: Seq<char>,
    is_mut: bool,
    owned: bool,
    chunk: bool,
    loc: L,
) -> (ScopeState<L>, Option<(Seq<char>, L, L)>) {
    match first_dropped(s, name, 0) {
        Some(moved) => (s, Some((name, loc, moved))),
        None => match spec_moved_capture(s, closure_key) {
            Some((captured, moved)) => (s, Some((captured, loc, moved))),
            None => if is_mut && owned && !chunk {
                (spec_drop(s, name, loc), None)
            } else if is_mut {
                (spec_note_capture(s, name), None)
            } else {
                (s, None)
            },
        },
    }
}

/// The variables of one scope.
pub struct LocalVars<L> {
    alive_vars: Vec<String>,
    dropped_vars: Vec<(String, L)>,
}

impl<L> View for LocalVars<L> {
    type V = VarsState<L>;

    closed spec fn view(&self) -> VarsState<L> {
        VarsState { alive: text_set(self.alive_vars@), dropped: text_map(self.dropped_vars@) }
    }
}

impl<L: Copy> LocalVars<L> {
    pub closed spec fn wf(&self) -> bool {
        distinct_keys(self.dropped_vars@)
    }

    /// No variables yet.
    pub fn new() -> (r: Self)
        ensures
            r.wf(),
            r@ == no_vars::<L>(),
    {
        let r = LocalVars { alive_vars: Vec::new(), dropped_vars: Vec::new() };
        assert(text_set(r.alive_vars@) =~= Set::<Seq<char>>::empty());
        assert(text_map(r.dropped_vars@) =~= Map::<Seq<char>, L>::empty());
        r
    }

    fn is_alive(&self, name: &str) -> (r: bool)
        ensures
            r == self@.alive.contains(name@),
    {
        set_contains(&self.alive_vars, name)
    }

    fn moved_at(&self, name: &str) -> (r: Option<L>)
        requires
            self.wf(),
        ensures
            match r {
                Some(l) => self@.dropped.contains_key(name@) && self@.dropped[name@] == l,
                None => !self@.dropped.contains_key(name@),
            },
    {
        proof {
            lemma_text_map(self.dropped_vars@);
        }
        match find_entry(&self.dropped_vars, name) {
            Some(i) => Some(self.dropped_vars[i].1),
            None => None,
        }
    }

    fn make_alive(&mut self, name: String)
        requires
            old(self).wf(),
        ensures
            final(self).wf(),
            final(self)@ == (VarsState {
                alive: old(self)@.alive.insert(name@),
                dropped: old(self)@.dropped,
            }),
    {
        set_insert(&mut self.alive_vars, name);
    }

    fn move_out(&mut self, name: &str, loc: L)
        requires
            old(self).wf(),
        ensures
            final(self).wf(),
            final(self)@ == (VarsState {
                alive: old(self)@.alive.remove(name@),
                dropped: old(self)@.dropped.insert(name@, loc),
            }),
    {
        set_remove(&mut self.alive_vars, name);
        set_entry(&mut self.dropped_vars, string_from(name), loc);
    }
}

/// The ownership checker's bookkeeping: the scopes being checked and their
/// variables, what each closure captures, and which objects may store one
/// another.
pub struct OwnershipChecker<L> {
    path_stack: Vec<Scope>,
    dict: Vec<(String, LocalVars<L>)>,
    stores: StoreGraph<L>,
    captures: Vec<(String, Vec<(String, String)>)>,
    capture_frames: Vec<Vec<(String, String)>>,
    fn_scopes: Vec<usize>,
}

impl<L> View for OwnershipChecker<L> {
    type V = ScopeState<L>;

    closed spec fn view(&self) -> ScopeState<L> {
        ScopeState {
            path: scope_views(self.path_stack@),
            scopes: text_map(self.dict@).map_values(|v: LocalVars<L>| v@),
            fn_scopes: self.fn_scopes@,
            frames: self.capture_frames@.map_values(|f: Vec<(String, String)>| pairs_view(f@)),
            captures: text_map(self.captures@).map_values(
                |c: Vec<(String, String)>| pairs_view(c@),
            ),
        }
    }
}

impl<L: Copy> OwnershipChecker<L> {
    pub closed spec fn wf(&self) -> bool {
        &&& distinct_keys(self.dict@)
        &&& forall|k: Seq<char>| #[trigger]
            text_map(self.dict@).contains_key(k) ==> text_map(self.dict@)[k].wf()
        &&& distinct_keys(self.captures@)
        &&& self.stores.wf()
        &&& self@.wf()
    }

    /// The stores seen so far.
    pub closed spec fn store_map(&self) -> Map<Seq<char>, Seq<(Seq<char>, L)>> {
        self.stores.store_map()
    }

    /// The names of the objects seen to store or be stored.
    pub closed spec fn name_map(&self) -> Map<Seq<char>, Seq<char>> {
        self.stores.name_map()
    }

    /// Nothing checked yet.
    pub fn new() -> (r: Self)
        ensures
            r.wf(),
            r@ == (ScopeState::<L> {
                path: Seq::empty(),
                scopes: Map::empty(),
                fn_scopes: Seq::empty(),
                frames: Seq::empty(),
                captures: Map::empty(),
            }),
            r.store_map() == Map::<Seq<char>, Seq<(Seq<char>, L)>>::empty(),
            r.name_map() == Map::<Seq<char>, Seq<char>>::empty(),
    {
        let r = OwnershipChecker {
            path_stack: Vec::new(),
            dict: Vec::new(),
            stores: StoreGraph::new(),
            captures: Vec::new(),
            capture_frames: Vec::new(),
            fn_scopes: Vec::new(),
        };
        proof {
            assert(scope_views(r.path_stack@) =~= Seq::<(bool, Seq<char>)>::empty());
            assert(text_map(r.dict@).map_values(|v: LocalVars<L>| v@) =~= Map::<
                Seq<char>,
                VarsState<L>,
            >::empty());
            assert(r.capture_frames@.map_values(|f: Vec<(String, String)>| pairs_view(f@))
                =~= Seq::<Seq<(Seq<char>, Seq<char>)>>::empty());
            assert(text_map(r.captures@).map_values(|c: Vec<(String, String)>| pairs_view(c@))
                =~= Map::<Seq<char>, Seq<(Seq<char>, Seq<char>)>>::empty());
        }
        r
    }

    /// Where in `dict` the scope `n` entries up is.
    fn scope_index(&self, n: usize) -> (i: usize)
        requires
            self.wf(),
            n < self.path_stack@.len(),
        ensures
            i < self.dict@.len(),
            self.dict@[i as int].0@ == self@.outer_path(n as int),
            self.dict@[i as int].1@ == self@.outer(n as int),
            self.dict@[i as int].1.wf(),
    {
        let path = nth_outer_path(&self.path_stack, n);
        proof {
            lemma_text_map(self.dict@);
            let k = self.path_stack@.len() - n;
            assert(1 <= k <= self@.path.len());
            assert(self@.scopes.contains_key(prefix_path(self@.path, k)));
        }
        match find_entry(&self.dict, path.as_str()) {
            Some(i) => {
                proof {
                    assert(text_map(self.dict@)[self.dict@[i as int].0@] == self.dict@[i as int].1);
                }
                i
            },
            None => {
                proof {
                    assert(text_map(self.dict@).contains_key(path@));
                    let j = choose|j: int| 0 <= j < self.dict@.len() && self.dict@[j].0@ == path@;
                    assert(false);
                }
                0
            },
        }
    }

    /// Replaces the variables of the scope `n` entries up with `lv`.
    fn replace_scope(&mut self, n: usize, i: usize, lv: LocalVars<L>)
        requires
            old(self).wf(),
            n < old(self).path_stack@.len(),
            i < old(self).dict@.len(),
            old(self).dict@[i as int].0@ == old(self)@.outer_path(n as int),
            lv.wf(),
        ensures
            final(self).wf(),
            final(self)@ == old(self)@.with_outer(n as int, lv@),
            final(self).path_stack == old(self).path_stack,
            final(self).stores == old(self).stores,
    {
        let ghost old_map = text_map(self.dict@);
        let ghost key = self.dict@[i as int].0@;
        let ghost lvv = lv@;
        let (k, _) = take_entry(&mut self.dict, i);
        set_entry(&mut self.dict, k, lv);
        proof {
            let m = text_map(self.dict@);
            assert(m =~= old_map.insert(key, lv));
            assert forall|x: Seq<char>| #[trigger] m.contains_key(x) implies m[x].wf() by {
                if x != key {
                    assert(old_map.contains_key(x));
                }
            }
            assert(m.map_values(|v: LocalVars<L>| v@) =~= old_map.map_values(
                |v: LocalVars<L>| v@,
            ).insert(key, lvv));
            assert forall|j: int| 1 <= j <= self@.path.len() implies self@.scopes.contains_key(
                #[trigger] prefix_path(self@.path, j),
            ) by {
                assert(old_map.contains_key(prefix_path(self@.path, j)));
            }
        }
    }

    /// `define`: the definition's name (if it names one: a glob
    /// definition does not) is alive in the current scope.
    pub fn define(&mut self, name: Option<String>)
        requires
            old(self).wf(),
            old(self)@.path.len() > 0,
        ensures
            final(self).wf(),
            final(self)@ == spec_define(
                old(self)@,
                match name {
                    Some(x) => Some(x@),
                    None => None,
                },
            ),
            final(self).store_map() == old(self).store_map(),
            final(self).name_map() == old(self).name_map(),
    {
        match name {
            Some(x) => {
                let i = self.scope_index(0);
                let mut lv = LocalVars { alive_vars: Vec::new(), dropped_vars: Vec::new() };
                lv.alive_vars = copy_texts(&self.dict[i].1.alive_vars);
                lv.dropped_vars = copy_moves(&self.dict[i].1.dropped_vars);
                lv.make_alive(x);
                self.replace_scope(0, i, lv);
            },
            None => {},
        }
    }

    /// `define_param`: a parameter is alive in the current scope.
    pub fn define_param(&mut self, name: String)
        requires
            old(self).wf(),
            old(self)@.path.len() > 0,
        ensures
            final(self).wf(),
            final(self)@ == spec_define(old(self)@, Some(name@)),
            final(self).store_map() == old(self).store_map(),
            final(self).name_map() == old(self).name_map(),
    {
        self.define(Some(name));
    }

    /// Enters the scope `name`.
    fn enter_scope(&mut self, public: bool, name: String, is_fn: bool)
        requires
            old(self).wf(),
        ensures
            final(self).wf(),
            final(self)@ == spec_enter_scope(old(self)@, public, name@, is_fn),
            final(self).stores == old(self).stores,
    {
        let ghost old_view = self@;
        let ghost old_map = text_map(self.dict@);
        self.path_stack.push(Scope { public, namespace: name });
        self.capture_frames.push(Vec::new());
        if is_fn {
            let depth = self.path_stack.len();
            self.fn_scopes.push(depth);
        }
        let p = full_path(&self.path_stack);
        set_entry(&mut self.dict, p, LocalVars::new());
        proof {
            let path = old_view.path.push((public, name@));
            assert(scope_views(self.path_stack@) =~= path);
            let m = text_map(self.dict@);
            assert forall|x: Seq<char>| #[trigger] m.contains_key(x) implies m[x].wf() by {
                if x != p@ {
                    assert(old_map.contains_key(x));
                }
            }
            assert(m.map_values(|v: LocalVars<L>| v@) =~= old_view.scopes.insert(
                path_text(path),
                no_vars(),
            ));
            assert(pairs_view(self.capture_frames@.last()@) =~= Seq::<(Seq<char>, Seq<char>)>::empty());
            assert(self.capture_frames@.map_values(|f: Vec<(String, String)>| pairs_view(f@))
                =~= old_view.frames.push(Seq::empty()));
            assert forall|k: int| 1 <= k <= path.len() implies self@.scopes.contains_key(
                #[trigger] prefix_path(path, k),
            ) by {
                if k < path.len() {
                    assert(path.subrange(0, k) =~= old_view.path.subrange(0, k));
                    assert(old_view.scopes.contains_key(prefix_path(old_view.path, k)));
                } else {
                    assert(path.subrange(0, k) =~= path);
                }
            }
        }
    }

    /// Leaves the current scope, giving what it captured.
    fn leave_scope(&mut self, is_fn: bool) -> (captured: Vec<(String, String)>)
        requires
            old(self).wf(),
        ensures
            final(self).wf(),
            final(self)@ == spec_leave_scope(old(self)@, is_fn).0,
            pairs_view(captured@) == spec_leave_scope(old(self)@, is_fn).1,
            distinct_keys(final(self).captures@),
            final(self).stores == old(self).stores,
    {
        let ghost old_view = self@;
        if is_fn {
            self.fn_scopes.pop();
        }
        let captured = match self.capture_frames.pop() {
            Some(f) => f,
            None => {
                let empty: Vec<(String, String)> = Vec::new();
                assert(pairs_view(empty@) =~= Seq::<(Seq<char>, Seq<char>)>::empty());
                empty
            },
        };
        self.path_stack.pop();
        proof {
            assert(self@.path =~= spec_leave_scope(old_view, is_fn).0.path);
            assert(self@.fn_scopes =~= spec_leave_scope(old_view, is_fn).0.fn_scopes);
            assert(self@.frames =~= spec_leave_scope(old_view, is_fn).0.frames);
            assert forall|k: int| 1 <= k <= self@.path.len() implies self@.scopes.contains_key(
                #[trigger] prefix_path(self@.path, k),
            ) by {
                assert(self@.path.subrange(0, k) =~= old_view.path.subrange(0, k));
                assert(old_view.scopes.contains_key(prefix_path(old_view.path, k)));
            }
        }
        captured
    }

    /// `record_captures`: a closure that captured outer variables
    /// remembers them under its key.
    pub fn record_captures(&mut self, key: String, is_closure: bool, captured: Vec<(String, String)>)
        requires
            old(self).wf(),
        ensures
            final(self).wf(),
            final(self)@ == spec_record_captures(old(self)@, key@, is_closure, pairs_view(captured@)),
            final(self).store_map() == old(self).store_map(),
            final(self).name_map() == old(self).name_map(),
    {
        if is_closure && captured.len() > 0 {
            let ghost old_view = self@;
            let ghost cv = pairs_view(captured@);
            let ghost old_map = text_map(self.captures@);
            set_entry(&mut self.captures, key, captured);
            proof {
                assert(text_map(self.captures@).map_values(|c: Vec<(String, String)>| pairs_view(c@))
                    =~= old_view.captures.insert(key@, cv));
                assert(self@.path == old_view.path);
                assert(self@.scopes == old_view.scopes);
                assert forall|k: int| 1 <= k <= self@.path.len() implies self@.scopes.contains_key(
                    #[trigger] prefix_path(self@.path, k),
                ) by {
                    assert(old_view.scopes.contains_key(prefix_path(old_view.path, k)));
                }
            }
        }
    }

    /// Enters the scope of a definition named `name` (`*` for a glob
    /// definition); a subroutine's is function-like.
    pub fn enter_def(&mut self, name: String, public: bool, is_subr: bool)
        requires
            old(self).wf(),
        ensures
            final(self).wf(),
            final(self)@ == spec_enter_scope(old(self)@, public, name@, is_subr),
            final(self).store_map() == old(self).store_map(),
            final(self).name_map() == old(self).name_map(),
    {
        self.enter_scope(public, name, is_subr);
    }

    /// Leaves a definition's scope; a closure (under `closure_key`)
    /// remembers what it captured.
    pub fn leave_def(&mut self, is_subr: bool, closure_key: String, is_closure: bool)
        requires
            old(self).wf(),
        ensures
            final(self).wf(),
            final(self)@ == spec_leave_def(old(self)@, is_subr, closure_key@, is_closure),
            final(self).store_map() == old(self).store_map(),
            final(self).name_map() == old(self).name_map(),
    {
        let captured = self.leave_scope(is_subr);
        self.record_captures(closure_key, is_closure, captured);
    }

    /// Enters the scope of the lambda numbered `id`.
    pub fn enter_lambda(&mut self, id: &str)
        requires
            old(self).wf(),
        ensures
            final(self).wf(),
            final(self)@ == spec_enter_scope(old(self)@, false, "<lambda_"@ + id@ + ">"@, true),
            final(self).store_map() == old(self).store_map(),
            final(self).name_map() == old(self).name_map(),
    {
        let mut name = string_from("<lambda_");
        name.append(id);
        name.append(">");
        self.enter_scope(false, name, true);
    }

    /// Leaves a lambda's scope; what an anonymous lambda captures is
    /// recorded on the closures around it.
    pub fn leave_lambda(&mut self)
        requires
            old(self).wf(),
        ensures
            final(self).wf(),
            final(self)@ == spec_leave_scope(old(self)@, true).0,
            final(self).store_map() == old(self).store_map(),
            final(self).name_map() == old(self).name_map(),
    {
        self.leave_scope(true);
    }

    /// Starts checking the module `name`, in its own scope unless already
    /// there.
    pub fn enter_module(&mut self, name: String)
        requires
            old(self).wf(),
        ensures
            final(self).wf(),
            final(self)@ == spec_enter_module(old(self)@, name@),
            final(self).store_map() == old(self).store_map(),
            final(self).name_map() == old(self).name_map(),
    {
        let current = full_path(&self.path_stack);
        let mut target = string_from("::");
        target.append(name.as_str());
        if str_eq(current.as_str(), target.as_str()) {
            return;
        }
        let ghost old_view = self@;
        let ghost old_map = text_map(self.dict@);
        self.path_stack.push(Scope { public: false, namespace: name });
        let p = full_path(&self.path_stack);
        set_entry(&mut self.dict, p, LocalVars::new());
        proof {
            let path = old_view.path.push((false, name@));
            assert(scope_views(self.path_stack@) =~= path);
            let m = text_map(self.dict@);
            assert forall|x: Seq<char>| #[trigger] m.contains_key(x) implies m[x].wf() by {
                if x != p@ {
                    assert(old_map.contains_key(x));
                }
            }
            assert(m.map_values(|v: LocalVars<L>| v@) =~= old_view.scopes.insert(
                path_text(path),
                no_vars(),
            ));
            assert forall|k: int| 1 <= k <= path.len() implies self@.scopes.contains_key(
                #[trigger] prefix_path(path, k),
            ) by {
                if k < path.len() {
                    assert(path.subrange(0, k) =~= old_view.path.subrange(0, k));
                    assert(old_view.scopes.contains_key(prefix_path(old_view.path, k)));
                } else {
                    assert(path.subrange(0, k) =~= path);
                }
            }
        }
    }

    /// `note_capture`: `name` is read in the current scope; a variable of an
    /// enclosing scope is then captured by every closure between that scope
    /// and here.
    pub fn note_capture(&mut self, name: &str)
        requires
            old(self).wf(),
            old(self)@.path.len() > 0,
        ensures
            final(self).wf(),
            final(self)@ == spec_note_capture(old(self)@, name@),
            final(self).store_map() == old(self).store_map(),
            final(self).name_map() == old(self).name_map(),
    {
        let i0 = self.scope_index(0);
        if self.dict[i0].1.is_alive(name) {
            return;
        }
        let len = self.path_stack.len();
        let mut n: usize = 1;
        let mut found = false;
        while n < len && !found
            invariant
                self.wf(),
                len == self@.path.len(),
                1 <= n <= len,
                found ==> n < len && self@.outer(n as int).alive.contains(name@)
                    && first_alive(self@, name@, 1) == Some(n as int),
                !found ==> first_alive(self@, name@, 1) == first_alive(self@, name@, n as int),
            decreases len - n + (if found { 0int } else { 1int }),
        {
            let i = self.scope_index(n);
            if self.dict[i].1.is_alive(name) {
                found = true;
            } else {
                n = n + 1;
            }
        }
        if !found {
            return;
        }
        let depth = len - 1 - n;
        let owner = nth_outer_path(&self.path_stack, n);
        let ghost old_view = self@;
        let ghost old_frames = old_view.frames;
        let ghost target = Seq::new(
            old_frames.len(),
            |i: int|
                if i >= depth && !frame_has(old_frames[i], name@) {
                    old_frames[i].push((owner@, name@))
                } else {
                    old_frames[i]
                },
        );
        let mut f: usize = depth;
        while f < self.capture_frames.len()
            invariant
                self.wf(),
                self@.path == old_view.path,
                self@.scopes == old_view.scopes,
                self@.fn_scopes == old_view.fn_scopes,
                self@.captures == old_view.captures,
                self.stores == old(self).stores,
                self@.frames.len() == old_frames.len(),
                target.len() == old_frames.len(),
                forall|i: int|
                    0 <= i < target.len() ==> #[trigger] target[i] == (if i >= depth && !frame_has(
                        old_frames[i],
                        name@,
                    ) {
                        old_frames[i].push((owner@, name@))
                    } else {
                        old_frames[i]
                    }),
                depth <= f,
                forall|i: int|
                    0 <= i < self@.frames.len() ==> #[trigger] self@.frames[i] == (if i < f {
                        target[i]
                    } else {
                        old_frames[i]
                    }),
            decreases self.capture_frames.len() - f,
        {
            let mut frame = copy_pairs(&self.capture_frames[f]);
            let present = frame_has_name(&frame, name);
            let ghost before = self.capture_frames@;
            let ghost before_view = self@;
            assert(before_view.frames[f as int] == pairs_view(before[f as int]@));
            assert(before_view.frames[f as int] == old_frames[f as int]);
            assert(pairs_view(frame@) == old_frames[f as int]);
            assert(target[f as int] == (if !frame_has(old_frames[f as int], name@) {
                old_frames[f as int].push((owner@, name@))
            } else {
                old_frames[f as int]
            }));
            if !present {
                frame.push((owner.clone(), string_from(name)));
            }
            self.capture_frames.set(f, frame);
            proof {
                let fr = pairs_view(self.capture_frames@[f as int]@);
                if !present {
                    assert(fr =~= old_frames[f as int].push((owner@, name@)));
                } else {
                    assert(fr =~= old_frames[f as int]);
                }
                assert(self@.frames[f as int] == fr);
                assert(fr == target[f as int]);
                assert forall|i: int| 0 <= i < self@.frames.len() implies #[trigger] self@.frames[i]
                    == (if i < f + 1 {
                    target[i]
                } else {
                    old_frames[i]
                }) by {
                    if i != f {
                        assert(self.capture_frames@[i] == before[i]);
                        assert(self@.frames[i] == before_view.frames[i]);
                    }
                }
            }
            f = f + 1;
        }
        proof {
            assert(self@.frames =~= target);
            assert(owner@ == prefix_path(old_view.path, depth + 1));
        }
    }

    /// `drop`: `name` is used as owned. It is taken out of the innermost
    /// scope where it is alive; but in a closure's own body a variable of a
    /// scope outside the closure is only captured.
    pub fn drop(&mut self, name: &str, loc: L)
        requires
            old(self).wf(),
            first_alive(old(self)@, name@, 0) is Some,
        ensures
            final(self).wf(),
            final(self)@ == spec_drop(old(self)@, name@, loc),
            final(self).store_map() == old(self).store_map(),
            final(self).name_map() == old(self).name_map(),
    {
        let innermost_fn: usize = if self.fn_scopes.len() > 0 {
            self.fn_scopes[self.fn_scopes.len() - 1]
        } else {
            0
        };
        let len = self.path_stack.len();
        let mut n: usize = 0;
        while n < len
            invariant
                self.wf(),
                self@ == old(self)@,
                self.stores == old(self).stores,
                len == self@.path.len(),
                innermost_fn as int == (if old(self)@.fn_scopes.len() > 0 {
                    old(self)@.fn_scopes.last() as int
                } else {
                    0
                }),
                n <= len,
                first_alive(self@, name@, 0) == first_alive(self@, name@, n as int),
            decreases len - n,
        {
            let i = self.scope_index(n);
            if self.dict[i].1.is_alive(name) {
                assert(first_alive(self@, name@, n as int) == Some(n as int));
                if len == innermost_fn && len - n < innermost_fn {
                    assert(spec_drop(old(self)@, name@, loc) == spec_note_capture(old(self)@, name@));
                    self.note_capture(name);
                    return;
                }
                assert(!(len == innermost_fn && len - n < innermost_fn));
                let mut lv = LocalVars { alive_vars: Vec::new(), dropped_vars: Vec::new() };
                lv.alive_vars = copy_texts(&self.dict[i].1.alive_vars);
                lv.dropped_vars = copy_moves(&self.dict[i].1.dropped_vars);
                lv.move_out(name, loc);
                self.replace_scope(n, i, lv);
                return;
            }
            n = n + 1;
        }
    }

    /// `check_captures_alive`: the closure `key` is used, so every variable
    /// it captured must be alive; the first that was moved, and where.
    pub fn check_captures_alive(&self, key: &str) -> (r: Result<(), (String, L)>)
        requires
            self.wf(),
        ensures
            match r {
                Ok(()) => spec_moved_capture(self@, key@) is None,
                Err((n, l)) => spec_moved_capture(self@, key@) == Some((n@, l)),
            },
    {
        proof {
            lemma_text_map(self.captures@);
            lemma_text_map(self.dict@);
        }
        let Some(ci) = find_entry(&self.captures, key) else {
            return Ok(());
        };
        let captured = &self.captures[ci].1;
        let ghost c = pairs_view(captured@);
        assert(text_map(self.captures@).contains_key(key@));
        assert(self@.captures.contains_key(key@));
        assert(self@.captures[key@] == c);
        let mut k: usize = 0;
        assert(c.skip(0) =~= c);
        while k < captured.len()
            invariant
                self.wf(),
                c == pairs_view(captured@),
                self@.captures.contains_key(key@),
                self@.captures[key@] == c,
                k <= captured@.len(),
                distinct_keys(self.dict@),
                first_moved_capture(self@.scopes, c) == first_moved_capture(self@.scopes, c.skip(k as int)),
            decreases captured.len() - k,
        {
            proof {
                lemma_text_map(self.dict@);
            }
            let ghost rest = c.skip(k as int);
            assert(rest[0] == (captured@[k as int].0@, captured@[k as int].1@));
            assert(rest.drop_first() =~= c.skip(k + 1));
            match find_entry(&self.dict, captured[k].0.as_str()) {
                Some(di) => {
                    assert(text_map(self.dict@)[self.dict@[di as int].0@] == self.dict@[di as int].1);
                    assert(self@.scopes.contains_key(captured@[k as int].0@));
                    assert(self@.scopes[captured@[k as int].0@] == self.dict@[di as int].1@);
                    match self.dict[di].1.moved_at(captured[k].1.as_str()) {
                        Some(l) => {
                            assert(first_moved_capture(self@.scopes, rest) == Some((captured@[k as int].1@, l)));
                            return Err((captured[k].1.clone(), l));
                        },
                        None => {},
                    }
                },
                None => {
                    assert(!text_map(self.dict@).contains_key(captured@[k as int].0@));
                },
            }
            k = k + 1;
        }
        Ok(())
    }

    /// `check_acc` on the variable `name` (used as the closure
    /// `closure_key`, if it is one), at `loc`: a use of a moved variable, or
    /// of a closure whose captured variable was moved, is an error;
    /// otherwise an owned use of a mutable variable, but in a chunk, moves
    /// it, and any other use of a mutable one reads it.
    pub fn check_acc(
        &mut self,
        name: &str,
        closure_key: &str,
        is_mut: bool,
        owned: bool,
        chunk: bool,
        loc: L,
    ) -> (r: Result<(), MoveError<L>>)
        requires
            old(self).wf(),
            old(self)@.path.len() > 0,
            is_mut && owned && !chunk && first_dropped(old(self)@, name@, 0) is None
                && spec_moved_capture(old(self)@, closure_key@) is None ==> first_alive(
                old(self)@,
                name@,
                0,
            ) is Some,
        ensures
            final(self).wf(),
            (final(self)@, match r {
                Ok(()) => None,
                Err(e) => Some((e.name@, e.used_at, e.moved_at)),
            }) == spec_check_acc(old(self)@, name@, closure_key@, is_mut, owned, chunk, loc),
            final(self).store_map() == old(self).store_map(),
            final(self).name_map() == old(self).name_map(),
    {
        if let Err(moved_at) = self.check_if_dropped(name) {
            return Err(MoveError { name: string_from(name), used_at: loc, moved_at });
        }
        if let Err((captured, moved_at)) = self.check_captures_alive(closure_key) {
            return Err(MoveError { name: captured, used_at: loc, moved_at });
        }
        if is_mut && owned && !chunk {
            self.drop(name, loc);
        } else if is_mut {
            self.note_capture(name);
        }
        Ok(())
    }

    /// `add_store_edge`: the object `from_key` (named `from_name`) may store
    /// the object `to_key` (named `to_name`), as seen at `loc`.
    pub fn add_store_edge(
        &mut self,
        from_key: String,
        from_name: String,
        to_key: String,
        to_name: String,
        loc: L,
    )
        requires
            old(self).wf(),
        ensures
            final(self).wf(),
            final(self)@ == old(self)@,
            final(self).name_map() == old(self).name_map().insert(from_key@, from_name@).insert(
                to_key@,
                to_name@,
            ),
            final(self).store_map() == old(self).store_map().insert(
                from_key@,
                (if old(self).store_map().contains_key(from_key@) {
                    old(self).store_map()[from_key@]
                } else {
                    Seq::empty()
                }).push((to_key@, loc)),
            ),
    {
        self.stores.add_store_edge(from_key, from_name, to_key, to_name, loc);
    }

    /// `emit_cycle_errors`: the cycles of stores found, each reported once.
    pub fn emit_cycle_errors(&self) -> (r: Vec<(L, String)>)
        requires
            self.wf(),
        ensures
            reports_cycles(self.store_map(), self.name_map(), report_texts(r@)),
            r@.len() == 0 <==> !has_store_cycle(self.store_map()),
    {
        self.stores.emit_cycle_errors()
    }

    /// Where `name` was moved out of the innermost scope that has it moved,
    /// if any does.
    pub fn check_if_dropped(&self, name: &str) -> (r: Result<(), L>)
        requires
            self.wf(),
        ensures
            match r {
                Ok(()) => first_dropped(self@, name@, 0) is None,
                Err(l) => first_dropped(self@, name@, 0) == Some(l),
            },
    {
        let len = self.path_stack.len();
        let mut n: usize = 0;
        while n < len
            invariant
                self.wf(),
                len == self.path_stack@.len(),
                n <= len,
                first_dropped(self@, name@, 0) == first_dropped(self@, name@, n as int),
            decreases len - n,
        {
            let i = self.scope_index(n);
            match self.dict[i].1.moved_at(name) {
                Some(l) => {
                    return Err(l);
                },
                None => {},
            }
            n = n + 1;
        }
        Ok(())
    }
}

fn copy_texts(v: &Vec<String>) -> (r: Vec<String>)
    ensures
        r@ == v@,
{
    let mut r: Vec<String> = Vec::new();
    let mut i: usize = 0;
    while i < v.len()
        invariant
            i <= v@.len(),
            r@ == v@.subrange(0, i as int),
        decreases v.len() - i,
    {
        r.push(v[i].clone());
        i = i + 1;
        assert(r@ =~= v@.subrange(0, i as int));
    }
    assert(v@.subrange(0, v@.len() as int) =~= v@);
    r
}

fn copy_moves<L: Copy>(v: &Vec<(String, L)>) -> (r: Vec<(String, L)>)
    ensures
        r@ == v@,
{
    let mut r: Vec<(String, L)> = Vec::new();
    let mut i: usize = 0;
    while i < v.len()
        invariant
            i <= v@.len(),
            r@ == v@.subrange(0, i as int),
        decreases v.len() - i,
    {
        r.push((v[i].0.clone(), v[i].1));
        i = i + 1;
        assert(r@ =~= v@.subrange(0, i as int));
    }
    assert(v@.subrange(0, v@.len() as int) =~= v@);
    r
}

fn copy_pairs(v: &Vec<(String, String)>) -> (r: Vec<(String, String)>)
    ensures
        r@ == v@,
{
    let mut r: Vec<(String, String)> = Vec::new();
    let mut i: usize = 0;
    while i < v.len()
        invariant
            i <= v@.len(),
            r@ == v@.subrange(0, i as int),
        decreases v.len() - i,
    {
        r.push((v[i].0.clone(), v[i].1.clone()));
        i = i + 1;
        assert(r@ =~= v@.subrange(0, i as int));
    }
    assert(v@.subrange(0, v@.len() as int) =~= v@);
    r
}

fn frame_has_name(frame: &Vec<(String, String)>, name: &str) -> (r: bool)
    ensures
        r == frame_has(pairs_view(frame@), name@),
{
    let mut i: usize = 0;
    while i < frame.len()
        invariant
            i <= frame@.len(),
            forall|j: int| 0 <= j < i ==> frame@[j].1@ != name@,
        decreases frame.len() - i,
    {
        if str_eq(frame[i].1.as_str(), name) {
            assert(pairs_view(frame@)[i as int].1 == name@);
            return true;
        }
        i = i + 1;
    }
    assert forall|j: int| 0 <= j < pairs_view(frame@).len() implies pairs_view(frame@)[j].1 != name@ by {
        assert(pairs_view(frame@)[j].1 == frame@[j].1@);
    }
    false
}

/// Each scope adds at least one character to a path.
proof fn lemma_path_text_len(p: Seq<(bool, Seq<char>)>)
    ensures
        path_text(p).len() >= p.len(),
    decreases p.len(),
{
    if p.len() > 0 {
        lemma_path_text_len(p.drop_last());
        reveal_strlit(".");
        reveal_strlit("::");
    }
}

/// The paths of the scopes on a path differ from one another.
proof fn lemma_prefix_paths_differ(p: Seq<(bool, Seq<char>)>, a: int, b: int)
    requires
        0 <= a < b <= p.len(),
    ensures
        prefix_path(p, a) != prefix_path(p, b),
    decreases b - a,
{
    let q = p.subrange(0, b);
    assert(q.drop_last() =~= p.subrange(0, b - 1));
    reveal_strlit(".");
    reveal_strlit("::");
    if a < b - 1 {
        lemma_prefix_paths_differ(p, a, b - 1);
        lemma_prefix_path_grows(p, a, b - 1);
    } else {
        lemma_path_text_len(p.subrange(0, a));
    }
    lemma_prefix_path_grows(p, a, b - 1);
    assert(path_text(q).len() > path_text(q.drop_last()).len());
}

/// A longer prefix of a path has a longer path text.
proof fn lemma_prefix_path_grows(p: Seq<(bool, Seq<char>)>, a: int, b: int)
    requires
        0 <= a <= b <= p.len(),
    ensures
        prefix_path(p, a).len() <= prefix_path(p, b).len(),
    decreases b - a,
{
    if a < b {
        lemma_prefix_path_grows(p, a, b - 1);
        let q = p.subrange(0, b);
        assert(q.drop_last() =~= p.subrange(0, b - 1));
    }
}

/// Using the variable `name` as owned moves it out of the innermost scope
/// that has it, unless a closure's own body only captures it.
pub open spec fn moves_out<L>(s: ScopeState<L>, name: Seq<char>) -> bool {
    let innermost_fn: int = if s.fn_scopes.len() > 0 {
        s.fn_scopes.last() as int
    } else {
        0
    };
    match first_alive(s, name, 0) {
        Some(n) => !(s.path.len() == innermost_fn && s.path.len() - n < innermost_fn),
        None => false,
    }
}

proof fn lemma_no_drop_below<L>(s: ScopeState<L>, name: Seq<char>, from: int, k: int)
    requires
        0 <= from <= k < s.path.len(),
        first_dropped(s, name, from) is None,
    ensures
        !s.outer(k).dropped.contains_key(name),
    decreases k - from,
{
    if from < k {
        lemma_no_drop_below(s, name, from + 1, k);
    }
}

proof fn lemma_first_alive_is_alive<L>(s: ScopeState<L>, name: Seq<char>, from: int)
    requires
        first_alive(s, name, from) is Some,
    ensures
        ({
            let n = first_alive(s, name, from)->0;
            &&& from <= n < s.path.len()
            &&& 0 <= n
            &&& s.outer(n).alive.contains(name)
        }),
    decreases s.path.len() - from,
{
    if !(from < 0 || from >= s.path.len()) && !s.outer(from).alive.contains(name) {
        lemma_first_alive_is_alive(s, name, from + 1);
    }
}

proof fn lemma_moved_found<L>(s: ScopeState<L>, t: ScopeState<L>, name: Seq<char>, n: int, loc: L, from: int)
    requires
        0 <= from <= n < s.path.len(),
        t.path == s.path,
        t.scopes == s.scopes.insert(s.outer_path(n), VarsState {
            alive: s.outer(n).alive.remove(name),
            dropped: s.outer(n).dropped.insert(name, loc),
        }),
        forall|k: int| from <= k < n ==> !s.outer(k).dropped.contains_key(name),
    ensures
        first_dropped(t, name, from) == Some(loc),
    decreases n - from,
{
    if from < n {
        lemma_prefix_paths_differ(s.path, s.path.len() - n, s.path.len() - from);
        assert(t.outer(from) == s.outer(from));
        lemma_moved_found(s, t, name, n, loc, from + 1);
    }
}

/// A variable that an owned use moved is not used again: using it after
/// the move is reported, with where it was moved.
pub proof fn law_use_after_move_is_reported<L>(
    s: ScopeState<L>,
    name: Seq<char>,
    key: Seq<char>,
    loc: L,
    key2: Seq<char>,
    is_mut2: bool,
    owned2: bool,
    chunk2: bool,
    loc2: L,
)
    requires
        s.wf(),
        spec_check_acc(s, name, key, true, true, false, loc).1 is None,
        moves_out(s, name),
    ensures
        ({
            let moved = spec_check_acc(s, name, key, true, true, false, loc).0;
            spec_check_acc(moved, name, key2, is_mut2, owned2, chunk2, loc2) == (
                moved,
                Some((name, loc2, loc)),
            )
        }),
{
    let n = first_alive(s, name, 0)->0;
    lemma_first_alive_is_alive(s, name, 0);
    assert(first_dropped(s, name, 0) is None);
    assert forall|k: int| 0 <= k < n implies !s.outer(k).dropped.contains_key(name) by {
        lemma_no_drop_below(s, name, 0, k);
    }
    let t = spec_drop(s, name, loc);
    lemma_moved_found(s, t, name, n, loc, 0);
}

/// Leaving a scope just entered gives back the path, the depths of the
/// function-like scopes and the capture frames as they were, and what it
/// captured is nothing.
pub proof fn law_leave_undoes_enter<L>(s: ScopeState<L>, public: bool, name: Seq<char>, is_fn: bool)
    ensures
        ({
            let (t, captured) = spec_leave_scope(spec_enter_scope(s, public, name, is_fn), is_fn);
            &&& t.path == s.path
            &&& t.fn_scopes == s.fn_scopes
            &&& t.frames == s.frames
            &&& t.captures == s.captures
            &&& captured == Seq::<(Seq<char>, Seq<char>)>::empty()
        }),
{
    let e = spec_enter_scope(s, public, name, is_fn);
    assert(e.path.drop_last() =~= s.path);
    assert(e.frames.drop_last() =~= s.frames);
    if is_fn {
        assert(e.fn_scopes.drop_last() =~= s.fn_scopes);
    }
}

/// In a closure's own body, an owned use of a variable of a scope outside
/// the closure does not move it: the variables of every scope stay as they
/// were (the closures around only capture it).
pub proof fn law_closure_body_does_not_move_outer_variables<L>(
    s: ScopeState<L>,
    name: Seq<char>,
    loc: L,
)
    requires
        s.fn_scopes.len() > 0,
        s.fn_scopes.last() == s.path.len(),
        first_alive(s, name, 0) matches Some(n) && n > 0,
    ensures
        spec_drop(s, name, loc).scopes == s.scopes,
        spec_drop(s, name, loc).path == s.path,
        spec_drop(s, name, loc).captures == s.captures,
{
    lemma_first_alive_is_alive(s, name, 0);
}

} // verus!
