//! The scopes of a running program: each maps names to values and may be
//! enclosed by another scope. Scopes live in one arena and refer to the
//! scope that encloses them by its index; an enclosing scope always comes
//! before the scopes it encloses.
use vstd::prelude::*;
use crate::text::str_equals;

verus! {

/// Whether the code running in a scope is inside a loop, and whether that
/// loop is being left or continued.
#[derive(Clone, Copy, Debug, PartialEq, Eq, Structural)]
pub enum LoopStatus {
    NotLooping,
    Looping,
    Breaking,
    Continuing,
}

/// The bindings made by defining `names[i]` as `values[i]`, in order.
pub open spec fn bindings<V>(names: Seq<Seq<char>>, values: Seq<V>) -> Map<Seq<char>, V>
    decreases names.len(),
{
    if names.len() == 0 || values.len() == 0 {
        Map::empty()
    } else {
        bindings(names.drop_last(), values.drop_last()).insert(names.last(), values.last())
    }
}

/// No name occurs twice.
pub open spec fn distinct(names: Seq<Seq<char>>) -> bool {
    forall|i: int, j: int| 0 <= i < j < names.len() ==> names[i] != names[j]
}

/// What a scope holds: the scope that encloses it, if any, its variables,
/// and the state of the loop running in it.
pub struct ScopeView<V> {
    pub enclosing: Option<int>,
    pub vars: Map<Seq<char>, V>,
    pub loop_status: LoopStatus,
}

/// The scope `distance` steps out from scope `i`, if there is one.
pub open spec fn ancestor<V>(scopes: Seq<ScopeView<V>>, i: int, distance: nat) -> Option<int>
    decreases distance,
{
    if distance == 0 {
        Some(i)
    } else {
        match scopes[i].enclosing {
            Some(j) => ancestor(scopes, j, (distance - 1) as nat),
            None => None,
        }
    }
}

/// The value of `name` in the scope `distance` steps out from scope `i`.
pub open spec fn lookup_at<V>(scopes: Seq<ScopeView<V>>, i: int, distance: nat, name: Seq<char>) -> Option<V> {
    match ancestor(scopes, i, distance) {
        Some(a) => if scopes[a].vars.contains_key(name) {
            Some(scopes[a].vars[name])
        } else {
            None
        },
        None => None,
    }
}

/// Whether setting `name` in the scope `distance` steps out from scope
/// `i` finds a variable to set.
pub open spec fn assignable_at<V>(scopes: Seq<ScopeView<V>>, i: int, distance: nat, name: Seq<char>) -> bool {
    match ancestor(scopes, i, distance) {
        Some(a) => scopes[a].vars.contains_key(name),
        None => false,
    }
}

/// The scopes after `name` is set to `value` in the scope `distance` steps
/// out from scope `i`, where there is such a variable; unchanged otherwise.
pub open spec fn assign_at_spec<V>(
    scopes: Seq<ScopeView<V>>,
    i: int,
    distance: nat,
    name: Seq<char>,
    value: V,
) -> Seq<ScopeView<V>> {
    match ancestor(scopes, i, distance) {
        Some(a) => if scopes[a].vars.contains_key(name) {
            scopes.update(a, ScopeView { vars: scopes[a].vars.insert(name, value), ..scopes[a] })
        } else {
            scopes
        },
        None => scopes,
    }
}

/// Each scope is enclosed only by a scope that comes before it.
pub open spec fn chained<V>(scopes: Seq<ScopeView<V>>) -> bool {
    forall|i: int|
        0 <= i < scopes.len() ==> match #[trigger] scopes[i].enclosing {
            Some(j) => 0 <= j < i,
            None => true,
        }
}

/// Changing what a scope holds, but not the scope that encloses it, moves
/// no scope's ancestors.
proof fn lemma_ancestor_update<V>(scopes: Seq<ScopeView<V>>, a: int, sv: ScopeView<V>, i: int, d: nat)
    requires
        chained(scopes),
        0 <= a < scopes.len(),
        sv.enclosing == scopes[a].enclosing,
        0 <= i < scopes.len(),
    ensures
        ancestor(scopes.update(a, sv), i, d) == ancestor(scopes, i, d),
        ancestor(scopes, i, d) matches Some(k) ==> 0 <= k < scopes.len(),
    decreases d,
{
    if d > 0 {
        assert(scopes.update(a, sv)[i].enclosing == scopes[i].enclosing);
        if let Some(j) = scopes[i].enclosing {
            lemma_ancestor_update(scopes, a, sv, j, (d - 1) as nat);
        }
    }
}

/// A variable defined in a scope is found there, with the value it was
/// given.
pub proof fn lemma_define_then_get<V>(scopes: Seq<ScopeView<V>>, scope: int, name: Seq<char>, value: V)
    requires
        0 <= scope < scopes.len(),
    ensures
        lookup_at(
            scopes.update(scope, ScopeView { vars: scopes[scope].vars.insert(name, value), ..scopes[scope] }),
            scope,
            0,
            name,
        ) == Some(value),
{
}

/// After a variable is set through the scope chain, reading it back
/// through the same chain gives the value set; a variable that was not
/// there is not set, and nothing changes.
pub proof fn lemma_assign_then_get<V>(
    scopes: Seq<ScopeView<V>>,
    scope: int,
    distance: nat,
    name: Seq<char>,
    value: V,
)
    requires
        chained(scopes),
        0 <= scope < scopes.len(),
    ensures
        assignable_at(scopes, scope, distance, name) ==> lookup_at(
            assign_at_spec(scopes, scope, distance, name, value),
            scope,
            distance,
            name,
        ) == Some(value),
        !assignable_at(scopes, scope, distance, name) ==> assign_at_spec(scopes, scope, distance, name, value)
            == scopes,
{
    lemma_ancestor_update(scopes, 0, scopes[0], scope, distance);
    if let Some(a) = ancestor(scopes, scope, distance) {
        if scopes[a].vars.contains_key(name) {
            let sv = ScopeView { vars: scopes[a].vars.insert(name, value), ..scopes[a] };
            lemma_ancestor_update(scopes, a, sv, scope, distance);
        }
    }
}

proof fn lemma_bindings_at<V>(names: Seq<Seq<char>>, values: Seq<V>, i: int)
    requires
        distinct(names),
        names.len() == values.len(),
        0 <= i < names.len(),
    ensures
        bindings(names, values).contains_key(names[i]),
        bindings(names, values)[names[i]] == values[i],
    decreases names.len(),
{
    if i < names.len() - 1 {
        lemma_bindings_at(names.drop_last(), values.drop_last(), i);
    }
}

proof fn lemma_bindings_absent<V>(names: Seq<Seq<char>>, values: Seq<V>, k: Seq<char>)
    requires
        names.len() == values.len(),
        forall|i: int| 0 <= i < names.len() ==> names[i] != k,
    ensures
        !bindings(names, values).contains_key(k),
    decreases names.len(),
{
    if names.len() > 0 {
        lemma_bindings_absent(names.drop_last(), values.drop_last(), k);
    }
}

proof fn lemma_bindings_update<V>(names: Seq<Seq<char>>, values: Seq<V>, i: int, v: V)
    requires
        distinct(names),
        names.len() == values.len(),
        0 <= i < names.len(),
    ensures
        bindings(names, values.update(i, v)) == bindings(names, values).insert(names[i], v),
    decreases names.len(),
{
    let n = names.len();
    if i == n - 1 {
        assert(values.update(i, v).drop_last() =~= values.drop_last());
        assert(bindings(names, values.update(i, v)) =~= bindings(names, values).insert(names[i], v));
    } else {
        lemma_bindings_update(names.drop_last(), values.drop_last(), i, v);
        assert(values.update(i, v).drop_last() =~= values.drop_last().update(i, v));
        assert(bindings(names, values.update(i, v)) =~= bindings(names, values).insert(names[i], v));
    }
}

struct Scope<V> {
    enclosing: Option<usize>,
    names: Vec<String>,
    values: Vec<V>,
    loop_status: LoopStatus,
}

impl<V> Scope<V> {
    spec fn names_view(&self) -> Seq<Seq<char>> {
        self.names@.map_values(|s: String| s@)
    }

    spec fn view(&self) -> ScopeView<V> {
        ScopeView {
            enclosing: match self.enclosing {
                Some(j) => Some(j as int),
                None => None,
            },
            vars: bindings(self.names_view(), self.values@),
            loop_status: self.loop_status,
        }
    }

    spec fn wf(&self) -> bool {
        &&& self.names@.len() == self.values@.len()
        &&& distinct(self.names_view())
    }

    /// Where `name` is in this scope, if it is there.
    fn find(&self, name: &str) -> (r: Option<usize>)
        requires
            self.wf(),
        ensures
            match r {
                Some(i) => i < self.names@.len() && self.names@[i as int]@ == name@,
                None => !self.view().vars.contains_key(name@) && forall|j: int|
                    0 <= j < self.names@.len() ==> self.names_view()[j] != name@,
            },
    {
        let mut i: usize = 0;
        while i < self.names.len()
            invariant
                self.wf(),
                i <= self.names@.len(),
                forall|j: int| 0 <= j < i ==> self.names_view()[j] != name@,
            decreases self.names@.len() - i,
        {
            if str_equals(self.names[i].as_str(), name) {
                return Some(i);
            }
            i = i + 1;
        }
        proof {
            lemma_bindings_absent(self.names_view(), self.values@, name@);
        }
        None
    }
}

/// All the scopes of a running program, the first of them the global one.
pub struct Environments<V> {
    scopes: Vec<Scope<V>>,
}

impl<V> Environments<V> {
    /// Every scope is enclosed only by a scope that comes before it.
    pub closed spec fn wf(&self) -> bool {
        &&& self.scopes@.len() > 0
        &&& forall|i: int| 0 <= i < self.scopes@.len() ==> #[trigger] self.scopes@[i].wf()
        &&& forall|i: int|
            0 <= i < self.scopes@.len() ==> match #[trigger] self.scopes@[i].enclosing {
                Some(j) => j < i,
                None => true,
            }
    }

    /// The scopes of a well-formed arena are chained.
    pub proof fn lemma_chained(&self)
        requires
            self.wf(),
        ensures
            chained(self@),
    {
        assert forall|i: int| 0 <= i < self@.len() implies match #[trigger] self@[i].enclosing {
            Some(j) => 0 <= j < i,
            None => true,
        } by {
            assert(self@[i] == self.scopes@[i].view());
            match self.scopes@[i].enclosing {
                Some(j) => {},
                None => {},
            }
        }
    }

    /// A single, empty, global scope (at index 0).
    pub fn new() -> (r: Environments<V>)
        ensures
            r.wf(),
            r@.len() == 1,
            r@[0] == (ScopeView::<V> {
                enclosing: None,
                vars: Map::empty(),
                loop_status: LoopStatus::NotLooping,
            }),
    {
        let mut scopes = Vec::new();
        scopes.push(Scope { enclosing: None, names: Vec::new(), values: Vec::new(), loop_status: LoopStatus::NotLooping });
        let r = Environments { scopes };
        assert(r.scopes@[0].names_view() =~= Seq::<Seq<char>>::empty());
        r
    }

    /// How many scopes there are.
    pub fn len(&self) -> (r: usize)
        ensures
            r == self@.len(),
    {
        self.scopes.len()
    }

    /// Adds an empty scope, enclosed by `enclosing` if given, and returns its index.
    pub fn push_scope(&mut self, enclosing: Option<usize>) -> (r: usize)
        requires
            old(self).wf(),
            match enclosing {
                Some(j) => j < old(self)@.len(),
                None => true,
            },
            old(self)@.len() < usize::MAX,
        ensures
            final(self).wf(),
            r == old(self)@.len(),
            final(self)@ == old(self)@.push(
                ScopeView {
                    enclosing: match enclosing {
                        Some(j) => Some(j as int),
                        None => None,
                    },
                    vars: Map::empty(),
                    loop_status: LoopStatus::NotLooping,
                },
            ),
    {
        let r = self.scopes.len();
        let scope = Scope { enclosing, names: Vec::new(), values: Vec::new(), loop_status: LoopStatus::NotLooping };
        assert(scope.names_view() =~= Seq::<Seq<char>>::empty());
        self.scopes.push(scope);
        assert(self@ =~= old(self)@.push(self.scopes@[r as int].view()));
        r
    }

    /// The value of `name` in scope `scope` itself.
    pub fn get(&self, scope: usize, name: &str) -> (r: Option<&V>)
        requires
            self.wf(),
            scope < self@.len(),
        ensures
            match r {
                Some(v) => self@[scope as int].vars.contains_key(name@) && self@[scope as int].vars[name@]
                    == *v,
                None => !self@[scope as int].vars.contains_key(name@),
            },
    {
        let s = &self.scopes[scope];
        assert(s.wf());
        match s.find(name) {
            Some(i) => {
                proof {
                    lemma_bindings_at(s.names_view(), s.values@, i as int);
                }
                Some(&s.values[i])
            },
            None => None,
        }
    }

    /// The scope `distance` steps out from scope `scope`, if there is one.
    fn ancestor_of(&self, scope: usize, distance: usize) -> (r: Option<usize>)
        requires
            self.wf(),
            scope < self@.len(),
        ensures
            match r {
                Some(a) => a < self@.len() && ancestor(self@, scope as int, distance as nat) == Some(
                    a as int,
                ),
                None => ancestor(self@, scope as int, distance as nat) == None::<int>,
            },
    {
        let mut cur = scope;
        let mut d = distance;
        while d > 0
            invariant
                self.wf(),
                cur < self@.len(),
                ancestor(self@, scope as int, distance as nat) == ancestor(self@, cur as int, d as nat),
            decreases d,
        {
            assert(self.scopes@[cur as int].wf());
            match self.scopes[cur].enclosing {
                Some(j) => {
                    cur = j;
                    d = d - 1;
                },
                None => {
                    return None;
                },
            }
        }
        Some(cur)
    }

    /// The value of `name` in the scope `distance` steps out from `scope`.
    pub fn get_at(&self, scope: usize, distance: usize, name: &str) -> (r: Option<&V>)
        requires
            self.wf(),
            scope < self@.len(),
        ensures
            match r {
                Some(v) => lookup_at(self@, scope as int, distance as nat, name@) == Some(*v),
                None => lookup_at(self@, scope as int, distance as nat, name@) == None::<V>,
            },
    {
        match self.ancestor_of(scope, distance) {
            Some(a) => self.get(a, name),
            None => None,
        }
    }

    /// Gives `name` the value `value` in scope `scope`, whether it was
    /// there or not.
    pub fn define(&mut self, scope: usize, name: String, value: V)
        requires
            old(self).wf(),
            scope < old(self)@.len(),
        ensures
            final(self).wf(),
            final(self)@ == old(self)@.update(
                scope as int,
                ScopeView { vars: old(self)@[scope as int].vars.insert(name@, value), ..old(self)@[scope as int] },
            ),
    {
        assert(self.scopes@[scope as int].wf());
        let ghost old_scopes = self.scopes@;
        let mut s = self.scopes.remove(scope);
        let ghost old_names = s.names_view();
        let ghost old_values = s.values@;
        match s.find(name.as_str()) {
            Some(i) => {
                proof {
                    lemma_bindings_update(old_names, old_values, i as int, value);
                }
                s.values.set(i, value);
            },
            None => {
                let ghost n = name@;
                s.names.push(name);
                s.values.push(value);
                proof {
                    assert(s.names_view() =~= old_names.push(n));
                    assert(s.values@.drop_last() =~= old_values);
                    assert(s.names_view().drop_last() =~= old_names);
                }
            },
        }
        assert(s.wf());
        let ghost ns = s;
        self.scopes.insert(scope, s);
        assert(self.scopes@ =~= old_scopes.update(scope as int, ns));
        assert(self@ =~= old(self)@.update(
            scope as int,
            ScopeView { vars: old(self)@[scope as int].vars.insert(name@, value), ..old(self)@[scope as int] },
        ));
    }

    /// Sets `name` to `value` in scope `scope`, if it is there; says
    /// whether it was.
    pub fn assign(&mut self, scope: usize, name: &str, value: V) -> (r: bool)
        requires
            old(self).wf(),
            scope < old(self)@.len(),
        ensures
            final(self).wf(),
            r == old(self)@[scope as int].vars.contains_key(name@),
            final(self)@ == assign_at_spec(old(self)@, scope as int, 0, name@, value),
    {
        assert(self.scopes@[scope as int].wf());
        let mut s = self.scopes.remove(scope);
        let ghost old_names = s.names_view();
        let ghost old_values = s.values@;
        let found = match s.find(name) {
            Some(i) => {
                proof {
                    lemma_bindings_at(old_names, old_values, i as int);
                    lemma_bindings_update(old_names, old_values, i as int, value);
                }
                s.values.set(i, value);
                true
            },
            None => false,
        };
        self.scopes.insert(scope, s);
        assert(self@ =~= assign_at_spec(old(self)@, scope as int, 0, name@, value));
        found
    }

    /// Sets `name` to `value` in the scope `distance` steps out from
    /// `scope`, if it is there; says whether it was.
    pub fn assign_at(&mut self, scope: usize, distance: usize, name: &str, value: V) -> (r: bool)
        requires
            old(self).wf(),
            scope < old(self)@.len(),
        ensures
            final(self).wf(),
            r == assignable_at(old(self)@, scope as int, distance as nat, name@),
            final(self)@ == assign_at_spec(old(self)@, scope as int, distance as nat, name@, value),
    {
        match self.ancestor_of(scope, distance) {
            Some(a) => {
                let r = self.assign(a, name, value);
                r
            },
            None => false,
        }
    }

    /// The state of the loop running in scope `scope`.
    pub fn loop_status(&self, scope: usize) -> (r: LoopStatus)
        requires
            scope < self@.len(),
        ensures
            r == self@[scope as int].loop_status,
    {
        self.scopes[scope].loop_status
    }

    /// Records the state of the loop running in scope `scope`.
    pub fn set_loop_status(&mut self, scope: usize, status: LoopStatus)
        requires
            old(self).wf(),
            scope < old(self)@.len(),
        ensures
            final(self).wf(),
            final(self)@ == old(self)@.update(
                scope as int,
                ScopeView { loop_status: status, ..old(self)@[scope as int] },
            ),
    {
        assert(self.scopes@[scope as int].wf());
        let ghost old_scopes = self.scopes@;
        let mut s = self.scopes.remove(scope);
        s.loop_status = status;
        let ghost ns = s;
        self.scopes.insert(scope, s);
        assert(self.scopes@ =~= old_scopes.update(scope as int, ns));
        assert(self@ =~= old(self)@.update(scope as int, ScopeView { loop_status: status, ..old(self)@[scope as int] }));
    }
}

/// What each scope holds, by index.
impl<V> View for Environments<V> {
    type V = Seq<ScopeView<V>>;

    closed spec fn view(&self) -> Seq<ScopeView<V>> {
        Seq::new(self.scopes@.len(), |i: int| self.scopes@[i].view())
    }
}

} // verus!
