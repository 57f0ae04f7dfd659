//! Classes and their instances. A class has a name, the class it inherits
//! from and its methods; a method is looked up in the class first, then in
//! the classes it inherits from. An instance has a class and fields.
use std::rc::Rc;
use vstd::prelude::*;
use crate::text::str_equals;

verus! {

/// The table of methods made by adding `names[i]` with `methods[i]`, in
/// order; a later method of the same name replaces an earlier one.
pub open spec fn method_table<M>(names: Seq<Seq<char>>, methods: Seq<M>) -> Map<Seq<char>, M>
    decreases names.len(),
{
    if names.len() == 0 || methods.len() == 0 {
        Map::empty()
    } else {
        method_table(names.drop_last(), methods.drop_last()).insert(names.last(), methods.last())
    }
}

/// A class whose methods are of type `M`.
pub struct DoveClass<M> {
    pub name: String,
    pub superclass: Option<Rc<DoveClass<M>>>,
    /// The methods' names; `methods[i]` is the method named `method_names[i]`.
    pub method_names: Vec<String>,
    pub methods: Vec<M>,
}

/// The names of `names`, as character sequences.
pub open spec fn names_view(names: Seq<String>) -> Seq<Seq<char>> {
    names.map_values(|s: String| s@)
}

impl<M> DoveClass<M> {
    /// Every class in the inheritance chain has a name for each method.
    pub open spec fn wf(&self) -> bool
        decreases self,
    {
        &&& self.method_names@.len() == self.methods@.len()
        &&& match &self.superclass {
            Some(s) => s.wf(),
            None => true,
        }
    }

    /// The methods that the class itself defines.
    pub open spec fn own_methods(&self) -> Map<Seq<char>, M> {
        method_table(names_view(self.method_names@), self.methods@)
    }

    /// The method named `name`: the class's own, or else the one its
    /// superclass finds.
    pub open spec fn lookup(&self, name: Seq<char>) -> Option<M>
        decreases self,
    {
        if self.own_methods().contains_key(name) {
            Some(self.own_methods()[name])
        } else {
            match &self.superclass {
                Some(s) => s.lookup(name),
                None => None,
            }
        }
    }

    pub fn new(name: String, superclass: Option<Rc<DoveClass<M>>>, method_names: Vec<String>, methods: Vec<
        M,
    >) -> (r: DoveClass<M>)
        ensures
            r.name == name,
            r.superclass == superclass,
            r.method_names == method_names,
            r.methods == methods,
    {
        DoveClass { name, superclass, method_names, methods }
    }

    /// The method named `name` that the class itself defines.
    fn own_method(&self, name: &str) -> (r: Option<&M>)
        requires
            self.method_names@.len() == self.methods@.len(),
        ensures
            match r {
                Some(m) => self.own_methods().contains_key(name@) && self.own_methods()[name@] == *m,
                None => !self.own_methods().contains_key(name@),
            },
    {
        let ghost names = names_view(self.method_names@);
        let mut i: usize = self.method_names.len();
        while i > 0
            invariant
                i <= self.method_names@.len(),
                self.method_names@.len() == self.methods@.len(),
                names == names_view(self.method_names@),
                forall|j: int| i <= j < names.len() ==> names[j] != name@,
            decreases i,
        {
            let k = i - 1;
            if str_equals(self.method_names[k].as_str(), name) {
                proof {
                    lemma_table_last_wins(names, self.methods@, k as int);
                }
                return Some(&self.methods[k]);
            }
            i = k;
        }
        proof {
            lemma_table_absent(names, self.methods@, name@);
        }
        None
    }

    /// The method named `name`, looked up in the class and then up its
    /// inheritance chain.
    pub fn find_method(&self, name: &str) -> (r: Option<&M>)
        requires
            self.wf(),
        ensures
            match r {
                Some(m) => self.lookup(name@) == Some(*m),
                None => self.lookup(name@) == None::<M>,
            },
        decreases self,
    {
        match self.own_method(name) {
            Some(m) => Some(m),
            None => match &self.superclass {
                Some(s) => s.find_method(name),
                None => None,
            },
        }
    }
}

/// What a name gives on an instance: one of its fields, or else a method
/// of its class.
pub enum Property<'a, M, V> {
    Field(&'a V),
    Method(&'a M),
}

/// An instance of a class whose methods are of type `M`, with fields of
/// type `V`.
pub struct DoveInstance<M, V> {
    class: Rc<DoveClass<M>>,
    field_names: Vec<String>,
    field_values: Vec<V>,
}

impl<M, V> DoveInstance<M, V> {
    /// The instance's fields, by name.
    pub closed spec fn fields(&self) -> Map<Seq<char>, V> {
        method_table(names_view(self.field_names@), self.field_values@)
    }

    pub closed spec fn wf(&self) -> bool {
        self.field_names@.len() == self.field_values@.len()
    }

    /// The instance's class.
    pub closed spec fn class_of(&self) -> Rc<DoveClass<M>> {
        self.class
    }

    pub fn class(&self) -> (r: &Rc<DoveClass<M>>)
        ensures
            *r == self.class_of(),
    {
        &self.class
    }

    /// An instance of `class` with no fields.
    pub fn new(class: Rc<DoveClass<M>>) -> (r: DoveInstance<M, V>)
        ensures
            r.wf(),
            r.class_of() == class,
            r.fields() == Map::<Seq<char>, V>::empty(),
    {
        let r = DoveInstance { class, field_names: Vec::new(), field_values: Vec::new() };
        assert(names_view(r.field_names@) =~= Seq::<Seq<char>>::empty());
        r
    }

    /// Where the field `name` is kept: its last occurrence.
    fn find_field(&self, name: &str) -> (r: Option<usize>)
        requires
            self.wf(),
        ensures
            match r {
                Some(i) => i < self.field_names@.len() && names_view(self.field_names@)[i as int] == name@
                    && forall|j: int|
                    i < j < self.field_names@.len() ==> names_view(self.field_names@)[j] != name@,
                None => forall|j: int|
                    0 <= j < self.field_names@.len() ==> names_view(self.field_names@)[j] != name@,
            },
    {
        let ghost names = names_view(self.field_names@);
        let mut i: usize = self.field_names.len();
        while i > 0
            invariant
                i <= self.field_names@.len(),
                names == names_view(self.field_names@),
                forall|j: int| i <= j < names.len() ==> names[j] != name@,
            decreases i,
        {
            let k = i - 1;
            if str_equals(self.field_names[k].as_str(), name) {
                return Some(k);
            }
            i = k;
        }
        None
    }

    /// The field `name`, if the instance has it.
    pub fn get_field(&self, name: &str) -> (r: Option<&V>)
        requires
            self.wf(),
        ensures
            match r {
                Some(v) => self.fields().contains_key(name@) && self.fields()[name@] == *v,
                None => !self.fields().contains_key(name@),
            },
    {
        match self.find_field(name) {
            Some(i) => {
                proof {
                    lemma_table_last_wins(names_view(self.field_names@), self.field_values@, i as int);
                }
                Some(&self.field_values[i])
            },
            None => {
                proof {
                    lemma_table_absent(names_view(self.field_names@), self.field_values@, name@);
                }
                None
            },
        }
    }

    /// What `name` gives on the instance: the field of that name, or else
    /// the method of that name that its class finds.
    pub fn property(&self, name: &str) -> (r: Option<Property<'_, M, V>>)
        requires
            self.wf(),
            self.class_of().wf(),
        ensures
            match r {
                Some(Property::Field(v)) => self.fields().contains_key(name@) && self.fields()[name@]
                    == *v,
                Some(Property::Method(m)) => !self.fields().contains_key(name@)
                    && self.class_of().lookup(name@) == Some(*m),
                None => !self.fields().contains_key(name@) && self.class_of().lookup(name@) == None::<M>,
            },
    {
        match self.get_field(name) {
            Some(v) => Some(Property::Field(v)),
            None => match self.class.find_method(name) {
                Some(m) => Some(Property::Method(m)),
                None => None,
            },
        }
    }

    /// Gives the field `name` the value `value`.
    pub fn set(&mut self, name: String, value: V)
        requires
            old(self).wf(),
        ensures
            final(self).wf(),
            final(self).class_of() == old(self).class_of(),
            final(self).fields() == old(self).fields().insert(name@, value),
    {
        let ghost names = names_view(self.field_names@);
        let ghost values = self.field_values@;
        match self.find_field(name.as_str()) {
            Some(i) => {
                proof {
                    lemma_table_update(names, values, i as int, value);
                }
                self.field_values.set(i, value);
            },
            None => {
                let ghost n = name@;
                self.field_names.push(name);
                self.field_values.push(value);
                proof {
                    assert(names_view(self.field_names@) =~= names.push(n));
                    assert(names.push(n).drop_last() =~= names);
                    assert(self.field_values@.drop_last() =~= values);
                }
            },
        }
    }
}

/// Replacing the value at the last occurrence of a name is adding that name
/// with the new value.
proof fn lemma_table_update<M>(names: Seq<Seq<char>>, methods: Seq<M>, i: int, m: M)
    requires
        names.len() == methods.len(),
        0 <= i < names.len(),
        forall|j: int| i < j < names.len() ==> names[j] != names[i],
    ensures
        method_table(names, methods.update(i, m)) == method_table(names, methods).insert(names[i], m),
    decreases names.len(),
{
    let n = names.len();
    if i == n - 1 {
        assert(methods.update(i, m).drop_last() =~= methods.drop_last());
        assert(method_table(names, methods.update(i, m)) =~= method_table(names, methods).insert(names[i], m));
    } else {
        lemma_table_update(names.drop_last(), methods.drop_last(), i, m);
        assert(methods.update(i, m).drop_last() =~= methods.drop_last().update(i, m));
        assert(method_table(names, methods.update(i, m)) =~= method_table(names, methods).insert(names[i], m));
    }
}

proof fn lemma_table_absent<M>(names: Seq<Seq<char>>, methods: Seq<M>, k: Seq<char>)
    requires
        names.len() == methods.len(),
        forall|i: int| 0 <= i < names.len() ==> names[i] != k,
    ensures
        !method_table(names, methods).contains_key(k),
    decreases names.len(),
{
    if names.len() > 0 {
        lemma_table_absent(names.drop_last(), methods.drop_last(), k);
    }
}

/// The method at `i` is the one the table holds for its name when no later
/// method has that name.
proof fn lemma_table_last_wins<M>(names: Seq<Seq<char>>, methods: Seq<M>, i: int)
    requires
        names.len() == methods.len(),
        0 <= i < names.len(),
        forall|j: int| i < j < names.len() ==> names[j] != names[i],
    ensures
        method_table(names, methods).contains_key(names[i]),
        method_table(names, methods)[names[i]] == methods[i],
    decreases names.len(),
{
    if i < names.len() - 1 {
        lemma_table_last_wins(names.drop_last(), methods.drop_last(), i);
    }
}

} // verus!
