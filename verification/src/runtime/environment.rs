//! A chain of lexical scopes: each scope maps names to values, remembers which
//! of its names are constants, and owns an optional parent scope. Lookup and
//! assignment walk outward through the chain; declaration touches only the
//! innermost scope.

use vstd::prelude::*;

use crate::runtime::values::RuntimeError;
use crate::runtime::values::RuntimeErrorView;
use crate::runtime::values::RuntimeValue;
use crate::text::str_eq;

verus! {

broadcast use vstd::seq_lib::group_seq_properties;

/// The mathematical content of one scope: its bindings and the set of names
/// declared constant.
pub struct ScopeView {
    pub bindings: Map<Seq<char>, RuntimeValue>,
    pub constants: Set<Seq<char>>,
}

/// The bindings held by an association list, later entries shadowing earlier
/// ones (the well-formed environment never has two entries for one name).
pub closed spec fn bindings_of(entries: Seq<(String, RuntimeValue)>) -> Map<Seq<char>, RuntimeValue>
    decreases entries.len(),
{
    if entries.len() == 0 {
        Map::empty()
    } else {
        bindings_of(entries.drop_last()).insert(entries.last().0@, entries.last().1)
    }
}

/// The set of names held by a list of strings.
pub closed spec fn name_set_of(names: Seq<String>) -> Set<Seq<char>>
    decreases names.len(),
{
    if names.len() == 0 {
        Set::empty()
    } else {
        name_set_of(names.drop_last()).insert(names.last()@)
    }
}

/// No two entries of the association list bind the same name.
pub open spec fn distinct_names(entries: Seq<(String, RuntimeValue)>) -> bool {
    forall|i: int, j: int|
        0 <= i < j < entries.len() ==> entries[i].0@ != entries[j].0@
}

/// The value bound to `name`, searching the innermost scope first.
pub open spec fn spec_lookup(scopes: Seq<ScopeView>, name: Seq<char>) -> Option<RuntimeValue>
    decreases scopes.len(),
{
    if scopes.len() == 0 {
        None
    } else if scopes[0].bindings.contains_key(name) {
        Some(scopes[0].bindings[name])
    } else {
        spec_lookup(scopes.subrange(1, scopes.len() as int), name)
    }
}

/// The scope chain after assigning `value` to `name`: the innermost scope that
/// binds the name is updated, unless that binding is constant or no scope
/// binds the name at all.
pub open spec fn spec_assign(
    scopes: Seq<ScopeView>,
    name: Seq<char>,
    value: RuntimeValue,
) -> Result<Seq<ScopeView>, RuntimeErrorView>
    decreases scopes.len(),
{
    if scopes.len() == 0 {
        Err(RuntimeErrorView::UndeclaredVariable(name))
    } else if scopes[0].bindings.contains_key(name) {
        if scopes[0].constants.contains(name) {
            Err(RuntimeErrorView::AssignedToConstant(name))
        } else {
            Ok(
                scopes.update(
                    0,
                    ScopeView {
                        bindings: scopes[0].bindings.insert(name, value),
                        constants: scopes[0].constants,
                    },
                ),
            )
        }
    } else {
        match spec_assign(scopes.subrange(1, scopes.len() as int), name, value) {
            Ok(rest) => Ok(seq![scopes[0]] + rest),
            Err(e) => Err(e),
        }
    }
}

/// One scope after declaring `name`, or a refusal when the scope already
/// binds it. Declaration never consults the parent chain.
pub open spec fn spec_declare_scope(
    scope: ScopeView,
    name: Seq<char>,
    value: RuntimeValue,
    constant: bool,
) -> Result<ScopeView, RuntimeErrorView> {
    if scope.bindings.contains_key(name) {
        Err(RuntimeErrorView::AlreadyDeclared(name))
    } else {
        Ok(
            ScopeView {
                bindings: scope.bindings.insert(name, value),
                constants: if constant {
                    scope.constants.insert(name)
                } else {
                    scope.constants
                },
            },
        )
    }
}

/// Declaring a name and then looking it up in the same chain yields the
/// declared value.
pub proof fn lemma_declare_then_lookup(
    scopes: Seq<ScopeView>,
    name: Seq<char>,
    value: RuntimeValue,
    constant: bool,
)
    requires
        scopes.len() > 0,
        !scopes[0].bindings.contains_key(name),
    ensures
        spec_declare_scope(scopes[0], name, value, constant) matches Ok(scope)
            && spec_lookup(scopes.update(0, scope), name) == Some(value),
{
    let scope = spec_declare_scope(scopes[0], name, value, constant)->Ok_0;
    assert(scopes.update(0, scope)[0] == scope);
}

/// Declaring a name twice in the same scope is refused the second time, and
/// the scope keeps the first value.
pub proof fn lemma_redeclaration_rejected(
    scope: ScopeView,
    name: Seq<char>,
    first: RuntimeValue,
    second: RuntimeValue,
    first_constant: bool,
    second_constant: bool,
)
    requires
        !scope.bindings.contains_key(name),
    ensures
        spec_declare_scope(scope, name, first, first_constant) matches Ok(declared) && {
            &&& spec_declare_scope(declared, name, second, second_constant) == Err::<
                ScopeView,
                RuntimeErrorView,
            >(RuntimeErrorView::AlreadyDeclared(name))
            &&& declared.bindings[name] == first
        },
{
}

/// A binding declared constant cannot be reassigned, and keeps its value.
pub proof fn lemma_constant_protected(
    scopes: Seq<ScopeView>,
    name: Seq<char>,
    value: RuntimeValue,
    attempted: RuntimeValue,
)
    requires
        scopes.len() > 0,
        !scopes[0].bindings.contains_key(name),
    ensures
        spec_declare_scope(scopes[0], name, value, true) matches Ok(scope) && {
            let declared = scopes.update(0, scope);
            &&& spec_assign(declared, name, attempted) == Err::<Seq<ScopeView>, RuntimeErrorView>(
                RuntimeErrorView::AssignedToConstant(name),
            )
            &&& spec_lookup(declared, name) == Some(value)
        },
{
    let scope = spec_declare_scope(scopes[0], name, value, true)->Ok_0;
    assert(scopes.update(0, scope)[0] == scope);
}

/// A name bound in no scope of the chain cannot be looked up.
pub proof fn lemma_undeclared_lookup_fails(scopes: Seq<ScopeView>, name: Seq<char>)
    requires
        forall|i: int| 0 <= i < scopes.len() ==> !(#[trigger] scopes[i]).bindings.contains_key(
            name,
        ),
    ensures
        spec_lookup(scopes, name) is None,
    decreases scopes.len(),
{
    if scopes.len() > 0 {
        let rest = scopes.subrange(1, scopes.len() as int);
        assert forall|i: int| 0 <= i < rest.len() implies !(#[trigger] rest[i]).bindings.contains_key(
            name,
        ) by {
            assert(rest[i] == scopes[i + 1]);
        }
        lemma_undeclared_lookup_fails(rest, name);
    }
}

/// A binding declared in a child scope is found from that child, while a
/// sibling scope over the same parent chain resolves the name as the parent
/// chain alone would.
pub proof fn lemma_child_scope_isolation(
    parent: Seq<ScopeView>,
    child: ScopeView,
    sibling: ScopeView,
    name: Seq<char>,
    value: RuntimeValue,
    constant: bool,
)
    requires
        !child.bindings.contains_key(name),
        !sibling.bindings.contains_key(name),
    ensures
        spec_declare_scope(child, name, value, constant) matches Ok(declared) && {
            &&& spec_lookup(seq![declared] + parent, name) == Some(value)
            &&& spec_lookup(seq![sibling] + parent, name) == spec_lookup(parent, name)
        },
{
    let declared = spec_declare_scope(child, name, value, constant)->Ok_0;
    assert((seq![declared] + parent)[0] == declared);
    assert((seq![sibling] + parent)[0] == sibling);
    assert((seq![sibling] + parent).subrange(1, (seq![sibling] + parent).len() as int)
        =~= parent);
}

/// A mutable scope chained to an optional parent scope that it owns.
#[derive(Debug)]
pub struct Environment {
    parent: Option<Box<Environment>>,
    variables: Vec<(String, RuntimeValue)>,
    constants: Vec<String>,
}

impl Environment {
    /// The mathematical content of the innermost scope alone.
    pub closed spec fn scope_view(self) -> ScopeView {
        ScopeView {
            bindings: bindings_of(self.variables@),
            constants: name_set_of(self.constants@),
        }
    }

    /// The whole chain, innermost scope first.
    pub closed spec fn scopes(self) -> Seq<ScopeView>
        decreases self,
    {
        match self.parent {
            Some(parent) => seq![self.scope_view()] + parent.scopes(),
            None => seq![self.scope_view()],
        }
    }

    /// Every scope of the chain binds each of its names once.
    pub closed spec fn wf(self) -> bool
        decreases self,
    {
        distinct_names(self.variables@) && match self.parent {
            Some(parent) => parent.wf(),
            None => true,
        }
    }
}

impl View for Environment {
    type V = Seq<ScopeView>;

    open spec fn view(&self) -> Seq<ScopeView> {
        self.scopes()
    }
}

/// The position of `name` in the association list, when some entry binds it.
fn entry_index(entries: &Vec<(String, RuntimeValue)>, name: &str) -> (r: Option<usize>)
    ensures
        match r {
            Some(i) => i < entries@.len() && entries@[i as int].0@ == name@,
            None => forall|i: int| 0 <= i < entries@.len() ==> entries@[i].0@ != name@,
        },
{
    let mut i: usize = 0;
    while i < entries.len()
        invariant
            i <= entries@.len(),
            forall|k: int| 0 <= k < i ==> entries@[k].0@ != name@,
        decreases entries@.len() - i,
    {
        if str_eq(entries[i].0.as_str(), name) {
            return Some(i);
        }
        i += 1;
    }
    None
}

/// Whether the list of constant names holds `name`.
fn constants_contain(names: &Vec<String>, name: &str) -> (r: bool)
    ensures
        r == name_set_of(names@).contains(name@),
{
    let mut i: usize = 0;
    while i < names.len()
        invariant
            i <= names@.len(),
            forall|k: int| 0 <= k < i ==> names@[k]@ != name@,
        decreases names@.len() - i,
    {
        if str_eq(names[i].as_str(), name) {
            proof {
                lemma_name_set_of_contains(names@, name@);
            }
            return true;
        }
        i += 1;
    }
    proof {
        lemma_name_set_of_contains(names@, name@);
    }
    false
}

/// A name is in the set of an association list exactly when some entry binds it.
proof fn lemma_bindings_of_contains(entries: Seq<(String, RuntimeValue)>, name: Seq<char>)
    ensures
        bindings_of(entries).contains_key(name) <==> exists|i: int|
            0 <= i < entries.len() && entries[i].0@ == name,
    decreases entries.len(),
{
    if entries.len() > 0 {
        lemma_bindings_of_contains(entries.drop_last(), name);
        if entries.last().0@ == name {
            assert(entries[entries.len() - 1].0@ == name);
        } else if bindings_of(entries).contains_key(name) {
            let i = choose|i: int| 0 <= i < entries.drop_last().len() && entries.drop_last()[i].0@ == name;
            assert(entries[i].0@ == name);
        } else {
            assert forall|i: int| 0 <= i < entries.len() implies entries[i].0@ != name by {
                if i < entries.len() - 1 {
                    assert(entries.drop_last()[i] == entries[i]);
                }
            }
        }
    }
}

/// With distinct names, the map of an association list sends a bound name to
/// the value of its one entry.
proof fn lemma_bindings_of_value(entries: Seq<(String, RuntimeValue)>, i: int)
    requires
        distinct_names(entries),
        0 <= i < entries.len(),
    ensures
        bindings_of(entries).contains_key(entries[i].0@),
        bindings_of(entries)[entries[i].0@] == entries[i].1,
    decreases entries.len(),
{
    if i == entries.len() - 1 {
    } else {
        assert(entries.drop_last()[i] == entries[i]);
        lemma_bindings_of_value(entries.drop_last(), i);
        assert(entries.last().0@ != entries[i].0@);
    }
}

/// Appending one entry inserts one binding.
proof fn lemma_bindings_of_push(entries: Seq<(String, RuntimeValue)>, entry: (String, RuntimeValue))
    ensures
        bindings_of(entries.push(entry)) == bindings_of(entries).insert(entry.0@, entry.1),
{
    assert(entries.push(entry).drop_last() =~= entries);
    assert(entries.push(entry).last() == entry);
}

/// Appending one name inserts it into the set.
proof fn lemma_name_set_of_push(names: Seq<String>, name: String)
    ensures
        name_set_of(names.push(name)) == name_set_of(names).insert(name@),
{
    assert(names.push(name).drop_last() =~= names);
    assert(names.push(name).last() == name);
}

/// A name is in the set of a name list exactly when some element is it.
proof fn lemma_name_set_of_contains(names: Seq<String>, name: Seq<char>)
    ensures
        name_set_of(names).contains(name) <==> exists|i: int|
            0 <= i < names.len() && names[i]@ == name,
    decreases names.len(),
{
    if names.len() > 0 {
        lemma_name_set_of_contains(names.drop_last(), name);
        if names.last()@ == name {
            assert(names[names.len() - 1]@ == name);
        } else if name_set_of(names).contains(name) {
            let i = choose|i: int| 0 <= i < names.drop_last().len() && names.drop_last()[i]@ == name;
            assert(names[i]@ == name);
        } else {
            assert forall|i: int| 0 <= i < names.len() implies names[i]@ != name by {
                if i < names.len() - 1 {
                    assert(names.drop_last()[i] == names[i]);
                }
            }
        }
    }
}

/// Overwriting the value at one entry, name kept, inserts over the old binding
/// and keeps the names distinct.
proof fn lemma_bindings_of_update(
    entries: Seq<(String, RuntimeValue)>,
    i: int,
    entry: (String, RuntimeValue),
)
    requires
        distinct_names(entries),
        0 <= i < entries.len(),
        entry.0@ == entries[i].0@,
    ensures
        bindings_of(entries.update(i, entry)) =~= bindings_of(entries).insert(entry.0@, entry.1),
        distinct_names(entries.update(i, entry)),
    decreases entries.len(),
{
    if i == entries.len() - 1 {
        assert(entries.update(i, entry).drop_last() =~= entries.drop_last());
        assert(entries.update(i, entry).last() == entry);
    } else {
        assert(entries.update(i, entry).drop_last() =~= entries.drop_last().update(i, entry));
        assert(entries.update(i, entry).last() == entries.last());
        lemma_bindings_of_update(entries.drop_last(), i, entry);
        assert(entries.last().0@ != entry.0@);
    }
}

/// The chain starts with the innermost scope; the rest of it is the parent's
/// chain.
proof fn lemma_scopes_head(env: Environment)
    ensures
        env.scopes().len() >= 1,
        env.scopes()[0] == env.scope_view(),
        env.parent matches Some(p) ==> env.scopes().subrange(
            1,
            env.scopes().len() as int,
        ) =~= p.scopes(),
        env.parent is None ==> env.scopes().subrange(1, env.scopes().len() as int)
            =~= Seq::<ScopeView>::empty(),
{
    match env.parent {
        Some(p) => {
            assert(env.scopes() == seq![env.scope_view()] + p.scopes());
        },
        None => {
            assert(env.scopes() == seq![env.scope_view()]);
        },
    }
}

impl Environment {
    /// A fresh innermost scope over the given parent chain.
    pub fn new(parent_environment: Option<Environment>) -> (env: Environment)
        requires
            parent_environment matches Some(p) ==> p.wf(),
        ensures
            env.wf(),
            env@ == seq![
                ScopeView { bindings: Map::empty(), constants: Set::empty() },
            ] + (match parent_environment {
                Some(p) => p@,
                None => Seq::<ScopeView>::empty(),
            }),
    {
        let env = Environment {
            parent: match parent_environment {
                Some(p) => Some(Box::new(p)),
                None => None,
            },
            variables: Vec::new(),
            constants: Vec::new(),
        };
        proof {
            assert(env.scope_view() == ScopeView {
                bindings: Map::<Seq<char>, RuntimeValue>::empty(),
                constants: Set::<Seq<char>>::empty(),
            });
            if env.parent is None {
                assert(env@ =~= seq![env.scope_view()] + Seq::<ScopeView>::empty());
            }
        }
        env
    }

    /// Binds `name` in the innermost scope only; a second declaration of the
    /// same name in this exact scope is refused, whatever the parents bind.
    pub fn declare_variable(
        &mut self,
        name: String,
        value: RuntimeValue,
        constant: bool,
    ) -> (r: Result<RuntimeValue, RuntimeError>)
        requires
            old(self).wf(),
        ensures
            final(self).wf(),
            match spec_declare_scope(old(self)@[0], name@, value, constant) {
                Ok(scope) => {
                    &&& r matches Ok(v) && v == value
                    &&& final(self)@ =~= old(self)@.update(0, scope)
                },
                Err(e) => {
                    &&& r matches Err(err) && err@ == e
                    &&& *final(self) == *old(self)
                },
            },
    {
        proof {
            lemma_scopes_head(*old(self));
            lemma_bindings_of_contains(self.variables@, name@);
        }
        match entry_index(&self.variables, name.as_str()) {
            Some(_) => Err(RuntimeError::AlreadyDeclared(name)),
            None => {
                if constant {
                    self.constants.push(name.clone());
                }
                self.variables.push((name, value));
                proof {
                    lemma_scopes_head(*self);
                    lemma_bindings_of_push(
                        old(self).variables@,
                        (self.variables@.last().0, value),
                    );
                    if constant {
                        lemma_name_set_of_push(old(self).constants@, self.constants@.last());
                    }
                    assert(self@ =~= old(self)@.update(
                        0,
                        spec_declare_scope(old(self)@[0], self.variables@.last().0@, value, constant)->Ok_0,
                    ));
                }
                Ok(value)
            },
        }
    }

    /// Updates the innermost binding of `name`, walking outward through the
    /// parents; refused when that binding is constant or when no scope binds
    /// the name.
    pub fn assign_variable(&mut self, name: &str, value: RuntimeValue) -> (r: Result<
        RuntimeValue,
        RuntimeError,
    >)
        requires
            old(self).wf(),
        ensures
            final(self).wf(),
            match spec_assign(old(self)@, name@, value) {
                Ok(scopes) => {
                    &&& r matches Ok(v) && v == value
                    &&& final(self)@ =~= scopes
                },
                Err(e) => {
                    &&& r matches Err(err) && err@ == e
                    &&& *final(self) == *old(self)
                },
            },
        decreases *old(self),
    {
        proof {
            lemma_scopes_head(*old(self));
            lemma_bindings_of_contains(self.variables@, name@);
        }
        match entry_index(&self.variables, name) {
            Some(i) => {
                if constants_contain(&self.constants, name) {
                    Err(RuntimeError::AssignedToConstant(name.to_owned()))
                } else {
                    let key = self.variables[i].0.clone();
                    self.variables.set(i, (key, value));
                    proof {
                        lemma_scopes_head(*self);
                        lemma_bindings_of_update(
                            old(self).variables@,
                            i as int,
                            self.variables@[i as int],
                        );
                        assert(self@ =~= spec_assign(old(self)@, name@, value)->Ok_0);
                    }
                    Ok(value)
                }
            },
            None => {
                match self.parent.take() {
                    Some(mut parent) => {
                        let r = (&mut *parent).assign_variable(name, value);
                        self.parent = Some(parent);
                        proof {
                            lemma_scopes_head(*self);
                            assert(old(self)@.subrange(1, old(self)@.len() as int)
                                =~= old(self).parent->Some_0@);
                            if spec_assign(old(self)@, name@, value) is Ok {
                                assert(self@ =~= spec_assign(old(self)@, name@, value)->Ok_0);
                            } else {
                                assert(*self == *old(self));
                            }
                        }
                        r
                    },
                    None => {
                        proof {
                            assert(old(self)@.subrange(1, old(self)@.len() as int)
                                =~= Seq::<ScopeView>::empty());
                            assert(spec_assign(Seq::<ScopeView>::empty(), name@, value)
                                == Err::<Seq<ScopeView>, RuntimeErrorView>(
                                RuntimeErrorView::UndeclaredVariable(name@),
                            ));
                            assert(spec_assign(old(self)@, name@, value) is Err);
                        }
                        Err(RuntimeError::UndeclaredVariable(name.to_owned()))
                    },
                }
            },
        }
    }

    /// Reads the innermost binding of `name`, walking outward through the
    /// parents; refused when no scope binds the name.
    pub fn lookup_variable(&self, name: &str) -> (r: Result<RuntimeValue, RuntimeError>)
        requires
            self.wf(),
        ensures
            match spec_lookup(self@, name@) {
                Some(v) => r matches Ok(value) && value == v,
                None => r matches Err(err) && err@ == RuntimeErrorView::UndeclaredVariable(name@),
            },
        decreases *self,
    {
        proof {
            lemma_scopes_head(*self);
            lemma_bindings_of_contains(self.variables@, name@);
        }
        match entry_index(&self.variables, name) {
            Some(i) => {
                proof {
                    lemma_bindings_of_value(self.variables@, i as int);
                }
                Ok(self.variables[i].1)
            },
            None => {
                match &self.parent {
                    Some(parent) => {
                        proof {
                            assert(self@.subrange(1, self@.len() as int) =~= parent@);
                        }
                        parent.lookup_variable(name)
                    },
                    None => {
                        proof {
                            assert(self@.subrange(1, self@.len() as int)
                                =~= Seq::<ScopeView>::empty());
                            assert(spec_lookup(Seq::<ScopeView>::empty(), name@)
                                is None);
                            assert(spec_lookup(self@, name@) is None);
                        }
                        Err(RuntimeError::UndeclaredVariable(name.to_owned()))
                    },
                }
            },
        }
    }
}

} // verus!
