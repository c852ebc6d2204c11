//! The variables of one function call: nested scopes of names, each bound to
//! a cell that holds its value.
use vstd::prelude::*;
use vstd::string::StringExecFns;

use crate::ast::spec_type_text;
use crate::issues::ScopeManagerIssue;
use crate::text::str_equal;
use crate::value::{spec_value_type, Value};

verus! {

/// Where a variable's value lives: a cell of this call, or a cell of an
/// enclosing call (`frame`, `cell`) that was passed by reference.
#[derive(Debug, Clone, Copy, PartialEq, Eq, Structural)]
pub enum Binding {
    Local(usize),
    Outer(usize, usize),
}

#[derive(Debug)]
pub struct Variable {
    pub name: String,
    pub binding: Binding,
}

/// One block's variables; `base` is how many cells the call had when the
/// block was entered, so leaving it frees the cells made inside.
#[derive(Debug)]
pub struct Scope {
    pub variables: Vec<Variable>,
    pub base: usize,
}

/// The binding of `name` among `vars`, the latest first.
pub open spec fn find_in(vars: Seq<Variable>, name: Seq<char>) -> Option<Binding>
    decreases vars.len(),
{
    if vars.len() == 0 {
        None
    } else if vars.last().name@ == name {
        Some(vars.last().binding)
    } else {
        find_in(vars.drop_last(), name)
    }
}

/// The binding of `name` in nested scopes, the innermost first.
pub open spec fn lookup(scopes: Seq<Scope>, name: Seq<char>) -> Option<Binding>
    decreases scopes.len(),
{
    if scopes.len() == 0 {
        None
    } else {
        match find_in(scopes.last().variables@, name) {
            Some(b) => Some(b),
            None => lookup(scopes.drop_last(), name),
        }
    }
}

/// A local binding names a cell below `limit`.
pub open spec fn local_below(b: Binding, limit: int) -> bool {
    b matches Binding::Local(i) ==> i < limit
}

pub open spec fn not_declared_text(name: Seq<char>) -> Seq<char> {
    "Variable '"@ + name + "' not declared in this scope."@
}

pub open spec fn redeclare_text(name: Seq<char>) -> Seq<char> {
    "Cannot redeclare variable '"@ + name + "'."@
}

pub open spec fn no_scope_text() -> Seq<char> {
    "No scope available to set the variable."@
}

pub open spec fn bad_assign_text(name: Seq<char>, new: Value, old: Value) -> Seq<char> {
    "Cannot assign '"@ + spec_type_text(spec_value_type(new)) + "' to variable '"@ + name
        + "' which was previously declared as '"@ + spec_type_text(spec_value_type(old)) + "'."@
}

fn issue(text: String) -> (e: ScopeManagerIssue)
    ensures
        e.message@ == text@,
{
    ScopeManagerIssue { message: text }
}

pub fn not_declared_error(name: &str) -> (e: ScopeManagerIssue)
    ensures
        e.message@ == not_declared_text(name@),
{
    let mut s = String::from_str("Variable '");
    s.append(name);
    s.append("' not declared in this scope.");
    issue(s)
}

fn redeclare_error(name: &str) -> (e: ScopeManagerIssue)
    ensures
        e.message@ == redeclare_text(name@),
{
    let mut s = String::from_str("Cannot redeclare variable '");
    s.append(name);
    s.append("'.");
    issue(s)
}

fn bad_assign_error(name: &str, new: &Value, old: &Value) -> (e: ScopeManagerIssue)
    ensures
        e.message@ == bad_assign_text(name@, *new, *old),
{
    let mut s = String::from_str("Cannot assign '");
    s.append(new.to_type().text());
    s.append("' to variable '");
    s.append(name);
    s.append("' which was previously declared as '");
    s.append(old.to_type().text());
    s.append("'.");
    issue(s)
}

impl Scope {
    pub fn new(base: usize) -> (s: Scope)
        ensures
            s.variables@.len() == 0,
            s.base == base,
    {
        Scope { variables: Vec::new(), base }
    }

    /// The binding of `searched` in this scope.
    pub fn get_variable(&self, searched: &str) -> (r: Option<Binding>)
        ensures
            r == find_in(self.variables@, searched@),
    {
        let mut j = self.variables.len();
        assert(self.variables@.take(j as int) =~= self.variables@);
        while j > 0
            invariant
                j <= self.variables@.len(),
                find_in(self.variables@, searched@) == find_in(self.variables@.take(j as int), searched@),
            decreases j,
        {
            let ghost prefix = self.variables@.take(j as int);
            assert(prefix.drop_last() =~= self.variables@.take(j - 1));
            if str_equal(self.variables[j - 1].name.as_str(), searched) {
                return Some(self.variables[j - 1].binding);
            }
            j = j - 1;
        }
        None
    }
}

impl Scope {
    /// Binds `name` in this scope; a name already bound here is refused.
    pub fn declare_variable(&mut self, name: &str, binding: Binding) -> (r: Result<(), ScopeManagerIssue>)
        ensures
            final(self).base == old(self).base,
            find_in(old(self).variables@, name@) is Some ==> (r matches Err(e) && e.message@ == redeclare_text(name@)
                && final(self).variables@ == old(self).variables@),
            find_in(old(self).variables@, name@) is None ==> r is Ok && find_in(final(self).variables@, name@) == Some(
                binding,
            ) && final(self).variables@.drop_last() == old(self).variables@,
    {
        match self.get_variable(name) {
            Some(_) => Err(redeclare_error(name)),
            None => {
                self.variables.push(Variable { name: String::from_str(name), binding });
                assert(self.variables@.drop_last() =~= old(self).variables@);
                Ok(())
            },
        }
    }

    /// Stores `value` in the cell, among `cells`, that `name` is bound to
    /// here; the name must be bound here to a cell holding a value of the
    /// same type.
    pub fn assign_variable(&self, cells: &mut Vec<Value>, name: &str, value: Value) -> (r: Result<(), ScopeManagerIssue>)
        ensures
            match find_in(self.variables@, name@) {
                None => r matches Err(e) && e.message@ == "Variable '"@ + name@ + "' not declared."@ && final(cells)@ == old(cells)@,
                Some(Binding::Local(i)) => if i < old(cells)@.len() && spec_value_type(value) == spec_value_type(old(cells)@[i as int]) {
                    r is Ok && final(cells)@ == old(cells)@.update(i as int, value)
                } else {
                    r is Err && final(cells)@ == old(cells)@
                },
                Some(Binding::Outer(_, _)) => r is Err && final(cells)@ == old(cells)@,
            },
    {
        match self.get_variable(name) {
            None => {
                let mut s = String::from_str("Variable '");
                s.append(name);
                s.append("' not declared.");
                Err(issue(s))
            },
            Some(Binding::Local(i)) => {
                if i < cells.len() && cells[i].to_type() == value.to_type() {
                    cells.set(i, value);
                    Ok(())
                } else if i < cells.len() {
                    Err(bad_assign_error(name, &value, &cells[i]))
                } else {
                    Err(not_declared_error(name))
                }
            },
            Some(Binding::Outer(_, _)) => Err(not_declared_error(name)),
        }
    }
}

/// The variables of one call. Scopes nest; cells hold the values of the
/// variables declared in this call.
#[derive(Debug)]
pub struct ScopeManager {
    scopes: Vec<Scope>,
    cells: Vec<Value>,
}

impl ScopeManager {
    /// Scope bases never decrease, none exceeds the number of cells, and each
    /// local cell lies below the base of every later scope.
    pub closed spec fn wf(&self) -> bool {
        let scopes = self.scopes@;
        &&& self.cells@.len() <= usize::MAX
        &&& forall|k: int| 0 <= k < scopes.len() ==> #[trigger] scopes[k].base <= self.cells@.len()
        &&& forall|j: int, k: int| 0 <= j <= k < scopes.len() ==> #[trigger] scopes[j].base <= #[trigger] scopes[k].base
        &&& forall|k: int, j: int|
            0 <= k < scopes.len() && 0 <= j < scopes[k].variables@.len() ==> local_below(
                #[trigger] scopes[k].variables@[j].binding,
                self.cells@.len() as int,
            ) && (k + 1 < scopes.len() ==> local_below(scopes[k].variables@[j].binding, scopes[k + 1].base as int))
    }

    /// The open scopes, the innermost last.
    pub closed spec fn scope_list(&self) -> Seq<Scope> {
        self.scopes@
    }

    /// The binding `name` has in this call, if any.
    pub open spec fn binding_of(&self, name: Seq<char>) -> Option<Binding> {
        lookup(self.scope_list(), name)
    }

    /// Whether some variable of this call has binding `b`.
    pub closed spec fn has_binding(&self, b: Binding) -> bool {
        exists|k: int, j: int|
            0 <= k < self.scopes@.len() && 0 <= j < self.scopes@[k].variables@.len()
                && #[trigger] self.scopes@[k].variables@[j].binding == b
    }

    pub closed spec fn cells(&self) -> Seq<Value> {
        self.cells@
    }

    pub open spec fn scope_count(&self) -> nat {
        self.scope_list().len()
    }

    /// The bindings of the scopes left after the innermost one is closed.
    pub open spec fn outer_binding_of(&self, name: Seq<char>) -> Option<Binding> {
        if self.scope_list().len() == 0 {
            None
        } else {
            lookup(self.scope_list().drop_last(), name)
        }
    }

    proof fn lemma_lookup_has(scopes: Seq<Scope>, name: Seq<char>)
        requires
            lookup(scopes, name) is Some,
        ensures
            exists|k: int, j: int|
                0 <= k < scopes.len() && 0 <= j < scopes[k].variables@.len()
                    && #[trigger] scopes[k].variables@[j].binding == lookup(scopes, name)->0,
        decreases scopes.len(),
    {
        let last = scopes.last().variables@;
        if find_in(last, name) is Some {
            Self::lemma_find_has(last, name);
            let j = choose|j: int| 0 <= j < last.len() && last[j].binding == find_in(last, name)->0;
            assert(scopes[scopes.len() - 1].variables@[j].binding == lookup(scopes, name)->0);
        } else {
            Self::lemma_lookup_has(scopes.drop_last(), name);
            let (k, j) = choose|k: int, j: int|
                0 <= k < scopes.drop_last().len() && 0 <= j < scopes.drop_last()[k].variables@.len()
                    && #[trigger] scopes.drop_last()[k].variables@[j].binding == lookup(scopes.drop_last(), name)->0;
            assert(scopes[k].variables@[j].binding == lookup(scopes, name)->0);
        }
    }

    proof fn lemma_find_has(vars: Seq<Variable>, name: Seq<char>)
        requires
            find_in(vars, name) is Some,
        ensures
            exists|j: int| 0 <= j < vars.len() && #[trigger] vars[j].binding == find_in(vars, name)->0,
        decreases vars.len(),
    {
        if vars.last().name@ == name {
            assert(vars[vars.len() - 1].binding == find_in(vars, name)->0);
        } else {
            Self::lemma_find_has(vars.drop_last(), name);
            let j = choose|j: int| 0 <= j < vars.drop_last().len() && #[trigger] vars.drop_last()[j].binding == find_in(vars.drop_last(), name)->0;
            assert(vars[j].binding == find_in(vars, name)->0);
        }
    }

    /// A bound name's binding is one of the bindings of the call; a local one
    /// names an existing cell.
    pub proof fn lemma_binding_valid(&self, name: Seq<char>)
        requires
            self.wf(),
            self.binding_of(name) is Some,
        ensures
            self.has_binding(self.binding_of(name)->0),
            self.binding_of(name) matches Some(Binding::Local(i)) ==> i < self.cells().len(),
    {
        Self::lemma_lookup_has(self.scopes@, name);
    }

    pub proof fn lemma_cells_bounded(&self)
        requires
            self.wf(),
        ensures
            self.cells().len() <= usize::MAX,
    {
    }

    /// A call with one empty scope.
    pub fn new() -> (m: ScopeManager)
        ensures
            m.wf(),
            m.scope_count() == 1,
            m.cells().len() == 0,
            forall|name: Seq<char>| m.binding_of(name) is None,
            forall|b: Binding| !m.has_binding(b),
    {
        let mut scopes = Vec::new();
        scopes.push(Scope::new(0));
        let m = ScopeManager { scopes, cells: Vec::new() };
        assert forall|name: Seq<char>| m.binding_of(name) is None by {
            assert(m.scopes@.drop_last().len() == 0);
            assert(m.scopes@.last().variables@.len() == 0);
            assert(find_in(m.scopes@.last().variables@, name) is None);
            assert(lookup(m.scopes@.drop_last(), name) is None);
            assert(lookup(m.scopes@, name) is None);
        }
        m
    }

    /// Opens a scope inside the innermost one.
    pub fn push_scope(&mut self)
        requires
            old(self).wf(),
        ensures
            final(self).wf(),
            final(self).scope_count() == old(self).scope_count() + 1,
            final(self).scope_list().drop_last() == old(self).scope_list(),
            final(self).cells() == old(self).cells(),
            forall|name: Seq<char>| #[trigger] final(self).binding_of(name) == old(self).binding_of(name),
            forall|name: Seq<char>| #[trigger] final(self).outer_binding_of(name) == old(self).binding_of(name),
            forall|b: Binding| #[trigger] final(self).has_binding(b) == old(self).has_binding(b),
    {
        let base = self.cells.len();
        self.scopes.push(Scope::new(base));
        assert(self.scopes@.drop_last() =~= old(self).scopes@);
        assert forall|name: Seq<char>| #[trigger] self.binding_of(name) == old(self).binding_of(name) by {
            assert(find_in(self.scopes@.last().variables@, name) is None);
        }
        assert forall|b: Binding| #[trigger] self.has_binding(b) == old(self).has_binding(b) by {
            if old(self).has_binding(b) {
                let (k, j) = choose|k: int, j: int|
                    0 <= k < old(self).scopes@.len() && 0 <= j < old(self).scopes@[k].variables@.len()
                        && #[trigger] old(self).scopes@[k].variables@[j].binding == b;
                assert(self.scopes@[k].variables@[j].binding == b);
            }
        }
    }

    /// Closes the innermost scope: its variables are forgotten and the
    /// cells made since it opened are freed.
    pub fn pop_scope(&mut self)
        requires
            old(self).wf(),
        ensures
            final(self).wf(),
            old(self).scope_count() > 0 ==> final(self).scope_count() == old(self).scope_count() - 1,
            old(self).scope_count() == 0 ==> final(self).scope_count() == 0,
            old(self).scope_count() > 0 ==> final(self).scope_list() == old(self).scope_list().drop_last(),
            old(self).scope_count() == 0 ==> final(self).scope_list() == old(self).scope_list(),
            final(self).cells() == old(self).cells().take(final(self).cells().len() as int),
            final(self).cells().len() <= old(self).cells().len(),
            forall|name: Seq<char>| #[trigger] final(self).binding_of(name) == old(self).outer_binding_of(name),
            forall|name: Seq<char>| #[trigger] final(self).binding_of(name) matches Some(Binding::Local(i)) ==> i < final(self).cells().len(),
            forall|b: Binding| #[trigger] final(self).has_binding(b) ==> old(self).has_binding(b),
    {
        if self.scopes.len() > 0 {
            let top = self.scopes.pop().unwrap();
            self.cells.truncate(top.base);
            assert(self.scopes@ =~= old(self).scopes@.drop_last());
            assert forall|b: Binding| #[trigger] self.has_binding(b) implies old(self).has_binding(b) by {
                let (k, j) = choose|k: int, j: int|
                    0 <= k < self.scopes@.len() && 0 <= j < self.scopes@[k].variables@.len()
                        && #[trigger] self.scopes@[k].variables@[j].binding == b;
                assert(old(self).scopes@[k].variables@[j].binding == b);
            }
            assert forall|k: int, j: int|
                0 <= k < self.scopes@.len() && 0 <= j < self.scopes@[k].variables@.len() implies local_below(
                    #[trigger] self.scopes@[k].variables@[j].binding,
                    self.cells@.len() as int,
                ) && (k + 1 < self.scopes@.len() ==> local_below(self.scopes@[k].variables@[j].binding, self.scopes@[k + 1].base as int)) by {
                assert(old(self).scopes@[k].variables@[j] == self.scopes@[k].variables@[j]);
                assert(old(self).scopes@[k + 1].base <= old(self).scopes@[old(self).scopes@.len() - 1].base);
            }
        } else {
            assert(self.cells@.take(self.cells@.len() as int) =~= self.cells@);
        }
        assert forall|name: Seq<char>| #[trigger] self.binding_of(name) is Some implies (self.binding_of(name) matches Some(Binding::Local(i))
            ==> i < self.cells().len()) by {
            self.lemma_binding_valid(name);
        }
    }

    /// The binding of `searched`, the innermost scope first.
    pub fn get_variable(&self, searched: &str) -> (r: Result<Binding, ScopeManagerIssue>)
        ensures
            match self.binding_of(searched@) {
                Some(b) => r == Ok::<Binding, ScopeManagerIssue>(b),
                None => r matches Err(e) && e.message@ == not_declared_text(searched@),
            },
    {
        let mut k = self.scopes.len();
        assert(self.scopes@.take(k as int) =~= self.scopes@);
        while k > 0
            invariant
                k <= self.scopes@.len(),
                lookup(self.scopes@, searched@) == lookup(self.scopes@.take(k as int), searched@),
            decreases k,
        {
            let ghost prefix = self.scopes@.take(k as int);
            assert(prefix.drop_last() =~= self.scopes@.take(k - 1));
            match self.scopes[k - 1].get_variable(searched) {
                Some(b) => {
                    return Ok(b);
                },
                None => {},
            }
            k = k - 1;
        }
        Err(not_declared_error(searched))
    }

    fn bind(&mut self, name: &str, binding: Binding)
        requires
            old(self).scope_count() > 0,
        ensures
            final(self).scopes@.len() == old(self).scopes@.len(),
            final(self).cells@ == old(self).cells@,
            forall|k: int| 0 <= k < final(self).scopes@.len() ==> #[trigger] final(self).scopes@[k].base == old(self).scopes@[k].base,
            forall|k: int|
                0 <= k < final(self).scopes@.len() - 1 ==> #[trigger] final(self).scopes@[k] == old(self).scopes@[k],
            final(self).scopes@.last().variables@ == old(self).scopes@.last().variables@.push(
                Variable { name: final(self).scopes@.last().variables@.last().name, binding },
            ),
            final(self).scopes@.last().variables@.last().name@ == name@,
    {
        let mut top = self.scopes.pop().unwrap();
        top.variables.push(Variable { name: String::from_str(name), binding });
        self.scopes.push(top);
    }

    proof fn lemma_bind(old_m: ScopeManager, new_m: ScopeManager, name: Seq<char>, binding: Binding)
        requires
            old_m.scopes@.len() > 0,
            new_m.scopes@.len() == old_m.scopes@.len(),
            forall|k: int| 0 <= k < new_m.scopes@.len() - 1 ==> #[trigger] new_m.scopes@[k] == old_m.scopes@[k],
            new_m.scopes@.last().variables@.len() == old_m.scopes@.last().variables@.len() + 1,
            new_m.scopes@.last().variables@.drop_last() == old_m.scopes@.last().variables@,
            new_m.scopes@.last().variables@.last().name@ == name,
            new_m.scopes@.last().variables@.last().binding == binding,
        ensures
            lookup(new_m.scopes@, name) == Some(binding),
            forall|other: Seq<char>| other != name ==> #[trigger] lookup(new_m.scopes@, other) == lookup(old_m.scopes@, other),
            forall|b: Binding| #[trigger] new_m.has_binding(b) ==> old_m.has_binding(b) || b == binding,
    {
        assert(new_m.scopes@.drop_last() =~= old_m.scopes@.drop_last());
        assert forall|b: Binding| #[trigger] new_m.has_binding(b) implies old_m.has_binding(b) || b == binding by {
            let (k, j) = choose|k: int, j: int|
                0 <= k < new_m.scopes@.len() && 0 <= j < new_m.scopes@[k].variables@.len()
                    && #[trigger] new_m.scopes@[k].variables@[j].binding == b;
            if k < new_m.scopes@.len() - 1 {
                assert(old_m.scopes@[k].variables@[j].binding == b);
            } else if j < old_m.scopes@.last().variables@.len() {
                assert(new_m.scopes@.last().variables@.drop_last()[j] == new_m.scopes@.last().variables@[j]);
                assert(old_m.scopes@[k].variables@[j].binding == b);
            }
        }
    }

    /// Declares `name` in the innermost scope with a new cell holding
    /// `value`. A name already visible in this call is refused.
    pub fn declare_variable(&mut self, name: &str, value: Value) -> (r: Result<(), ScopeManagerIssue>)
        requires
            old(self).wf(),
        ensures
            final(self).wf(),
            final(self).scope_count() == old(self).scope_count(),
            final(self).scope_list().drop_last() == old(self).scope_list().drop_last(),
            old(self).binding_of(name@) is Some ==> (r matches Err(e) && e.message@ == redeclare_text(name@)),
            old(self).binding_of(name@) is None && old(self).scope_count() == 0 ==> (r matches Err(e) && e.message@
                == no_scope_text()),
            old(self).binding_of(name@) is None && old(self).scope_count() > 0 <==> r is Ok,
            r is Err ==> *final(self) == *old(self),
            r is Ok ==> {
                &&& final(self).cells() == old(self).cells().push(value)
                &&& final(self).binding_of(name@) == Some(Binding::Local(old(self).cells().len() as usize))
                &&& forall|other: Seq<char>| other != name@ ==> #[trigger] final(self).binding_of(other) == old(self).binding_of(other)
                &&& forall|b: Binding| #[trigger] final(self).has_binding(b) ==> old(self).has_binding(b) || b == Binding::Local(old(self).cells().len() as usize)
                &&& forall|other: Seq<char>| #[trigger] final(self).outer_binding_of(other) == old(self).outer_binding_of(other)
            },
    {
        match self.get_variable(name) {
            Ok(_) => {
                return Err(redeclare_error(name));
            },
            Err(_) => {},
        }
        if self.scopes.len() == 0 {
            return Err(issue(String::from_str("No scope available to set the variable.")));
        }
        let ghost old_m = *self;
        let cell = self.cells.len();
        self.bind(name, Binding::Local(cell));
        self.cells.push(value);
        let _ = self.cells.len();
        proof {
            assert(self.scopes@.last().variables@.drop_last() =~= old_m.scopes@.last().variables@);
            Self::lemma_bind(old_m, *self, name@, Binding::Local(cell));
            let n = self.scopes@.len();
            assert forall|k: int, j: int|
                0 <= k < n && 0 <= j < self.scopes@[k].variables@.len() implies local_below(
                    #[trigger] self.scopes@[k].variables@[j].binding,
                    self.cells@.len() as int,
                ) && (k + 1 < n ==> local_below(self.scopes@[k].variables@[j].binding, self.scopes@[k + 1].base as int)) by {
                if k < n - 1 {
                    assert(old_m.scopes@[k].variables@[j] == self.scopes@[k].variables@[j]);
                } else if j < old_m.scopes@.last().variables@.len() {
                    assert(self.scopes@.last().variables@.drop_last()[j] == self.scopes@.last().variables@[j]);
                    assert(old_m.scopes@[k].variables@[j] == self.scopes@[k].variables@[j]);
                }
            }
        }
        assert(self.scopes@.drop_last() =~= old_m.scopes@.drop_last());
        Ok(())
    }

    /// Declares `name` in the innermost scope as another name for the cell
    /// `cell` of the enclosing call `frame`.
    pub fn declare_reference(&mut self, name: &str, frame: usize, cell: usize) -> (r: Result<(), ScopeManagerIssue>)
        requires
            old(self).wf(),
        ensures
            final(self).wf(),
            final(self).scope_count() == old(self).scope_count(),
            final(self).scope_list().drop_last() == old(self).scope_list().drop_last(),
            final(self).cells() == old(self).cells(),
            old(self).binding_of(name@) is Some ==> (r matches Err(e) && e.message@ == redeclare_text(name@)),
            old(self).binding_of(name@) is None && old(self).scope_count() == 0 ==> (r matches Err(e) && e.message@
                == no_scope_text()),
            old(self).binding_of(name@) is None && old(self).scope_count() > 0 <==> r is Ok,
            r is Err ==> *final(self) == *old(self),
            r is Ok ==> {
                &&& final(self).binding_of(name@) == Some(Binding::Outer(frame, cell))
                &&& forall|other: Seq<char>| other != name@ ==> #[trigger] final(self).binding_of(other) == old(self).binding_of(other)
                &&& forall|b: Binding| #[trigger] final(self).has_binding(b) ==> old(self).has_binding(b) || b == Binding::Outer(frame, cell)
                &&& forall|other: Seq<char>| #[trigger] final(self).outer_binding_of(other) == old(self).outer_binding_of(other)
            },
    {
        match self.get_variable(name) {
            Ok(_) => {
                return Err(redeclare_error(name));
            },
            Err(_) => {},
        }
        if self.scopes.len() == 0 {
            return Err(issue(String::from_str("No scope available to set the variable.")));
        }
        let ghost old_m = *self;
        self.bind(name, Binding::Outer(frame, cell));
        proof {
            assert(self.scopes@.last().variables@.drop_last() =~= old_m.scopes@.last().variables@);
            Self::lemma_bind(old_m, *self, name@, Binding::Outer(frame, cell));
            let n = self.scopes@.len();
            assert forall|k: int, j: int|
                0 <= k < n && 0 <= j < self.scopes@[k].variables@.len() implies local_below(
                    #[trigger] self.scopes@[k].variables@[j].binding,
                    self.cells@.len() as int,
                ) && (k + 1 < n ==> local_below(self.scopes@[k].variables@[j].binding, self.scopes@[k + 1].base as int)) by {
                if k < n - 1 {
                    assert(old_m.scopes@[k].variables@[j] == self.scopes@[k].variables@[j]);
                } else if j < old_m.scopes@.last().variables@.len() {
                    assert(self.scopes@.last().variables@.drop_last()[j] == self.scopes@.last().variables@[j]);
                    assert(old_m.scopes@[k].variables@[j] == self.scopes@[k].variables@[j]);
                }
            }
        }
        assert(self.scopes@.drop_last() =~= old_m.scopes@.drop_last());
        Ok(())
    }

    /// How many cells this call has.
    pub fn cell_count(&self) -> (n: usize)
        ensures
            n == self.cells().len(),
    {
        self.cells.len()
    }

    /// The value in cell `cell` of this call.
    pub fn read_cell(&self, cell: usize) -> (v: Value)
        requires
            cell < self.cells().len(),
        ensures
            v == self.cells()[cell as int],
    {
        self.cells[cell].duplicate()
    }

    /// Stores `value` in cell `cell` of this call, which `name` denotes; a
    /// value of another type than the one held is refused.
    pub fn write_cell(&mut self, name: &str, cell: usize, value: Value) -> (r: Result<(), ScopeManagerIssue>)
        requires
            old(self).wf(),
            cell < old(self).cells().len(),
        ensures
            final(self).wf(),
            final(self).scope_list() == old(self).scope_list(),
            forall|b: Binding| #[trigger] final(self).has_binding(b) == old(self).has_binding(b),
            spec_value_type(value) == spec_value_type(old(self).cells()[cell as int]) <==> r is Ok,
            r is Ok ==> final(self).cells() == old(self).cells().update(cell as int, value),
            r is Err ==> *final(self) == *old(self),
            r matches Err(e) ==> e.message@ == bad_assign_text(name@, value, old(self).cells()[cell as int]),
    {
        if value.to_type() != self.cells[cell].to_type() {
            return Err(bad_assign_error(name, &value, &self.cells[cell]));
        }
        self.cells.set(cell, value);
        Ok(())
    }

    /// Assigns to a variable of this call: `name` must be declared and the
    /// value must keep its type.
    pub fn assign_variable(&mut self, name: &str, value: Value) -> (r: Result<(), ScopeManagerIssue>)
        requires
            old(self).wf(),
            !(old(self).binding_of(name@) matches Some(Binding::Outer(_, _))),
        ensures
            final(self).wf(),
            final(self).scope_count() == old(self).scope_count(),
            final(self).scope_list() == old(self).scope_list(),
            forall|n: Seq<char>| #[trigger] final(self).binding_of(n) == old(self).binding_of(n),
            forall|n: Seq<char>| #[trigger] final(self).outer_binding_of(n) == old(self).outer_binding_of(n),
            r is Err ==> *final(self) == *old(self),
            match old(self).binding_of(name@) {
                None => r matches Err(e) && e.message@ == not_declared_text(name@),
                Some(Binding::Local(i)) => {
                    &&& (spec_value_type(value) == spec_value_type(old(self).cells()[i as int]) <==> r is Ok)
                    &&& r is Ok ==> final(self).cells() == old(self).cells().update(i as int, value)
                    &&& r matches Err(e) ==> e.message@ == bad_assign_text(name@, value, old(self).cells()[i as int])
                },
                Some(Binding::Outer(_, _)) => false,
            },
    {
        match self.get_variable(name) {
            Ok(Binding::Local(i)) => {
                proof {
                    self.lemma_binding_valid(name@);
                }
                self.write_cell(name, i, value)
            },
            Ok(Binding::Outer(_, _)) => {
                proof {
                    assert(false);
                }
                Err(not_declared_error(name))
            },
            Err(e) => Err(e),
        }
    }

    /// How many scopes are open.
    pub fn len(&self) -> (n: u32)
        requires
            self.scope_count() <= u32::MAX,
        ensures
            n == self.scope_count(),
    {
        self.scopes.len() as u32
    }
}

} // verus!
