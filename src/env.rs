//! The environment: a stack of scopes mapping names to values.

use vstd::prelude::*;
use crate::ast::{Ast, Term};
use crate::builtins::{builtin_bindings, builtin_scope};
use crate::host::{Host, HostEvent, opt_text};

verus! {

/// The model of a scope stored as a list of entries: a later entry for a name
/// takes the place of an earlier one.
pub open spec fn scope_map(entries: Seq<(String, Ast)>) -> Map<Seq<char>, Term>
    decreases entries.len(),
{
    if entries.len() == 0 {
        Map::empty()
    } else {
        scope_map(entries.drop_last()).insert(entries.last().0@, entries.last().1@)
    }
}

/// The value that a name has in a stack of scopes: the binding of the innermost
/// scope that binds it.
pub open spec fn lookup(scopes: Seq<Map<Seq<char>, Term>>, name: Seq<char>) -> Option<Term>
    decreases scopes.len(),
{
    if scopes.len() == 0 {
        None
    } else if scopes.last().contains_key(name) {
        Some(scopes.last()[name])
    } else {
        lookup(scopes.drop_last(), name)
    }
}

/// The stack with `name` bound to `value` in its innermost scope.
pub open spec fn bind_innermost(
    scopes: Seq<Map<Seq<char>, Term>>,
    name: Seq<char>,
    value: Term,
) -> Seq<Map<Seq<char>, Term>> {
    scopes.update(scopes.len() - 1, scopes.last().insert(name, value))
}

/// Entries after index `from` never name `name`.
pub open spec fn absent_after(entries: Seq<(String, Ast)>, name: Seq<char>, from: int) -> bool {
    forall|j: int| from <= j < entries.len() ==> #[trigger] entries[j].0@ != name
}

proof fn lemma_scope_prefix(entries: Seq<(String, Ast)>, name: Seq<char>, i: int)
    requires
        0 <= i <= entries.len(),
        absent_after(entries, name, i),
    ensures
        scope_map(entries).contains_key(name) == scope_map(entries.subrange(0, i)).contains_key(name),
        scope_map(entries).contains_key(name) ==> scope_map(entries)[name] == scope_map(entries.subrange(0, i))[name],
    decreases entries.len(),
{
    if i < entries.len() {
        let d = entries.drop_last();
        assert(d.subrange(0, i) =~= entries.subrange(0, i));
        assert(entries[entries.len() - 1].0@ != name);
        lemma_scope_prefix(d, name, i);
    } else {
        assert(entries.subrange(0, i) =~= entries);
    }
}

proof fn lemma_scope_replace(entries: Seq<(String, Ast)>, i: int, entry: (String, Ast))
    requires
        0 <= i < entries.len(),
        entries[i].0@ == entry.0@,
        absent_after(entries, entry.0@, i + 1),
    ensures
        scope_map(entries.update(i, entry)) == scope_map(entries).insert(entry.0@, entry.1@),
    decreases entries.len(),
{
    let u = entries.update(i, entry);
    if i == entries.len() - 1 {
        assert(u.drop_last() =~= entries.drop_last());
        assert(scope_map(u) =~= scope_map(entries).insert(entry.0@, entry.1@));
    } else {
        let d = entries.drop_last();
        assert(u.drop_last() =~= d.update(i, entry));
        assert(entries[entries.len() - 1].0@ != entry.0@);
        lemma_scope_replace(d, i, entry);
        assert(scope_map(u) =~= scope_map(entries).insert(entry.0@, entry.1@));
    }
}

/// The environment that expressions are evaluated in. Its model is the stack
/// of scopes, outermost first; the constructors make one scope, and a
/// scope is removed only where more than one remains.
pub struct Environment {
    scopes: Vec<Vec<(String, Ast)>>,
    trace: Ghost<Seq<HostEvent>>,
}

/// `after` is `before` with events appended.
pub open spec fn extends(before: Seq<HostEvent>, after: Seq<HostEvent>) -> bool {
    before.len() <= after.len() && after.subrange(0, before.len() as int) == before
}

/// The events appended to `before` to make `after`.
pub open spec fn added(before: Seq<HostEvent>, after: Seq<HostEvent>) -> Seq<HostEvent> {
    after.subrange(before.len() as int, after.len() as int)
}

/// Appending in two steps appends the events of both steps.
pub proof fn lemma_added_concat(t0: Seq<HostEvent>, t1: Seq<HostEvent>, t2: Seq<HostEvent>)
    requires
        extends(t0, t1),
        extends(t1, t2),
    ensures
        extends(t0, t2),
        added(t0, t2) == added(t0, t1) + added(t1, t2),
{
    assert(t2.subrange(0, t0.len() as int) =~= t0) by {
        assert forall|i: int| 0 <= i < t0.len() implies t2.subrange(0, t0.len() as int)[i] == t0[i] by {
            assert(t2.subrange(0, t1.len() as int)[i] == t1[i]);
            assert(t1.subrange(0, t0.len() as int)[i] == t0[i]);
        }
    }
    assert(added(t0, t2) =~= added(t0, t1) + added(t1, t2)) by {
        assert forall|i: int| 0 <= i < t1.len() - t0.len() implies added(t0, t2)[i] == added(t0, t1)[i] by {
            assert(t2.subrange(0, t1.len() as int)[t0.len() + i] == t1[t0.len() + i]);
        }
    }
}

impl View for Environment {
    type V = Seq<Map<Seq<char>, Term>>;

    closed spec fn view(&self) -> Seq<Map<Seq<char>, Term>> {
        Seq::new(self.scopes@.len(), |i: int| scope_map(self.scopes@[i]@))
    }
}

impl Environment {
    /// The exchanges with the host made so far, oldest first.
    pub closed spec fn trace(&self) -> Seq<HostEvent> {
        self.trace@
    }

    /// Create an environment with the specified bindings at the outermost scope.
    pub fn with_binds(bindings: Vec<(String, Ast)>) -> (r: Self)
        ensures
            r@ == seq![scope_map(bindings@)],
            r.trace().len() == 0,
    {
        let mut scopes: Vec<Vec<(String, Ast)>> = Vec::new();
        scopes.push(bindings);
        let r = Environment { scopes, trace: Ghost(Seq::empty()) };
        assert(r@ =~= seq![scope_map(bindings@)]);
        r
    }

    /// Create an environment whose only scope binds every builtin.
    pub fn outer_new() -> (r: Self)
        ensures
            r@ == seq![builtin_scope()],
            r.trace().len() == 0,
    {
        Self::with_binds(builtin_bindings())
    }

    /// The number of scopes.
    pub fn scope_count(&self) -> (r: usize)
        ensures
            r == self@.len(),
    {
        self.scopes.len()
    }

    /// Add a scope holding the given bindings; later entries for a name win.
    pub fn new_scope(&mut self, bindings: Vec<(String, Ast)>)
        ensures
            final(self)@ == old(self)@.push(scope_map(bindings@)),
            final(self).trace() == old(self).trace(),
    {
        self.scopes.push(bindings);
        assert(final(self)@ =~= old(self)@.push(scope_map(bindings@)));
    }

    /// Remove the innermost scope. The outermost scope is never removed.
    pub fn pop_scope(&mut self)
        requires
            old(self)@.len() > 1,
        ensures
            final(self)@ == old(self)@.drop_last(),
            final(self).trace() == old(self).trace(),
    {
        self.scopes.pop();
        assert(final(self)@ =~= old(self)@.drop_last());
    }

    /// The value bound to `binding` in the innermost scope that binds it.
    pub fn get(&self, binding: &str) -> (r: Option<Ast>)
        ensures
            r matches Some(v) ==> lookup(self@, binding@) == Some(v@),
            r is None ==> lookup(self@, binding@) is None,
    {
        let name = binding.to_owned();
        let mut k: usize = self.scopes.len();
        assert(self@.subrange(0, k as int) =~= self@);
        while k > 0
            invariant
                k <= self.scopes@.len(),
                name@ == binding@,
                lookup(self@, binding@) == lookup(self@.subrange(0, k as int), binding@),
            decreases k,
        {
            let scope = &self.scopes[k - 1];
            let ghost top = self@.subrange(0, k as int);
            assert(top.last() == scope_map(scope@));
            assert(top.drop_last() =~= self@.subrange(0, k - 1));
            match find_entry(scope, &name) {
                Some(i) => {
                    proof {
                        lemma_scope_prefix(scope@, binding@, i + 1);
                        assert(scope@.subrange(0, i + 1).drop_last() =~= scope@.subrange(0, i as int));
                    }
                    return Some(scope[i].1.duplicate());
                },
                None => {
                    proof {
                        lemma_scope_prefix(scope@, binding@, 0);
                        assert(scope@.subrange(0, 0) =~= Seq::<(String, Ast)>::empty());
                    }
                },
            }
            k = k - 1;
        }
        assert(self@.subrange(0, 0) =~= Seq::<Map<Seq<char>, Term>>::empty());
        None
    }

    /// Bind `binding` to `value` in the innermost scope, replacing a binding of
    /// the same name there. Outer scopes are never changed.
    pub fn bind(&mut self, binding: String, value: Ast)
        requires
            old(self)@.len() >= 1,
        ensures
            final(self)@ == bind_innermost(old(self)@, binding@, value@),
            final(self).trace() == old(self).trace(),
    {
        let mut scope = self.scopes.pop().unwrap();
        let ghost rest = self.scopes@;
        let ghost before = scope@;
        let found = find_entry(&scope, &binding);
        let entry = (binding, value);
        match found {
            Some(i) => {
                proof {
                    lemma_scope_replace(before, i as int, entry);
                }
                scope[i] = entry;
            },
            None => {
                scope.push(entry);
                proof {
                    lemma_scope_prefix(before, entry.0@, 0);
                    assert(scope@.drop_last() =~= before);
                }
            },
        }
        self.scopes.push(scope);
        assert(final(self)@ =~= bind_innermost(old(self)@, entry.0@, entry.1@));
    }
}

impl Environment {
    /// Asks the host to write `text`, and records it.
    pub fn host_put_line<H: Host>(&mut self, host: &mut H, text: &String)
        ensures
            final(self)@ == old(self)@,
            final(self).trace() == old(self).trace().push(HostEvent::Print(text@)),
    {
        host.put_line(text);
        self.trace = Ghost(self.trace@.push(HostEvent::Print(text@)));
    }

    /// Asks the host for a line, and records the request and the reply.
    pub fn host_read_line<H: Host>(&mut self, host: &mut H) -> (r: Option<String>)
        ensures
            final(self)@ == old(self)@,
            final(self).trace() == old(self).trace().push(HostEvent::ReadLine(opt_text(r))),
    {
        let r = host.read_line();
        self.trace = Ghost(self.trace@.push(HostEvent::ReadLine(opt_text(r))));
        r
    }

    /// Asks the host for the text of the file at `path`, and records the
    /// request and the reply.
    pub fn host_read_file<H: Host>(&mut self, host: &mut H, path: &String) -> (r: Option<String>)
        ensures
            final(self)@ == old(self)@,
            final(self).trace() == old(self).trace().push(HostEvent::ReadFile(path@, opt_text(r))),
    {
        let r = host.read_file(path);
        self.trace = Ghost(self.trace@.push(HostEvent::ReadFile(path@, opt_text(r))));
        r
    }

    /// Asks the host to end the program with `code`, and records it.
    pub fn host_exit<H: Host>(&mut self, host: &mut H, code: i64)
        ensures
            final(self)@ == old(self)@,
            final(self).trace() == old(self).trace().push(HostEvent::Exit(code as int)),
    {
        host.exit(code);
        self.trace = Ghost(self.trace@.push(HostEvent::Exit(code as int)));
    }
}

/// The index of the last entry of a scope that names `name`.
fn find_entry(scope: &Vec<(String, Ast)>, name: &String) -> (r: Option<usize>)
    ensures
        r matches Some(i) ==> i < scope@.len() && scope@[i as int].0@ == name@ && absent_after(scope@, name@, i + 1),
        r is None ==> absent_after(scope@, name@, 0),
{
    let mut i: usize = scope.len();
    while i > 0
        invariant
            i <= scope@.len(),
            absent_after(scope@, name@, i as int),
        decreases i,
    {
        if scope[i - 1].0.eq(name) {
            return Some(i - 1);
        }
        i = i - 1;
    }
    None
}

} // verus!
