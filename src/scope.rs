//! Runtime lookup of values by path: a chain of scopes, then the user's state.
use std::rc::Rc;
use vstd::prelude::*;
use crate::values::{share, Path, Value};

verus! {

/// What a path is bound to in a scope: a value, or another path to look up.
#[derive(Debug)]
pub enum ScopeValue {
    Static(Rc<Value>),
    Dyn(Path),
}

/// Bindings of paths, in front of an optional parent scope.
#[derive(Debug)]
pub struct Scope<'a> {
    parent: Option<&'a Scope<'a>>,
    inner: Vec<(Path, ScopeValue)>,
}

/// The binding of `path` in a list of bindings; a later binding wins.
pub open spec fn binding_of(s: Seq<(Path, ScopeValue)>, path: Path) -> Option<ScopeValue>
    decreases s.len(),
{
    if s.len() == 0 {
        None
    } else if s.last().0.same_as(&path) {
        Some(s.last().1)
    } else {
        binding_of(s.drop_last(), path)
    }
}

impl<'a> Scope<'a> {
    pub closed spec fn bindings(&self) -> Seq<(Path, ScopeValue)> {
        self.inner@
    }

    pub closed spec fn parent_scope(&self) -> Option<&'a Scope<'a>> {
        self.parent
    }

    /// The number of bindings in this scope and its ancestors.
    pub closed spec fn total(&self) -> nat
        decreases self,
    {
        self.inner@.len() + match self.parent {
            Some(p) => p.total(),
            None => 0,
        }
    }

    /// How many path-to-path steps a lookup follows.
    pub closed spec fn hop_limit(&self) -> nat {
        if self.total() >= usize::MAX {
            usize::MAX as nat
        } else {
            self.total()
        }
    }

    /// What `path` resolves to: the nearest binding wins; a path bound to
    /// another path is looked up again from the scope that holds it, at most
    /// `hops` times.
    pub closed spec fn resolve(&self, path: Path, hops: nat) -> Option<Value>
        decreases hops, self,
    {
        match binding_of(self.inner@, path) {
            Some(ScopeValue::Static(v)) => Some(*v),
            Some(ScopeValue::Dyn(p)) => if hops == 0 {
                None
            } else {
                self.resolve(p, (hops - 1) as nat)
            },
            None => match self.parent {
                Some(parent) => parent.resolve(path, hops),
                None => None,
            },
        }
    }

    /// A scope with no bindings under `parent`.
    pub fn new(parent: Option<&'a Scope<'_>>) -> (r: Scope<'a>)
        ensures
            r.bindings().len() == 0,
            r.parent_scope() == parent,
    {
        Scope { parent, inner: Vec::new() }
    }

    /// A scope with no bindings under this one.
    pub fn reparent(&self) -> (r: Scope<'_>)
        ensures
            r.bindings().len() == 0,
            r.parent_scope() == Some(self),
    {
        Scope::new(Some(self))
    }

    /// Binds `path` to `value` in this scope.
    pub fn scope(&mut self, path: Path, value: ScopeValue)
        ensures
            final(self).bindings() == old(self).bindings().push((path, value)),
            final(self).parent_scope() == old(self).parent_scope(),
    {
        self.inner.push((path, value));
    }

    /// The value that `path` resolves to. A chain of path-to-path bindings
    /// longer than the number of bindings runs in a circle and gives none.
    pub fn lookup(&self, path: &Path) -> (r: Option<Rc<Value>>)
        ensures
            match r {
                Some(v) => self.resolve(*path, self.hop_limit()) == Some(*v),
                None => self.resolve(*path, self.hop_limit()) is None,
            },
    {
        let hops = self.count();
        self.lookup_with(path, hops)
    }

    fn count(&self) -> (r: usize)
        ensures
            r == self.total() || (r == usize::MAX && self.total() >= usize::MAX),
        decreases self,
    {
        let below = match self.parent {
            Some(p) => p.count(),
            None => 0,
        };
        below.saturating_add(self.inner.len())
    }

    fn lookup_with(&self, path: &Path, hops: usize) -> (r: Option<Rc<Value>>)
        ensures
            match r {
                Some(v) => self.resolve(*path, hops as nat) == Some(*v),
                None => self.resolve(*path, hops as nat) is None,
            },
        decreases hops, self,
    {
        match self.binding(path) {
            Some(ScopeValue::Static(v)) => Some(share(v)),
            Some(ScopeValue::Dyn(p)) => {
                if hops == 0 {
                    None
                } else {
                    self.lookup_with(p, hops - 1)
                }
            },
            None => match self.parent {
                Some(parent) => parent.lookup_with(path, hops),
                None => None,
            },
        }
    }

    fn binding(&self, path: &Path) -> (r: Option<&ScopeValue>)
        ensures
            match binding_of(self.inner@, *path) {
                Some(b) => r == Some(&b),
                None => r is None,
            },
    {
        let mut i = self.inner.len();
        assert(self.inner@.subrange(0, i as int) =~= self.inner@);
        while i > 0
            invariant
                i <= self.inner@.len(),
                binding_of(self.inner@, *path) == binding_of(
                    self.inner@.subrange(0, i as int),
                    *path,
                ),
            decreases i,
        {
            let ghost pre = self.inner@.subrange(0, i as int);
            assert(pre.drop_last() =~= self.inner@.subrange(0, i - 1));
            if self.inner[i - 1].0.same(path) {
                return Some(&self.inner[i - 1].1);
            }
            i -= 1;
        }
        None
    }
}

/// How `resolve` reads: the nearest binding in a scope wins; a path bound to
/// another path is looked up again from that scope with one hop fewer; an
/// unbound path is looked up in the parent.
pub proof fn lemma_resolve_unfold(s: &Scope, path: Path, hops: nat)
    ensures
        s.resolve(path, hops) == match binding_of(s.bindings(), path) {
            Some(ScopeValue::Static(v)) => Some(*v),
            Some(ScopeValue::Dyn(p)) => if hops == 0 {
                None
            } else {
                s.resolve(p, (hops - 1) as nat)
            },
            None => match s.parent_scope() {
                Some(parent) => parent.resolve(path, hops),
                None => None,
            },
        },
        s.total() == s.bindings().len() + match s.parent_scope() {
            Some(parent) => parent.total(),
            None => 0,
        },
        s.hop_limit() == if s.total() >= usize::MAX {
            usize::MAX as nat
        } else {
            s.total()
        },
{
}

/// The identity of a node in the widget tree: its path of child indices.
#[derive(Debug, Clone, PartialEq, Eq, Hash)]
pub struct NodeId(pub Vec<usize>);

/// The data that a template reads: looked up when no scope binds a path.
pub trait State {
    fn get(&self, path: &Path, node_id: Option<&NodeId>) -> Option<Rc<Value>>;
}

/// A scope chain in front of the state.
pub struct Context<'a, S: State> {
    pub state: &'a S,
    pub scope: &'a Scope<'a>,
}

impl<'a, S: State> Context<'a, S> {
    /// A context over `state` and `scope`.
    pub fn new(state: &'a S, scope: &'a Scope<'a>) -> (r: Context<'a, S>)
        ensures
            r.state == state,
            r.scope == scope,
    {
        Context { state, scope }
    }

    /// The value of `path`: from the scope chain if it resolves there, else from the state.
    pub fn lookup(&self, path: &Path, node_id: Option<&NodeId>) -> (r: Option<Rc<Value>>)
        ensures
            self.scope.resolve(*path, self.scope.hop_limit()) matches Some(v) ==> r matches Some(x)
                && *x == v,
    {
        match self.scope.lookup(path) {
            Some(v) => Some(v),
            None => self.state.get(path, node_id),
        }
    }
}

} // verus!
