//! The local context: the free variables in scope, innermost last.

use vstd::prelude::*;
use crate::diagnostics::TextRange;
use crate::ids::{Symbol, Unique};
use crate::term::{BinderInfo, Term};

verus! {

/// A local variable in scope.
#[derive(Debug)]
pub struct LocalBinder {
    pub unique: Unique,
    pub name: Option<Symbol>,
    pub ty: Term,
    pub info: BinderInfo,
    pub value: Option<Term>,
    pub origin: TextRange,
    /// The binder this one shadows by mutation, if any.
    pub parent: Option<Unique>,
}

impl LocalBinder {
    /// A copy of this binder.
    pub fn copy(&self) -> (r: LocalBinder)
        ensures
            r == *self,
    {
        LocalBinder {
            unique: self.unique,
            name: self.name,
            ty: self.ty.copy(),
            info: self.info,
            value: match &self.value {
                Some(v) => Some(v.copy()),
                None => None,
            },
            origin: self.origin,
            parent: self.parent,
        }
    }
}

/// The binders in scope, outermost first.
#[derive(Debug)]
pub struct LocalCtx {
    binders: Vec<LocalBinder>,
}

/// Index of the last binder satisfying `name == Some(n)`, if any.
pub open spec fn last_named(bs: Seq<LocalBinder>, n: Symbol) -> Option<int>
    decreases bs.len(),
{
    if bs.len() == 0 {
        None
    } else if bs.last().name == Some(n) {
        Some(bs.len() - 1)
    } else {
        last_named(bs.drop_last(), n)
    }
}

/// Index of the last binder for free variable `u`, if any.
pub open spec fn last_unique(bs: Seq<LocalBinder>, u: Unique) -> Option<int>
    decreases bs.len(),
{
    if bs.len() == 0 {
        None
    } else if bs.last().unique == u {
        Some(bs.len() - 1)
    } else {
        last_unique(bs.drop_last(), u)
    }
}

pub proof fn lemma_last_unique_facts(bs: Seq<LocalBinder>, u: Unique)
    ensures
        last_unique(bs, u) matches Some(i) ==> 0 <= i < bs.len() && bs[i].unique == u,
        last_unique(bs, u) is None <==> forall|j: int| 0 <= j < bs.len() ==> #[trigger] bs[j].unique != u,
    decreases bs.len(),
{
    if bs.len() > 0 {
        lemma_last_unique_facts(bs.drop_last(), u);
        if bs.last().unique != u {
            assert forall|j: int| 0 <= j < bs.len() - 1 implies #[trigger] bs[j].unique
                == bs.drop_last()[j].unique by {}
        }
    }
}

pub proof fn lemma_last_named_facts(bs: Seq<LocalBinder>, n: Symbol)
    ensures
        last_named(bs, n) matches Some(i) ==> 0 <= i < bs.len() && bs[i].name == Some(n),
        last_named(bs, n) is None <==> forall|j: int| 0 <= j < bs.len() ==> #[trigger] bs[j].name != Some(n),
    decreases bs.len(),
{
    if bs.len() > 0 {
        lemma_last_named_facts(bs.drop_last(), n);
        if bs.last().name != Some(n) {
            assert forall|j: int| 0 <= j < bs.len() - 1 implies #[trigger] bs[j].name
                == bs.drop_last()[j].name by {}
        }
    }
}

impl View for LocalCtx {
    type V = Seq<LocalBinder>;

    closed spec fn view(&self) -> Seq<LocalBinder> {
        self.binders@
    }
}

impl LocalCtx {
    pub fn new() -> (c: LocalCtx)
        ensures
            c@ == Seq::<LocalBinder>::empty(),
    {
        LocalCtx { binders: Vec::new() }
    }

    /// A copy of this context.
    pub fn copy(&self) -> (r: LocalCtx)
        ensures
            r@ == self@,
    {
        let mut out: Vec<LocalBinder> = Vec::new();
        let mut i: usize = 0;
        while i < self.binders.len()
            invariant
                i <= self.binders@.len(),
                out@ == self.binders@.take(i as int),
            decreases self.binders.len() - i,
        {
            out.push(self.binders[i].copy());
            i = i + 1;
            assert(out@ =~= self.binders@.take(i as int));
        }
        assert(self.binders@.take(self.binders@.len() as int) =~= self.binders@);
        LocalCtx { binders: out }
    }

    /// Brings a binder into scope, innermost.
    pub fn push(&mut self, b: LocalBinder) -> (u: Unique)
        ensures
            final(self)@ == old(self)@.push(b),
            u == b.unique,
    {
        let u = b.unique;
        self.binders.push(b);
        u
    }

    /// Drops the innermost binder.
    pub fn pop(&mut self) -> (r: Option<LocalBinder>)
        ensures
            old(self)@.len() == 0 ==> r is None && final(self)@ == old(self)@,
            old(self)@.len() > 0 ==> r == Some(old(self)@.last()) && final(self)@ == old(self)@.drop_last(),
    {
        self.binders.pop()
    }

    /// Number of binders in scope.
    pub fn level(&self) -> (n: usize)
        ensures
            n == self@.len(),
    {
        self.binders.len()
    }

    /// Drops binders until only the outermost `l` remain.
    pub fn pop_to(&mut self, l: usize)
        ensures
            l < old(self)@.len() ==> final(self)@ == old(self)@.take(l as int),
            l >= old(self)@.len() ==> final(self)@ == old(self)@,
    {
        self.binders.truncate(l);
    }

    /// The innermost binder named `name`.
    pub fn find_by_name(&self, name: Symbol) -> (r: Option<&LocalBinder>)
        ensures
            match last_named(self@, name) {
                Some(i) => r == Some(&self@[i]),
                None => r is None,
            },
    {
        let mut i = self.binders.len();
        proof {
            assert(self@.take(i as int) =~= self@);
        }
        while i > 0
            invariant
                i <= self.binders@.len(),
                last_named(self@, name) == last_named(self@.take(i as int), name),
            decreases i,
        {
            if self.binders[i - 1].name == Some(name) {
                proof {
                    assert(self@.take(i as int).last() == self@[i - 1]);
                }
                return Some(&self.binders[i - 1]);
            }
            proof {
                assert(self@.take(i as int).drop_last() =~= self@.take(i - 1));
            }
            i = i - 1;
        }
        None
    }

    /// The innermost binder of free variable `u`.
    pub fn find_by_unique(&self, u: Unique) -> (r: Option<&LocalBinder>)
        ensures
            match last_unique(self@, u) {
                Some(i) => r == Some(&self@[i]),
                None => r is None,
            },
    {
        let mut i = self.binders.len();
        proof {
            assert(self@.take(i as int) =~= self@);
        }
        while i > 0
            invariant
                i <= self.binders@.len(),
                last_unique(self@, u) == last_unique(self@.take(i as int), u),
            decreases i,
        {
            if self.binders[i - 1].unique == u {
                proof {
                    assert(self@.take(i as int).last() == self@[i - 1]);
                }
                return Some(&self.binders[i - 1]);
            }
            proof {
                assert(self@.take(i as int).drop_last() =~= self@.take(i - 1));
            }
            i = i - 1;
        }
        None
    }

    /// The binder at position `i`, outermost first.
    pub fn get(&self, i: usize) -> (b: &LocalBinder)
        requires
            i < self@.len(),
        ensures
            *b == self@[i as int],
    {
        &self.binders[i]
    }

    /// Number of binders in scope.
    pub fn len(&self) -> (n: usize)
        ensures
            n == self@.len(),
    {
        self.binders.len()
    }

    pub fn is_empty(&self) -> (r: bool)
        ensures
            r == (self@.len() == 0),
    {
        self.binders.len() == 0
    }
}

} // verus!
