//! The metavariable context: the holes created during elaboration, their
//! types and scopes, and the solutions found for them by unification.

use vstd::prelude::*;
use crate::ids::Unique;
use crate::local::{LocalBinder, LocalCtx};
use crate::occurs::{acyclic, lemma_acyclic_push};
use crate::term::Term;
use crate::unify::spec_contains_mvar;

verus! {

/// A metavariable: a hole of type `ty` whose solution may only mention the
/// locals of `lctx`.
#[derive(Debug)]
pub struct Meta {
    pub id: Unique,
    pub ty: Term,
    pub lctx: LocalCtx,
}

/// The solution recorded for `u` in `sols`, the first entry for it.
pub open spec fn lookup(sols: Seq<(Unique, Term)>, u: Unique) -> Option<Term>
    decreases sols.len(),
{
    if sols.len() == 0 {
        None
    } else if sols[0].0 == u {
        Some(sols[0].1)
    } else {
        lookup(sols.drop_first(), u)
    }
}

/// What the specifications see of a metavariable: its id, its type and the
/// locals of its scope.
pub type MetaView = (Unique, Term, Seq<LocalBinder>);

/// Index of the first metavariable with id `u`.
pub open spec fn find_meta(metas: Seq<MetaView>, u: Unique) -> Option<int>
    decreases metas.len(),
{
    if metas.len() == 0 {
        None
    } else if metas[0].0 == u {
        Some(0)
    } else {
        match find_meta(metas.drop_first(), u) {
            Some(i) => Some(i + 1),
            None => None,
        }
    }
}

/// No metavariable is solved twice.
pub open spec fn keys_distinct(sols: Seq<(Unique, Term)>) -> bool {
    forall|i: int, j: int|
        0 <= i < sols.len() && 0 <= j < sols.len() && i != j ==> #[trigger] sols[i].0
            != #[trigger] sols[j].0
}

pub proof fn lemma_lookup_push(sols: Seq<(Unique, Term)>, u: Unique, v: Term, w: Unique)
    requires
        lookup(sols, u) is None,
    ensures
        lookup(sols.push((u, v)), w) == if w == u {
            Some(v)
        } else {
            lookup(sols, w)
        },
    decreases sols.len(),
{
    if sols.len() > 0 {
        assert(sols.push((u, v)).drop_first() =~= sols.drop_first().push((u, v)));
        assert(sols.push((u, v))[0] == sols[0]);
        if sols[0].0 != w {
            lemma_lookup_push(sols.drop_first(), u, v, w);
            assert(lookup(sols.push((u, v)), w) == lookup(sols.drop_first().push((u, v)), w));
        }
    } else {
        assert(sols.push((u, v)).drop_first() =~= Seq::<(Unique, Term)>::empty());
        assert(sols.push((u, v))[0] == (u, v));
        assert(lookup(Seq::<(Unique, Term)>::empty(), w) is None);
    }
}

pub proof fn lemma_lookup_facts(sols: Seq<(Unique, Term)>, u: Unique)
    ensures
        lookup(sols, u) is None <==> forall|i: int| 0 <= i < sols.len() ==> #[trigger] sols[i].0 != u,
        lookup(sols, u) is Some ==> exists|i: int|
            0 <= i < sols.len() && #[trigger] sols[i].0 == u && sols[i].1 == lookup(sols, u).unwrap(),
    decreases sols.len(),
{
    if sols.len() > 0 {
        lemma_lookup_facts(sols.drop_first(), u);
        if sols[0].0 != u {
            assert forall|i: int| 1 <= i < sols.len() implies #[trigger] sols[i].0 == sols.drop_first()[i - 1].0 by {}
            if lookup(sols, u) is Some {
                let i = choose|i: int|
                    0 <= i < sols.drop_first().len() && #[trigger] sols.drop_first()[i].0 == u
                        && sols.drop_first()[i].1 == lookup(sols, u).unwrap();
                assert(sols[i + 1] == sols.drop_first()[i]);
            }
        }
    }
}

pub proof fn lemma_find_meta_facts(metas: Seq<MetaView>, u: Unique)
    ensures
        find_meta(metas, u) matches Some(i) ==> 0 <= i < metas.len() && metas[i].0 == u,
    decreases metas.len(),
{
    if metas.len() > 0 && metas[0].0 != u {
        lemma_find_meta_facts(metas.drop_first(), u);
    }
}

/// All metavariables and the solutions assigned so far.
#[derive(Debug)]
pub struct MetaCtx {
    metas: Vec<Meta>,
    solutions: Vec<(Unique, Term)>,
}

impl MetaCtx {
    /// The registered metavariables, oldest first.
    pub closed spec fn metas(&self) -> Seq<MetaView> {
        self.metas@.map_values(|m: Meta| (m.id, m.ty, m.lctx@))
    }

    /// The solutions, oldest first.
    pub closed spec fn solutions(&self) -> Seq<(Unique, Term)> {
        self.solutions@
    }

    pub open spec fn solution(&self, u: Unique) -> Option<Term> {
        lookup(self.solutions(), u)
    }

    /// No hole is solved twice, and no chain of solutions leads back to the
    /// hole it started from.
    pub open spec fn wf(&self) -> bool {
        &&& keys_distinct(self.solutions())
        &&& acyclic(self.solutions())
    }

    pub fn new() -> (m: MetaCtx)
        ensures
            m.metas() == Seq::<MetaView>::empty(),
            m.solutions() == Seq::<(Unique, Term)>::empty(),
            m.wf(),
    {
        MetaCtx { metas: Vec::new(), solutions: Vec::new() }
    }

    /// Registers a new hole.
    pub fn register_meta(&mut self, id: Unique, ty: Term, lctx: LocalCtx)
        ensures
            final(self).metas() == old(self).metas().push((id, ty, lctx@)),
            final(self).solutions() == old(self).solutions(),
    {
        let ghost before = self.metas@;
        let ghost v = lctx@;
        self.metas.push(Meta { id, ty, lctx });
        assert(self.metas@.map_values(|m: Meta| (m.id, m.ty, m.lctx@)) =~= before.map_values(
            |m: Meta| (m.id, m.ty, m.lctx@),
        ).push((id, ty, v)));
    }

    /// Records the solution of a hole that has none yet, with a value in
    /// which the hole does not occur.
    pub fn solve_meta(&mut self, id: Unique, value: Term)
        requires
            old(self).wf(),
            old(self).solution(id) is None,
            !spec_contains_mvar(old(self).solutions(), id, value, Seq::empty()),
        ensures
            final(self).wf(),
            final(self).metas() == old(self).metas(),
            final(self).solutions() == old(self).solutions().push((id, value)),
            forall|u: Unique| #[trigger] final(self).solution(u) == if u == id {
                Some(value)
            } else {
                old(self).solution(u)
            },
    {
        proof {
            lemma_lookup_facts(self.solutions@, id);
            lemma_acyclic_push(self.solutions@, id, value);
        }
        let ghost before = self.solutions@;
        self.solutions.push((id, value));
        proof {
            assert forall|u: Unique| #[trigger] lookup(self.solutions@, u) == if u == id {
                Some(value)
            } else {
                lookup(before, u)
            } by {
                lemma_lookup_push(before, id, value, u);
            }
            assert forall|i: int, j: int|
                0 <= i < self.solutions@.len() && 0 <= j < self.solutions@.len() && i != j
                    implies #[trigger] self.solutions@[i].0 != #[trigger] self.solutions@[j].0 by {
                if i < before.len() && j < before.len() {
                    assert(self.solutions@[i] == before[i]);
                    assert(self.solutions@[j] == before[j]);
                } else if i < before.len() {
                    assert(self.solutions@[i] == before[i]);
                } else if j < before.len() {
                    assert(self.solutions@[j] == before[j]);
                }
            }
        }
    }

    /// Whether `id` has a solution.
    pub fn is_solved(&self, id: Unique) -> (r: bool)
        ensures
            r == (self.solution(id) is Some),
    {
        match self.get_solution(id) {
            Some(_) => true,
            None => false,
        }
    }

    /// The hole registered under `id`.
    pub fn get_meta(&self, id: Unique) -> (r: Option<&Meta>)
        ensures
            match find_meta(self.metas(), id) {
                Some(i) => r matches Some(m) && (m.id, m.ty, m.lctx@) == self.metas()[i],
                None => r is None,
            },
    {
        let mut i: usize = 0;
        proof {
            assert(self.metas().skip(0) =~= self.metas());
        }
        while i < self.metas.len()
            invariant
                i <= self.metas@.len(),
                find_meta(self.metas(), id) == match find_meta(self.metas().skip(i as int), id) {
                    Some(k) => Some(k + i),
                    None => None,
                },
            decreases self.metas.len() - i,
        {
            if self.metas[i].id == id {
                return Some(&self.metas[i]);
            }
            proof {
                assert(self.metas().skip(i as int).drop_first() =~= self.metas().skip(i + 1));
            }
            i = i + 1;
        }
        None
    }

    /// The solution of `id`, if it has one.
    pub fn get_solution(&self, id: Unique) -> (r: Option<&Term>)
        ensures
            match self.solution(id) {
                Some(v) => r == Some(&v),
                None => r is None,
            },
    {
        let mut i: usize = 0;
        proof {
            assert(self.solutions@.skip(0) =~= self.solutions@);
        }
        while i < self.solutions.len()
            invariant
                i <= self.solutions@.len(),
                lookup(self.solutions@, id) == lookup(self.solutions@.skip(i as int), id),
            decreases self.solutions.len() - i,
        {
            if self.solutions[i].0 == id {
                return Some(&self.solutions[i].1);
            }
            proof {
                assert(self.solutions@.skip(i as int).drop_first() =~= self.solutions@.skip(i + 1));
            }
            i = i + 1;
        }
        None
    }

    /// Number of solved holes.
    pub fn num_solutions(&self) -> (n: usize)
        ensures
            n == self.solutions().len(),
    {
        self.solutions.len()
    }
}

} // verus!
