//! Application: inserting the implicit arguments a function type asks for
//! before its explicit ones.

use vstd::prelude::*;
use crate::ctx::ElabCtx;
use crate::diagnostics::{Diag, TextRange};
use crate::ids::Unique;
use crate::local::LocalBinder;
use crate::meta::MetaView;
use crate::reduce::{spec_whnf, whnf_with_mvars};
use crate::report::{diag_head, opt_text};
use crate::subst::{instantiate, instantiate_fits, instantiate_fits_exec, spec_instantiate_at};
use crate::term::{BinderInfo, Term};

verus! {

/// A binder whose argument is inserted as a fresh hole.
pub open spec fn spec_is_ordinary_implicit(info: BinderInfo) -> bool {
    info == BinderInfo::Implicit || info == BinderInfo::StrictImplicit
}

/// Whether arguments of binders with `info` are inserted as fresh holes.
pub fn is_ordinary_implicit(info: BinderInfo) -> (r: bool)
    ensures
        r == spec_is_ordinary_implicit(info),
{
    match info {
        BinderInfo::Implicit | BinderInfo::StrictImplicit => true,
        _ => false,
    }
}

/// A partial application: the term built so far and its type.
#[derive(Debug)]
pub struct AppState {
    pub term: Term,
    pub ty: Term,
}

/// `expected` reduced within `fuel`, or as it is when the budget runs out.
pub open spec fn reduced_or_same(
    bodies: Seq<Option<Term>>,
    sols: Seq<(Unique, Term)>,
    t: Term,
    fuel: nat,
) -> Term {
    match spec_whnf(bodies, sols, t, fuel) {
        Some(w) => w,
        None => t,
    }
}

/// A value of type `inferred` is wanted at type `expected` as it is: both are
/// functions with the same implicit binder, or `expected` is still a hole.
pub open spec fn spec_keeps_implicit(inferred: Term, expected: Term) -> bool {
    match (inferred, expected) {
        (Term::Pi(f, _, _), Term::Pi(e, _, _)) => spec_is_ordinary_implicit(f) && f == e,
        (_, Term::MVar(_)) => true,
        _ => false,
    }
}

/// Whether an implicit argument a term of type `found` asks for must be inserted.
pub open spec fn spec_inserts(found: Term, next: nat) -> bool {
    match found {
        Term::Pi(info, _, cod) => spec_is_ordinary_implicit(info) && next < u32::MAX
            && instantiate_fits(*cod, Term::MVar(Unique(next as u32)), 0),
        _ => false,
    }
}

/// `d` reports a call that needs instance search, at `range` of `file`.
pub open spec fn instance_diag(d: Diag, file: u32, range: TextRange) -> bool {
    &&& diag_head(d.inner, file, range, "instance implicit arguments are not supported yet"@)
    &&& opt_text(d.inner.primary.message) == Some(
        "this call needs instance search, but instance resolution is not implemented"@,
    )
}

/// The holes `holes` were registered after `old`, in order, each scoped to `lctx`.
pub open spec fn holes_added(old: Seq<MetaView>, new: Seq<MetaView>, holes: Seq<(Unique, Term)>, lctx: Seq<LocalBinder>) -> bool {
    &&& new.len() == old.len() + holes.len()
    &&& forall|k: int| 0 <= k < old.len() ==> #[trigger] new[k] == old[k]
    &&& forall|k: int|
        0 <= k < holes.len() ==> #[trigger] new[old.len() + k] == (holes[k].0, holes[k].1, lctx)
}

proof fn lemma_holes_added_push(
    m0: Seq<MetaView>,
    mb: Seq<MetaView>,
    m1: Seq<MetaView>,
    holes: Seq<(Unique, Term)>,
    hole: (Unique, Term),
    lctx: Seq<LocalBinder>,
)
    requires
        holes_added(m0, mb, holes, lctx),
        m1 == mb.push((hole.0, hole.1, lctx)),
    ensures
        holes_added(m0, m1, holes.push(hole), lctx),
{
    assert forall|k: int| 0 <= k < m0.len() implies #[trigger] m1[k] == m0[k] by {
        assert(m1[k] == mb[k]);
    }
    assert forall|k: int| 0 <= k < holes.len() + 1 implies #[trigger] m1[m0.len() + k] == (
        holes.push(hole)[k].0,
        holes.push(hole)[k].1,
        lctx,
    ) by {
        if k < holes.len() {
            assert(m1[m0.len() + k] == mb[m0.len() + k]);
        }
    }
}

/// Outcome of inserting implicit arguments for at most `steps` binders into
/// `term : ty`: whether an instance-implicit binder stopped it, the term, its
/// type, and the holes created (name and type), in order.
pub open spec fn spec_insert_implicits(
    bodies: Seq<Option<Term>>,
    sols: Seq<(Unique, Term)>,
    next: nat,
    term: Term,
    ty: Term,
    fuel: nat,
    steps: nat,
    expected: Option<Term>,
) -> (bool, Term, Term, Seq<(Unique, Term)>)
    decreases steps,
{
    if steps == 0 {
        (false, term, ty, Seq::empty())
    } else {
        let w = reduced_or_same(bodies, sols, ty, fuel);
        if expected matches Some(e) && spec_keeps_implicit(w, reduced_or_same(bodies, sols, e, fuel)) {
            (false, term, w, Seq::empty())
        } else {
            match w {
                Term::Pi(info, dom, cod) => if spec_inserts(w, next) {
                    let m = Term::MVar(Unique(next as u32));
                    let rest = spec_insert_implicits(
                        bodies,
                        sols,
                        next + 1,
                        Term::App(Box::new(term), Box::new(m)),
                        spec_instantiate_at(*cod, m, 0),
                        fuel,
                        (steps - 1) as nat,
                        expected,
                    );
                    (rest.0, rest.1, rest.2, seq![(Unique(next as u32), *dom)] + rest.3)
                } else {
                    (info == BinderInfo::InstanceImplicit, term, w, Seq::empty())
                },
                _ => (false, term, w, Seq::empty()),
            }
        }
    }
}

impl<'a> ElabCtx<'a> {
    /// Whether `inferred` already fits `expected`, so that no implicit
    /// argument is to be inserted.
    pub fn expected_keeps_implicit(&self, inferred: &Term, expected: &Term) -> (r: bool)
        ensures
            r == spec_keeps_implicit(
                *inferred,
                reduced_or_same(self.env.bodies@, self.mctx.solutions(), *expected, self.fuel as nat),
            ),
    {
        let e = match whnf_with_mvars(self.env, &self.mctx, expected, self.fuel) {
            Some(w) => w,
            None => expected.copy(),
        };
        match (inferred, &e) {
            (Term::Pi(f, _, _), Term::Pi(x, _, _)) => is_ordinary_implicit(*f) && *f == *x,
            (_, Term::MVar(_)) => true,
            _ => false,
        }
    }

    /// Inserts one implicit argument if the type asks for one: a fresh hole of
    /// the binder's type, scoped to the current locals. An instance-implicit
    /// binder is an error; anything else inserts nothing.
    pub fn insert_one_implicit(&mut self, state: &mut AppState, range: TextRange) -> (r: Result<bool, Diag>)
        ensures
            final(self).autobound == old(self).autobound,
            final(self).current_decl == old(self).current_decl,
            final(self).env == old(self).env,
            final(self).lang_items == old(self).lang_items,
            final(self).namespace == old(self).namespace,
            final(self).fuel == old(self).fuel,
            final(self).lctx == old(self).lctx,
            final(self).mctx.solutions() == old(self).mctx.solutions(),
            final(self).diagnostics == old(self).diagnostics,
            final(self).file == old(self).file,
            final(self).frames == old(self).frames,
            match old(state).ty {
                Term::Pi(info, dom, cod) => if spec_inserts(old(state).ty, old(self).gen_.next_id() as nat) {
                    let m = Term::MVar(Unique(old(self).gen_.next_id()));
                    &&& r == Ok::<bool, Diag>(true)
                    &&& final(state).term == Term::App(Box::new(old(state).term), Box::new(m))
                    &&& final(state).ty == spec_instantiate_at(*cod, m, 0)
                    &&& final(self).gen_.next_id() == old(self).gen_.next_id() + 1
                    &&& final(self).mctx.metas() == old(self).mctx.metas().push(
                        (Unique(old(self).gen_.next_id()), *dom, old(self).lctx@),
                    )
                } else if info == BinderInfo::InstanceImplicit {
                    &&& r matches Err(d) && instance_diag(d, old(self).file, range)
                    &&& *final(state) == *old(state)
                    &&& final(self).gen_ == old(self).gen_
                    &&& final(self).mctx.metas() == old(self).mctx.metas()
                } else {
                    &&& r == Ok::<bool, Diag>(false)
                    &&& *final(state) == *old(state)
                    &&& final(self).gen_ == old(self).gen_
                    &&& final(self).mctx.metas() == old(self).mctx.metas()
                },
                _ => {
                    &&& r == Ok::<bool, Diag>(false)
                    &&& *final(state) == *old(state)
                    &&& final(self).gen_ == old(self).gen_
                    &&& final(self).mctx.metas() == old(self).mctx.metas()
                },
            },
    {
        let (info, dom, cod) = match &state.ty {
            Term::Pi(info, dom, cod) => (*info, dom.copy(), cod.copy()),
            _ => return Ok(false),
        };
        if is_ordinary_implicit(info) && self.gen_.has_next() && instantiate_fits_exec(
            &cod,
            &Term::MVar(Unique(0)),
            0,
        ) {
            let arg = self.fresh_mvar(dom);
            let old_term = state.term.copy();
            state.term = Term::App(Box::new(old_term), Box::new(arg.copy()));
            state.ty = instantiate(&cod, &arg);
            Ok(true)
        } else if info == BinderInfo::InstanceImplicit {
            Err(self.unsupported_instance_implicit(range))
        } else {
            Ok(false)
        }
    }

    /// Inserts implicit arguments while the type asks for them, at most
    /// `self.fuel` of them; with `expected`, stops as soon as the type already
    /// fits it. The type is reduced before each step.
    pub fn insert_implicits(&mut self, state: &mut AppState, expected: Option<&Term>, range: TextRange) -> (r: Result<(), Diag>)
        requires
            old(self).mctx.wf(),
        ensures
            final(self).autobound == old(self).autobound,
            final(self).current_decl == old(self).current_decl,
            final(self).env == old(self).env,
            final(self).lang_items == old(self).lang_items,
            final(self).namespace == old(self).namespace,
            final(self).fuel == old(self).fuel,
            final(self).lctx == old(self).lctx,
            final(self).mctx.solutions() == old(self).mctx.solutions(),
            final(self).mctx.wf(),
            final(self).diagnostics == old(self).diagnostics,
            final(self).file == old(self).file,
            final(self).frames == old(self).frames,
            ({
                let o = spec_insert_implicits(
                    old(self).env.bodies@,
                    old(self).mctx.solutions(),
                    old(self).gen_.next_id() as nat,
                    old(state).term,
                    old(state).ty,
                    old(self).fuel as nat,
                    old(self).fuel as nat,
                    match expected {
                        Some(e) => Some(*e),
                        None => None,
                    },
                );
                &&& (o.0 ==> (r matches Err(d) && instance_diag(d, old(self).file, range)))
                &&& (!o.0 ==> r is Ok)
                &&& final(state).term == o.1
                &&& final(state).ty == o.2
                &&& final(self).gen_.next_id() as nat == old(self).gen_.next_id() + o.3.len()
                &&& holes_added(old(self).mctx.metas(), final(self).mctx.metas(), o.3, old(self).lctx@)
            }),
    {
        let ghost m0 = self.mctx.metas();
        let ghost g0 = self.gen_.next_id() as nat;
        let ghost exp = match expected {
            Some(e) => Some(*e),
            None => None,
        };
        let ghost goal = spec_insert_implicits(
            self.env.bodies@,
            self.mctx.solutions(),
            g0,
            state.term,
            state.ty,
            self.fuel as nat,
            self.fuel as nat,
            exp,
        );
        let mut steps: usize = self.fuel;
        let ghost mut holes: Seq<(Unique, Term)> = Seq::empty();
        proof {
            assert(m0 =~= m0 + Seq::<MetaView>::empty().take(0));
        }
        loop
            invariant
                self.env == old(self).env,
                self.lang_items == old(self).lang_items,
                self.namespace == old(self).namespace,
                self.fuel == old(self).fuel,
                self.lctx == old(self).lctx,
                self.mctx.solutions() == old(self).mctx.solutions(),
                self.mctx.wf(),
                self.diagnostics == old(self).diagnostics,
                self.file == old(self).file,
                self.frames == old(self).frames,
                self.autobound == old(self).autobound,
                self.current_decl == old(self).current_decl,
                m0 == old(self).mctx.metas(),
                g0 == old(self).gen_.next_id() as nat,
                exp == match expected {
                    Some(e) => Some(*e),
                    None => None::<Term>,
                },
                steps <= self.fuel,
                goal == spec_insert_implicits(
                    old(self).env.bodies@,
                    old(self).mctx.solutions(),
                    old(self).gen_.next_id() as nat,
                    old(state).term,
                    old(state).ty,
                    old(self).fuel as nat,
                    old(self).fuel as nat,
                    exp,
                ),
                self.gen_.next_id() as nat == g0 + holes.len(),
                holes_added(m0, self.mctx.metas(), holes, old(self).lctx@),
                ({
                    let rest = spec_insert_implicits(
                        self.env.bodies@,
                        self.mctx.solutions(),
                        self.gen_.next_id() as nat,
                        state.term,
                        state.ty,
                        self.fuel as nat,
                        steps as nat,
                        exp,
                    );
                    &&& goal.0 == rest.0
                    &&& goal.1 == rest.1
                    &&& goal.2 == rest.2
                    &&& goal.3 == holes + rest.3
                }),
            decreases steps,
        {
            if steps == 0 {
                proof {
                    assert(goal.3 =~= holes);
                }
                return Ok(());
            }
            let w = match whnf_with_mvars(self.env, &self.mctx, &state.ty, self.fuel) {
                Some(w) => w,
                None => state.ty.copy(),
            };
            state.ty = w;
            match expected {
                Some(e) => {
                    if self.expected_keeps_implicit(&state.ty, e) {
                        proof {
                            assert(goal.3 =~= holes);
                        }
                        return Ok(());
                    }
                },
                None => {},
            }
            let ghost before_ty = state.ty;
            let ghost before_term = state.term;
            let ghost next = self.gen_.next_id() as nat;
            let ghost mb = self.mctx.metas();
            match self.insert_one_implicit(state, range) {
                Ok(true) => {
                    proof {
                        let hole = (Unique(next as u32), match before_ty {
                            Term::Pi(_, dom, _) => *dom,
                            _ => before_ty,
                        });
                        lemma_holes_added_push(m0, mb, self.mctx.metas(), holes, hole, old(self).lctx@);
                        assert(goal.3 =~= holes.push(hole) + spec_insert_implicits(
                            self.env.bodies@,
                            self.mctx.solutions(),
                            self.gen_.next_id() as nat,
                            state.term,
                            state.ty,
                            self.fuel as nat,
                            (steps - 1) as nat,
                            exp,
                        ).3);
                        holes = holes.push(hole);
                    }
                    steps = steps - 1;
                },
                Ok(false) => {
                    proof {
                        assert(goal.3 =~= holes);
                    }
                    return Ok(());
                },
                Err(d) => {
                    proof {
                        assert(goal.3 =~= holes);
                    }
                    return Err(d);
                },
            }
        }
    }
}

} // verus!
