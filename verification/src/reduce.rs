//! Reduction to weak head normal form: beta reduction at the head, `let`
//! unfolding, definition unfolding and metavariable instantiation.
//!
//! Reduction need not terminate (a definition may unfold to itself), so each
//! reduction runs with a step budget (`fuel`): the result is `None` when the
//! budget runs out, or when opening a binder would overflow de Bruijn indices.

use vstd::prelude::*;
use crate::env::{spec_def_body, Env};
use crate::ids::Unique;
use crate::meta::{lookup, MetaCtx};
use crate::subst::{instantiate, instantiate_fits, instantiate_fits_exec, spec_instantiate_at};
use crate::term::Term;

verus! {

/// Weak head normal form of `t` within `fuel` steps: definitions unfold through
/// `bodies`, solved metavariables through `sols`.
pub open spec fn spec_whnf(
    bodies: Seq<Option<Term>>,
    sols: Seq<(Unique, Term)>,
    t: Term,
    fuel: nat,
) -> Option<Term>
    decreases fuel,
{
    if fuel == 0 {
        None
    } else {
        match t {
            Term::App(f, x) => match spec_whnf(bodies, sols, *f, (fuel - 1) as nat) {
                None => None,
                Some(g) => match g {
                    Term::Lam(_, _, body) => if instantiate_fits(*body, *x, 0) {
                        spec_whnf(
                            bodies,
                            sols,
                            spec_instantiate_at(*body, *x, 0),
                            (fuel - 1) as nat,
                        )
                    } else {
                        None
                    },
                    _ => Some(Term::App(Box::new(g), x)),
                },
            },
            Term::MVar(u) => match lookup(sols, u) {
                Some(v) => spec_whnf(bodies, sols, v, (fuel - 1) as nat),
                None => Some(t),
            },
            Term::Let(_, v, body) => if instantiate_fits(*body, *v, 0) {
                spec_whnf(bodies, sols, spec_instantiate_at(*body, *v, 0), (fuel - 1) as nat)
            } else {
                None
            },
            Term::Const(c) => match spec_def_body(bodies, c) {
                Some(b) => spec_whnf(bodies, sols, b, (fuel - 1) as nat),
                None => Some(t),
            },
            _ => Some(t),
        }
    }
}

/// `t` has no redex at its head.
pub open spec fn is_whnf(bodies: Seq<Option<Term>>, sols: Seq<(Unique, Term)>, t: Term) -> bool
    decreases t,
{
    match t {
        Term::App(f, _) => is_whnf(bodies, sols, *f) && !(*f is Lam),
        Term::MVar(u) => lookup(sols, u) is None,
        Term::Let(..) => false,
        Term::Const(c) => spec_def_body(bodies, c) is None,
        _ => true,
    }
}

/// Number of applications along the head of `t`.
pub open spec fn spine_len(t: Term) -> nat
    decreases t,
{
    match t {
        Term::App(f, _) => 1 + spine_len(*f),
        _ => 0,
    }
}

/// Reduces `term` to weak head normal form, within `fuel` steps.
pub fn whnf_with_mvars(env: &Env, mctx: &MetaCtx, term: &Term, fuel: usize) -> (r: Option<Term>)
    ensures
        r == spec_whnf(env.bodies@, mctx.solutions(), *term, fuel as nat),
    decreases fuel,
{
    if fuel == 0 {
        return None;
    }
    match term {
        Term::App(f, x) => {
            let g = match whnf_with_mvars(env, mctx, f, fuel - 1) {
                Some(g) => g,
                None => return None,
            };
            match &g {
                Term::Lam(_, _, body) => {
                    if !instantiate_fits_exec(body, x, 0) {
                        return None;
                    }
                    let opened = instantiate(body, x);
                    whnf_with_mvars(env, mctx, &opened, fuel - 1)
                },
                _ => Some(Term::App(Box::new(g), Box::new(x.copy()))),
            }
        },
        Term::MVar(u) => match mctx.get_solution(*u) {
            Some(v) => whnf_with_mvars(env, mctx, v, fuel - 1),
            None => Some(term.copy()),
        },
        Term::Let(_, value, body) => {
            if !instantiate_fits_exec(body, value, 0) {
                return None;
            }
            let opened = instantiate(body, value);
            whnf_with_mvars(env, mctx, &opened, fuel - 1)
        },
        Term::Const(c) => match env.def_body(*c) {
            Some(b) => whnf_with_mvars(env, mctx, b, fuel - 1),
            None => Some(term.copy()),
        },
        _ => Some(term.copy()),
    }
}

/// Reduces `term` to weak head normal form, unfolding definitions but no metavariables.
pub fn whnf(env: &Env, term: &Term, fuel: usize) -> (r: Option<Term>)
    ensures
        r == spec_whnf(env.bodies@, Seq::empty(), *term, fuel as nat),
{
    let m = MetaCtx::new();
    whnf_with_mvars(env, &m, term, fuel)
}

/// The head of an application spine and its arguments, first argument first.
pub open spec fn spec_spine(t: Term) -> (Term, Seq<Term>)
    decreases t,
{
    match t {
        Term::App(f, x) => {
            let (h, args) = spec_spine(*f);
            (h, args.push(*x))
        },
        _ => (t, Seq::empty()),
    }
}

/// The head of the application spine of `t` and its arguments, first argument first.
pub fn spine_of(t: &Term) -> (r: (Term, Vec<Term>))
    ensures
        r.0 == spec_spine(*t).0,
        r.1@ == spec_spine(*t).1,
    decreases t,
{
    match t {
        Term::App(f, x) => {
            let (h, mut args) = spine_of(f);
            args.push(x.copy());
            (h, args)
        },
        _ => (t.copy(), Vec::new()),
    }
}

/// Reduces `term` and splits the result into its head and arguments. The head
/// of a reduced application is itself reduced, so it is not reduced again.
pub fn whnf_spine(env: &Env, term: &Term, fuel: usize) -> (r: Option<(Term, Vec<Term>)>)
    ensures
        match spec_whnf(env.bodies@, Seq::empty(), *term, fuel as nat) {
            Some(w) => r matches Some(p) && p.0 == spec_spine(w).0 && p.1@ == spec_spine(w).1,
            None => r is None,
        },
{
    match whnf(env, term, fuel) {
        Some(w) => Some(spine_of(&w)),
        None => None,
    }
}

/// Applies `term` to `args`, reducing at the head before each argument and after the last.
pub fn instantiate_many(env: &Env, term: &Term, args: &[Term], fuel: usize) -> (r: Option<Term>)
    ensures
        r == spec_instantiate_many(env.bodies@, *term, args@, fuel as nat),
{
    let mut current = term.copy();
    let mut i: usize = 0;
    proof {
        assert(args@.skip(0) =~= args@);
    }
    while i < args.len()
        invariant
            i <= args@.len(),
            spec_instantiate_many(env.bodies@, *term, args@, fuel as nat) == spec_instantiate_many(
                env.bodies@,
                current,
                args@.skip(i as int),
                fuel as nat,
            ),
        decreases args.len() - i,
    {
        proof {
            assert(args@.skip(i as int).drop_first() =~= args@.skip(i + 1));
            assert(args@.skip(i as int)[0] == args@[i as int]);
        }
        let w = match whnf(env, &current, fuel) {
            Some(w) => w,
            None => return None,
        };
        let next = match &w {
            Term::Lam(_, _, body) => {
                if !instantiate_fits_exec(body, &args[i], 0) {
                    return None;
                }
                instantiate(body, &args[i])
            },
            _ => Term::App(Box::new(w.copy()), Box::new(args[i].copy())),
        };
        current = next;
        i = i + 1;
    }
    proof {
        assert(args@.skip(args@.len() as int) =~= Seq::<Term>::empty());
    }
    whnf(env, &current, fuel)
}

/// Applying `t` to `args` one at a time, reducing the head each time.
pub open spec fn spec_instantiate_many(
    bodies: Seq<Option<Term>>,
    t: Term,
    args: Seq<Term>,
    fuel: nat,
) -> Option<Term>
    decreases args.len(),
{
    if args.len() == 0 {
        spec_whnf(bodies, Seq::empty(), t, fuel)
    } else {
        match spec_whnf(bodies, Seq::empty(), t, fuel) {
            None => None,
            Some(w) => match w {
                Term::Lam(_, _, body) => if instantiate_fits(*body, args[0], 0) {
                    spec_instantiate_many(
                        bodies,
                        spec_instantiate_at(*body, args[0], 0),
                        args.drop_first(),
                        fuel,
                    )
                } else {
                    None
                },
                _ => spec_instantiate_many(
                    bodies,
                    Term::App(Box::new(w), Box::new(args[0])),
                    args.drop_first(),
                    fuel,
                ),
            },
        }
    }
}

// ---------------------------------------------------------------------------
// Laws.
/// More fuel never changes a result that was reached.
pub proof fn lemma_whnf_fuel_mono(
    bodies: Seq<Option<Term>>,
    sols: Seq<(Unique, Term)>,
    t: Term,
    fuel: nat,
    more: nat,
)
    requires
        fuel <= more,
        spec_whnf(bodies, sols, t, fuel) is Some,
    ensures
        spec_whnf(bodies, sols, t, more) == spec_whnf(bodies, sols, t, fuel),
    decreases fuel,
{
    if fuel > 0 {
        match t {
            Term::App(f, x) => {
                lemma_whnf_fuel_mono(bodies, sols, *f, (fuel - 1) as nat, (more - 1) as nat);
                let g = spec_whnf(bodies, sols, *f, (fuel - 1) as nat).unwrap();
                if let Term::Lam(_, _, body) = g {
                    if instantiate_fits(*body, *x, 0) {
                        lemma_whnf_fuel_mono(
                            bodies,
                            sols,
                            spec_instantiate_at(*body, *x, 0),
                            (fuel - 1) as nat,
                            (more - 1) as nat,
                        );
                    }
                }
            },
            Term::MVar(u) => {
                if let Some(v) = lookup(sols, u) {
                    lemma_whnf_fuel_mono(bodies, sols, v, (fuel - 1) as nat, (more - 1) as nat);
                }
            },
            Term::Let(_, v, body) => {
                if instantiate_fits(*body, *v, 0) {
                    lemma_whnf_fuel_mono(
                        bodies,
                        sols,
                        spec_instantiate_at(*body, *v, 0),
                        (fuel - 1) as nat,
                        (more - 1) as nat,
                    );
                }
            },
            Term::Const(c) => {
                if let Some(b) = spec_def_body(bodies, c) {
                    lemma_whnf_fuel_mono(bodies, sols, b, (fuel - 1) as nat, (more - 1) as nat);
                }
            },
            _ => {},
        }
    }
}

/// What reduction returns has no redex at its head.
pub proof fn lemma_whnf_is_whnf(
    bodies: Seq<Option<Term>>,
    sols: Seq<(Unique, Term)>,
    t: Term,
    fuel: nat,
)
    requires
        spec_whnf(bodies, sols, t, fuel) is Some,
    ensures
        is_whnf(bodies, sols, spec_whnf(bodies, sols, t, fuel).unwrap()),
    decreases fuel,
{
    match t {
        Term::App(f, x) => {
            lemma_whnf_is_whnf(bodies, sols, *f, (fuel - 1) as nat);
            let g = spec_whnf(bodies, sols, *f, (fuel - 1) as nat).unwrap();
            if let Term::Lam(_, _, body) = g {
                lemma_whnf_is_whnf(bodies, sols, spec_instantiate_at(*body, *x, 0), (fuel - 1) as nat);
            }
        },
        Term::MVar(u) => {
            if let Some(v) = lookup(sols, u) {
                lemma_whnf_is_whnf(bodies, sols, v, (fuel - 1) as nat);
            }
        },
        Term::Let(_, v, body) => {
            lemma_whnf_is_whnf(bodies, sols, spec_instantiate_at(*body, *v, 0), (fuel - 1) as nat);
        },
        Term::Const(c) => {
            if let Some(b) = spec_def_body(bodies, c) {
                lemma_whnf_is_whnf(bodies, sols, b, (fuel - 1) as nat);
            }
        },
        _ => {},
    }
}

/// A term with no head redex reduces to itself, given one step per application on its head.
pub proof fn lemma_whnf_of_whnf(
    bodies: Seq<Option<Term>>,
    sols: Seq<(Unique, Term)>,
    t: Term,
    fuel: nat,
)
    requires
        is_whnf(bodies, sols, t),
        fuel > spine_len(t),
    ensures
        spec_whnf(bodies, sols, t, fuel) == Some(t),
    decreases t,
{
    if let Term::App(f, x) = t {
        lemma_whnf_of_whnf(bodies, sols, *f, (fuel - 1) as nat);
    }
}


/// Reducing what reduction returned gives it back, whatever the number of
/// steps, as long as there is one per application on its spine.
pub proof fn lemma_whnf_idempotent(bodies: Seq<Option<Term>>, sols: Seq<(Unique, Term)>, t: Term, fuel: nat)
    requires
        spec_whnf(bodies, sols, t, fuel) is Some,
    ensures
        ({
            let w = spec_whnf(bodies, sols, t, fuel).unwrap();
            forall|g: nat| g > spine_len(w) ==> #[trigger] spec_whnf(bodies, sols, w, g) == Some(w)
        }),
{
    let w = spec_whnf(bodies, sols, t, fuel).unwrap();
    lemma_whnf_is_whnf(bodies, sols, t, fuel);
    assert forall|g: nat| g > spine_len(w) implies #[trigger] spec_whnf(bodies, sols, w, g) == Some(w) by {
        lemma_whnf_of_whnf(bodies, sols, w, g);
    }
}

/// `h` applied to `args` in order, first argument innermost.
pub open spec fn apply_all(h: Term, args: Seq<Term>) -> Term
    decreases args.len(),
{
    if args.len() == 0 {
        h
    } else {
        Term::App(Box::new(apply_all(h, args.drop_last())), Box::new(args.last()))
    }
}

/// Splitting a term into its spine and applying the head to the arguments
/// again gives the term back; the head is no application.
pub proof fn lemma_spine_fold(t: Term)
    ensures
        !(spec_spine(t).0 is App),
        apply_all(spec_spine(t).0, spec_spine(t).1) == t,
    decreases t,
{
    if let Term::App(f, x) = t {
        lemma_spine_fold(*f);
        let (h, args) = spec_spine(*f);
        assert(args.push(*x).drop_last() =~= args);
    }
}

/// What `whnf_spine` gives folds back into the weak head normal form, with
/// a head that is itself in normal form.
pub proof fn lemma_whnf_spine_fold(bodies: Seq<Option<Term>>, t: Term, fuel: nat)
    requires
        spec_whnf(bodies, Seq::empty(), t, fuel) is Some,
    ensures
        ({
            let w = spec_whnf(bodies, Seq::empty(), t, fuel).unwrap();
            &&& !(spec_spine(w).0 is App)
            &&& apply_all(spec_spine(w).0, spec_spine(w).1) == w
            &&& is_whnf(bodies, Seq::empty(), spec_spine(w).0)
        }),
{
    let w = spec_whnf(bodies, Seq::empty(), t, fuel).unwrap();
    lemma_spine_fold(w);
    lemma_whnf_is_whnf(bodies, Seq::empty(), t, fuel);
    lemma_spine_head_whnf(bodies, w);
}

/// The head of a term in normal form is in normal form.
proof fn lemma_spine_head_whnf(bodies: Seq<Option<Term>>, w: Term)
    requires
        is_whnf(bodies, Seq::empty(), w),
    ensures
        is_whnf(bodies, Seq::empty(), spec_spine(w).0),
    decreases w,
{
    if let Term::App(f, _) = w {
        lemma_spine_head_whnf(bodies, *f);
    }
}

/// One step of reduction: an applied function is opened with its argument,
/// a `let` with its value, and a term already a value is left as it is.
pub proof fn lemma_whnf_steps(
    bodies: Seq<Option<Term>>,
    sols: Seq<(Unique, Term)>,
    i: crate::term::BinderInfo,
    a: Term,
    b: Term,
    x: Term,
    fuel: nat,
)
    requires
        instantiate_fits(b, x, 0),
    ensures
        spec_whnf(
            bodies,
            sols,
            Term::App(Box::new(Term::Lam(i, Box::new(a), Box::new(b))), Box::new(x)),
            fuel + 2,
        ) == spec_whnf(bodies, sols, spec_instantiate_at(b, x, 0), fuel + 1),
        spec_whnf(bodies, sols, Term::Let(Box::new(a), Box::new(x), Box::new(b)), fuel + 1) == spec_whnf(
            bodies,
            sols,
            spec_instantiate_at(b, x, 0),
            fuel,
        ),
        spec_whnf(bodies, sols, Term::Lam(i, Box::new(a), Box::new(b)), fuel + 1) == Some(
            Term::Lam(i, Box::new(a), Box::new(b)),
        ),
        spec_whnf(bodies, sols, Term::Pi(i, Box::new(a), Box::new(b)), fuel + 1) == Some(
            Term::Pi(i, Box::new(a), Box::new(b)),
        ),
        spec_whnf(bodies, sols, Term::Sigma(i, Box::new(a), Box::new(b)), fuel + 1) == Some(
            Term::Sigma(i, Box::new(a), Box::new(b)),
        ),
        x is BVar || x is FVar || x is Sort || x is Lit ==> spec_whnf(bodies, sols, x, fuel + 1) == Some(x),
        x matches Term::MVar(u) && lookup(sols, u) is None ==> spec_whnf(bodies, sols, x, fuel + 1) == Some(x),
{
    let lam = Term::Lam(i, Box::new(a), Box::new(b));
    assert(spec_whnf(bodies, sols, lam, fuel + 1) == Some(lam));
}


/// Applying after one argument is applying to it first.
proof fn lemma_apply_all_first(c: Term, a: Term, s: Seq<Term>)
    ensures
        apply_all(c, seq![a] + s) == apply_all(Term::App(Box::new(c), Box::new(a)), s),
    decreases s.len(),
{
    let full = seq![a] + s;
    if s.len() > 0 {
        assert(full.drop_last() =~= seq![a] + s.drop_last());
        assert(full.last() == s.last());
        lemma_apply_all_first(c, a, s.drop_last());
        assert(apply_all(c, full) == Term::App(Box::new(apply_all(c, full.drop_last())), Box::new(full.last())));
    } else {
        assert(full.drop_last() =~= Seq::<Term>::empty());
        assert(full.last() == a);
        assert(apply_all(c, full.drop_last()) == c);
        assert(apply_all(c, full) == Term::App(Box::new(c), Box::new(a)));
        assert(s =~= Seq::<Term>::empty());
    }
}

/// Two heads with the same normal form give applications with the same
/// normal form, given enough steps.
proof fn lemma_apply_same_head(
    bodies: Seq<Option<Term>>,
    h1: Term,
    h2: Term,
    v: Term,
    f1: nat,
    f2: nat,
    s: Seq<Term>,
    g2: nat,
    r: Term,
) -> (g1: nat)
    requires
        spec_whnf(bodies, Seq::empty(), h1, f1) == Some(v),
        spec_whnf(bodies, Seq::empty(), h2, f2) == Some(v),
        spec_whnf(bodies, Seq::empty(), apply_all(h2, s), g2) == Some(r),
    ensures
        spec_whnf(bodies, Seq::empty(), apply_all(h1, s), g1) == Some(r),
    decreases s.len(),
{
    let e = Seq::<(Unique, Term)>::empty();
    if s.len() == 0 {
        let m = if f2 <= g2 { g2 } else { f2 };
        lemma_whnf_fuel_mono(bodies, e, h2, f2, m);
        lemma_whnf_fuel_mono(bodies, e, h2, g2, m);
        f1
    } else {
        let x = s.last();
        let a1 = apply_all(h1, s.drop_last());
        let a2 = apply_all(h2, s.drop_last());
        let gw = spec_whnf(bodies, e, a2, (g2 - 1) as nat).unwrap();
        let g1p = lemma_apply_same_head(bodies, h1, h2, v, f1, f2, s.drop_last(), (g2 - 1) as nat, gw);
        let m = if g1p <= (g2 - 1) as nat { (g2 - 1) as nat } else { g1p };
        lemma_whnf_fuel_mono(bodies, e, a1, g1p, m);
        lemma_whnf_fuel_mono(bodies, e, a2, (g2 - 1) as nat, m);
        if let Term::Lam(_, _, body) = gw {
            lemma_whnf_fuel_mono(bodies, e, spec_instantiate_at(*body, x, 0), (g2 - 1) as nat, m);
        }
        m + 1
    }
}

/// Applying a term to arguments one at a time, reducing the head before
/// each, reaches the normal form of the whole application, given enough
/// steps.
pub proof fn lemma_instantiate_many_whnf(bodies: Seq<Option<Term>>, t: Term, args: Seq<Term>, fuel: nat) -> (f: nat)
    requires
        spec_instantiate_many(bodies, t, args, fuel) is Some,
    ensures
        spec_whnf(bodies, Seq::empty(), apply_all(t, args), f) == spec_instantiate_many(bodies, t, args, fuel),
    decreases args.len(),
{
    let e = Seq::<(Unique, Term)>::empty();
    if args.len() == 0 {
        fuel
    } else {
        let a0 = args[0];
        let rest = args.drop_first();
        let w = spec_whnf(bodies, e, t, fuel).unwrap();
        let r = spec_instantiate_many(bodies, t, args, fuel).unwrap();
        assert(args =~= seq![a0] + rest);
        lemma_apply_all_first(t, a0, rest);
        let app = Term::App(Box::new(t), Box::new(a0));
        let c2 = match w {
            Term::Lam(_, _, body) => spec_instantiate_at(*body, a0, 0),
            _ => Term::App(Box::new(w), Box::new(a0)),
        };
        let f2 = lemma_instantiate_many_whnf(bodies, c2, rest, fuel);
        // The normal form of `c2` is reached within `fuel` steps.
        let v = spec_whnf(bodies, e, c2, fuel).unwrap();
        let (h1f, h2f) = match w {
            Term::Lam(_, _, body) => {
                assert(spec_whnf(bodies, e, app, fuel + 1) == spec_whnf(bodies, e, c2, fuel));
                (fuel + 1, fuel)
            },
            _ => {
                lemma_whnf_is_whnf(bodies, e, t, fuel);
                lemma_whnf_of_whnf(bodies, e, w, spine_len(w) + 1);
                assert(spec_whnf(bodies, e, app, fuel + 1) == Some(c2));
                assert(spec_whnf(bodies, e, c2, spine_len(w) + 2) == Some(c2));
                lemma_whnf_fuel_mono(bodies, e, c2, fuel, if fuel <= spine_len(w) + 2 { spine_len(w) + 2 } else { fuel });
                lemma_whnf_fuel_mono(bodies, e, c2, spine_len(w) + 2, if fuel <= spine_len(w) + 2 { spine_len(w) + 2 } else { fuel });
                (fuel + 1, fuel)
            },
        };
        lemma_apply_same_head(bodies, app, c2, v, h1f, h2f, rest, f2, r)
    }
}

} // verus!
