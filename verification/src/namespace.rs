//! Namespaces: the declarations visible in a file and its child namespaces,
//! name resolution through them, and suggestions for misspelt names.

use vstd::prelude::*;
use crate::ids::{ItemId, Symbol, SymbolTable};
use crate::text::chars_of;

verus! {

/// A namespace: declarations and child namespaces, each by name. A name
/// appears at most once in each.
#[derive(Debug)]
pub struct Namespace {
    pub decls: Vec<(Symbol, ItemId)>,
    pub children: Vec<(Symbol, Namespace)>,
}

/// A possibly qualified name: `path::member`.
#[derive(Debug, Clone, PartialEq, Eq, Hash)]
pub struct Qualified {
    pub path: Vec<Symbol>,
    pub member: Symbol,
}

/// The declaration named `s` in `decls`, the first entry for it.
pub open spec fn decl_lookup(decls: Seq<(Symbol, ItemId)>, s: Symbol) -> Option<ItemId>
    decreases decls.len(),
{
    if decls.len() == 0 {
        None
    } else if decls[0].0 == s {
        Some(decls[0].1)
    } else {
        decl_lookup(decls.drop_first(), s)
    }
}

/// Index of the child named `s` in `children`, the first entry for it.
pub open spec fn child_index(children: Seq<(Symbol, Namespace)>, s: Symbol) -> Option<int>
    decreases children.len(),
{
    if children.len() == 0 {
        None
    } else if children[0].0 == s {
        Some(0)
    } else {
        match child_index(children.drop_first(), s) {
            Some(i) => Some(i + 1),
            None => None,
        }
    }
}

/// What `child_index` finds: the first child of that name, or none.
pub proof fn lemma_child_index(children: Seq<(Symbol, Namespace)>, s: Symbol)
    ensures
        child_index(children, s) matches Some(i) ==> 0 <= i < children.len() && children[i].0 == s,
        child_index(children, s) is None ==> forall|k: int| 0 <= k < children.len() ==> #[trigger] children[k].0 != s,
    decreases children.len(),
{
    if children.len() > 0 && children[0].0 != s {
        lemma_child_index(children.drop_first(), s);
        if child_index(children, s) is None {
            assert forall|k: int| 0 <= k < children.len() implies #[trigger] children[k].0 != s by {
                if k > 0 {
                    assert(children[k] == children.drop_first()[k - 1]);
                }
            }
        }
    }
}

/// The namespace reached from `ns` by following `path`.
pub open spec fn spec_walk(ns: Namespace, path: Seq<Symbol>) -> Option<Namespace>
    decreases path.len(),
{
    if path.len() == 0 {
        Some(ns)
    } else {
        match spec_walk(ns, path.drop_last()) {
            None => None,
            Some(n) => match child_index(n.children@, path.last()) {
                Some(i) => Some(n.children@[i].1),
                None => None,
            },
        }
    }
}

impl Namespace {
    /// The child namespace named `s`.
    pub fn child(&self, s: Symbol) -> (r: Option<&Namespace>)
        ensures
            match child_index(self.children@, s) {
                Some(i) => r == Some(&self.children@[i].1),
                None => r is None,
            },
    {
        let mut i: usize = 0;
        proof {
            assert(self.children@.skip(0) =~= self.children@);
        }
        while i < self.children.len()
            invariant
                i <= self.children@.len(),
                child_index(self.children@, s) == match child_index(self.children@.skip(i as int), s) {
                    Some(k) => Some(k + i),
                    None => None,
                },
            decreases self.children.len() - i,
        {
            if self.children[i].0 == s {
                return Some(&self.children[i].1);
            }
            proof {
                assert(self.children@.skip(i as int).drop_first() =~= self.children@.skip(i + 1));
            }
            i = i + 1;
        }
        None
    }

    /// The declaration named `s`.
    pub fn decl(&self, s: Symbol) -> (r: Option<ItemId>)
        ensures
            r == decl_lookup(self.decls@, s),
    {
        let mut i: usize = 0;
        proof {
            assert(self.decls@.skip(0) =~= self.decls@);
        }
        while i < self.decls.len()
            invariant
                i <= self.decls@.len(),
                decl_lookup(self.decls@, s) == decl_lookup(self.decls@.skip(i as int), s),
            decreases self.decls.len() - i,
        {
            if self.decls[i].0 == s {
                return Some(self.decls[i].1);
            }
            proof {
                assert(self.decls@.skip(i as int).drop_first() =~= self.decls@.skip(i + 1));
            }
            i = i + 1;
        }
        None
    }

    /// The namespace at `path` below this one.
    pub fn walk(&self, path: &[Symbol]) -> (r: Option<&Namespace>)
        ensures
            match spec_walk(*self, path@) {
                Some(n) => r == Some(&n),
                None => r is None,
            },
    {
        let mut current = self;
        let mut i: usize = 0;
        while i < path.len()
            invariant
                i <= path@.len(),
                spec_walk(*self, path@.take(i as int)) == Some(*current),
            decreases path.len() - i,
        {
            proof {
                assert(path@.take(i + 1).drop_last() =~= path@.take(i as int));
            }
            match current.child(path[i]) {
                Some(c) => current = c,
                None => {
                    proof {
                        lemma_walk_none_extends(*self, path@, i + 1);
                    }
                    return None;
                },
            }
            i = i + 1;
        }
        proof {
            assert(path@.take(path@.len() as int) =~= path@);
        }
        Some(current)
    }

    /// The declaration `member` in the namespace at `path`.
    pub fn resolve(&self, path: &[Symbol], member: Symbol) -> (r: Option<ItemId>)
        ensures
            r == match spec_walk(*self, path@) {
                Some(n) => decl_lookup(n.decls@, member),
                None => None,
            },
    {
        match self.walk(path) {
            Some(n) => n.decl(member),
            None => None,
        }
    }
}

proof fn lemma_walk_none_extends(ns: Namespace, path: Seq<Symbol>, k: int)
    requires
        0 < k <= path.len(),
        spec_walk(ns, path.take(k)) is None,
    ensures
        spec_walk(ns, path) is None,
    decreases path.len() - k,
{
    if k < path.len() {
        assert(path.take(k + 1).drop_last() =~= path.take(k));
        lemma_walk_none_extends(ns, path, k + 1);
    } else {
        assert(path.take(k) =~= path);
    }
}

/// Optimal string alignment distance between two texts, as `strsim::osa_distance` computes it.
pub uninterp spec fn osa(a: Seq<char>, b: Seq<char>) -> nat;

/// `strsim::osa_distance`: the edit distance with adjacent transpositions,
/// counted in characters. Its result is named, not stated.
#[verifier::external_body]
fn osa_distance(a: &str, b: &str) -> (r: usize)
    ensures
        r as nat == osa(a@, b@),
{
    strsim::osa_distance(a, b)
}

/// `a` comes before `b` in the lexicographic order of characters.
pub open spec fn text_lt(a: Seq<char>, b: Seq<char>) -> bool
    decreases a.len(),
{
    if a.len() == 0 {
        b.len() > 0
    } else if b.len() == 0 {
        false
    } else if a[0] != b[0] {
        (a[0] as int) < (b[0] as int)
    } else {
        text_lt(a.drop_first(), b.drop_first())
    }
}

/// Whether `a` comes before `b`, character by character.
pub fn text_less(a: &[char], b: &[char]) -> (r: bool)
    ensures
        r == text_lt(a@, b@),
{
    let mut i: usize = 0;
    proof {
        assert(a@.skip(0) =~= a@);
        assert(b@.skip(0) =~= b@);
    }
    while i < a.len() && i < b.len()
        invariant
            i <= a@.len(),
            i <= b@.len(),
            text_lt(a@, b@) == text_lt(a@.skip(i as int), b@.skip(i as int)),
        decreases a.len() - i,
    {
        if a[i] != b[i] {
            return a[i] < b[i];
        }
        proof {
            assert(a@.skip(i as int).drop_first() =~= a@.skip(i + 1));
            assert(b@.skip(i as int).drop_first() =~= b@.skip(i + 1));
        }
        i = i + 1;
    }
    i == a.len() && i < b.len()
}

/// How far a suggestion may be from the name it replaces: a third of its
/// length, and at least one.
pub open spec fn budget(target: Seq<char>) -> nat {
    if target.len() >= 3 {
        target.len() / 3
    } else {
        1
    }
}

/// Candidate `c` is close enough to `target` to be suggested.
pub open spec fn close_enough(target: Seq<char>, c: Seq<char>) -> bool {
    let b = budget(target);
    &&& (if c.len() >= target.len() { c.len() - target.len() } else { target.len() - c.len() }) <= b
    &&& osa(target, c) <= b
}

/// `c` is at least as good a suggestion as `d`: closer, or as close and not after it.
pub open spec fn no_worse(target: Seq<char>, c: Seq<char>, d: Seq<char>) -> bool {
    osa(target, c) < osa(target, d) || (osa(target, c) == osa(target, d) && !text_lt(d, c))
}

/// The text of a symbol in `names`.
pub open spec fn sym_text(names: Seq<Seq<char>>, s: Symbol) -> Seq<char> {
    names[s.0 as int]
}

/// The candidate that a scan of `cands` from the first keeps as the best for
/// `target`: a close enough one that is strictly closer, or as close and
/// strictly before in the order of characters, replaces the one kept.
pub open spec fn spec_best_match(names: Seq<Seq<char>>, target: Seq<char>, cands: Seq<Symbol>) -> Option<Symbol>
    decreases cands.len(),
{
    if cands.len() == 0 {
        None
    } else {
        let prev = spec_best_match(names, target, cands.drop_last());
        let c = cands.last();
        let ct = sym_text(names, c);
        if close_enough(target, ct) && match prev {
            None => true,
            Some(p) => osa(target, ct) < osa(target, sym_text(names, p)) || (osa(target, ct) == osa(
                target,
                sym_text(names, p),
            ) && text_lt(ct, sym_text(names, p))),
        } {
            Some(c)
        } else {
            prev
        }
    }
}

/// The closest of `candidates` to `target`, among those close enough: least
/// distance first, then the first in the order of characters. All symbols
/// must be known to `table`.
pub fn best_match(table: &SymbolTable, target: Symbol, candidates: &[Symbol]) -> (r: Option<Symbol>)
    requires
        table.knows(target),
        forall|k: int| 0 <= k < candidates@.len() ==> table.knows(#[trigger] candidates@[k]),
    ensures
        r == spec_best_match(table@, sym_text(table@, target), candidates@),
        match r {
            Some(s) => {
                &&& candidates@.contains(s)
                &&& close_enough(sym_text(table@, target), sym_text(table@, s))
                &&& forall|k: int|
                    0 <= k < candidates@.len() && close_enough(
                        sym_text(table@, target),
                        sym_text(table@, #[trigger] candidates@[k]),
                    ) ==> no_worse(
                        sym_text(table@, target),
                        sym_text(table@, s),
                        sym_text(table@, candidates@[k]),
                    )
            },
            None => forall|k: int|
                0 <= k < candidates@.len() ==> !close_enough(
                    sym_text(table@, target),
                    sym_text(table@, #[trigger] candidates@[k]),
                ),
        },
{
    let t = target.as_str(table);
    let tc = chars_of(t);
    let tlen = tc.len();
    let b = if tlen >= 3 {
        tlen / 3
    } else {
        1
    };
    let ghost tt = sym_text(table@, target);
    let mut best: Option<(usize, Vec<char>, Symbol)> = None;
    let mut k: usize = 0;
    while k < candidates.len()
        invariant
            k <= candidates@.len(),
            tc@ == tt,
            tlen == tt.len(),
            tt == table.text(target),
            t@ == tt,
            b as nat == budget(tt),
            forall|j: int| 0 <= j < candidates@.len() ==> table.knows(#[trigger] candidates@[j]),
            match best {
                Some((_, _, s)) => spec_best_match(table@, tt, candidates@.take(k as int)) == Some(s),
                None => spec_best_match(table@, tt, candidates@.take(k as int)) is None,
            },
            match best {
                Some((d, text, s)) => {
                    &&& candidates@.take(k as int).contains(s)
                    &&& text@ == sym_text(table@, s)
                    &&& d as nat == osa(tt, text@)
                    &&& close_enough(tt, text@)
                    &&& forall|j: int|
                        0 <= j < k && close_enough(tt, sym_text(table@, #[trigger] candidates@[j]))
                            ==> no_worse(tt, text@, sym_text(table@, candidates@[j]))
                },
                None => forall|j: int|
                    0 <= j < k ==> !close_enough(tt, sym_text(table@, #[trigger] candidates@[j])),
            },
        decreases candidates.len() - k,
    {
        let c = candidates[k];
        let ct = c.as_str(table);
        let cc = chars_of(ct);
        let clen = cc.len();
        let diff = if clen >= tlen {
            clen - tlen
        } else {
            tlen - clen
        };
        let ghost before = best;
        let mut close = false;
        let mut dist: usize = 0;
        if diff <= b {
            dist = osa_distance(t, ct);
            close = dist <= b;
        }
        let better = close && match &best {
            None => true,
            Some((d, text, _)) => dist < *d || (dist == *d && text_less(&cc, text)),
        };
        let ghost ctext = cc@;
        if better {
            best = Some((dist, cc, c));
        }
        proof {
            assert(ctext == sym_text(table@, c));
            assert(clen == ctext.len());
            assert(tlen == tt.len());
            if diff <= b {
                assert(dist as nat == osa(tt, ctext));
            }
            assert(close == close_enough(tt, ctext));
            assert(candidates@.take(k + 1) =~= candidates@.take(k as int).push(c));
            assert(candidates@.take(k + 1).drop_last() =~= candidates@.take(k as int));
            lemma_text_lt_total(ctext, ctext);
            if better {
                assert(candidates@.take(k + 1)[k as int] == c);
                match before {
                    Some((d0, text0, s0)) => {
                        lemma_text_lt_total(ctext, text0@);
                        assert(no_worse(tt, ctext, text0@));
                        assert forall|j: int|
                            0 <= j < k + 1 && close_enough(tt, sym_text(table@, #[trigger] candidates@[j]))
                                implies no_worse(tt, ctext, sym_text(table@, candidates@[j])) by {
                            if j < k {
                                lemma_no_worse_trans(tt, ctext, text0@, sym_text(table@, candidates@[j]));
                            }
                        }
                    },
                    None => {},
                }
            } else {
                match before {
                    Some((d0, text0, s0)) => {
                        let j0 = choose|j: int| 0 <= j < k && candidates@.take(k as int)[j] == s0;
                        assert(candidates@.take(k + 1)[j0] == s0);
                    },
                    None => {},
                }
            }
        }
        k = k + 1;
    }
    proof {
        assert(candidates@.take(candidates@.len() as int) =~= candidates@);
    }
    match best {
        Some((_, _, s)) => Some(s),
        None => None,
    }
}

proof fn lemma_text_lt_total(a: Seq<char>, b: Seq<char>)
    ensures
        !text_lt(a, b) ==> !text_lt(b, a) ==> a == b,
        text_lt(a, b) ==> !text_lt(b, a),
    decreases a.len(),
{
    if a.len() > 0 && b.len() > 0 && a[0] == b[0] {
        lemma_text_lt_total(a.drop_first(), b.drop_first());
        if !text_lt(a, b) && !text_lt(b, a) {
            assert(a =~= seq![a[0]] + a.drop_first());
            assert(b =~= seq![b[0]] + b.drop_first());
        }
    } else if a.len() > 0 && b.len() > 0 {
        if !text_lt(a, b) && !text_lt(b, a) {
            assert((a[0] as int) != (b[0] as int));
        }
    } else if a.len() == 0 && b.len() == 0 {
        assert(a =~= b);
    }
}

proof fn lemma_text_lt_trans(a: Seq<char>, b: Seq<char>, c: Seq<char>)
    requires
        text_lt(a, b),
        text_lt(b, c),
    ensures
        text_lt(a, c),
    decreases a.len(),
{
    if a.len() > 0 && b.len() > 0 && c.len() > 0 && a[0] == b[0] && b[0] == c[0] {
        lemma_text_lt_trans(a.drop_first(), b.drop_first(), c.drop_first());
    }
}

proof fn lemma_no_worse_trans(t: Seq<char>, a: Seq<char>, b: Seq<char>, c: Seq<char>)
    requires
        no_worse(t, a, b),
        no_worse(t, b, c),
    ensures
        no_worse(t, a, c),
{
    if osa(t, a) == osa(t, b) && osa(t, b) == osa(t, c) {
        lemma_text_lt_total(a, b);
        lemma_text_lt_total(b, c);
        lemma_text_lt_total(a, c);
        if text_lt(c, a) {
            if text_lt(c, b) {
            } else if b == c {
            } else {
                lemma_text_lt_total(b, c);
                lemma_text_lt_trans(b, c, a);
            }
        }
    }
}


/// Every declaration and child name of every namespace reachable from `ns`
/// is one of the first `n` symbols of a table.
pub open spec fn names_below(ns: Namespace, n: nat) -> bool {
    forall|p: Seq<Symbol>|
        #![trigger spec_walk(ns, p)]
        spec_walk(ns, p) matches Some(m) ==> level_below(m, n)
}

/// The declaration and child names of `m` are among the first `n` symbols.
pub open spec fn level_below(m: Namespace, n: nat) -> bool {
    &&& forall|k: int| 0 <= k < m.decls@.len() ==> (#[trigger] m.decls@[k]).0.0 < n
    &&& forall|k: int| 0 <= k < m.children@.len() ==> (#[trigger] m.children@[k]).0.0 < n
}

/// Every symbol of `q` is one of the first `n` symbols of a table.
pub open spec fn qualified_below(q: Qualified, n: nat) -> bool {
    &&& (q.member.0 as nat) < n
    &&& forall|k: int| 0 <= k < q.path@.len() ==> ((#[trigger] q.path@[k]).0 as nat) < n
}

/// A suggestion for `qual`: the same number of segments, each the written one
/// or one close to it, a member close to the written one, and not `qual` itself.
pub open spec fn is_suggestion(names: Seq<Seq<char>>, qual: Qualified, s: Qualified) -> bool {
    &&& s.path@.len() == qual.path@.len()
    &&& forall|k: int|
        0 <= k < s.path@.len() ==> #[trigger] s.path@[k] == qual.path@[k] || close_enough(
            sym_text(names, qual.path@[k]),
            sym_text(names, s.path@[k]),
        )
    &&& close_enough(sym_text(names, qual.member), sym_text(names, s.member))
    &&& (s.path@ != qual.path@ || s.member != qual.member)
}

/// A name that `decls` holds is found in it.
pub proof fn lemma_decl_lookup_some(decls: Seq<(Symbol, ItemId)>, k: int)
    requires
        0 <= k < decls.len(),
    ensures
        decl_lookup(decls, decls[k].0) is Some,
    decreases decls.len(),
{
    if decls[0].0 != decls[k].0 {
        assert(decls.drop_first()[k - 1] == decls[k]);
        lemma_decl_lookup_some(decls.drop_first(), k - 1);
    }
}

/// The names of the children of `n`, in order.
pub open spec fn child_name_seq(n: Namespace) -> Seq<Symbol> {
    n.children@.map_values(|c: (Symbol, Namespace)| c.0)
}

/// The names of the declarations of `n`, in order.
pub open spec fn decl_name_seq(n: Namespace) -> Seq<Symbol> {
    n.decls@.map_values(|d: (Symbol, ItemId)| d.0)
}

/// The walk `similar` makes along `qpath`: each segment that names a child
/// is kept, and one that does not is replaced by the best match among the
/// children; the path walked and the namespace reached, or `None` where a
/// segment has no match.
pub open spec fn similar_walk(ns: Namespace, names: Seq<Seq<char>>, qpath: Seq<Symbol>) -> Option<(Seq<Symbol>, Namespace)>
    decreases qpath.len(),
{
    if qpath.len() == 0 {
        Some((Seq::empty(), ns))
    } else {
        match similar_walk(ns, names, qpath.drop_last()) {
            None => None,
            Some((p, n)) => {
                let seg = qpath.last();
                match child_index(n.children@, seg) {
                    Some(i) => Some((p.push(seg), n.children@[i].1)),
                    None => match spec_best_match(names, sym_text(names, seg), child_name_seq(n)) {
                        None => None,
                        Some(m) => match child_index(n.children@, m) {
                            Some(i) => Some((p.push(m), n.children@[i].1)),
                            None => None,
                        },
                    },
                }
            },
        }
    }
}

/// A walk that stops on a prefix of the path stops on the whole path.
proof fn lemma_similar_walk_stops(ns: Namespace, names: Seq<Seq<char>>, q: Seq<Symbol>, j: int)
    requires
        0 <= j <= q.len(),
        similar_walk(ns, names, q.take(j)) is None,
    ensures
        similar_walk(ns, names, q) is None,
    decreases q.len(),
{
    if q.len() > j {
        assert(q.drop_last().take(j) =~= q.take(j));
        lemma_similar_walk_stops(ns, names, q.drop_last(), j);
    } else {
        assert(q.take(j) =~= q);
    }
}

/// What `similar` suggests for the name with path `qpath` and member
/// `member`: the path walked and the best match among the declarations
/// reached, unless that is the name itself.
pub open spec fn spec_similar(ns: Namespace, names: Seq<Seq<char>>, qpath: Seq<Symbol>, member: Symbol) -> Option<(Seq<Symbol>, Symbol)> {
    match similar_walk(ns, names, qpath) {
        None => None,
        Some((p, n)) => match spec_best_match(names, sym_text(names, member), decl_name_seq(n)) {
            None => None,
            Some(m) => if p == qpath && m == member {
                None
            } else {
                Some((p, m))
            },
        },
    }
}

/// Whether two paths are the same.
pub fn same_path(a: &[Symbol], b: &[Symbol]) -> (r: bool)
    ensures
        r == (a@ == b@),
{
    if a.len() != b.len() {
        return false;
    }
    let mut i: usize = 0;
    while i < a.len()
        invariant
            i <= a@.len(),
            a@.len() == b@.len(),
            forall|k: int| 0 <= k < i ==> a@[k] == b@[k],
        decreases a.len() - i,
    {
        if a[i].0 != b[i].0 {
            return false;
        }
        i = i + 1;
    }
    assert(a@ =~= b@);
    true
}

impl Namespace {
    /// The names of the declarations, in order.
    pub fn decl_names(&self) -> (r: Vec<Symbol>)
        ensures
            r@.len() == self.decls@.len(),
            forall|k: int| 0 <= k < r@.len() ==> #[trigger] r@[k] == self.decls@[k].0,
    {
        let mut r: Vec<Symbol> = Vec::new();
        let mut i: usize = 0;
        while i < self.decls.len()
            invariant
                i <= self.decls@.len(),
                r@.len() == i,
                forall|k: int| 0 <= k < i ==> #[trigger] r@[k] == self.decls@[k].0,
            decreases self.decls.len() - i,
        {
            r.push(self.decls[i].0);
            i = i + 1;
        }
        r
    }

    /// The names of the children, in order.
    pub fn child_names(&self) -> (r: Vec<Symbol>)
        ensures
            r@.len() == self.children@.len(),
            forall|k: int| 0 <= k < r@.len() ==> #[trigger] r@[k] == self.children@[k].0,
    {
        let mut r: Vec<Symbol> = Vec::new();
        let mut i: usize = 0;
        while i < self.children.len()
            invariant
                i <= self.children@.len(),
                r@.len() == i,
                forall|k: int| 0 <= k < i ==> #[trigger] r@[k] == self.children@[k].0,
            decreases self.children.len() - i,
        {
            r.push(self.children[i].0);
            i = i + 1;
        }
        r
    }

    /// A name close to `qual` that resolves here: each segment that names no
    /// child is replaced by the closest child name, and the member by the
    /// closest declaration. `None` where no such name exists, or where it is
    /// `qual` itself.
    pub fn similar(&self, table: &SymbolTable, qual: &Qualified) -> (r: Option<Qualified>)
        requires
            names_below(*self, table@.len()),
            table.knows(qual.member),
            forall|k: int| 0 <= k < qual.path@.len() ==> table.knows(#[trigger] qual.path@[k]),
        ensures
            match spec_similar(*self, table@, qual.path@, qual.member) {
                None => r is None,
                Some((p, m)) => r matches Some(s) && s.path@ == p && s.member == m,
            },
            r matches Some(s) ==> {
                &&& is_suggestion(table@, *qual, s)
                &&& qualified_below(s, table@.len())
                &&& spec_walk(*self, s.path@) matches Some(n)
                &&& decl_lookup(n.decls@, s.member) is Some
            },
    {
        let mut path: Vec<Symbol> = Vec::new();
        let mut current = self;
        let mut i: usize = 0;
        proof {
            assert(path@ =~= Seq::<Symbol>::empty());
        }
        while i < qual.path.len()
            invariant
                i <= qual.path@.len(),
                path@.len() == i,
                similar_walk(*self, table@, qual.path@.take(i as int)) == Some((path@, *current)),
                spec_walk(*self, path@) == Some(*current),
                names_below(*self, table@.len()),
                forall|k: int| 0 <= k < qual.path@.len() ==> table.knows(#[trigger] qual.path@[k]),
                forall|k: int| 0 <= k < i ==> table.knows(#[trigger] path@[k]),
                forall|k: int|
                    0 <= k < i ==> #[trigger] path@[k] == qual.path@[k] || close_enough(
                        sym_text(table@, qual.path@[k]),
                        sym_text(table@, path@[k]),
                    ),
            decreases qual.path.len() - i,
        {
            let seg = qual.path[i];
            let ghost before = path@;
            assert(spec_walk(*self, before) is Some);
            assert(qual.path@.take(i + 1).drop_last() =~= qual.path@.take(i as int));
            assert(qual.path@.take(i + 1).last() == seg);
            let next = match current.child(seg) {
                Some(c) => {
                    path.push(seg);
                    c
                },
                None => {
                    let names = current.child_names();
                    assert(names@ =~= child_name_seq(*current));
                    proof {
                        assert(spec_walk(*self, path@) is Some);
                        assert forall|k: int| 0 <= k < names@.len() implies table.knows(#[trigger] names@[k]) by {
                            assert(names@[k] == current.children@[k].0);
                            assert(level_below(*current, table@.len()));
                        }
                    }
                    let m = match best_match(table, seg, names.as_slice()) {
                        Some(m) => m,
                        None => {
                            proof {
                                lemma_similar_walk_stops(*self, table@, qual.path@, i + 1);
                            }
                            return None;
                        },
                    };
                    let c = match current.child(m) {
                        Some(c) => c,
                        None => {
                            proof {
                                lemma_similar_walk_stops(*self, table@, qual.path@, i + 1);
                            }
                            return None;
                        },
                    };
                    path.push(m);
                    c
                },
            };
            proof {
                assert(path@.drop_last() =~= before);
                assert(path@.last() == path@[i as int]);
            }
            current = next;
            i = i + 1;
        }
        assert(spec_walk(*self, path@) is Some);
        assert(qual.path@.take(qual.path@.len() as int) =~= qual.path@);
        let decls = current.decl_names();
        assert(decls@ =~= decl_name_seq(*current));
        proof {
            assert forall|k: int| 0 <= k < decls@.len() implies table.knows(#[trigger] decls@[k]) by {
                assert(decls@[k] == current.decls@[k].0);
                assert(level_below(*current, table@.len()));
            }
        }
        let member = match best_match(table, qual.member, decls.as_slice()) {
            Some(m) => m,
            None => return None,
        };
        proof {
            let k = choose|k: int| 0 <= k < decls@.len() && decls@[k] == member;
            lemma_decl_lookup_some(current.decls@, k);
        }
        if same_path(path.as_slice(), qual.path.as_slice()) && member.0 == qual.member.0 {
            return None;
        }
        Some(Qualified { path, member })
    }
}
} // verus!
