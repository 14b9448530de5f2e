//! Gathering the diagnostics of one file from everything reported while
//! compiling it: those about other files are dropped, and each distinct
//! diagnostic is kept once, where it first appears.

use vstd::prelude::*;
use crate::diagnostics::{Diagnostic, Label, Severity, TextRange};
use crate::lang_items::chars_eq;
use crate::text::chars_of;

verus! {

/// What a label says: file, range and message text.
pub type LabelView = (u32, TextRange, Option<Seq<char>>);

/// What a diagnostic says, field by field.
pub type DiagView = (Severity, Option<Seq<char>>, Seq<char>, LabelView, Seq<LabelView>, Seq<Seq<char>>, Seq<Seq<char>>);

pub open spec fn opt_view(o: Option<String>) -> Option<Seq<char>> {
    match o {
        Some(s) => Some(s@),
        None => None,
    }
}

pub open spec fn label_view(l: Label) -> LabelView {
    (l.file, l.range, opt_view(l.message))
}

pub open spec fn diag_view(d: Diagnostic) -> DiagView {
    (
        d.severity,
        opt_view(d.code),
        d.message@,
        label_view(d.primary),
        d.secondaries@.map_values(|l: Label| label_view(l)),
        d.notes@.map_values(|s: String| s@),
        d.helps@.map_values(|s: String| s@),
    )
}

/// The views of the diagnostics about `file` among `all`, each distinct one
/// once, in order of first appearance.
pub open spec fn spec_file_diagnostics(file: u32, all: Seq<Diagnostic>) -> Seq<DiagView>
    decreases all.len(),
{
    if all.len() == 0 {
        Seq::empty()
    } else {
        let before = spec_file_diagnostics(file, all.drop_last());
        let d = all.last();
        if d.primary.file == file && !before.contains(diag_view(d)) {
            before.push(diag_view(d))
        } else {
            before
        }
    }
}

/// All diagnostics of the groups, in order.
pub open spec fn flatten(groups: Seq<Vec<Diagnostic>>) -> Seq<Diagnostic>
    decreases groups.len(),
{
    if groups.len() == 0 {
        Seq::empty()
    } else {
        flatten(groups.drop_last()) + groups.last()@
    }
}

fn str_eq(a: &String, b: &String) -> (r: bool)
    ensures
        r == (a@ == b@),
{
    let x = chars_of(a.as_str());
    let y = chars_of(b.as_str());
    chars_eq(&x, &y)
}

fn opt_eq(a: &Option<String>, b: &Option<String>) -> (r: bool)
    ensures
        r == (opt_view(*a) == opt_view(*b)),
{
    match (a, b) {
        (Some(x), Some(y)) => str_eq(x, y),
        (None, None) => true,
        _ => false,
    }
}

fn label_eq(a: &Label, b: &Label) -> (r: bool)
    ensures
        r == (label_view(*a) == label_view(*b)),
{
    a.file == b.file && a.range == b.range && opt_eq(&a.message, &b.message)
}

fn strings_eq(a: &Vec<String>, b: &Vec<String>) -> (r: bool)
    ensures
        r == (a@.map_values(|s: String| s@) == b@.map_values(|s: String| s@)),
{
    if a.len() != b.len() {
        assert(a@.map_values(|s: String| s@).len() != b@.map_values(|s: String| s@).len());
        return false;
    }
    let mut i: usize = 0;
    while i < a.len()
        invariant
            a@.len() == b@.len(),
            i <= a@.len(),
            forall|j: int| 0 <= j < i ==> a@[j]@ == b@[j]@,
        decreases a.len() - i,
    {
        if !str_eq(&a[i], &b[i]) {
            assert(a@.map_values(|s: String| s@)[i as int] != b@.map_values(|s: String| s@)[i as int]);
            return false;
        }
        i = i + 1;
    }
    assert(a@.map_values(|s: String| s@) =~= b@.map_values(|s: String| s@));
    true
}

fn labels_eq(a: &Vec<Label>, b: &Vec<Label>) -> (r: bool)
    ensures
        r == (a@.map_values(|l: Label| label_view(l)) == b@.map_values(|l: Label| label_view(l))),
{
    if a.len() != b.len() {
        assert(a@.map_values(|l: Label| label_view(l)).len() != b@.map_values(|l: Label| label_view(l)).len());
        return false;
    }
    let mut i: usize = 0;
    while i < a.len()
        invariant
            a@.len() == b@.len(),
            i <= a@.len(),
            forall|j: int| 0 <= j < i ==> label_view(a@[j]) == label_view(b@[j]),
        decreases a.len() - i,
    {
        if !label_eq(&a[i], &b[i]) {
            assert(a@.map_values(|l: Label| label_view(l))[i as int] != b@.map_values(
                |l: Label| label_view(l),
            )[i as int]);
            return false;
        }
        i = i + 1;
    }
    assert(a@.map_values(|l: Label| label_view(l)) =~= b@.map_values(|l: Label| label_view(l)));
    true
}

/// Whether two diagnostics say the same thing.
pub fn diag_eq(a: &Diagnostic, b: &Diagnostic) -> (r: bool)
    ensures
        r == (diag_view(*a) == diag_view(*b)),
{
    a.severity == b.severity && opt_eq(&a.code, &b.code) && str_eq(&a.message, &b.message) && label_eq(
        &a.primary,
        &b.primary,
    ) && labels_eq(&a.secondaries, &b.secondaries) && strings_eq(&a.notes, &b.notes) && strings_eq(
        &a.helps,
        &b.helps,
    )
}

fn copy_string(s: &String) -> (r: String)
    ensures
        r@ == s@,
{
    s.clone()
}

fn copy_strings(v: &Vec<String>) -> (r: Vec<String>)
    ensures
        r@.map_values(|s: String| s@) == v@.map_values(|s: String| s@),
{
    let mut r: Vec<String> = Vec::new();
    let mut i: usize = 0;
    while i < v.len()
        invariant
            i <= v@.len(),
            r@.len() == i,
            forall|j: int| 0 <= j < i ==> #[trigger] r@[j]@ == v@[j]@,
        decreases v.len() - i,
    {
        r.push(copy_string(&v[i]));
        i = i + 1;
    }
    assert(r@.map_values(|s: String| s@) =~= v@.map_values(|s: String| s@));
    r
}

fn copy_opt(o: &Option<String>) -> (r: Option<String>)
    ensures
        opt_view(r) == opt_view(*o),
{
    match o {
        Some(s) => Some(copy_string(s)),
        None => None,
    }
}

fn copy_label(l: &Label) -> (r: Label)
    ensures
        label_view(r) == label_view(*l),
{
    Label { file: l.file, range: l.range, message: copy_opt(&l.message) }
}

fn copy_labels(v: &Vec<Label>) -> (r: Vec<Label>)
    ensures
        r@.map_values(|l: Label| label_view(l)) == v@.map_values(|l: Label| label_view(l)),
{
    let mut r: Vec<Label> = Vec::new();
    let mut i: usize = 0;
    while i < v.len()
        invariant
            i <= v@.len(),
            r@.len() == i,
            forall|j: int| 0 <= j < i ==> label_view(#[trigger] r@[j]) == label_view(v@[j]),
        decreases v.len() - i,
    {
        r.push(copy_label(&v[i]));
        i = i + 1;
    }
    assert(r@.map_values(|l: Label| label_view(l)) =~= v@.map_values(|l: Label| label_view(l)));
    r
}

/// A copy of a diagnostic, saying the same thing.
pub fn copy_diag(d: &Diagnostic) -> (r: Diagnostic)
    ensures
        diag_view(r) == diag_view(*d),
{
    Diagnostic {
        severity: d.severity,
        code: copy_opt(&d.code),
        message: copy_string(&d.message),
        primary: copy_label(&d.primary),
        secondaries: copy_labels(&d.secondaries),
        notes: copy_strings(&d.notes),
        helps: copy_strings(&d.helps),
    }
}

fn contains_diag(out: &Vec<Diagnostic>, d: &Diagnostic) -> (r: bool)
    ensures
        r == out@.map_values(|x: Diagnostic| diag_view(x)).contains(diag_view(*d)),
{
    let mut i: usize = 0;
    while i < out.len()
        invariant
            i <= out@.len(),
            forall|j: int| 0 <= j < i ==> diag_view(out@[j]) != diag_view(*d),
        decreases out.len() - i,
    {
        if diag_eq(&out[i], d) {
            assert(out@.map_values(|x: Diagnostic| diag_view(x))[i as int] == diag_view(*d));
            return true;
        }
        i = i + 1;
    }
    proof {
        let vs = out@.map_values(|x: Diagnostic| diag_view(x));
        if vs.contains(diag_view(*d)) {
            let j = choose|j: int| 0 <= j < vs.len() && vs[j] == diag_view(*d);
            assert(diag_view(out@[j]) == vs[j]);
        }
    }
    false
}

/// The diagnostics about `file` among the groups reported while compiling
/// it, in order, each distinct one once.
pub fn file_diagnostics(file: u32, groups: &Vec<Vec<Diagnostic>>) -> (r: Vec<Diagnostic>)
    ensures
        r@.map_values(|d: Diagnostic| diag_view(d)) == spec_file_diagnostics(file, flatten(groups@)),
{
    let mut out: Vec<Diagnostic> = Vec::new();
    let mut g: usize = 0;
    proof {
        assert(groups@.take(0) =~= Seq::<Vec<Diagnostic>>::empty());
        assert(out@.map_values(|d: Diagnostic| diag_view(d)) =~= Seq::<DiagView>::empty());
    }
    while g < groups.len()
        invariant
            g <= groups@.len(),
            out@.map_values(|d: Diagnostic| diag_view(d)) == spec_file_diagnostics(
                file,
                flatten(groups@.take(g as int)),
            ),
        decreases groups.len() - g,
    {
        let group = &groups[g];
        let ghost base = flatten(groups@.take(g as int));
        let mut i: usize = 0;
        proof {
            assert(base + group@.take(0) =~= base);
        }
        while i < group.len()
            invariant
                i <= group@.len(),
                out@.map_values(|d: Diagnostic| diag_view(d)) == spec_file_diagnostics(
                    file,
                    base + group@.take(i as int),
                ),
            decreases group.len() - i,
        {
            let d = &group[i];
            let ghost before = out@.map_values(|x: Diagnostic| diag_view(x));
            if d.primary.file == file && !contains_diag(&out, d) {
                out.push(copy_diag(d));
                proof {
                    assert(out@.map_values(|x: Diagnostic| diag_view(x)) =~= before.push(diag_view(*d)));
                }
            }
            proof {
                let s = base + group@.take(i + 1);
                assert(s.drop_last() =~= base + group@.take(i as int));
                assert(s.last() == *d);
            }
            i = i + 1;
        }
        proof {
            assert(group@.take(group@.len() as int) =~= group@);
            assert(groups@.take(g + 1).drop_last() =~= groups@.take(g as int));
            assert(groups@.take(g + 1).last() == *group);
        }
        g = g + 1;
    }
    proof {
        assert(groups@.take(groups@.len() as int) =~= groups@);
    }
    out
}

} // verus!
