//! Reporting: the diagnostics the elaborator emits, and how inference
//! failures and unsolved holes are turned into them.

use vstd::prelude::*;
use crate::ctx::{ElabCtx, Frame};
use crate::debug::{symbol_text, term_debug};
use crate::diagnostics::{Diag, Diagnostic, Label, Severity, TextRange};
use crate::env::ItemData;
use crate::ids::{ItemId, SymbolTable, Unique};
use crate::infer::{infer_of, InferTermError};

use crate::term::{has_error, term_eq, term_same, Term};
use crate::text::{nat_decimal, push_str, string_from_chars};
use crate::debug::push_decimal;
use crate::unify::UnifyError;
use crate::zonk::{collect_unsolved, spec_collect_unsolved};

verus! {

/// Why a term is expected to have some type.
#[derive(Debug, Clone, Copy, PartialEq, Eq, Structural)]
pub enum ExpectedReason {
    /// The declared return type written at `annotation`.
    ReturnType { annotation: TextRange },
    /// A type annotation written at `range`.
    Annotation { range: TextRange },
    Unspecified,
}

/// The type a term is checked against, and why.
#[derive(Debug)]
pub struct Expected {
    pub ty: Term,
    pub reason: ExpectedReason,
}

impl Expected {
    pub fn new(ty: Term, reason: ExpectedReason) -> (e: Expected)
        ensures
            e == (Expected { ty, reason }),
    {
        Expected { ty, reason }
    }

    /// An expectation with no particular reason.
    pub fn any(ty: Term) -> (e: Expected)
        ensures
            e == (Expected { ty, reason: ExpectedReason::Unspecified }),
    {
        Expected { ty, reason: ExpectedReason::Unspecified }
    }
}

/// `` `t` ``.
pub open spec fn quoted(t: Seq<char>) -> Seq<char> {
    seq!['`'] + t + seq!['`']
}

/// The texts of some strings.
pub open spec fn texts(v: Seq<String>) -> Seq<Seq<char>> {
    v.map_values(|s: String| s@)
}

/// The text of an optional message.
pub open spec fn opt_text(o: Option<String>) -> Option<Seq<char>> {
    match o {
        Some(s) => Some(s@),
        None => None,
    }
}

/// An error at `range` of `file` with message `message` and no code.
pub open spec fn diag_head(d: Diagnostic, file: u32, range: TextRange, message: Seq<char>) -> bool {
    &&& d.severity == Severity::Error
    &&& d.code is None
    &&& d.message@ == message
    &&& d.primary.file == file
    &&& d.primary.range == range
}

/// A label of `range` in `file` saying `message`.
pub open spec fn label_is(l: Label, file: u32, range: TextRange, message: Seq<char>) -> bool {
    l.file == file && l.range == range && opt_text(l.message) == Some(message)
}

/// `"Unique(n)"`, how a name is printed for debugging.
pub open spec fn unique_debug(u: Unique) -> Seq<char> {
    "Unique("@ + nat_decimal(u.0 as nat) + seq![')']
}

/// The message of an inference error.
pub open spec fn spec_infer_error_message(e: InferTermError) -> Seq<char> {
    match e {
        InferTermError::UnboundBVar(i) => "unbound de Bruijn variable #"@ + nat_decimal(i as nat),
        InferTermError::UnknownFVar(u) => "unknown free variable "@ + unique_debug(u),
        InferTermError::UnknownMVar(u) => "unknown metavariable "@ + unique_debug(u),
        InferTermError::UnknownConst(c) => "unknown declaration ItemId("@ + nat_decimal(c.0 as nat)
            + seq![')'],
        InferTermError::ExpectedFunction { .. } => "expected a function"@,
        InferTermError::ExpectedType { .. } => "expected a type"@,
        InferTermError::TypeMismatch { .. } => "term has an unexpected type"@,
        InferTermError::MissingLangItem(l) => "missing language item "@ + quoted(l.spec_text()),
        InferTermError::Exhausted { .. } => "reduction limit exceeded"@,
    }
}

impl InferTermError {
    /// The error's message.
    pub fn message(&self) -> (r: String)
        ensures
            r@ == spec_infer_error_message(*self),
    {
        let mut out: Vec<char> = Vec::new();
        match self {
            InferTermError::UnboundBVar(i) => {
                push_str(&mut out, "unbound de Bruijn variable #");
                push_decimal(&mut out, *i as u64);
            },
            InferTermError::UnknownFVar(u) => {
                push_str(&mut out, "unknown free variable ");
                push_str(&mut out, "Unique(");
                push_decimal(&mut out, u.0 as u64);
                out.push(')');
                assert(out@ =~= spec_infer_error_message(*self));
            },
            InferTermError::UnknownMVar(u) => {
                push_str(&mut out, "unknown metavariable ");
                push_str(&mut out, "Unique(");
                push_decimal(&mut out, u.0 as u64);
                out.push(')');
                assert(out@ =~= spec_infer_error_message(*self));
            },
            InferTermError::UnknownConst(c) => {
                push_str(&mut out, "unknown declaration ItemId(");
                push_decimal(&mut out, c.0 as u64);
                out.push(')');
            },
            InferTermError::ExpectedFunction { .. } => push_str(&mut out, "expected a function"),
            InferTermError::ExpectedType { .. } => push_str(&mut out, "expected a type"),
            InferTermError::TypeMismatch { .. } => push_str(&mut out, "term has an unexpected type"),
            InferTermError::MissingLangItem(l) => {
                push_str(&mut out, "missing language item ");
                out.push('`');
                push_str(&mut out, l.as_str());
                out.push('`');
                assert(out@ =~= spec_infer_error_message(*self));
            },
            InferTermError::Exhausted { .. } => push_str(&mut out, "reduction limit exceeded"),
        }
        string_from_chars(&out)
    }
}

/// The note for one frame of the elaborator.
pub open spec fn frame_note(names: Seq<Seq<char>>, f: Frame) -> Seq<char> {
    match f {
        Frame::DefBody { name } => "while checking the body of "@ + quoted(symbol_text(names, name)),
    }
}

/// The notes for the frames, innermost first.
pub open spec fn frame_notes_text(names: Seq<Seq<char>>, frames: Seq<Frame>) -> Seq<Seq<char>> {
    frames.reverse().map_values(|f: Frame| frame_note(names, f))
}

/// The note naming the innermost disagreement, when it is not the whole.
pub open spec fn root_note(
    items: Seq<ItemData>,
    names: Seq<Seq<char>>,
    found: Term,
    expected: Term,
    err: UnifyError,
) -> Seq<Seq<char>> {
    let (r1, r2) = err.spec_root();
    if !term_same(r1, found) || !term_same(r2, expected) {
        seq![
            "the conflict is between "@ + quoted(term_debug(items, names, r1)) + " and "@
                + quoted(term_debug(items, names, r2)),
        ]
    } else {
        Seq::empty()
    }
}

/// `d` reports that `found` was given where `expected` was wanted.
pub open spec fn mismatch_diag(
    d: Diagnostic,
    items: Seq<ItemData>,
    names: Seq<Seq<char>>,
    file: u32,
    frames: Seq<Frame>,
    range: TextRange,
    found: Term,
    expected: Expected,
    err: UnifyError,
) -> bool {
    let e = term_debug(items, names, expected.ty);
    let f = term_debug(items, names, found);
    &&& diag_head(d, file, range, "type mismatch: expected "@ + quoted(e) + ", found "@ + quoted(f))
    &&& opt_text(d.primary.message) == Some("this is "@ + quoted(f) + ", expected "@ + quoted(e))
    &&& match expected.reason {
        ExpectedReason::ReturnType { annotation } => d.secondaries@.len() == 1 && label_is(
            d.secondaries@[0],
            file,
            annotation,
            "expected "@ + quoted(e) + " because of this return type"@,
        ),
        ExpectedReason::Annotation { range: ann } => d.secondaries@.len() == 1 && label_is(
            d.secondaries@[0],
            file,
            ann,
            "expected "@ + quoted(e) + " because of this annotation"@,
        ),
        ExpectedReason::Unspecified => d.secondaries@.len() == 0,
    }
    &&& texts(d.notes@) == root_note(items, names, found, expected.ty, err) + frame_notes_text(
        names,
        frames,
    )
    &&& d.helps@.len() == 0
}

/// `d` is the diagnostic for failing to infer the type of `term` at `span`.
pub open spec fn infer_error_diag(
    d: Diagnostic,
    items: Seq<ItemData>,
    names: Seq<Seq<char>>,
    file: u32,
    frames: Seq<Frame>,
    span: TextRange,
    term: Term,
    e: InferTermError,
) -> bool {
    match e {
        InferTermError::TypeMismatch { found, expected, cause, .. } => mismatch_diag(
            d,
            items,
            names,
            file,
            frames,
            span,
            found,
            Expected { ty: expected, reason: ExpectedReason::Unspecified },
            cause,
        ),
        InferTermError::ExpectedFunction { term: t, found } => {
            &&& diag_head(d, file, span, "expected a function"@)
            &&& opt_text(d.primary.message) == Some(
                "expected "@ + quoted(term_debug(items, names, t))
                    + " to be a function, but its type is "@ + quoted(
                    term_debug(items, names, found),
                ),
            )
            &&& d.secondaries@.len() == 0 && d.notes@.len() == 0 && d.helps@.len() == 0
        },
        InferTermError::ExpectedType { term: t, found } => {
            &&& diag_head(d, file, span, "expected a type"@)
            &&& opt_text(d.primary.message) == Some(
                "expected "@ + quoted(term_debug(items, names, t))
                    + " to be a type, but its type is "@ + quoted(
                    term_debug(items, names, found),
                ),
            )
            &&& d.secondaries@.len() == 0 && d.notes@.len() == 0 && d.helps@.len() == 0
        },
        _ => {
            &&& diag_head(d, file, span, "could not infer the type of this term"@)
            &&& opt_text(d.primary.message) == Some(spec_infer_error_message(e))
            &&& texts(d.notes@) == seq![
                "while inferring "@ + quoted(term_debug(items, names, term)),
            ]
            &&& d.secondaries@.len() == 0 && d.helps@.len() == 0
        },
    }
}

/// `quoted` text of a term, as a character buffer.
fn push_quoted_term(out: &mut Vec<char>, env: &crate::env::Env, table: &SymbolTable, t: &Term)
    ensures
        final(out)@ == old(out)@ + quoted(term_debug(env.items@, table@, *t)),
{
    out.push('`');
    crate::debug::write_term_debug(out, env, table, t);
    out.push('`');
    assert(out@ =~= old(out)@ + quoted(term_debug(env.items@, table@, *t)));
}

impl<'a> ElabCtx<'a> {
    /// An error diagnostic at `range` of the current file.
    pub fn mk_error(&self, range: TextRange, message: &str) -> (d: Diag)
        ensures
            diag_head(d.inner, self.file, range, message@),
            d.inner.primary.message is None,
            d.inner.secondaries@.len() == 0,
            d.inner.notes@.len() == 0,
            d.inner.helps@.len() == 0,
    {
        Diagnostic::error(message, self.file, range)
    }

    /// A label of `range` in the current file.
    pub fn mk_label(&self, range: TextRange, message: &str) -> (l: Label)
        ensures
            label_is(l, self.file, range, message@),
    {
        let m = message.to_string();
        proof {
            vstd::string::to_string_from_display_ensures_for_str(message, m);
        }
        Label { file: self.file, range, message: Some(m) }
    }

    /// Reports a finished diagnostic.
    pub fn emit(&mut self, builder: Diag)
        ensures
            final(self).diagnostics@ == old(self).diagnostics@.push(builder.inner),
            final(self).env == old(self).env,
            final(self).lang_items == old(self).lang_items,
            final(self).namespace == old(self).namespace,
            final(self).fuel == old(self).fuel,
            final(self).lctx == old(self).lctx,
            final(self).mctx == old(self).mctx,
            final(self).gen_ == old(self).gen_,
            final(self).current_decl == old(self).current_decl,
            final(self).file == old(self).file,
            final(self).autobound == old(self).autobound,
            final(self).frames == old(self).frames,
    {
        self.diagnostics.push(builder.build());
    }

    /// The poisoned term and type that stand for something already reported.
    pub fn poison(&self) -> (r: (Term, Term))
        ensures
            r.0 is Error && r.1 is Error,
    {
        let token = crate::term::ErrorToken::new();
        (Term::Error(token), Term::Error(token))
    }

    /// The poisoned term.
    pub fn error_term(&self) -> (t: Term)
        ensures
            t is Error,
    {
        self.poison().0
    }

    /// Reports `builder` and returns the poisoned term and type.
    pub fn error(&mut self, builder: Diag) -> (r: (Term, Term))
        ensures
            final(self).diagnostics@ == old(self).diagnostics@.push(builder.inner),
            r.0 is Error && r.1 is Error,
            final(self).env == old(self).env,
            final(self).lang_items == old(self).lang_items,
            final(self).namespace == old(self).namespace,
            final(self).fuel == old(self).fuel,
            final(self).lctx == old(self).lctx,
            final(self).mctx == old(self).mctx,
            final(self).gen_ == old(self).gen_,
            final(self).current_decl == old(self).current_decl,
            final(self).file == old(self).file,
            final(self).autobound == old(self).autobound,
            final(self).frames == old(self).frames,
    {
        self.emit(builder);
        self.poison()
    }

    /// Records that the elaborator is now inside `frame`.
    pub fn enter_frame(&mut self, frame: Frame)
        ensures
            final(self).frames@ == old(self).frames@.push(frame),
            final(self).diagnostics == old(self).diagnostics,
            final(self).env == old(self).env,
            final(self).lctx == old(self).lctx,
            final(self).mctx == old(self).mctx,
            final(self).gen_ == old(self).gen_,
            final(self).file == old(self).file,
            final(self).lang_items == old(self).lang_items,
            final(self).namespace == old(self).namespace,
            final(self).fuel == old(self).fuel,
            final(self).current_decl == old(self).current_decl,
            final(self).autobound == old(self).autobound,
    {
        self.frames.push(frame);
    }

    /// Leaves the innermost frame, which must be `frame`.
    pub fn leave_frame(&mut self, frame: Frame)
        requires
            old(self).frames@.len() > 0,
            old(self).frames@.last() == frame,
        ensures
            final(self).frames@ == old(self).frames@.drop_last(),
            final(self).diagnostics == old(self).diagnostics,
            final(self).env == old(self).env,
            final(self).lctx == old(self).lctx,
            final(self).mctx == old(self).mctx,
            final(self).gen_ == old(self).gen_,
            final(self).file == old(self).file,
            final(self).lang_items == old(self).lang_items,
            final(self).namespace == old(self).namespace,
            final(self).fuel == old(self).fuel,
            final(self).current_decl == old(self).current_decl,
            final(self).autobound == old(self).autobound,
    {
        self.frames.pop();
    }

    /// One note per frame, innermost first.
    pub fn frame_notes(&self, table: &SymbolTable) -> (r: Vec<String>)
        ensures
            texts(r@) == frame_notes_text(table@, self.frames@),
    {
        let mut r: Vec<String> = Vec::new();
        let n = self.frames.len();
        let mut i: usize = n;
        while i > 0
            invariant
                n == self.frames@.len(),
                i <= n,
                texts(r@) == frame_notes_text(table@, self.frames@.subrange(i as int, n as int)),
            decreases i,
        {
            let mut out: Vec<char> = Vec::new();
            match self.frames[i - 1] {
                Frame::DefBody { name } => {
                    push_str(&mut out, "while checking the body of ");
                    out.push('`');
                    if (name.0 as usize) < table.len() {
                        push_str(&mut out, name.as_str(table));
                    } else {
                        push_str(&mut out, "<unknown>");
                    }
                    out.push('`');
                },
            }
            let note = string_from_chars(&out);
            proof {
                assert(note@ =~= frame_note(table@, self.frames@[i - 1]));
            }
            let ghost before = r@;
            r.push(note);
            proof {
                let sub = self.frames@.subrange(i - 1, n as int);
                let rest = self.frames@.subrange(i as int, n as int);
                assert(sub.reverse() =~= rest.reverse().push(self.frames@[i - 1]));
                assert(texts(r@) =~= texts(before).push(note@));
            }
            i = i - 1;
        }
        proof {
            assert(self.frames@.subrange(0, n as int) =~= self.frames@);
        }
        r
    }

    /// The diagnostic for `found` given where `expected` was wanted; `err` says why they differ.
    pub fn mismatch(
        &self,
        table: &SymbolTable,
        range: TextRange,
        found: &Term,
        expected: &Expected,
        err: &UnifyError,
    ) -> (d: Diag)
        ensures
            mismatch_diag(
                d.inner,
                self.env.items@,
                table@,
                self.file,
                self.frames@,
                range,
                *found,
                *expected,
                *err,
            ),
    {
        let env = self.env;
        let mut msg: Vec<char> = Vec::new();
        push_str(&mut msg, "type mismatch: expected ");
        push_quoted_term(&mut msg, env, table, &expected.ty);
        push_str(&mut msg, ", found ");
        push_quoted_term(&mut msg, env, table, found);
        let msg_s = string_from_chars(&msg);
        let mut builder = Diagnostic::error(msg_s.as_str(), self.file, range);
        let mut primary: Vec<char> = Vec::new();
        push_str(&mut primary, "this is ");
        push_quoted_term(&mut primary, env, table, found);
        push_str(&mut primary, ", expected ");
        push_quoted_term(&mut primary, env, table, &expected.ty);
        builder = builder.with_primary_message(string_from_chars(&primary));
        match expected.reason {
            ExpectedReason::ReturnType { annotation } => {
                let mut t: Vec<char> = Vec::new();
                push_str(&mut t, "expected ");
                push_quoted_term(&mut t, env, table, &expected.ty);
                push_str(&mut t, " because of this return type");
                let label = Label { file: self.file, range: annotation, message: Some(string_from_chars(&t)) };
                builder = builder.with_secondary_label(label);
            },
            ExpectedReason::Annotation { range: ann } => {
                let mut t: Vec<char> = Vec::new();
                push_str(&mut t, "expected ");
                push_quoted_term(&mut t, env, table, &expected.ty);
                push_str(&mut t, " because of this annotation");
                let label = Label { file: self.file, range: ann, message: Some(string_from_chars(&t)) };
                builder = builder.with_secondary_label(label);
            },
            ExpectedReason::Unspecified => {},
        }
        let ghost notes0 = builder.inner.notes@;
        let (root_found, root_expected) = err.root();
        if !term_eq(&root_found, found) || !term_eq(&root_expected, &expected.ty) {
            let mut t: Vec<char> = Vec::new();
            push_str(&mut t, "the conflict is between ");
            push_quoted_term(&mut t, env, table, &root_found);
            push_str(&mut t, " and ");
            push_quoted_term(&mut t, env, table, &root_expected);
            builder = builder.with_note(string_from_chars(&t));
        }
        let ghost notes1 = builder.inner.notes@;
        proof {
            assert(texts(notes1) =~= root_note(env.items@, table@, *found, expected.ty, *err));
        }
        let frame_notes = self.frame_notes(table);
        let ghost pm = builder.inner.primary;
        let ghost secs = builder.inner.secondaries@;
        let ghost head = builder.inner;
        let mut k: usize = 0;
        proof {
            assert(texts(frame_notes@.take(0)) =~= Seq::<Seq<char>>::empty());
            assert(texts(notes1) + Seq::<Seq<char>>::empty() =~= texts(notes1));
        }
        while k < frame_notes.len()
            invariant
                k <= frame_notes@.len(),
                texts(builder.inner.notes@) == texts(notes1) + texts(frame_notes@.take(k as int)),
                crate::diagnostics::same_core(builder.inner, head),
                builder.inner.primary == pm,
                builder.inner.secondaries@ == secs,
                builder.inner.helps@.len() == 0,
            decreases frame_notes.len() - k,
        {
            let note = frame_notes[k].clone();
            let ghost before = builder.inner.notes@;
            builder = builder.with_note(note);
            proof {
                assert(texts(frame_notes@.take(k + 1)) =~= texts(frame_notes@.take(k as int)).push(
                    frame_notes@[k as int]@,
                ));
                assert(texts(builder.inner.notes@) =~= texts(before).push(note@));
            }
            k = k + 1;
        }
        proof {
            assert(frame_notes@.take(frame_notes@.len() as int) =~= frame_notes@);
        }
        builder
    }

    /// Reports `builder` made by `mismatch`.
    pub fn report_mismatch(
        &mut self,
        table: &SymbolTable,
        range: TextRange,
        found: &Term,
        expected: &Expected,
        err: &UnifyError,
    )
        ensures
            final(self).diagnostics@.len() == old(self).diagnostics@.len() + 1,
            final(self).diagnostics@.drop_last() == old(self).diagnostics@,
            mismatch_diag(
                final(self).diagnostics@.last(),
                old(self).env.items@,
                table@,
                old(self).file,
                old(self).frames@,
                range,
                *found,
                *expected,
                *err,
            ),
            final(self).env == old(self).env,
            final(self).lang_items == old(self).lang_items,
            final(self).namespace == old(self).namespace,
            final(self).fuel == old(self).fuel,
            final(self).lctx == old(self).lctx,
            final(self).mctx == old(self).mctx,
            final(self).gen_ == old(self).gen_,
            final(self).current_decl == old(self).current_decl,
            final(self).file == old(self).file,
            final(self).autobound == old(self).autobound,
            final(self).frames == old(self).frames,
    {
        let d = self.mismatch(table, range, found, expected, err);
        self.emit(d);
        assert(self.diagnostics@.drop_last() =~= old(self).diagnostics@);
    }

    /// Infers the type of `term`, reporting a failure at `span` instead of returning it.
    pub fn infer_term_with_diagnostics(&mut self, table: &SymbolTable, term: &Term, span: TextRange) -> (r: Option<Term>)
        requires
            old(self).mctx.wf(),
            old(self).lang_items.wf(),
        ensures
            ({
                let o = infer_of(*old(self), *term);
                &&& final(self).mctx.solutions() == o.1
                &&& final(self).gen_.next_id() == o.2
                &&& match o.0 {
                    Ok(ty) => r == Some(ty) && final(self).diagnostics@ == old(self).diagnostics@,
                    Err(e) => {
                        &&& r is None
                        &&& final(self).diagnostics@.len() == old(self).diagnostics@.len() + 1
                        &&& final(self).diagnostics@.drop_last() == old(self).diagnostics@
                        &&& infer_error_diag(
                            final(self).diagnostics@.last(),
                            old(self).env.items@,
                            table@,
                            old(self).file,
                            old(self).frames@,
                            span,
                            *term,
                            e,
                        )
                    },
                }
            }),
            final(self).env == old(self).env,
            final(self).lang_items == old(self).lang_items,
            final(self).namespace == old(self).namespace,
            final(self).fuel == old(self).fuel,
            final(self).lctx@ == old(self).lctx@,
            final(self).mctx.metas() == old(self).mctx.metas(),
            final(self).mctx.wf(),
            final(self).current_decl == old(self).current_decl,
            final(self).file == old(self).file,
            final(self).autobound == old(self).autobound,
            final(self).frames == old(self).frames,
    {
        let env = self.env;
        match self.infer_term(term) {
            Ok(ty) => Some(ty),
            Err(InferTermError::TypeMismatch { term: _, found, expected, cause }) => {
                let expected = Expected::any(expected);
                self.report_mismatch(table, span, &found, &expected, &cause);
                None
            },
            Err(InferTermError::ExpectedFunction { term: t, found }) => {
                let mut m: Vec<char> = Vec::new();
                push_str(&mut m, "expected ");
                push_quoted_term(&mut m, env, table, &t);
                push_str(&mut m, " to be a function, but its type is ");
                push_quoted_term(&mut m, env, table, &found);
                let d = self.mk_error(span, "expected a function").with_primary_message(
                    string_from_chars(&m),
                );
                self.emit(d);
                assert(self.diagnostics@.drop_last() =~= old(self).diagnostics@);
                None
            },
            Err(InferTermError::ExpectedType { term: t, found }) => {
                let mut m: Vec<char> = Vec::new();
                push_str(&mut m, "expected ");
                push_quoted_term(&mut m, env, table, &t);
                push_str(&mut m, " to be a type, but its type is ");
                push_quoted_term(&mut m, env, table, &found);
                let d = self.mk_error(span, "expected a type").with_primary_message(
                    string_from_chars(&m),
                );
                self.emit(d);
                assert(self.diagnostics@.drop_last() =~= old(self).diagnostics@);
                None
            },
            Err(error) => {
                let mut n: Vec<char> = Vec::new();
                push_str(&mut n, "while inferring ");
                push_quoted_term(&mut n, env, table, term);
                let note = string_from_chars(&n);
                let message = error.message();
                let d = self.mk_error(span, "could not infer the type of this term")
                    .with_primary_message(message)
                    .with_note(note);
                proof {
                    assert(texts(d.inner.notes@) =~= seq![note@]);
                }
                self.emit(d);
                assert(self.diagnostics@.drop_last() =~= old(self).diagnostics@);
                None
            },
        }
    }

    /// Reports the holes of `term` that are still unsolved, unless the term is
    /// already poisoned by an error.
    pub fn report_unsolved_mvars(&mut self, term: &Term, range: TextRange)
        ensures
            ({
                let u = spec_collect_unsolved(old(self).mctx.solutions(), *term, Seq::empty());
                if has_error(*term) || u.len() == 0 {
                    final(self).diagnostics@ == old(self).diagnostics@
                } else {
                    &&& final(self).diagnostics@.len() == old(self).diagnostics@.len() + 1
                    &&& final(self).diagnostics@.drop_last() == old(self).diagnostics@
                    &&& diag_head(
                        final(self).diagnostics@.last(),
                        old(self).file,
                        range,
                        "could not infer all implicit values in this declaration"@,
                    )
                    &&& final(self).diagnostics@.last().primary.message is None
                    &&& texts(final(self).diagnostics@.last().notes@) == seq![
                        nat_decimal(u.len()) + " metavariable(s) could not be solved"@,
                    ]
                    &&& final(self).diagnostics@.last().secondaries@.len() == 0
                    &&& final(self).diagnostics@.last().helps@.len() == 0
                }
            }),
            final(self).env == old(self).env,
            final(self).lang_items == old(self).lang_items,
            final(self).namespace == old(self).namespace,
            final(self).fuel == old(self).fuel,
            final(self).lctx == old(self).lctx,
            final(self).mctx == old(self).mctx,
            final(self).gen_ == old(self).gen_,
            final(self).file == old(self).file,
            final(self).frames == old(self).frames,
            final(self).autobound == old(self).autobound,
            final(self).current_decl == old(self).current_decl,
    {
        if term.has_error() {
            return;
        }
        let mut unsolved: Vec<Unique> = Vec::new();
        collect_unsolved(&self.mctx, term, &mut unsolved);
        if unsolved.len() == 0 {
            return;
        }
        let mut n: Vec<char> = Vec::new();
        push_decimal(&mut n, unsolved.len() as u64);
        push_str(&mut n, " metavariable(s) could not be solved");
        let note = string_from_chars(&n);
        let d = self.mk_error(range, "could not infer all implicit values in this declaration").with_note(
            note,
        );
        proof {
            assert(texts(d.inner.notes@) =~= seq![note@]);
        }
        self.emit(d);
        assert(self.diagnostics@.drop_last() =~= old(self).diagnostics@);
    }

    /// The diagnostic for applying something whose type `found` is not a function type.
    pub fn expected_function(&self, table: &SymbolTable, range: TextRange, found: &Term) -> (d: Diag)
        ensures
            diag_head(
                d.inner,
                self.file,
                range,
                "expected a function, found "@ + quoted(term_debug(self.env.items@, table@, *found)),
            ),
            opt_text(d.inner.primary.message) == Some(
                "this has type "@ + quoted(term_debug(self.env.items@, table@, *found))
                    + ", which is not a function"@,
            ),
            d.inner.secondaries@.len() == 0 && d.inner.notes@.len() == 0 && d.inner.helps@.len() == 0,
    {
        let mut m: Vec<char> = Vec::new();
        push_str(&mut m, "expected a function, found ");
        push_quoted_term(&mut m, self.env, table, found);
        let ms = string_from_chars(&m);
        let mut p: Vec<char> = Vec::new();
        push_str(&mut p, "this has type ");
        push_quoted_term(&mut p, self.env, table, found);
        push_str(&mut p, ", which is not a function");
        self.mk_error(range, ms.as_str()).with_primary_message(string_from_chars(&p))
    }

    /// The diagnostic for a call that would need instance resolution.
    pub fn unsupported_instance_implicit(&self, range: TextRange) -> (d: Diag)
        ensures
            diag_head(d.inner, self.file, range, "instance implicit arguments are not supported yet"@),
            opt_text(d.inner.primary.message) == Some(
                "this call needs instance search, but instance resolution is not implemented"@,
            ),
            d.inner.secondaries@.len() == 0 && d.inner.notes@.len() == 0 && d.inner.helps@.len() == 0,
    {
        let m = "this call needs instance search, but instance resolution is not implemented".to_string();
        proof {
            vstd::string::to_string_from_display_ensures_for_str(
                "this call needs instance search, but instance resolution is not implemented",
                m,
            );
        }
        self.mk_error(range, "instance implicit arguments are not supported yet").with_primary_message(m)
    }
}

} // verus!
