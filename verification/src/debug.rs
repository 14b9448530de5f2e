//! Debug rendering of terms, levels and literals, as the compiler prints them
//! in its output and diagnostics.

use vstd::prelude::*;
use crate::env::{Env, ItemData};
use crate::ids::{Symbol, SymbolTable};
use crate::literals::{Literal, NumberLiteral, NumberSuffix, NumberValue};
use crate::term::{BinderInfo, Level, Term};
use crate::text::{chars_of, digit_char, nat_decimal, push_all, push_str, string_from_chars, u64_decimal};

verus! {

/// `body` in parentheses when the surrounding precedence `outer` binds
/// tighter than `inner`.
pub open spec fn spec_paren(outer: nat, inner: nat, body: Seq<char>) -> Seq<char> {
    if outer > inner {
        seq!['('] + body + seq![')']
    } else {
        body
    }
}

/// `" + n"`-style suffix for `n` successors, empty for none.
pub open spec fn succ_suffix(sep: Seq<char>, n: nat) -> Seq<char> {
    if n > 0 {
        sep + nat_decimal(n)
    } else {
        Seq::empty()
    }
}

/// Text of level `l` under `n` further successors, at precedence `prec`.
pub open spec fn spec_level_text(names: Seq<Seq<char>>, l: Level, n: nat, prec: nat) -> Seq<char>
    decreases l,
{
    match l {
        Level::Succ(inner) => spec_level_text(names, *inner, n + 1, prec),
        Level::Zero => if n > 0 {
            nat_decimal(n)
        } else {
            seq!['0']
        },
        Level::Max(a, b) => spec_paren(
            prec,
            5,
            "max "@ + spec_level_text(names, *a, 0, 6) + seq![' '] + spec_level_text(names, *b, 0, 6)
                + succ_suffix(" + "@, n),
        ),
        Level::IMax(a, b) => spec_paren(
            prec,
            5,
            "imax "@ + spec_level_text(names, *a, 0, 6) + seq![' '] + spec_level_text(names, *b, 0, 6)
                + succ_suffix(" + "@, n),
        ),
        Level::MVar(u) => "?u"@ + nat_decimal(u.0 as nat) + succ_suffix("+"@, n),
        Level::Param(s) => symbol_text(names, s) + succ_suffix("+"@, n),
    }
}

/// The text of symbol `s`, or `<unknown>` for a symbol the table never handed out.
pub open spec fn symbol_text(names: Seq<Seq<char>>, s: Symbol) -> Seq<char> {
    if (s.0 as int) < names.len() {
        names[s.0 as int]
    } else {
        "<unknown>"@
    }
}

/// Text of a number value: the integer, or `numer/denom` (just `numer` over one).
pub open spec fn spec_value_text(v: NumberValue) -> Seq<char> {
    match v {
        NumberValue::Integer(s) => s@,
        NumberValue::Float { numer, denom } => if denom@ == seq!['1'] {
            numer@
        } else {
            numer@ + seq!['/'] + denom@
        },
    }
}

/// Text of a number literal: its value followed by its suffix.
pub open spec fn spec_number_text(n: NumberLiteral) -> Seq<char> {
    spec_value_text(n.value) + match n.suffix {
        Some(s) => s.spec_text(),
        None => Seq::empty(),
    }
}

/// What `{:?}` writes for a string: the text quoted, with escapes.
pub uninterp spec fn str_debug_text(s: Seq<char>) -> Seq<char>;

/// `format!("{:?}", s)`.
#[verifier::external_body]
fn str_debug(s: &str) -> (r: String)
    ensures
        r@ == str_debug_text(s@),
{
    format!("{:?}", s)
}

/// Text of a literal inside a term.
pub open spec fn spec_lit_text(l: Literal) -> Seq<char> {
    match l {
        Literal::Numeric(n) => spec_number_text(n),
        Literal::Text(s) => str_debug_text(s@),
    }
}

/// The brackets of a binder.
pub open spec fn binder_brackets(info: BinderInfo) -> (Seq<char>, Seq<char>) {
    match info {
        BinderInfo::Explicit => ("("@, ")"@),
        BinderInfo::Implicit => ("{"@, "}"@),
        BinderInfo::StrictImplicit => ("{{"@, "}}"@),
        BinderInfo::InstanceImplicit => ("["@, "]"@),
    }
}

/// Text of term `t` at precedence `prec`; `items` and `names` give the names of constants.
pub open spec fn spec_term_text(items: Seq<ItemData>, names: Seq<Seq<char>>, t: Term, prec: nat) -> Seq<
    char,
>
    decreases t, 0nat,
{
    match t {
        Term::BVar(i) => seq!['#'] + nat_decimal(i as nat),
        Term::FVar(u) => "?f"@ + nat_decimal(u.0 as nat),
        Term::MVar(u) => "?m"@ + nat_decimal(u.0 as nat),
        Term::Const(c) => if (c.0 as int) < items.len() {
            symbol_text(names, items[c.0 as int].name)
        } else {
            "<unknown>"@
        },
        Term::Sort(l) => "Sort "@ + spec_level_text(names, l, 0, 11),
        Term::Lit(l) => spec_lit_text(l),
        Term::App(f, x) => spec_paren(
            prec,
            10,
            spec_term_text(items, names, *f, 10) + seq![' '] + spec_term_text(items, names, *x, 11),
        ),
        Term::Lam(info, ty, body) => spec_paren(
            prec,
            0,
            "λ "@ + spec_binder_text(items, names, info, *ty) + " => "@ + spec_term_text(
                items,
                names,
                *body,
                0,
            ),
        ),
        Term::Pi(info, ty, body) => spec_paren(
            prec,
            0,
            spec_binder_text(items, names, info, *ty) + " -> "@ + spec_term_text(items, names, *body, 0),
        ),
        Term::Sigma(info, ty, body) => spec_paren(
            prec,
            0,
            "Σ "@ + spec_binder_text(items, names, info, *ty) + ", "@ + spec_term_text(
                items,
                names,
                *body,
                0,
            ),
        ),
        Term::Let(ty, v, body) => spec_paren(
            prec,
            0,
            "let : "@ + spec_term_text(items, names, *ty, 0) + " := "@ + spec_term_text(
                items,
                names,
                *v,
                0,
            ) + " in "@ + spec_term_text(items, names, *body, 0),
        ),
        Term::Error(_) => "<error>"@,
    }
}

/// Text of a binder of type `ty`: `(_ : ty)`, `{_ : ty}`, `{{_ : ty}}` or `[_ : ty]`.
pub open spec fn spec_binder_text(items: Seq<ItemData>, names: Seq<Seq<char>>, info: BinderInfo, ty: Term) -> Seq<
    char,
>
    decreases ty, 1nat,
{
    binder_brackets(info).0 + "_ : "@ + spec_term_text(items, names, ty, 0) + binder_brackets(info).1
}

pub(crate) fn write_symbol(out: &mut Vec<char>, table: &SymbolTable, s: Symbol)
    ensures
        final(out)@ == old(out)@ + symbol_text(table@, s),
{
    if (s.0 as usize) < table.len() {
        push_str(out, s.as_str(table));
    } else {
        push_str(out, "<unknown>");
    }
}

pub fn push_decimal(out: &mut Vec<char>, n: u64)
    ensures
        final(out)@ == old(out)@ + nat_decimal(n as nat),
{
    let d = u64_decimal(n);
    push_all(out, &d);
}

proof fn lemma_decimal_nonempty(n: nat)
    ensures
        nat_decimal(n).len() >= 1,
        n < 10 <==> nat_decimal(n).len() == 1,
        nat_decimal(n).last() == digit_char(n % 10),
    decreases n,
{
    if n >= 10 {
        lemma_decimal_nonempty(n / 10);
    }
}

/// The decimal expansion of `n + 1`, from that of `n`.
fn decimal_succ(d: &[char], Ghost(n): Ghost<nat>) -> (r: Vec<char>)
    requires
        d@ == nat_decimal(n),
    ensures
        r@ == nat_decimal(n + 1),
    decreases n,
{
    proof {
        lemma_decimal_nonempty(n);
        lemma_decimal_nonempty(n + 1);
    }
    let k = d.len();
    let last = d[k - 1];
    if last != '9' {
        proof {
            assert(n % 10 != 9);
            assert((n + 1) % 10 == n % 10 + 1);
            if n >= 10 {
                assert((n + 1) / 10 == n / 10);
            }
        }
        let mut r = crate::text::sub_chars(d, 0, k - 1);
        r.push(((last as u8) + 1) as char);
        proof {
            assert(d@.last() == digit_char(n % 10));
            if n >= 10 {
                assert(d@.drop_last() == nat_decimal(n / 10));
                assert(r@ =~= nat_decimal(n / 10).push(digit_char((n + 1) % 10)));
            } else {
                assert(r@ =~= seq![digit_char(n + 1)]);
            }
        }
        r
    } else if k == 1 {
        proof {
            assert(n == 9);
            assert(nat_decimal(1) == seq!['1']);
            assert(nat_decimal(10) =~= seq!['1', '0']);
        }
        let mut r: Vec<char> = Vec::new();
        r.push('1');
        r.push('0');
        r
    } else {
        proof {
            assert(n % 10 == 9);
            assert((n + 1) / 10 == n / 10 + 1);
            assert((n + 1) % 10 == 0);
            assert(d@.drop_last() =~= nat_decimal(n / 10));
        }
        let prefix = crate::text::sub_chars(d, 0, k - 1);
        proof {
            assert(prefix@ =~= d@.drop_last());
        }
        let mut r = decimal_succ(&prefix, Ghost(n / 10));
        r.push('0');
        proof {
            assert(n + 1 >= 10);
            assert(r@ =~= nat_decimal((n + 1) / 10).push(digit_char((n + 1) % 10)));
        }
        r
    }
}

/// Writes `level` under further successors, whose count `succs` is in
/// decimal (`count` is its value), at precedence `prec`.
fn write_level_under(
    out: &mut Vec<char>,
    table: &SymbolTable,
    level: &Level,
    succs: &[char],
    Ghost(count): Ghost<nat>,
    prec: u8,
)
    requires
        succs@ == nat_decimal(count),
    ensures
        final(out)@ == old(out)@ + spec_level_text(table@, *level, count, prec as nat),
    decreases level, 0nat,
{
    proof {
        lemma_decimal_nonempty(count);
    }
    let some = !(succs.len() == 1 && succs[0] == '0');
    proof {
        if count == 0 {
            assert(succs@ =~= seq!['0']);
        } else if succs@.len() == 1 {
            assert(count < 10);
            assert(succs@ == seq![digit_char(count)]);
        }
    }
    match level {
        Level::Succ(inner) => {
            let next = decimal_succ(succs, Ghost(count));
            write_level_under(out, table, inner, &next, Ghost(count + 1), prec)
        },
        Level::Zero => {
            if some {
                push_all(out, succs);
            } else {
                out.push('0');
                assert(out@ =~= old(out)@ + seq!['0']);
            }
        },
        Level::Max(a, b) | Level::IMax(a, b) => {
            let open = prec > 5;
            let ghost start = out@;
            if open {
                out.push('(');
            }
            match level {
                Level::Max(..) => push_str(out, "max "),
                _ => push_str(out, "imax "),
            }
            write_level(out, table, a, 6);
            out.push(' ');
            write_level(out, table, b, 6);
            if some {
                push_str(out, " + ");
                push_all(out, succs);
            }
            if open {
                out.push(')');
            }
            proof {
                let body = match *level {
                    Level::Max(..) => "max "@,
                    _ => "imax "@,
                } + spec_level_text(table@, **a, 0, 6) + seq![' '] + spec_level_text(
                    table@,
                    **b,
                    0,
                    6,
                ) + succ_suffix(" + "@, count);
                if open {
                    assert(out@ =~= start + (seq!['('] + body + seq![')']));
                } else {
                    assert(out@ =~= start + body);
                }
            }
        },
        Level::MVar(u) => {
            push_str(out, "?u");
            push_decimal(out, u.0 as u64);
            if some {
                push_str(out, "+");
                push_all(out, succs);
            }
            proof {
                assert(out@ =~= old(out)@ + ("?u"@ + nat_decimal(u.0 as nat) + succ_suffix(
                    "+"@,
                    count,
                )));
            }
        },
        Level::Param(s) => {
            write_symbol(out, table, *s);
            if some {
                push_str(out, "+");
                push_all(out, succs);
            }
            proof {
                assert(out@ =~= old(out)@ + (symbol_text(table@, *s) + succ_suffix("+"@, count)));
            }
        },
    }
}

/// Writes `level` at precedence `prec`: its successors are counted, `Succ (Succ Zero)` is `2`.
pub fn write_level(out: &mut Vec<char>, table: &SymbolTable, level: &Level, prec: u8)
    ensures
        final(out)@ == old(out)@ + spec_level_text(table@, *level, 0, prec as nat),
    decreases level, 1nat,
{
    let mut zero: Vec<char> = Vec::new();
    zero.push('0');
    proof {
        assert(zero@ =~= nat_decimal(0));
    }
    write_level_under(out, table, level, &zero, Ghost(0), prec)
}

/// Writes the value of a number literal.
fn write_value(out: &mut Vec<char>, v: &NumberValue)
    ensures
        final(out)@ == old(out)@ + spec_value_text(*v),
{
    match v {
        NumberValue::Integer(s) => push_str(out, s.as_str()),
        NumberValue::Float { numer, denom } => {
            let dc = chars_of(denom.as_str());
            let one = dc.len() == 1 && dc[0] == '1';
            proof {
                if dc@.len() == 1 && dc@[0] == '1' {
                    assert(dc@ =~= seq!['1']);
                }
            }
            push_str(out, numer.as_str());
            if !one {
                out.push('/');
                push_all(out, &dc);
                assert(out@ =~= old(out)@ + (numer@ + seq!['/'] + denom@));
            }
        },
    }
}

/// Writes a number literal: its value, then its suffix.
pub fn write_number(out: &mut Vec<char>, n: &NumberLiteral)
    ensures
        final(out)@ == old(out)@ + spec_number_text(*n),
{
    write_value(out, &n.value);
    match n.suffix {
        Some(s) => push_str(out, s.as_str()),
        None => {},
    }
    assert(out@ =~= old(out)@ + spec_number_text(*n));
}

impl NumberLiteral {
    /// The literal as the compiler prints it, e.g. `7/2f64`.
    pub fn to_text(&self) -> (r: String)
        ensures
            r@ == spec_number_text(*self),
    {
        let mut out: Vec<char> = Vec::new();
        write_number(&mut out, self);
        string_from_chars(&out)
    }
}

impl Literal {
    /// The literal as the compiler prints it: a number with its suffix, or the text itself.
    pub fn to_text(&self) -> (r: String)
        ensures
            r@ == match *self {
                Literal::Numeric(n) => spec_number_text(n),
                Literal::Text(s) => s@,
            },
    {
        match self {
            Literal::Numeric(n) => n.to_text(),
            Literal::Text(s) => {
                let c = chars_of(s.as_str());
                string_from_chars(&c)
            },
        }
    }
}

/// Writes a literal as it appears inside a term.
pub fn write_lit(out: &mut Vec<char>, lit: &Literal)
    ensures
        final(out)@ == old(out)@ + spec_lit_text(*lit),
{
    match lit {
        Literal::Numeric(n) => write_number(out, n),
        Literal::Text(s) => {
            let d = str_debug(s.as_str());
            push_str(out, d.as_str());
        },
    }
}

/// Writes a binder of type `ty`, with the brackets of `info`.
pub fn write_binder(out: &mut Vec<char>, env: &Env, table: &SymbolTable, info: BinderInfo, ty: &Term)
    ensures
        final(out)@ == old(out)@ + spec_binder_text(env.items@, table@, info, *ty),
    decreases ty, 2nat,
{
    let (open, close) = match info {
        BinderInfo::Explicit => ("(", ")"),
        BinderInfo::Implicit => ("{", "}"),
        BinderInfo::StrictImplicit => ("{{", "}}"),
        BinderInfo::InstanceImplicit => ("[", "]"),
    };
    push_str(out, open);
    push_str(out, "_ : ");
    write_term(out, env, table, ty, 0);
    push_str(out, close);
    assert(out@ =~= old(out)@ + spec_binder_text(env.items@, table@, info, *ty));
}

/// Writes `term` at precedence `prec`, in parentheses where it binds looser.
pub fn write_term(out: &mut Vec<char>, env: &Env, table: &SymbolTable, term: &Term, prec: u8)
    ensures
        final(out)@ == old(out)@ + spec_term_text(env.items@, table@, *term, prec as nat),
    decreases term, 1nat,
{
    let ghost start = out@;
    match term {
        Term::BVar(i) => {
            out.push('#');
            push_decimal(out, *i as u64);
            assert(out@ =~= start + (seq!['#'] + nat_decimal(*i as nat)));
        },
        Term::FVar(u) => {
            push_str(out, "?f");
            push_decimal(out, u.0 as u64);
            assert(out@ =~= start + ("?f"@ + nat_decimal(u.0 as nat)));
        },
        Term::MVar(u) => {
            push_str(out, "?m");
            push_decimal(out, u.0 as u64);
            assert(out@ =~= start + ("?m"@ + nat_decimal(u.0 as nat)));
        },
        Term::Const(c) => match env.item(*c) {
            Some(item) => write_symbol(out, table, item.name),
            None => push_str(out, "<unknown>"),
        },
        Term::Sort(l) => {
            push_str(out, "Sort ");
            write_level(out, table, l, 11);
            assert(out@ =~= start + ("Sort "@ + spec_level_text(table@, *l, 0, 11)));
        },
        Term::Lit(l) => write_lit(out, l),
        Term::App(..) => write_app(out, env, table, term, prec),
        Term::Lam(..) | Term::Pi(..) | Term::Sigma(..) => write_binding(out, env, table, term, prec),
        Term::Let(..) => write_let(out, env, table, term, prec),
        Term::Error(_) => push_str(out, "<error>"),
    }
}

fn write_app(out: &mut Vec<char>, env: &Env, table: &SymbolTable, term: &Term, prec: u8)
    requires
        term is App,
    ensures
        final(out)@ == old(out)@ + spec_term_text(env.items@, table@, *term, prec as nat),
    decreases term, 0nat,
{
    let (f, x) = match term {
        Term::App(f, x) => (f, x),
        _ => return,
    };
    let ghost start = out@;
    let open = prec > 10;
    if open {
        out.push('(');
    }
    write_term(out, env, table, f, 10);
    out.push(' ');
    write_term(out, env, table, x, 11);
    if open {
        out.push(')');
    }
    proof {
        let body = spec_term_text(env.items@, table@, **f, 10) + seq![' '] + spec_term_text(
            env.items@,
            table@,
            **x,
            11,
        );
        if open {
            assert(out@ =~= start + (seq!['('] + body + seq![')']));
        } else {
            assert(out@ =~= start + body);
        }
    }
}

fn write_binding(out: &mut Vec<char>, env: &Env, table: &SymbolTable, term: &Term, prec: u8)
    requires
        term is Lam || term is Pi || term is Sigma,
    ensures
        final(out)@ == old(out)@ + spec_term_text(env.items@, table@, *term, prec as nat),
    decreases term, 0nat,
{
    let ghost start = out@;
    let open = prec > 0;
    if open {
        out.push('(');
    }
    let ghost mid = out@;
    match term {
        Term::Lam(info, ty, body) => {
            push_str(out, "λ ");
            write_binder(out, env, table, *info, ty);
            push_str(out, " => ");
            write_term(out, env, table, body, 0);
        },
        Term::Pi(info, ty, body) => {
            write_binder(out, env, table, *info, ty);
            push_str(out, " -> ");
            write_term(out, env, table, body, 0);
        },
        Term::Sigma(info, ty, body) => {
            push_str(out, "Σ ");
            write_binder(out, env, table, *info, ty);
            push_str(out, ", ");
            write_term(out, env, table, body, 0);
        },
        _ => {},
    }
    let ghost inner = out@.subrange(mid.len() as int, out@.len() as int);
    proof {
        assert(out@ =~= mid + inner);
        match term {
            Term::Lam(info, ty, body) => {
                assert(inner =~= "λ "@ + spec_binder_text(env.items@, table@, *info, **ty) + " => "@
                    + spec_term_text(env.items@, table@, **body, 0));
            },
            Term::Pi(info, ty, body) => {
                assert(inner =~= spec_binder_text(env.items@, table@, *info, **ty) + " -> "@
                    + spec_term_text(env.items@, table@, **body, 0));
            },
            Term::Sigma(info, ty, body) => {
                assert(inner =~= "Σ "@ + spec_binder_text(env.items@, table@, *info, **ty) + ", "@
                    + spec_term_text(env.items@, table@, **body, 0));
            },
            _ => {},
        }
    }
    if open {
        out.push(')');
    }
    proof {
        if open {
            assert(out@ =~= start + (seq!['('] + inner + seq![')']));
        } else {
            assert(out@ =~= start + inner);
        }
    }
}

fn write_let(out: &mut Vec<char>, env: &Env, table: &SymbolTable, term: &Term, prec: u8)
    requires
        term is Let,
    ensures
        final(out)@ == old(out)@ + spec_term_text(env.items@, table@, *term, prec as nat),
    decreases term, 0nat,
{
    let (ty, v, body) = match term {
        Term::Let(ty, v, body) => (ty, v, body),
        _ => return,
    };
    let ghost start = out@;
    let open = prec > 0;
    if open {
        out.push('(');
    }
    push_str(out, "let : ");
    write_term(out, env, table, ty, 0);
    push_str(out, " := ");
    write_term(out, env, table, v, 0);
    push_str(out, " in ");
    write_term(out, env, table, body, 0);
    if open {
        out.push(')');
    }
    proof {
        let inner = "let : "@ + spec_term_text(env.items@, table@, **ty, 0) + " := "@ + spec_term_text(
            env.items@,
            table@,
            **v,
            0,
        ) + " in "@ + spec_term_text(env.items@, table@, **body, 0);
        if open {
            assert(out@ =~= start + (seq!['('] + inner + seq![')']));
        } else {
            assert(out@ =~= start + inner);
        }
    }
}

/// The text of `term` at precedence zero.
pub fn term_text(env: &Env, table: &SymbolTable, term: &Term) -> (r: String)
    ensures
        r@ == spec_term_text(env.items@, table@, *term, 0),
{
    let mut out: Vec<char> = Vec::new();
    write_term(&mut out, env, table, term, 0);
    string_from_chars(&out)
}

/// Writes `body` into `out`, in parentheses when the surrounding precedence
/// `outer` is above `inner`.
pub fn paren(out: &mut Vec<char>, outer: u8, inner: u8, body: &[char])
    ensures
        final(out)@ == old(out)@ + spec_paren(outer as nat, inner as nat, body@),
{
    if outer > inner {
        out.push('(');
        push_all(out, body);
        out.push(')');
        assert(out@ =~= old(out)@ + (seq!['('] + body@ + seq![')']));
    } else {
        push_all(out, body);
    }
}


/// The name of a binder kind, as its variant is written.
pub open spec fn info_debug(i: BinderInfo) -> Seq<char> {
    match i {
        BinderInfo::Explicit => "Explicit"@,
        BinderInfo::Implicit => "Implicit"@,
        BinderInfo::InstanceImplicit => "InstanceImplicit"@,
        BinderInfo::StrictImplicit => "StrictImplicit"@,
    }
}

/// The name of a number suffix, as its variant is written.
pub open spec fn suffix_debug(s: NumberSuffix) -> Seq<char> {
    match s {
        NumberSuffix::I8 => "I8"@,
        NumberSuffix::I16 => "I16"@,
        NumberSuffix::I32 => "I32"@,
        NumberSuffix::I64 => "I64"@,
        NumberSuffix::U8 => "U8"@,
        NumberSuffix::U16 => "U16"@,
        NumberSuffix::U32 => "U32"@,
        NumberSuffix::U64 => "U64"@,
        NumberSuffix::F32 => "F32"@,
        NumberSuffix::F64 => "F64"@,
    }
}

/// A number value as its structure is written: an integer or a ratio.
pub open spec fn value_debug(v: NumberValue) -> Seq<char> {
    match v {
        NumberValue::Integer(d) => "Integer("@ + d@ + ")"@,
        NumberValue::Float { numer, denom } => "Float(Ratio { numer: "@ + numer@ + ", denom: "@ + denom@ + " })"@,
    }
}

/// An optional suffix as its structure is written.
pub open spec fn opt_suffix_debug(s: Option<NumberSuffix>) -> Seq<char> {
    match s {
        Some(x) => "Some("@ + suffix_debug(x) + ")"@,
        None => "None"@,
    }
}

/// A literal as its structure is written: `Text("..")`, or
/// `Numeric(NumberLiteral { value: .., suffix: .. })`.
pub open spec fn literal_debug(l: Literal) -> Seq<char> {
    match l {
        Literal::Text(s) => "Text("@ + str_debug_text(s@) + ")"@,
        Literal::Numeric(n) => "Numeric(NumberLiteral { value: "@ + value_debug(n.value) + ", suffix: "@
            + opt_suffix_debug(n.suffix) + " })"@,
    }
}

/// The debugging form of a term: every node in parentheses, binders with
/// the name of their kind, universes left out.
pub open spec fn term_debug(items: Seq<ItemData>, names: Seq<Seq<char>>, t: Term) -> Seq<char>
    decreases t,
{
    match t {
        Term::BVar(i) => seq!['#'] + nat_decimal(i as nat),
        Term::Const(c) => if (c.0 as int) < items.len() {
            symbol_text(names, items[c.0 as int].name)
        } else {
            "<unknown>"@
        },
        Term::App(g, x) => "("@ + term_debug(items, names, *g) + " "@ + term_debug(items, names, *x) + ")"@,
        Term::Lam(info, ty, body) => "(λ "@ + info_debug(info) + " : "@ + term_debug(items, names, *ty) + " => "@
            + term_debug(items, names, *body) + ")"@,
        Term::Pi(info, ty, body) => "("@ + info_debug(info) + " "@ + term_debug(items, names, *ty) + " -> "@
            + term_debug(items, names, *body) + ")"@,
        Term::Sigma(info, ty, body) => "(Σ "@ + info_debug(info) + " "@ + term_debug(items, names, *ty) + " , "@
            + term_debug(items, names, *body) + ")"@,
        Term::Let(ty, v, body) => "(let : "@ + term_debug(items, names, *ty) + " := "@ + term_debug(items, names, *v)
            + " ; "@ + term_debug(items, names, *body) + ")"@,
        Term::Sort(_) => "Sort ?"@,
        Term::Lit(l) => literal_debug(l),
        Term::FVar(u) => "?f"@ + nat_decimal(u.0 as nat),
        Term::MVar(u) => "?m"@ + nat_decimal(u.0 as nat),
        Term::Error(_) => "<error>"@,
    }
}

fn write_info_debug(out: &mut Vec<char>, info: BinderInfo)
    ensures
        final(out)@ == old(out)@ + info_debug(info),
{
    push_str(
        out,
        match info {
            BinderInfo::Explicit => "Explicit",
            BinderInfo::Implicit => "Implicit",
            BinderInfo::InstanceImplicit => "InstanceImplicit",
            BinderInfo::StrictImplicit => "StrictImplicit",
        },
    );
}

fn write_value_debug(out: &mut Vec<char>, v: &NumberValue)
    ensures
        final(out)@ == old(out)@ + value_debug(*v),
{
    match v {
        NumberValue::Integer(d) => {
            push_str(out, "Integer(");
            push_str(out, d.as_str());
            push_str(out, ")");
        },
        NumberValue::Float { numer, denom } => {
            push_str(out, "Float(Ratio { numer: ");
            push_str(out, numer.as_str());
            push_str(out, ", denom: ");
            push_str(out, denom.as_str());
            push_str(out, " })");
        },
    }
    assert(out@ =~= old(out)@ + value_debug(*v));
}

fn suffix_name(x: NumberSuffix) -> (r: &'static str)
    ensures
        r@ == suffix_debug(x),
{
    match x {
        NumberSuffix::I8 => "I8",
        NumberSuffix::I16 => "I16",
        NumberSuffix::I32 => "I32",
        NumberSuffix::I64 => "I64",
        NumberSuffix::U8 => "U8",
        NumberSuffix::U16 => "U16",
        NumberSuffix::U32 => "U32",
        NumberSuffix::U64 => "U64",
        NumberSuffix::F32 => "F32",
        NumberSuffix::F64 => "F64",
    }
}

fn write_suffix_debug(out: &mut Vec<char>, s: Option<NumberSuffix>)
    ensures
        final(out)@ == old(out)@ + opt_suffix_debug(s),
{
    match s {
        Some(x) => {
            push_str(out, "Some(");
            push_str(out, suffix_name(x));
            push_str(out, ")");
        },
        None => push_str(out, "None"),
    }
    assert(out@ =~= old(out)@ + opt_suffix_debug(s));
}

/// Appends the structure of literal `l` to `out`.
pub fn write_literal_debug(out: &mut Vec<char>, l: &Literal)
    ensures
        final(out)@ == old(out)@ + literal_debug(*l),
{
    match l {
        Literal::Text(s) => {
            push_str(out, "Text(");
            let d = str_debug(s.as_str());
            push_str(out, d.as_str());
            push_str(out, ")");
        },
        Literal::Numeric(n) => {
            push_str(out, "Numeric(NumberLiteral { value: ");
            write_value_debug(out, &n.value);
            push_str(out, ", suffix: ");
            write_suffix_debug(out, n.suffix);
            push_str(out, " })");
        },
    }
    assert(out@ =~= old(out)@ + literal_debug(*l));
}

/// Appends the debugging form of `t` to `out`.
pub fn write_term_debug(out: &mut Vec<char>, env: &Env, table: &SymbolTable, t: &Term)
    ensures
        final(out)@ == old(out)@ + term_debug(env.items@, table@, *t),
    decreases t,
{
    match t {
        Term::BVar(i) => {
            out.push('#');
            push_decimal(out, *i as u64);
        },
        Term::Const(c) => {
            if (c.0 as usize) < env.items.len() {
                write_symbol(out, table, env.items[c.0 as usize].name);
            } else {
                push_str(out, "<unknown>");
            }
        },
        Term::App(g, x) => {
            push_str(out, "(");
            write_term_debug(out, env, table, g);
            push_str(out, " ");
            write_term_debug(out, env, table, x);
            push_str(out, ")");
        },
        Term::Lam(info, ty, body) => {
            push_str(out, "(λ ");
            write_info_debug(out, *info);
            push_str(out, " : ");
            write_term_debug(out, env, table, ty);
            push_str(out, " => ");
            write_term_debug(out, env, table, body);
            push_str(out, ")");
        },
        Term::Pi(info, ty, body) => {
            push_str(out, "(");
            write_info_debug(out, *info);
            push_str(out, " ");
            write_term_debug(out, env, table, ty);
            push_str(out, " -> ");
            write_term_debug(out, env, table, body);
            push_str(out, ")");
        },
        Term::Sigma(info, ty, body) => {
            push_str(out, "(Σ ");
            write_info_debug(out, *info);
            push_str(out, " ");
            write_term_debug(out, env, table, ty);
            push_str(out, " , ");
            write_term_debug(out, env, table, body);
            push_str(out, ")");
        },
        Term::Let(ty, v, body) => {
            push_str(out, "(let : ");
            write_term_debug(out, env, table, ty);
            push_str(out, " := ");
            write_term_debug(out, env, table, v);
            push_str(out, " ; ");
            write_term_debug(out, env, table, body);
            push_str(out, ")");
        },
        Term::Sort(_) => push_str(out, "Sort ?"),
        Term::Lit(l) => write_literal_debug(out, l),
        Term::FVar(u) => {
            push_str(out, "?f");
            push_decimal(out, u.0 as u64);
        },
        Term::MVar(u) => {
            push_str(out, "?m");
            push_decimal(out, u.0 as u64);
        },
        Term::Error(_) => push_str(out, "<error>"),
    }
    assert(out@ =~= old(out)@ + term_debug(env.items@, table@, *t));
}

impl Term {
    /// The debugging form of the term.
    pub fn debug(&self, env: &Env, table: &SymbolTable) -> (r: String)
        ensures
            r@ == term_debug(env.items@, table@, *self),
    {
        let mut out: Vec<char> = Vec::new();
        write_term_debug(&mut out, env, table, self);
        assert(out@ =~= term_debug(env.items@, table@, *self));
        string_from_chars(out.as_slice())
    }
}

} // verus!
