//! Laws of printing universe levels.

use vstd::prelude::*;
use crate::debug::{spec_level_text, succ_suffix, symbol_text};
use crate::ids::Symbol;
use crate::term::Level;
use crate::text::{lemma_decimal_injective, nat_decimal};

verus! {

/// `l` under `n` successors.
pub open spec fn succs(l: Level, n: nat) -> Level
    decreases n,
{
    if n == 0 {
        l
    } else {
        Level::Succ(Box::new(succs(l, (n - 1) as nat)))
    }
}

/// Successors counted over a level add to those already counted.
pub proof fn lemma_succs_text(names: Seq<Seq<char>>, l: Level, n: nat, m: nat, prec: nat)
    ensures
        spec_level_text(names, succs(l, n), m, prec) == spec_level_text(names, l, m + n, prec),
    decreases n,
{
    if n > 0 {
        lemma_succs_text(names, l, (n - 1) as nat, m + 1, prec);
    }
}

/// A universe parameter under `n > 0` successors prints as its name, `+`
/// and the count; so `u` and `u+1` never print alike.
pub proof fn lemma_param_level_text(names: Seq<Seq<char>>, s: Symbol, n: nat, prec: nat)
    ensures
        n > 0 ==> spec_level_text(names, succs(Level::Param(s), n), 0, prec) == symbol_text(names, s) + "+"@
            + nat_decimal(n),
        n == 0 ==> spec_level_text(names, Level::Param(s), 0, prec) == symbol_text(names, s),
        spec_level_text(names, Level::Succ(Box::new(succs(Level::Param(s), n))), 0, prec) != spec_level_text(
            names,
            succs(Level::Param(s), n),
            0,
            prec,
        ),
{
    lemma_succs_text(names, Level::Param(s), n, 0, prec);
    lemma_succs_text(names, Level::Param(s), n + 1, 0, prec);
    assert(succs(Level::Param(s), n + 1) == Level::Succ(Box::new(succs(Level::Param(s), n))));
    reveal_strlit("+");
    let a = symbol_text(names, s) + ("+"@ + nat_decimal(n + 1));
    let b = symbol_text(names, s) + succ_suffix("+"@, n);
    if n == 0 {
        assert(a.len() > b.len());
    } else {
        lemma_decimal_injective(n + 1, n);
        let k = symbol_text(names, s).len() + 1;
        assert(a.subrange(k as int, a.len() as int) =~= nat_decimal(n + 1));
        assert(b.subrange(k as int, b.len() as int) =~= nat_decimal(n));
    }
}



/// One more successor always changes how a level prints: the text of a
/// level under `n + 1` successors differs from its text under `n`; so
/// `Succ(l)` never prints as `l`.
pub proof fn lemma_succ_changes_text(names: Seq<Seq<char>>, l: Level, n: nat, prec: nat)
    ensures
        spec_level_text(names, l, n + 1, prec) != spec_level_text(names, l, n, prec),
        spec_level_text(names, Level::Succ(Box::new(l)), 0, prec) != spec_level_text(names, l, 0, prec),
{
    lemma_succ_count_changes_text(names, l, n, prec);
    lemma_succ_count_changes_text(names, l, 0, prec);
}

/// One more successor counted over `l` changes its text.
proof fn lemma_succ_count_changes_text(names: Seq<Seq<char>>, l: Level, n: nat, prec: nat)
    ensures
        spec_level_text(names, l, n + 1, prec) != spec_level_text(names, l, n, prec),
    decreases l,
{
    reveal_strlit("+");
    reveal_strlit(" + ");
    match l {
        Level::Succ(inner) => {
            lemma_succ_count_changes_text(names, *inner, n + 1, prec);
        },
        Level::Zero => {
            if n == 0 {
                assert(nat_decimal(1) == seq![crate::text::digit_char(1)]);
                assert(crate::text::digit_char(1) != '0');
                assert(nat_decimal(1)[0] != seq!['0'][0]);
            } else {
                lemma_decimal_injective(n + 1, n);
            }
        },
        Level::Max(a, b) | Level::IMax(a, b) => {
            lemma_suffix_differs(" + "@, n);
            let h = if l is Max {
                "max "@ + spec_level_text(names, *a, 0, 6) + seq![' '] + spec_level_text(names, *b, 0, 6)
            } else {
                "imax "@ + spec_level_text(names, *a, 0, 6) + seq![' '] + spec_level_text(names, *b, 0, 6)
            };
            let x = spec_level_text(names, l, n + 1, prec);
            let y = spec_level_text(names, l, n, prec);
            lemma_concat_differs(h, succ_suffix(" + "@, n + 1), succ_suffix(" + "@, n));
            let bx = h + succ_suffix(" + "@, n + 1);
            let by = h + succ_suffix(" + "@, n);
            if prec > 5 {
                assert(x == seq!['('] + bx + seq![')']);
                assert(y == seq!['('] + by + seq![')']);
                if x == y {
                    assert(x.subrange(1, x.len() - 1) =~= bx);
                    assert(y.subrange(1, y.len() - 1) =~= by);
                }
            } else {
                assert(x == bx);
                assert(y == by);
            }
        },
        Level::MVar(u) => {
            lemma_suffix_differs("+"@, n);
            lemma_concat_differs("?u"@ + nat_decimal(u.0 as nat), succ_suffix("+"@, n + 1), succ_suffix("+"@, n));
        },
        Level::Param(s) => {
            lemma_suffix_differs("+"@, n);
            lemma_concat_differs(symbol_text(names, s), succ_suffix("+"@, n + 1), succ_suffix("+"@, n));
        },
    }
}

/// The suffixes for `n + 1` and `n` successors differ.
proof fn lemma_suffix_differs(sep: Seq<char>, n: nat)
    requires
        sep.len() > 0,
    ensures
        succ_suffix(sep, n + 1) != succ_suffix(sep, n),
{
    if n > 0 {
        lemma_decimal_injective(n + 1, n);
        let a = sep + nat_decimal(n + 1);
        let b = sep + nat_decimal(n);
        if a == b {
            assert(a.subrange(sep.len() as int, a.len() as int) =~= nat_decimal(n + 1));
            assert(b.subrange(sep.len() as int, b.len() as int) =~= nat_decimal(n));
        }
    } else {
        assert(succ_suffix(sep, 1).len() > 0);
    }
}

/// Texts with a common head and different tails differ.
proof fn lemma_concat_differs(h: Seq<char>, s: Seq<char>, t: Seq<char>)
    requires
        s != t,
    ensures
        h + s != h + t,
{
    if h + s == h + t {
        assert((h + s).subrange(h.len() as int, (h + s).len() as int) =~= s);
        assert((h + t).subrange(h.len() as int, (h + t).len() as int) =~= t);
    }
}

} // verus!
