//! Types of the normalized intermediate representation, and how they are
//! written in dumps.

use vstd::prelude::*;
use crate::debug::{push_decimal, symbol_text, write_symbol};
use crate::env::{Env, ItemData};
use crate::ids::ItemId;
use crate::text::{nat_decimal, push_str, string_from_chars};
use crate::decl::{kind_str, kind_text};

verus! {

/// A type of the normalized representation.
#[derive(Debug, PartialEq, Eq, Hash)]
pub enum Type {
    Int8,
    Int16,
    Int32,
    Int64,
    UInt8,
    UInt16,
    UInt32,
    UInt64,
    Float32,
    Float64,
    Bool,
    /// The type parameter with this number.
    Param(usize),
    /// An inductive applied to type arguments.
    Adt { id: ItemId, args: Vec<Type> },
    Function { ret: Box<Type>, params: Vec<Type> },
    /// A type not handled yet, with what it was.
    Todo(String),
}

/// `s` in parentheses where the context binds tighter than `inner`.
pub open spec fn paren_text(outer: nat, inner: nat, s: Seq<char>) -> Seq<char> {
    if outer > inner {
        "("@ + s + ")"@
    } else {
        s
    }
}

/// The name of item `id`.
pub open spec fn item_name(items: Seq<ItemData>, names: Seq<Seq<char>>, id: ItemId) -> Seq<char> {
    if (id.0 as int) < items.len() {
        symbol_text(names, items[id.0 as int].name)
    } else {
        "<unknown>"@
    }
}

/// How a type is written at precedence `prec`.
pub open spec fn type_text(items: Seq<ItemData>, names: Seq<Seq<char>>, t: Type, prec: nat) -> Seq<char>
    decreases t, 1nat,
{
    match t {
        Type::Param(i) => "T"@ + nat_decimal(i as nat),
        Type::Int8 => "i8"@,
        Type::Int16 => "i16"@,
        Type::Int32 => "i32"@,
        Type::Int64 => "i64"@,
        Type::UInt8 => "u8"@,
        Type::UInt16 => "u16"@,
        Type::UInt32 => "u32"@,
        Type::UInt64 => "u64"@,
        Type::Float32 => "f32"@,
        Type::Float64 => "f64"@,
        Type::Bool => "bool"@,
        Type::Adt { id, args } => paren_text(
            prec,
            0,
            item_name(items, names, id) + if args@.len() == 0 {
                Seq::empty()
            } else {
                "<"@ + types_text(items, names, args@) + ">"@
            },
        ),
        Type::Function { params, ret } => paren_text(
            prec,
            0,
            "fn("@ + types_text(items, names, params@) + ") -> "@ + type_text(items, names, *ret, 1),
        ),
        Type::Todo(text) => "|todo "@ + text@ + "|"@,
    }
}

/// Types written at precedence zero, separated by `, `.
pub open spec fn types_text(items: Seq<ItemData>, names: Seq<Seq<char>>, ts: Seq<Type>) -> Seq<char>
    decreases ts, 0nat,
{
    if ts.len() == 0 {
        Seq::empty()
    } else if ts.len() == 1 {
        type_text(items, names, ts[0], 0)
    } else {
        types_text(items, names, ts.drop_last()) + ", "@ + type_text(items, names, ts.last(), 0)
    }
}

/// Appends how `t` is written at precedence `prec` to `out`.
pub fn write_type(out: &mut Vec<char>, env: &Env, table: &crate::ids::SymbolTable, t: &Type, prec: u8)
    ensures
        final(out)@ == old(out)@ + type_text(env.items@, table@, *t, prec as nat),
    decreases t, 1nat,
{
    let ghost start = out@;
    match t {
        Type::Param(i) => {
            push_str(out, "T");
            push_decimal(out, *i as u64);
        },
        Type::Int8 => push_str(out, "i8"),
        Type::Int16 => push_str(out, "i16"),
        Type::Int32 => push_str(out, "i32"),
        Type::Int64 => push_str(out, "i64"),
        Type::UInt8 => push_str(out, "u8"),
        Type::UInt16 => push_str(out, "u16"),
        Type::UInt32 => push_str(out, "u32"),
        Type::UInt64 => push_str(out, "u64"),
        Type::Float32 => push_str(out, "f32"),
        Type::Float64 => push_str(out, "f64"),
        Type::Bool => push_str(out, "bool"),
        Type::Adt { id, args } => {
            if prec > 0 {
                push_str(out, "(");
            }
            let ghost inner_start = out@;
            if (id.0 as usize) < env.items.len() {
                write_symbol(out, table, env.items[id.0 as usize].name);
            } else {
                push_str(out, "<unknown>");
            }
            if args.len() > 0 {
                push_str(out, "<");
                write_types(out, env, table, args);
                push_str(out, ">");
            }
            let ghost inner = out@.subrange(inner_start.len() as int, out@.len() as int);
            assert(out@ =~= inner_start + inner);
            if prec > 0 {
                push_str(out, ")");
            }
        },
        Type::Function { params, ret } => {
            if prec > 0 {
                push_str(out, "(");
            }
            let ghost inner_start = out@;
            push_str(out, "fn(");
            write_types(out, env, table, params);
            push_str(out, ") -> ");
            write_type(out, env, table, ret, 1);
            let ghost inner = out@.subrange(inner_start.len() as int, out@.len() as int);
            assert(out@ =~= inner_start + inner);
            if prec > 0 {
                push_str(out, ")");
            }
        },
        Type::Todo(text) => {
            push_str(out, "|todo ");
            push_str(out, text.as_str());
            push_str(out, "|");
        },
    }
    assert(out@ =~= start + type_text(env.items@, table@, *t, prec as nat));
}

/// Appends the types `ts`, separated by `, `, to `out`.
pub fn write_types(out: &mut Vec<char>, env: &Env, table: &crate::ids::SymbolTable, ts: &Vec<Type>)
    ensures
        final(out)@ == old(out)@ + types_text(env.items@, table@, ts@),
    decreases ts, 0nat,
{
    let ghost start = out@;
    let mut i: usize = 0;
    while i < ts.len()
        invariant
            i <= ts@.len(),
            out@ == start + types_text(env.items@, table@, ts@.take(i as int)),
        decreases ts.len() - i,
    {
        if i > 0 {
            push_str(out, ", ");
        }
        write_type(out, env, table, &ts[i], 0);
        proof {
            let t = ts@.take(i + 1);
            assert(t.drop_last() =~= ts@.take(i as int));
            assert(t.last() == ts@[i as int]);
            if i == 0 {
                assert(t.len() == 1);
                assert(t[0] == ts@[0]);
            }
            assert(out@ =~= start + types_text(env.items@, table@, t));
        }
        i = i + 1;
    }
    assert(ts@.take(ts@.len() as int) =~= ts@);
}

/// A declaration with its type in the normalized representation.
#[derive(Debug)]
pub struct NirItem {
    pub item: ItemId,
    pub ty: Type,
}

/// The dump of a lowered item: `kind name [#index] : type` on a line.
pub open spec fn nir_item_dump(items: Seq<ItemData>, names: Seq<Seq<char>>, e: NirItem) -> Seq<char> {
    let d = items[e.item.0 as int];
    kind_text(d.kind) + " "@ + symbol_text(names, d.name) + " [#"@ + nat_decimal(d.ast_index as nat) + "] : "@
        + type_text(items, names, e.ty, 0) + "\n"@
}

/// The dumps of `es`, each after an empty line.
pub open spec fn nir_items_dump(items: Seq<ItemData>, names: Seq<Seq<char>>, es: Seq<NirItem>) -> Seq<char>
    decreases es.len(),
{
    if es.len() == 0 {
        Seq::empty()
    } else {
        nir_items_dump(items, names, es.drop_last()) + "\n"@ + nir_item_dump(items, names, es.last())
    }
}

/// Appends the dump of `e` to `out`.
pub fn write_item(out: &mut Vec<char>, env: &Env, table: &crate::ids::SymbolTable, e: &NirItem)
    requires
        (e.item.0 as int) < env.items@.len(),
    ensures
        final(out)@ == old(out)@ + nir_item_dump(env.items@, table@, *e),
{
    let d = env.items[e.item.0 as usize];
    push_str(out, kind_str(d.kind));
    push_str(out, " ");
    write_symbol(out, table, d.name);
    push_str(out, " [#");
    push_decimal(out, d.ast_index as u64);
    push_str(out, "] : ");
    write_type(out, env, table, &e.ty, 0);
    push_str(out, "\n");
    assert(out@ =~= old(out)@ + nir_item_dump(env.items@, table@, *e));
}

/// The dump of a lowered file: a header with the number of items, then each
/// item after an empty line.
pub fn write_file(env: &Env, table: &crate::ids::SymbolTable, items: &Vec<NirItem>) -> (r: String)
    requires
        forall|k: int| 0 <= k < items@.len() ==> ((#[trigger] items@[k]).item.0 as int) < env.items@.len(),
    ensures
        r@ == "nir module ("@ + nat_decimal(items@.len()) + " items)\n"@ + nir_items_dump(env.items@, table@, items@),
{
    let mut out: Vec<char> = Vec::new();
    push_str(&mut out, "nir module (");
    push_decimal(&mut out, items.len() as u64);
    push_str(&mut out, " items)\n");
    let ghost head = out@;
    let mut i: usize = 0;
    while i < items.len()
        invariant
            i <= items@.len(),
            forall|k: int| 0 <= k < items@.len() ==> ((#[trigger] items@[k]).item.0 as int) < env.items@.len(),
            out@ == head + nir_items_dump(env.items@, table@, items@.take(i as int)),
        decreases items.len() - i,
    {
        push_str(&mut out, "\n");
        write_item(&mut out, env, table, &items[i]);
        proof {
            assert(items@.take(i + 1).drop_last() =~= items@.take(i as int));
            assert(items@.take(i + 1).last() == items@[i as int]);
            assert(out@ =~= head + nir_items_dump(env.items@, table@, items@.take(i + 1)));
        }
        i = i + 1;
    }
    proof {
        assert(items@.take(items@.len() as int) =~= items@);
    }
    string_from_chars(out.as_slice())
}

} // verus!
