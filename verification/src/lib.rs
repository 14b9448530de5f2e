//! Core of the Lotus compiler: number literals, dependent-type terms and the
//! operations the elaborator performs on them.

pub mod text;
pub mod literals;
pub mod ids;
pub mod term;
pub mod subst;
pub mod diagnostics;
pub mod local;
pub mod meta;
pub mod env;
pub mod reduce;
pub mod ctx;
pub mod unify;
pub mod occurs;
pub mod zonk;
pub mod lang_items;
pub mod infer;
pub mod debug;
pub mod levels;
pub mod report;
pub mod naming;
pub mod structure;
pub mod import;
pub mod item_tree;
pub mod app;
pub mod namespace;
pub mod collect;
pub mod ast;
pub mod suggest;
pub mod lower;
pub mod expr;
pub mod decl;
pub mod def_map;
pub mod pir;
pub mod db;
pub mod nir;
