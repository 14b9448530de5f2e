//! The global environment: the declarations of the program with their
//! elaborated signatures and definition bodies.

use vstd::prelude::*;
use crate::ids::{ItemId, ItemKind, Symbol};
use crate::term::Term;

verus! {

/// What is known of a declaration before it is elaborated.
#[derive(Debug, Clone, Copy, PartialEq, Eq, Hash, Structural)]
pub struct ItemData {
    /// The file that declares it.
    pub file: u32,
    pub name: Symbol,
    /// Its position among the declarations of its file (or of its inductive,
    /// for a constructor).
    pub ast_index: u32,
    pub kind: ItemKind,
    /// The inductive a constructor belongs to.
    pub parent: Option<ItemId>,
}

/// Declarations indexed by [`ItemId`], with their signatures and bodies.
#[derive(Debug)]
pub struct Env {
    pub items: Vec<ItemData>,
    pub signatures: Vec<Term>,
    pub bodies: Vec<Option<Term>>,
}

/// The body of definition `c`, if it has one.
pub open spec fn spec_def_body(bodies: Seq<Option<Term>>, c: ItemId) -> Option<Term> {
    if (c.0 as int) < bodies.len() {
        bodies[c.0 as int]
    } else {
        None
    }
}

/// The signature of declaration `c`, if it is known.
pub open spec fn spec_signature(sigs: Seq<Term>, c: ItemId) -> Option<Term> {
    if (c.0 as int) < sigs.len() {
        Some(sigs[c.0 as int])
    } else {
        None
    }
}

impl Env {
    pub fn new() -> (e: Env)
        ensures
            e.items@.len() == 0,
            e.signatures@.len() == 0,
            e.bodies@.len() == 0,
    {
        Env { items: Vec::new(), signatures: Vec::new(), bodies: Vec::new() }
    }

    /// The body of definition `c`, if it has one.
    pub fn def_body(&self, c: ItemId) -> (r: Option<&Term>)
        ensures
            match spec_def_body(self.bodies@, c) {
                Some(b) => r == Some(&b),
                None => r is None,
            },
    {
        if (c.0 as usize) < self.bodies.len() {
            match &self.bodies[c.0 as usize] {
                Some(b) => Some(b),
                None => None,
            }
        } else {
            None
        }
    }

    /// The type of declaration `c`, if it is known.
    pub fn signature(&self, c: ItemId) -> (r: Option<&Term>)
        ensures
            match spec_signature(self.signatures@, c) {
                Some(t) => r == Some(&t),
                None => r is None,
            },
    {
        if (c.0 as usize) < self.signatures.len() {
            Some(&self.signatures[c.0 as usize])
        } else {
            None
        }
    }

    /// What is known of declaration `c`.
    pub fn item(&self, c: ItemId) -> (r: Option<&ItemData>)
        ensures
            (c.0 as int) < self.items@.len() ==> r == Some(&self.items@[c.0 as int]),
            (c.0 as int) >= self.items@.len() ==> r is None,
    {
        if (c.0 as usize) < self.items.len() {
            Some(&self.items[c.0 as usize])
        } else {
            None
        }
    }
}

} // verus!
