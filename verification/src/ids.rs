//! Identities: interned symbols, fresh variable names and declaration ids.

use vstd::prelude::*;

verus! {

/// An interned name. Two symbols are equal exactly when their texts are.
#[derive(Debug, Clone, Copy, PartialEq, Eq, Hash, Structural)]
pub struct Symbol(pub u32);

/// The interner that gives symbols their text.
#[derive(Debug)]
pub struct SymbolTable {
    texts: Vec<String>,
}

impl View for SymbolTable {
    type V = Seq<Seq<char>>;

    closed spec fn view(&self) -> Seq<Seq<char>> {
        self.texts@.map_values(|s: String| s@)
    }
}

impl SymbolTable {
    /// No text is interned twice.
    pub open spec fn wf(&self) -> bool {
        forall|i: int, j: int|
            0 <= i < self@.len() && 0 <= j < self@.len() && i != j ==> #[trigger] self@[i]
                != #[trigger] self@[j]
    }

    /// `sym` was handed out by this table.
    pub open spec fn knows(&self, sym: Symbol) -> bool {
        sym.0 < self@.len()
    }

    /// The text of a symbol of this table.
    pub open spec fn text(&self, sym: Symbol) -> Seq<char> {
        self@[sym.0 as int]
    }

    pub fn new() -> (t: SymbolTable)
        ensures
            t@ == Seq::<Seq<char>>::empty(),
            t.wf(),
    {
        SymbolTable { texts: Vec::new() }
    }

    /// Number of distinct texts interned.
    pub fn len(&self) -> (n: usize)
        ensures
            n == self@.len(),
    {
        self.texts.len()
    }
}

impl Symbol {
    /// Interns `text`: the symbol already bound to it, or a new one.
    pub fn from_str(table: &mut SymbolTable, text: &str) -> (sym: Symbol)
        requires
            old(table).wf(),
            old(table)@.len() < u32::MAX,
        ensures
            final(table).wf(),
            final(table).knows(sym),
            final(table).text(sym) == text@,
            old(table)@.contains(text@) ==> final(table)@ == old(table)@,
            !old(table)@.contains(text@) ==> final(table)@ == old(table)@.push(text@),
    {
        let owned = text.to_string();
        proof {
            assert(owned@ == text@) by {
                vstd::string::to_string_from_display_ensures_for_str(text, owned);
            }
        }
        let n = table.texts.len();
        let mut i: usize = 0;
        while i < n
            invariant
                n == table.texts@.len(),
                n == table@.len(),
                n < u32::MAX,
                table.wf(),
                owned@ == text@,
                i <= n,
                forall|j: int| 0 <= j < i ==> table@[j] != text@,
            decreases n - i,
        {
            if table.texts[i] == owned {
                proof {
                    assert(table@[i as int] == table.texts@[i as int]@);
                }
                return Symbol(i as u32);
            }
            proof {
                assert(table@[i as int] == table.texts@[i as int]@);
            }
            i = i + 1;
        }
        let ghost before = table@;
        table.texts.push(owned);
        proof {
            assert(table@ =~= before.push(text@));
            assert(!before.contains(text@)) by {
                if before.contains(text@) {
                    let j = choose|j: int| 0 <= j < before.len() && before[j] == text@;
                    assert(before[j] != text@);
                }
            }
        }
        Symbol(n as u32)
    }

    /// The text this symbol was interned from.
    pub fn as_str<'a>(self, table: &'a SymbolTable) -> (s: &'a str)
        requires
            table.knows(self),
        ensures
            s@ == table.text(self),
    {
        table.texts[self.0 as usize].as_str()
    }
}

/// In a table where no text is interned twice, two of its symbols are the
/// same exactly when their texts are: equal texts intern to one symbol,
/// distinct texts to distinct symbols.
pub proof fn lemma_symbols_distinct(table: SymbolTable, a: Symbol, b: Symbol)
    requires
        table.wf(),
        table.knows(a),
        table.knows(b),
    ensures
        (a == b) <==> (table.text(a) == table.text(b)),
{
    if a.0 != b.0 {
        assert(table@[a.0 as int] != table@[b.0 as int]);
    }
}

/// Interning a text keeps what every symbol handed out before stands for.
pub proof fn lemma_intern_keeps(before: Seq<Seq<char>>, after: Seq<Seq<char>>, text: Seq<char>, a: Symbol)
    requires
        after == before || after == before.push(text),
        (a.0 as int) < before.len(),
    ensures
        (a.0 as int) < after.len(),
        after[a.0 as int] == before[a.0 as int],
{
}

/// A fresh name for a local, metavariable or universe variable.
#[derive(Debug, Clone, Copy, PartialEq, Eq, Hash, Structural)]
pub struct Unique(pub u32);

/// Source of fresh [`Unique`]s: each is one more than the last.
#[derive(Debug)]
pub struct UniqueGen {
    next: u32,
}

impl UniqueGen {
    pub closed spec fn next_id(&self) -> u32 {
        self.next
    }

    pub fn new() -> (g: UniqueGen)
        ensures
            g.next_id() == 0,
    {
        UniqueGen { next: 0 }
    }

    /// Whether another fresh name can be handed out.
    pub fn has_next(&self) -> (r: bool)
        ensures
            r == (self.next_id() < u32::MAX),
    {
        self.next < u32::MAX
    }

    /// Whether the next fresh name is below `bound`.
    pub fn next_id_below(&self, bound: u32) -> (r: bool)
        ensures
            r == (self.next_id() < bound),
    {
        self.next < bound
    }

    /// A name never handed out before by this generator.
    pub fn fresh(&mut self) -> (u: Unique)
        requires
            old(self).next_id() < u32::MAX,
        ensures
            u.0 == old(self).next_id(),
            final(self).next_id() == old(self).next_id() + 1,
    {
        let id = self.next;
        self.next = self.next + 1;
        Unique(id)
    }
}

/// What a declaration declares.
#[derive(Debug, Clone, Copy, PartialEq, Eq, Hash, Structural)]
pub enum ItemKind {
    Def,
    Inductive,
    Constructor,
}

/// A declaration of the program, by its index in the item table.
#[derive(Debug, Clone, Copy, PartialEq, Eq, Hash, Structural)]
pub struct ItemId(pub u32);

} // verus!
