//! Language items: the declarations the compiler itself refers to, marked in
//! source with `#[lang = "..."]`.

use vstd::prelude::*;
use crate::diagnostics::{Diagnostic, TextRange};
use crate::ids::ItemId;
use crate::text::chars_of;

verus! {

/// A declaration the compiler knows by role.
#[derive(Debug, Clone, Copy, PartialEq, Eq, Hash, Structural)]
pub enum LangItem {
    Boolean,
    Int8,
    Int16,
    Int32,
    Int64,
    UInt8,
    UInt16,
    UInt32,
    UInt64,
    Float32,
    Float64,
    Str,
    Unit,
    UnitConstructor,
}

/// Whether two character sequences are equal.
pub fn chars_eq(a: &[char], b: &[char]) -> (r: bool)
    ensures
        r == (a@ == b@),
{
    if a.len() != b.len() {
        return false;
    }
    let mut i: usize = 0;
    while i < a.len()
        invariant
            a@.len() == b@.len(),
            i <= a@.len(),
            forall|j: int| 0 <= j < i ==> a@[j] == b@[j],
        decreases a.len() - i,
    {
        if a[i] != b[i] {
            return false;
        }
        i = i + 1;
    }
    assert(a@ =~= b@);
    true
}

impl LangItem {
    /// The name this item is marked with.
    pub open spec fn spec_text(self) -> Seq<char> {
        match self {
            LangItem::Boolean => "type.boolean"@,
            LangItem::Int8 => "type.int8"@,
            LangItem::Int16 => "type.int16"@,
            LangItem::Int32 => "type.int32"@,
            LangItem::Int64 => "type.int64"@,
            LangItem::UInt8 => "type.uint8"@,
            LangItem::UInt16 => "type.uint16"@,
            LangItem::UInt32 => "type.uint32"@,
            LangItem::UInt64 => "type.uint64"@,
            LangItem::Float32 => "type.float32"@,
            LangItem::Float64 => "type.float64"@,
            LangItem::Str => "type.str"@,
            LangItem::Unit => "type.unit"@,
            LangItem::UnitConstructor => "constructor.unit"@,
        }
    }

    /// The name this item is marked with, e.g. `"type.int32"`.
    pub fn as_str(self) -> (r: &'static str)
        ensures
            r@ == self.spec_text(),
    {
        match self {
            LangItem::Boolean => "type.boolean",
            LangItem::Int8 => "type.int8",
            LangItem::Int16 => "type.int16",
            LangItem::Int32 => "type.int32",
            LangItem::Int64 => "type.int64",
            LangItem::UInt8 => "type.uint8",
            LangItem::UInt16 => "type.uint16",
            LangItem::UInt32 => "type.uint32",
            LangItem::UInt64 => "type.uint64",
            LangItem::Float32 => "type.float32",
            LangItem::Float64 => "type.float64",
            LangItem::Str => "type.str",
            LangItem::Unit => "type.unit",
            LangItem::UnitConstructor => "constructor.unit",
        }
    }

    /// The item marked `t`, if any.
    pub open spec fn spec_from_text(t: Seq<char>) -> Option<LangItem> {
        if t == LangItem::Boolean.spec_text() {
            Some(LangItem::Boolean)
        }         else if t == LangItem::Int8.spec_text() {
            Some(LangItem::Int8)
        }         else if t == LangItem::Int16.spec_text() {
            Some(LangItem::Int16)
        }         else if t == LangItem::Int32.spec_text() {
            Some(LangItem::Int32)
        }         else if t == LangItem::Int64.spec_text() {
            Some(LangItem::Int64)
        }         else if t == LangItem::UInt8.spec_text() {
            Some(LangItem::UInt8)
        }         else if t == LangItem::UInt16.spec_text() {
            Some(LangItem::UInt16)
        }         else if t == LangItem::UInt32.spec_text() {
            Some(LangItem::UInt32)
        }         else if t == LangItem::UInt64.spec_text() {
            Some(LangItem::UInt64)
        }         else if t == LangItem::Float32.spec_text() {
            Some(LangItem::Float32)
        }         else if t == LangItem::Float64.spec_text() {
            Some(LangItem::Float64)
        }         else if t == LangItem::Str.spec_text() {
            Some(LangItem::Str)
        }         else if t == LangItem::Unit.spec_text() {
            Some(LangItem::Unit)
        }         else if t == LangItem::UnitConstructor.spec_text() {
            Some(LangItem::UnitConstructor)
        } else {
            None
        }
    }

    /// Reads a lang item name; `None` for a name that is none of them.
    pub fn from_str(s: &str) -> (r: Option<LangItem>)
        ensures
            r == LangItem::spec_from_text(s@),
    {
        let c = chars_of(s);
        if chars_eq(&c, &chars_of("type.boolean")) {
            Some(LangItem::Boolean)
        }         else if chars_eq(&c, &chars_of("type.int8")) {
            Some(LangItem::Int8)
        }         else if chars_eq(&c, &chars_of("type.int16")) {
            Some(LangItem::Int16)
        }         else if chars_eq(&c, &chars_of("type.int32")) {
            Some(LangItem::Int32)
        }         else if chars_eq(&c, &chars_of("type.int64")) {
            Some(LangItem::Int64)
        }         else if chars_eq(&c, &chars_of("type.uint8")) {
            Some(LangItem::UInt8)
        }         else if chars_eq(&c, &chars_of("type.uint16")) {
            Some(LangItem::UInt16)
        }         else if chars_eq(&c, &chars_of("type.uint32")) {
            Some(LangItem::UInt32)
        }         else if chars_eq(&c, &chars_of("type.uint64")) {
            Some(LangItem::UInt64)
        }         else if chars_eq(&c, &chars_of("type.float32")) {
            Some(LangItem::Float32)
        }         else if chars_eq(&c, &chars_of("type.float64")) {
            Some(LangItem::Float64)
        }         else if chars_eq(&c, &chars_of("type.str")) {
            Some(LangItem::Str)
        }         else if chars_eq(&c, &chars_of("type.unit")) {
            Some(LangItem::Unit)
        }         else if chars_eq(&c, &chars_of("constructor.unit")) {
            Some(LangItem::UnitConstructor)
        } else {
            None
        }
    }
}

/// The lang items of a file: at most one declaration per item.
#[derive(Debug)]
pub struct LanguageItems {
    entries: Vec<(LangItem, ItemId)>,
}

impl View for LanguageItems {
    type V = Map<LangItem, ItemId>;

    closed spec fn view(&self) -> Map<LangItem, ItemId> {
        Map::new(
            |l: LangItem| exists|i: int| 0 <= i < self.entries@.len() && self.entries@[i].0 == l,
            |l: LangItem|
                self.entries@[choose|i: int| 0 <= i < self.entries@.len() && self.entries@[i].0 == l].1,
        )
    }
}

impl LanguageItems {
    /// Each item is recorded once.
    pub closed spec fn wf(&self) -> bool {
        forall|i: int, j: int|
            0 <= i < self.entries@.len() && 0 <= j < self.entries@.len() && i != j
                ==> #[trigger] self.entries@[i].0 != #[trigger] self.entries@[j].0
    }

    pub fn new() -> (r: LanguageItems)
        ensures
            r@ == Map::<LangItem, ItemId>::empty(),
            r.wf(),
    {
        let r = LanguageItems { entries: Vec::new() };
        assert(r@ =~= Map::<LangItem, ItemId>::empty());
        r
    }

    /// Marks `id` as `item`, replacing any earlier declaration of it.
    pub fn insert(&mut self, item: LangItem, id: ItemId)
        requires
            old(self).wf(),
        ensures
            final(self).wf(),
            final(self)@ == old(self)@.insert(item, id),
    {
        let ghost before = self.entries@;
        let mut i: usize = 0;
        while i < self.entries.len()
            invariant
                self.entries@ == before,
                before == old(self).entries@,
                old(self).wf(),
                i <= before.len(),
                forall|j: int| 0 <= j < i ==> before[j].0 != item,
            decreases self.entries.len() - i,
        {
            if self.entries[i].0 == item {
                self.entries.set(i, (item, id));
                proof {
                    let after = self.entries@;
                    assert forall|l: LangItem| #[trigger] self@.contains_key(l) == old(self)@.insert(
                        item,
                        id,
                    ).contains_key(l) by {
                        if old(self)@.contains_key(l) {
                            let k = choose|k: int| 0 <= k < before.len() && before[k].0 == l;
                            assert(after[k].0 == l);
                        }
                        if self@.contains_key(l) {
                            let k = choose|k: int| 0 <= k < after.len() && after[k].0 == l;
                            if k != i {
                                assert(before[k].0 == l);
                            }
                        }
                        assert(after[i as int].0 == item);
                    }
                    assert forall|l: LangItem| #[trigger] self@.contains_key(l) implies self@[l]
                        == old(self)@.insert(item, id)[l] by {
                        let k = choose|k: int| 0 <= k < after.len() && after[k].0 == l;
                        if l == item {
                            assert(k == i);
                        } else {
                            assert(before[k].0 == l);
                            let k2 = choose|k2: int| 0 <= k2 < before.len() && before[k2].0 == l;
                            assert(k2 == k);
                        }
                    }
                    assert(self@ =~= old(self)@.insert(item, id));
                }
                return;
            }
            i = i + 1;
        }
        self.entries.push((item, id));
        proof {
            let after = self.entries@;
            assert(after[before.len() as int] == (item, id));
            assert forall|l: LangItem| #[trigger] self@.contains_key(l) == old(self)@.insert(
                item,
                id,
            ).contains_key(l) by {
                if old(self)@.contains_key(l) {
                    let k = choose|k: int| 0 <= k < before.len() && before[k].0 == l;
                    assert(after[k].0 == l);
                }
                if self@.contains_key(l) {
                    let k = choose|k: int| 0 <= k < after.len() && after[k].0 == l;
                    if k < before.len() {
                        assert(before[k].0 == l);
                    }
                }
            }
            assert forall|l: LangItem| #[trigger] self@.contains_key(l) implies self@[l]
                == old(self)@.insert(item, id)[l] by {
                let k = choose|k: int| 0 <= k < after.len() && after[k].0 == l;
                if l == item {
                    assert(k == before.len());
                } else {
                    assert(k < before.len());
                    assert(before[k].0 == l);
                    let k2 = choose|k2: int| 0 <= k2 < before.len() && before[k2].0 == l;
                    assert(k2 == k);
                }
            }
            assert(self@ =~= old(self)@.insert(item, id));
        }
    }

    /// The declaration marked `item`, if any.
    pub fn get(&self, item: LangItem) -> (r: Option<ItemId>)
        requires
            self.wf(),
        ensures
            match r {
                Some(id) => self@.contains_key(item) && self@[item] == id,
                None => !self@.contains_key(item),
            },
    {
        let mut i: usize = 0;
        while i < self.entries.len()
            invariant
                self.wf(),
                i <= self.entries@.len(),
                forall|j: int| 0 <= j < i ==> self.entries@[j].0 != item,
            decreases self.entries.len() - i,
        {
            if self.entries[i].0 == item {
                proof {
                    let k = choose|k: int| 0 <= k < self.entries@.len() && self.entries@[k].0 == item;
                    assert(k == i);
                }
                return Some(self.entries[i].1);
            }
            i = i + 1;
        }
        None
    }

    /// Number of items marked.
    pub fn len(&self) -> (n: usize)
        requires
            self.wf(),
        ensures
            n == self@.len(),
    {
        proof {
            lemma_entries_len(self.entries@);
        }
        self.entries.len()
    }
}

proof fn lemma_entries_len(entries: Seq<(LangItem, ItemId)>)
    requires
        forall|i: int, j: int|
            0 <= i < entries.len() && 0 <= j < entries.len() && i != j ==> #[trigger] entries[i].0
                != #[trigger] entries[j].0,
    ensures
        Map::new(
            |l: LangItem| exists|i: int| 0 <= i < entries.len() && entries[i].0 == l,
            |l: LangItem| entries[choose|i: int| 0 <= i < entries.len() && entries[i].0 == l].1,
        ).len() == entries.len(),
    decreases entries.len(),
{
    let m = Map::new(
        |l: LangItem| exists|i: int| 0 <= i < entries.len() && entries[i].0 == l,
        |l: LangItem| entries[choose|i: int| 0 <= i < entries.len() && entries[i].0 == l].1,
    );
    let keys = entries.map_values(|e: (LangItem, ItemId)| e.0);
    assert(keys.no_duplicates()) by {
        assert forall|i: int, j: int| 0 <= i < keys.len() && 0 <= j < keys.len() && i != j implies keys[i]
            != keys[j] by {
            assert(keys[i] == entries[i].0);
            assert(keys[j] == entries[j].0);
        }
    }
    assert(m.dom() =~= keys.to_set()) by {
        assert forall|l: LangItem| m.dom().contains(l) <==> keys.to_set().contains(l) by {
            if m.dom().contains(l) {
                let i = choose|i: int| 0 <= i < entries.len() && entries[i].0 == l;
                assert(keys[i] == l);
            }
            if keys.to_set().contains(l) {
                let i = choose|i: int| 0 <= i < keys.len() && keys[i] == l;
                assert(entries[i].0 == l);
            }
        }
    }
    keys.unique_seq_to_set();
}


/// Reading back the name of a lang item gives the item.
pub proof fn lemma_lang_item_text_roundtrip(x: LangItem)
    ensures
        LangItem::spec_from_text(x.spec_text()) == Some(x),
{
    reveal_strlit("type.boolean");
    reveal_strlit("type.int8");
    reveal_strlit("type.int16");
    reveal_strlit("type.int32");
    reveal_strlit("type.int64");
    reveal_strlit("type.uint8");
    reveal_strlit("type.uint16");
    reveal_strlit("type.uint32");
    reveal_strlit("type.uint64");
    reveal_strlit("type.float32");
    reveal_strlit("type.float64");
    reveal_strlit("type.str");
    reveal_strlit("type.unit");
    reveal_strlit("constructor.unit");
    match x {
        LangItem::Boolean => {

        },
        LangItem::Int8 => {
            assert(LangItem::Int8.spec_text().len() != LangItem::Boolean.spec_text().len());
        },
        LangItem::Int16 => {
            assert(LangItem::Int16.spec_text().len() != LangItem::Boolean.spec_text().len());
            assert(LangItem::Int16.spec_text().len() != LangItem::Int8.spec_text().len());
        },
        LangItem::Int32 => {
            assert(LangItem::Int32.spec_text().len() != LangItem::Boolean.spec_text().len());
            assert(LangItem::Int32.spec_text().len() != LangItem::Int8.spec_text().len());
            assert(LangItem::Int32.spec_text()[8] != LangItem::Int16.spec_text()[8]);
        },
        LangItem::Int64 => {
            assert(LangItem::Int64.spec_text().len() != LangItem::Boolean.spec_text().len());
            assert(LangItem::Int64.spec_text().len() != LangItem::Int8.spec_text().len());
            assert(LangItem::Int64.spec_text()[8] != LangItem::Int16.spec_text()[8]);
            assert(LangItem::Int64.spec_text()[8] != LangItem::Int32.spec_text()[8]);
        },
        LangItem::UInt8 => {
            assert(LangItem::UInt8.spec_text().len() != LangItem::Boolean.spec_text().len());
            assert(LangItem::UInt8.spec_text().len() != LangItem::Int8.spec_text().len());
            assert(LangItem::UInt8.spec_text()[5] != LangItem::Int16.spec_text()[5]);
            assert(LangItem::UInt8.spec_text()[5] != LangItem::Int32.spec_text()[5]);
            assert(LangItem::UInt8.spec_text()[5] != LangItem::Int64.spec_text()[5]);
        },
        LangItem::UInt16 => {
            assert(LangItem::UInt16.spec_text().len() != LangItem::Boolean.spec_text().len());
            assert(LangItem::UInt16.spec_text().len() != LangItem::Int8.spec_text().len());
            assert(LangItem::UInt16.spec_text().len() != LangItem::Int16.spec_text().len());
            assert(LangItem::UInt16.spec_text().len() != LangItem::Int32.spec_text().len());
            assert(LangItem::UInt16.spec_text().len() != LangItem::Int64.spec_text().len());
            assert(LangItem::UInt16.spec_text().len() != LangItem::UInt8.spec_text().len());
        },
        LangItem::UInt32 => {
            assert(LangItem::UInt32.spec_text().len() != LangItem::Boolean.spec_text().len());
            assert(LangItem::UInt32.spec_text().len() != LangItem::Int8.spec_text().len());
            assert(LangItem::UInt32.spec_text().len() != LangItem::Int16.spec_text().len());
            assert(LangItem::UInt32.spec_text().len() != LangItem::Int32.spec_text().len());
            assert(LangItem::UInt32.spec_text().len() != LangItem::Int64.spec_text().len());
            assert(LangItem::UInt32.spec_text().len() != LangItem::UInt8.spec_text().len());
            assert(LangItem::UInt32.spec_text()[9] != LangItem::UInt16.spec_text()[9]);
        },
        LangItem::UInt64 => {
            assert(LangItem::UInt64.spec_text().len() != LangItem::Boolean.spec_text().len());
            assert(LangItem::UInt64.spec_text().len() != LangItem::Int8.spec_text().len());
            assert(LangItem::UInt64.spec_text().len() != LangItem::Int16.spec_text().len());
            assert(LangItem::UInt64.spec_text().len() != LangItem::Int32.spec_text().len());
            assert(LangItem::UInt64.spec_text().len() != LangItem::Int64.spec_text().len());
            assert(LangItem::UInt64.spec_text().len() != LangItem::UInt8.spec_text().len());
            assert(LangItem::UInt64.spec_text()[9] != LangItem::UInt16.spec_text()[9]);
            assert(LangItem::UInt64.spec_text()[9] != LangItem::UInt32.spec_text()[9]);
        },
        LangItem::Float32 => {
            assert(LangItem::Float32.spec_text()[5] != LangItem::Boolean.spec_text()[5]);
            assert(LangItem::Float32.spec_text().len() != LangItem::Int8.spec_text().len());
            assert(LangItem::Float32.spec_text().len() != LangItem::Int16.spec_text().len());
            assert(LangItem::Float32.spec_text().len() != LangItem::Int32.spec_text().len());
            assert(LangItem::Float32.spec_text().len() != LangItem::Int64.spec_text().len());
            assert(LangItem::Float32.spec_text().len() != LangItem::UInt8.spec_text().len());
            assert(LangItem::Float32.spec_text().len() != LangItem::UInt16.spec_text().len());
            assert(LangItem::Float32.spec_text().len() != LangItem::UInt32.spec_text().len());
            assert(LangItem::Float32.spec_text().len() != LangItem::UInt64.spec_text().len());
        },
        LangItem::Float64 => {
            assert(LangItem::Float64.spec_text()[5] != LangItem::Boolean.spec_text()[5]);
            assert(LangItem::Float64.spec_text().len() != LangItem::Int8.spec_text().len());
            assert(LangItem::Float64.spec_text().len() != LangItem::Int16.spec_text().len());
            assert(LangItem::Float64.spec_text().len() != LangItem::Int32.spec_text().len());
            assert(LangItem::Float64.spec_text().len() != LangItem::Int64.spec_text().len());
            assert(LangItem::Float64.spec_text().len() != LangItem::UInt8.spec_text().len());
            assert(LangItem::Float64.spec_text().len() != LangItem::UInt16.spec_text().len());
            assert(LangItem::Float64.spec_text().len() != LangItem::UInt32.spec_text().len());
            assert(LangItem::Float64.spec_text().len() != LangItem::UInt64.spec_text().len());
            assert(LangItem::Float64.spec_text()[10] != LangItem::Float32.spec_text()[10]);
        },
        LangItem::Str => {
            assert(LangItem::Str.spec_text().len() != LangItem::Boolean.spec_text().len());
            assert(LangItem::Str.spec_text().len() != LangItem::Int8.spec_text().len());
            assert(LangItem::Str.spec_text().len() != LangItem::Int16.spec_text().len());
            assert(LangItem::Str.spec_text().len() != LangItem::Int32.spec_text().len());
            assert(LangItem::Str.spec_text().len() != LangItem::Int64.spec_text().len());
            assert(LangItem::Str.spec_text().len() != LangItem::UInt8.spec_text().len());
            assert(LangItem::Str.spec_text().len() != LangItem::UInt16.spec_text().len());
            assert(LangItem::Str.spec_text().len() != LangItem::UInt32.spec_text().len());
            assert(LangItem::Str.spec_text().len() != LangItem::UInt64.spec_text().len());
            assert(LangItem::Str.spec_text().len() != LangItem::Float32.spec_text().len());
            assert(LangItem::Str.spec_text().len() != LangItem::Float64.spec_text().len());
        },
        LangItem::Unit => {
            assert(LangItem::Unit.spec_text().len() != LangItem::Boolean.spec_text().len());
            assert(LangItem::Unit.spec_text()[5] != LangItem::Int8.spec_text()[5]);
            assert(LangItem::Unit.spec_text().len() != LangItem::Int16.spec_text().len());
            assert(LangItem::Unit.spec_text().len() != LangItem::Int32.spec_text().len());
            assert(LangItem::Unit.spec_text().len() != LangItem::Int64.spec_text().len());
            assert(LangItem::Unit.spec_text().len() != LangItem::UInt8.spec_text().len());
            assert(LangItem::Unit.spec_text().len() != LangItem::UInt16.spec_text().len());
            assert(LangItem::Unit.spec_text().len() != LangItem::UInt32.spec_text().len());
            assert(LangItem::Unit.spec_text().len() != LangItem::UInt64.spec_text().len());
            assert(LangItem::Unit.spec_text().len() != LangItem::Float32.spec_text().len());
            assert(LangItem::Unit.spec_text().len() != LangItem::Float64.spec_text().len());
            assert(LangItem::Unit.spec_text().len() != LangItem::Str.spec_text().len());
        },
        LangItem::UnitConstructor => {
            assert(LangItem::UnitConstructor.spec_text().len() != LangItem::Boolean.spec_text().len());
            assert(LangItem::UnitConstructor.spec_text().len() != LangItem::Int8.spec_text().len());
            assert(LangItem::UnitConstructor.spec_text().len() != LangItem::Int16.spec_text().len());
            assert(LangItem::UnitConstructor.spec_text().len() != LangItem::Int32.spec_text().len());
            assert(LangItem::UnitConstructor.spec_text().len() != LangItem::Int64.spec_text().len());
            assert(LangItem::UnitConstructor.spec_text().len() != LangItem::UInt8.spec_text().len());
            assert(LangItem::UnitConstructor.spec_text().len() != LangItem::UInt16.spec_text().len());
            assert(LangItem::UnitConstructor.spec_text().len() != LangItem::UInt32.spec_text().len());
            assert(LangItem::UnitConstructor.spec_text().len() != LangItem::UInt64.spec_text().len());
            assert(LangItem::UnitConstructor.spec_text().len() != LangItem::Float32.spec_text().len());
            assert(LangItem::UnitConstructor.spec_text().len() != LangItem::Float64.spec_text().len());
            assert(LangItem::UnitConstructor.spec_text().len() != LangItem::Str.spec_text().len());
            assert(LangItem::UnitConstructor.spec_text().len() != LangItem::Unit.spec_text().len());
        },
    }
}

/// A source attribute, as the parser saw it: `#[name = value]` or `#[name]`.
#[derive(Debug)]
pub struct Attribute {
    /// The attribute's name, if it was written.
    pub name: Option<String>,
    pub value: Option<AttributeValue>,
    pub range: TextRange,
}

/// The value of an attribute.
#[derive(Debug)]
pub enum AttributeValue {
    /// A string literal, quotes included.
    StringLit(String),
    /// Any other value.
    Other,
}

/// The text between the quotes of a string literal, if it has both quotes.
pub open spec fn spec_unquoted(t: Seq<char>) -> Option<Seq<char>> {
    if t.len() >= 2 && t[0] == '"' && t[t.len() - 1] == '"' {
        Some(t.subrange(1, t.len() - 1))
    } else {
        None
    }
}

/// The text between the quotes of a string literal's token, if it has both.
pub fn unquoted(text: &str) -> (r: Option<String>)
    ensures
        match spec_unquoted(text@) {
            Some(u) => r matches Some(s) && s@ == u,
            None => r is None,
        },
{
    let tc = chars_of(text);
    let n = tc.len();
    if n < 2 || tc[0] != '"' || tc[n - 1] != '"' {
        return None;
    }
    let inner = crate::text::sub_chars(&tc, 1, n - 1);
    Some(crate::text::string_from_chars(&inner))
}

/// What an attribute says about lang items.
pub open spec fn spec_lang_attr(attr: Attribute) -> Option<LangItem> {
    match attr.name {
        Some(n) => if n@ == "lang"@ {
            match attr.value {
                Some(AttributeValue::StringLit(s)) => match spec_unquoted(s@) {
                    Some(t) => LangItem::spec_from_text(t),
                    None => None,
                },
                _ => None,
            }
        } else {
            None
        },
        None => None,
    }
}

/// The attribute is `lang` with a value that is not a string literal.
pub open spec fn bad_lang_attr(attr: Attribute) -> bool {
    &&& attr.name matches Some(n) && n@ == "lang"@
    &&& attr.value matches Some(v) && !(v is StringLit)
}

/// Reads `#[lang = "..."]`. A `lang` attribute whose value is not a string
/// literal is reported in `diags`.
pub fn parse_lang_attr(file: u32, attr: &Attribute, diags: &mut Vec<Diagnostic>) -> (r: Option<LangItem>)
    ensures
        r == spec_lang_attr(*attr),
        bad_lang_attr(*attr) ==> final(diags)@.len() == old(diags)@.len() + 1
            && final(diags)@.take(old(diags)@.len() as int) == old(diags)@
            && final(diags)@.last().severity == crate::diagnostics::Severity::Error
            && final(diags)@.last().message@ == "invalid lang item name"@
            && final(diags)@.last().primary.file == file
            && final(diags)@.last().primary.range == attr.range,
        !bad_lang_attr(*attr) ==> final(diags)@ == old(diags)@,
{
    let name = match &attr.name {
        Some(n) => n,
        None => return None,
    };
    let nc = chars_of(name.as_str());
    if !chars_eq(&nc, &chars_of("lang")) {
        return None;
    }
    let text = match &attr.value {
        Some(AttributeValue::StringLit(s)) => s,
        Some(AttributeValue::Other) => {
            let d = Diagnostic::builder(
                crate::diagnostics::Severity::Error,
                "invalid lang item name",
                file,
                attr.range,
            ).build();
            let ghost before = diags@;
            diags.push(d);
            assert(diags@.take(before.len() as int) =~= before);
            return None;
        },
        None => return None,
    };
    let inner = match unquoted(text.as_str()) {
        Some(u) => u,
        None => return None,
    };
    lang_item_from_chars(&chars_of(inner.as_str()))
}

/// The lang item named by `c`, if any.
fn lang_item_from_chars(c: &[char]) -> (r: Option<LangItem>)
    ensures
        r == LangItem::spec_from_text(c@),
{
    if chars_eq(c, &chars_of("type.boolean")) {
        Some(LangItem::Boolean)
    }     else if chars_eq(c, &chars_of("type.int8")) {
        Some(LangItem::Int8)
    }     else if chars_eq(c, &chars_of("type.int16")) {
        Some(LangItem::Int16)
    }     else if chars_eq(c, &chars_of("type.int32")) {
        Some(LangItem::Int32)
    }     else if chars_eq(c, &chars_of("type.int64")) {
        Some(LangItem::Int64)
    }     else if chars_eq(c, &chars_of("type.uint8")) {
        Some(LangItem::UInt8)
    }     else if chars_eq(c, &chars_of("type.uint16")) {
        Some(LangItem::UInt16)
    }     else if chars_eq(c, &chars_of("type.uint32")) {
        Some(LangItem::UInt32)
    }     else if chars_eq(c, &chars_of("type.uint64")) {
        Some(LangItem::UInt64)
    }     else if chars_eq(c, &chars_of("type.float32")) {
        Some(LangItem::Float32)
    }     else if chars_eq(c, &chars_of("type.float64")) {
        Some(LangItem::Float64)
    }     else if chars_eq(c, &chars_of("type.str")) {
        Some(LangItem::Str)
    }     else if chars_eq(c, &chars_of("type.unit")) {
        Some(LangItem::Unit)
    }     else if chars_eq(c, &chars_of("constructor.unit")) {
        Some(LangItem::UnitConstructor)
    } else {
        None
    }
}

/// The attributes written on one declaration.
#[derive(Debug)]
pub struct ItemAttributes {
    pub item: ItemId,
    pub attributes: Vec<Attribute>,
}

/// The lang items declared by a sequence of attributed items: each attribute
/// in order, a later mark of an item replacing an earlier one.
pub open spec fn spec_lang_items(items: Seq<ItemAttributes>) -> Map<LangItem, ItemId>
    decreases items.len(),
{
    if items.len() == 0 {
        Map::empty()
    } else {
        spec_attrs_lang_items(
            spec_lang_items(items.drop_last()),
            items.last().attributes@,
            items.last().item,
        )
    }
}

/// `m` updated by the `lang` attributes among `attrs` of declaration `id`.
pub open spec fn spec_attrs_lang_items(
    m: Map<LangItem, ItemId>,
    attrs: Seq<Attribute>,
    id: ItemId,
) -> Map<LangItem, ItemId>
    decreases attrs.len(),
{
    if attrs.len() == 0 {
        m
    } else {
        let m1 = spec_attrs_lang_items(m, attrs.drop_last(), id);
        match spec_lang_attr(attrs.last()) {
            Some(l) => m1.insert(l, id),
            None => m1,
        }
    }
}

/// The malformed `lang` attributes among `attrs`, in order.
pub open spec fn bad_in(attrs: Seq<Attribute>) -> Seq<Attribute>
    decreases attrs.len(),
{
    if attrs.len() == 0 {
        Seq::empty()
    } else if bad_lang_attr(attrs.last()) {
        bad_in(attrs.drop_last()).push(attrs.last())
    } else {
        bad_in(attrs.drop_last())
    }
}

/// The malformed `lang` attributes of the declarations, in order.
pub open spec fn bad_lang_attrs(items: Seq<ItemAttributes>) -> Seq<Attribute>
    decreases items.len(),
{
    if items.len() == 0 {
        Seq::empty()
    } else {
        bad_lang_attrs(items.drop_last()) + bad_in(items.last().attributes@)
    }
}

/// `d` reports a malformed `lang` attribute at `range` of `file`.
pub open spec fn invalid_lang_diag(d: Diagnostic, file: u32, range: crate::diagnostics::TextRange) -> bool {
    &&& d.severity == crate::diagnostics::Severity::Error
    &&& d.message@ == "invalid lang item name"@
    &&& d.primary.file == file
    &&& d.primary.range == range
}

/// After `base` come the reports of `bad`, one each, in order.
pub open spec fn reports_after(diags: Seq<Diagnostic>, base: nat, file: u32, bad: Seq<Attribute>) -> bool {
    &&& diags.len() == base + bad.len()
    &&& forall|j: int| 0 <= j < bad.len() ==> invalid_lang_diag(#[trigger] diags[base + j], file, bad[j].range)
}

/// Collects the lang items of a file from the attributes of its declarations,
/// reporting malformed `lang` attributes in `diags`.
pub fn file_lang_items(file: u32, items: &Vec<ItemAttributes>, diags: &mut Vec<Diagnostic>) -> (r: LanguageItems)
    ensures
        r.wf(),
        r@ == spec_lang_items(items@),
        old(diags)@.len() <= final(diags)@.len(),
        final(diags)@.take(old(diags)@.len() as int) == old(diags)@,
        reports_after(final(diags)@, old(diags)@.len(), file, bad_lang_attrs(items@)),
{
    let mut out = LanguageItems::new();
    let mut k: usize = 0;
    let ghost d0 = diags@;
    while k < items.len()
        invariant
            k <= items@.len(),
            out.wf(),
            out@ == spec_lang_items(items@.take(k as int)),
            d0.len() <= diags@.len(),
            diags@.take(d0.len() as int) == d0,
            reports_after(diags@, d0.len(), file, bad_lang_attrs(items@.take(k as int))),
        decreases items.len() - k,
    {
        let entry = &items[k];
        let mut a: usize = 0;
        proof {
            assert(items@.take(k + 1).drop_last() =~= items@.take(k as int));
            assert(entry.attributes@.take(0) =~= Seq::<Attribute>::empty());
            assert(bad_lang_attrs(items@.take(k as int)) + bad_in(entry.attributes@.take(0)) =~= bad_lang_attrs(
                items@.take(k as int),
            ));
        }
        while a < entry.attributes.len()
            invariant
                k < items@.len(),
                *entry == items@[k as int],
                a <= entry.attributes@.len(),
                out.wf(),
                out@ == spec_attrs_lang_items(
                    spec_lang_items(items@.take(k as int)),
                    entry.attributes@.take(a as int),
                    entry.item,
                ),
                d0.len() <= diags@.len(),
                diags@.take(d0.len() as int) == d0,
                reports_after(
                    diags@,
                    d0.len(),
                    file,
                    bad_lang_attrs(items@.take(k as int)) + bad_in(entry.attributes@.take(a as int)),
                ),
            decreases entry.attributes.len() - a,
        {
            let ghost before = diags@;
            let found = parse_lang_attr(file, &entry.attributes[a], diags);
            proof {
                assert(entry.attributes@.take(a + 1).drop_last() =~= entry.attributes@.take(a as int));
                assert(entry.attributes@.take(a + 1).last() == entry.attributes@[a as int]);
                let pre = bad_lang_attrs(items@.take(k as int));
                let b0 = bad_in(entry.attributes@.take(a as int));
                let b1 = bad_in(entry.attributes@.take(a + 1));
                if bad_lang_attr(entry.attributes@[a as int]) {
                    assert(b1 == b0.push(entry.attributes@[a as int]));
                    assert(pre + b1 =~= (pre + b0).push(entry.attributes@[a as int]));
                    assert forall|j: int| 0 <= j < (pre + b1).len() implies invalid_lang_diag(
                        #[trigger] diags@[d0.len() + j],
                        file,
                        (pre + b1)[j].range,
                    ) by {
                        if j < (pre + b0).len() {
                            assert(diags@[d0.len() + j] == diags@.take(before.len() as int)[d0.len() + j]);
                            assert(before[d0.len() + j] == diags@[d0.len() + j]);
                        }
                    }
                } else {
                    assert(b1 == b0);
                }
                assert(diags@.take(d0.len() as int) =~= d0) by {
                    assert forall|j: int| 0 <= j < d0.len() implies diags@[j] == d0[j] by {
                        assert(before.take(d0.len() as int)[j] == d0[j]);
                        if diags@.len() > before.len() {
                            assert(diags@.take(before.len() as int)[j] == before[j]);
                        }
                    }
                }
            }
            match found {
                Some(l) => out.insert(l, entry.item),
                None => {},
            }
            a = a + 1;
        }
        proof {
            assert(entry.attributes@.take(entry.attributes@.len() as int) =~= entry.attributes@);
            assert(items@.take(k + 1).last() == items@[k as int]);
            assert(bad_lang_attrs(items@.take(k + 1)) == bad_lang_attrs(items@.take(k as int)) + bad_in(
                entry.attributes@,
            ));
        }
        k = k + 1;
    }
    proof {
        assert(items@.take(items@.len() as int) =~= items@);
    }
    out
}

} // verus!
