//! Symbols and the global symbol table.
//!
//! The table merges the symbols of all input objects. Global and weak symbols
//! share one namespace, in which a name has at most one entry: a global or
//! weak newcomer is measured against that entry, whatever local symbols of
//! the name came in between. A local symbol is private to its object and
//! takes a slot of its own; only a weak entry gives way to it.
//!
//! Besides the entries the table keeps, for every name, the slot that the
//! name stands for, which is what the lookup by name gives: the slot of the
//! global or weak entry of the name where there is one, and otherwise the
//! slot of the local symbol of that name which was added last.

use vstd::prelude::*;
use vstd::hash_map::StringHashMap;
use crate::error::{spelled, LinkerError, SymbolError};

verus! {

/// How far a symbol is visible, and how strongly it claims its name.
#[derive(Debug, Clone, Copy, PartialEq, Eq, Structural)]
pub enum SymbolBinding {
    /// Private to its object.
    Local,
    /// Strong: a name may have only one defined global symbol.
    Global,
    /// Overridable: gives way to any later symbol of its name.
    Weak,
}

/// What a symbol stands for. Carried along, not used in resolution.
#[derive(Debug, Clone, Copy, PartialEq, Eq, Structural)]
pub enum SymbolType {
    NoType,
    Object,
    Func,
    Section,
    File,
}

/// The visibility recorded with a symbol. Carried along, not enforced.
#[derive(Debug, Clone, Copy, PartialEq, Eq, Structural)]
pub enum SymbolVisibility {
    Default,
    Internal,
    Hidden,
    Protected,
}

/// One symbol of an object file.
#[derive(Debug)]
pub struct Symbol {
    /// The name, compared letter for letter.
    pub name: String,
    /// Offset within the defining section, or address once resolved.
    pub value: u64,
    /// Size of the symbol's storage in bytes.
    pub size: u64,
    /// The defining section; 0 marks a reference without a definition.
    pub section_index: usize,
    pub binding: SymbolBinding,
    pub typ: SymbolType,
    pub visibility: SymbolVisibility,
}

impl Clone for Symbol {
    fn clone(&self) -> (copy: Self)
        ensures
            copy == *self,
    {
        Symbol {
            name: self.name.clone(),
            value: self.value,
            size: self.size,
            section_index: self.section_index,
            binding: self.binding,
            typ: self.typ,
            visibility: self.visibility,
        }
    }
}

impl Symbol {
    /// Whether the symbol is defined, that is, names a section.
    pub open spec fn defined(&self) -> bool {
        self.section_index != 0
    }

    /// Whether the symbol is a global reference that nothing defines.
    pub open spec fn undefined_global(&self) -> bool {
        self.binding == SymbolBinding::Global && !self.defined()
    }

    /// Whether the symbol is defined, that is, names a section.
    #[verifier::when_used_as_spec(defined)]
    pub fn is_defined(&self) -> (defined: bool)
        ensures
            defined == self.defined(),
    {
        self.section_index != 0
    }
}

/// Whether slot `i` of `entries` holds the global or weak symbol named
/// `name`.
pub open spec fn holds_shared(entries: Seq<Symbol>, i: int, name: Seq<char>) -> bool {
    &&& 0 <= i < entries.len()
    &&& entries[i].binding != SymbolBinding::Local
    &&& entries[i].name@ == name
}

/// Whether no two slots of `entries` hold a global or weak symbol of one
/// name.
pub open spec fn one_shared_entry_per_name(entries: Seq<Symbol>) -> bool {
    forall|i: int, j: int, name: Seq<char>|
        holds_shared(entries, i, name) && holds_shared(entries, j, name) ==> i == j
}

/// The slot that holds the global or weak symbol named `name`, if any does.
pub open spec fn shared_slot_of(entries: Seq<Symbol>, name: Seq<char>) -> Option<int> {
    if exists|i: int| holds_shared(entries, i, name) {
        Some(choose|i: int| holds_shared(entries, i, name))
    } else {
        None
    }
}

/// The slot that `name` stands for in `names`, if it stands for one.
pub open spec fn slot_of(names: Map<Seq<char>, usize>, name: Seq<char>) -> Option<int> {
    if names.contains_key(name) {
        Some(names[name] as int)
    } else {
        None
    }
}

/// What becomes of a symbol that is added to a table.
pub enum Merge {
    /// It takes a new slot behind the existing ones.
    Append,
    /// It takes the place of the entry in the given slot.
    Replace(int),
    /// It is dropped, and the entry in the given slot stays.
    Keep(int),
    /// It is refused: the given slot holds a second strong definition.
    Conflict(int),
}

/// What becomes of a global or weak `symbol` that meets the global or weak
/// entry of its name in slot `i`:
/// - two defined globals conflict;
/// - of two globals of which one is only a reference, the definition
///   survives, and where neither is defined the first stays;
/// - a weak entry gives way to the newcomer;
/// - a weak newcomer gives way to a global entry.
pub open spec fn merge_shared(existing: Symbol, i: int, symbol: Symbol) -> Merge {
    if existing.binding == SymbolBinding::Global && symbol.binding == SymbolBinding::Global {
        if existing.defined() && symbol.defined() {
            Merge::Conflict(i)
        } else if symbol.defined() {
            Merge::Replace(i)
        } else {
            Merge::Keep(i)
        }
    } else if existing.binding == SymbolBinding::Weak {
        Merge::Replace(i)
    } else {
        Merge::Keep(i)
    }
}

/// What becomes of `symbol` when it is added to a table that holds `entries`
/// and in which names stand for slots as `names` says.
///
/// A global or weak symbol meets the global or weak entry of its name, if
/// there is one, whatever local symbols of the name the table holds. Where
/// there is none, a weak symbol gives way to the entry that its name stands
/// for, and any other takes a new slot.
///
/// A local symbol takes the place of the weak entry of its name, if there is
/// one, and a new slot otherwise: it never meets a global or local entry.
pub open spec fn merge(entries: Seq<Symbol>, names: Map<Seq<char>, usize>, symbol: Symbol) -> Merge {
    match shared_slot_of(entries, symbol.name@) {
        Some(i) => if symbol.binding != SymbolBinding::Local {
            merge_shared(entries[i], i, symbol)
        } else if entries[i].binding == SymbolBinding::Weak {
            Merge::Replace(i)
        } else {
            Merge::Append
        },
        None => if symbol.binding == SymbolBinding::Weak && names.contains_key(symbol.name@) {
            Merge::Keep(names[symbol.name@] as int)
        } else {
            Merge::Append
        },
    }
}

/// The slot that stands for `symbol` once it was added.
pub open spec fn merge_slot(
    entries: Seq<Symbol>,
    names: Map<Seq<char>, usize>,
    symbol: Symbol,
) -> int {
    match merge(entries, names, symbol) {
        Merge::Append => entries.len() as int,
        Merge::Replace(i) => i,
        Merge::Keep(i) => i,
        Merge::Conflict(i) => i,
    }
}

/// The entries after `symbol` was added.
pub open spec fn merged(
    entries: Seq<Symbol>,
    names: Map<Seq<char>, usize>,
    symbol: Symbol,
) -> Seq<Symbol> {
    match merge(entries, names, symbol) {
        Merge::Append => entries.push(symbol),
        Merge::Replace(i) => entries.update(i, symbol),
        Merge::Keep(_) => entries,
        Merge::Conflict(_) => entries,
    }
}

/// Whether `symbol` is a local symbol of which `entries` hold a global
/// entry of the same name.
pub open spec fn global_keeps_name(entries: Seq<Symbol>, symbol: Symbol) -> bool {
    &&& symbol.binding == SymbolBinding::Local
    &&& shared_slot_of(entries, symbol.name@) is Some
    &&& entries[shared_slot_of(entries, symbol.name@)->Some_0].binding == SymbolBinding::Global
}

/// What the names stand for after `symbol` was added: its name stands for
/// the slot that stands for it. Nothing changes where it was refused, and
/// where it is a local symbol and the table holds a global entry of its
/// name: the global entry keeps the name.
pub open spec fn renamed(
    entries: Seq<Symbol>,
    names: Map<Seq<char>, usize>,
    symbol: Symbol,
) -> Map<Seq<char>, usize> {
    if merge(entries, names, symbol) is Conflict {
        names
    } else if global_keeps_name(entries, symbol) {
        names
    } else {
        names.insert(symbol.name@, merge_slot(entries, names, symbol) as usize)
    }
}

/// The names of the global symbols in `entries` that are not defined, in
/// the order of their slots.
pub open spec fn undefined_globals(entries: Seq<Symbol>) -> Seq<Seq<char>>
    decreases entries.len(),
{
    if entries.len() == 0 {
        Seq::empty()
    } else if entries.last().undefined_global() {
        undefined_globals(entries.drop_last()).push(entries.last().name@)
    } else {
        undefined_globals(entries.drop_last())
    }
}

/// Where a table keeps one global or weak entry per name, that entry is
/// found in the slot that holds it.
pub proof fn lemma_shared_slot_of(entries: Seq<Symbol>, i: int, name: Seq<char>)
    requires
        one_shared_entry_per_name(entries),
        holds_shared(entries, i, name),
    ensures
        shared_slot_of(entries, name) == Some(i),
{
    let j = choose|j: int| holds_shared(entries, j, name);
    assert(holds_shared(entries, j, name) && holds_shared(entries, i, name) ==> j == i);
}

/// A second defined global symbol of a name is refused, whatever local
/// symbols of that name the table holds, and the table stays as it was: it
/// keeps the first.
pub proof fn lemma_strong_definitions_conflict(
    entries: Seq<Symbol>,
    names: Map<Seq<char>, usize>,
    i: int,
    symbol: Symbol,
)
    requires
        one_shared_entry_per_name(entries),
        holds_shared(entries, i, symbol.name@),
        entries[i].binding == SymbolBinding::Global,
        symbol.binding == SymbolBinding::Global,
        entries[i].defined(),
        symbol.defined(),
    ensures
        merge(entries, names, symbol) == Merge::Conflict(i),
        merged(entries, names, symbol) == entries,
        renamed(entries, names, symbol) == names,
{
    lemma_shared_slot_of(entries, i, symbol.name@);
}

/// A global symbol is refused exactly where the table holds a defined
/// global entry of its name and the symbol is defined too; no other symbol
/// is ever refused.
pub proof fn lemma_refused_when(entries: Seq<Symbol>, names: Map<Seq<char>, usize>, symbol: Symbol)
    requires
        one_shared_entry_per_name(entries),
    ensures
        merge(entries, names, symbol) is Conflict <==> symbol.binding == SymbolBinding::Global
            && symbol.defined() && exists|i: int|
            0 <= i < entries.len() && (#[trigger] entries[i]).name@ == symbol.name@
                && entries[i].binding == SymbolBinding::Global && entries[i].defined(),
{
    let name = symbol.name@;
    if exists|i: int|
        0 <= i < entries.len() && (#[trigger] entries[i]).name@ == name && entries[i].binding
            == SymbolBinding::Global && entries[i].defined() {
        let i = choose|i: int|
            0 <= i < entries.len() && (#[trigger] entries[i]).name@ == name && entries[i].binding
                == SymbolBinding::Global && entries[i].defined();
        assert(holds_shared(entries, i, name));
        lemma_shared_slot_of(entries, i, name);
    }
    if merge(entries, names, symbol) is Conflict {
        let i = shared_slot_of(entries, name)->Some_0;
        assert(holds_shared(entries, i, name));
        assert(entries[i].name@ == name);
    }
}

/// Of a weak and a global symbol of one name the global one survives,
/// whichever came first, and neither is refused.
pub proof fn lemma_global_survives_weak(
    entries: Seq<Symbol>,
    names: Map<Seq<char>, usize>,
    i: int,
    symbol: Symbol,
)
    requires
        one_shared_entry_per_name(entries),
        holds_shared(entries, i, symbol.name@),
        (entries[i].binding == SymbolBinding::Weak && symbol.binding == SymbolBinding::Global) || (
        entries[i].binding == SymbolBinding::Global && symbol.binding == SymbolBinding::Weak),
    ensures
        !(merge(entries, names, symbol) is Conflict),
        merge_slot(entries, names, symbol) == i,
        merged(entries, names, symbol).len() == entries.len(),
        merged(entries, names, symbol)[i].binding == SymbolBinding::Global,
        merged(entries, names, symbol)[i] == if symbol.binding == SymbolBinding::Global {
            symbol
        } else {
            entries[i]
        },
        forall|k: int|
            0 <= k < entries.len() && k != i ==> #[trigger] merged(entries, names, symbol)[k]
                == entries[k],
{
    lemma_shared_slot_of(entries, i, symbol.name@);
}

/// Of two weak symbols of one name the second replaces the first, and it is
/// not refused.
pub proof fn lemma_last_weak_wins(
    entries: Seq<Symbol>,
    names: Map<Seq<char>, usize>,
    i: int,
    symbol: Symbol,
)
    requires
        one_shared_entry_per_name(entries),
        holds_shared(entries, i, symbol.name@),
        entries[i].binding == SymbolBinding::Weak,
        symbol.binding == SymbolBinding::Weak,
    ensures
        merge(entries, names, symbol) == Merge::Replace(i),
        merged(entries, names, symbol) == entries.update(i, symbol),
{
    lemma_shared_slot_of(entries, i, symbol.name@);
}

/// A weak entry gives way to a local newcomer. A weak newcomer that finds no
/// global or weak entry of its name gives way to the entry that the name
/// stands for.
pub proof fn lemma_weak_yields_to_local(
    entries: Seq<Symbol>,
    names: Map<Seq<char>, usize>,
    symbol: Symbol,
)
    requires
        one_shared_entry_per_name(entries),
    ensures
        symbol.binding == SymbolBinding::Local ==> forall|i: int|
            holds_shared(entries, i, symbol.name@) && (#[trigger] entries[i]).binding
                == SymbolBinding::Weak ==> merge(entries, names, symbol) == Merge::Replace(i),
        symbol.binding == SymbolBinding::Weak && shared_slot_of(entries, symbol.name@) is None
            && names.contains_key(symbol.name@) ==> merge(entries, names, symbol) == Merge::Keep(
            names[symbol.name@] as int,
        ),
{
    if symbol.binding == SymbolBinding::Local {
        assert forall|i: int|
            holds_shared(entries, i, symbol.name@) && (#[trigger] entries[i]).binding
                == SymbolBinding::Weak implies merge(entries, names, symbol) == Merge::Replace(
            i,
        ) by {
            lemma_shared_slot_of(entries, i, symbol.name@);
        }
    }
}

/// A local symbol never meets a global or a local entry: unless it takes the
/// place of the weak entry of its name, it takes a slot of its own, and no
/// entry changes.
pub proof fn lemma_local_takes_its_own_slot(
    entries: Seq<Symbol>,
    names: Map<Seq<char>, usize>,
    symbol: Symbol,
)
    requires
        symbol.binding == SymbolBinding::Local,
        forall|i: int|
            0 <= i < entries.len() && (#[trigger] entries[i]).name@ == symbol.name@
                ==> entries[i].binding != SymbolBinding::Weak,
    ensures
        merge(entries, names, symbol) == Merge::Append,
        merged(entries, names, symbol) == entries.push(symbol),
{
    if shared_slot_of(entries, symbol.name@) is Some {
        let i = shared_slot_of(entries, symbol.name@)->Some_0;
        assert(holds_shared(entries, i, symbol.name@));
    }
}

/// Adding a symbol keeps one global or weak entry per name.
pub proof fn lemma_merged_keeps_one_shared_entry(
    entries: Seq<Symbol>,
    names: Map<Seq<char>, usize>,
    symbol: Symbol,
)
    requires
        one_shared_entry_per_name(entries),
    ensures
        one_shared_entry_per_name(merged(entries, names, symbol)),
{
    let after = merged(entries, names, symbol);
    let own = symbol.name@;
    if shared_slot_of(entries, own) is Some {
        assert(holds_shared(entries, shared_slot_of(entries, own)->Some_0, own));
    }
    assert forall|i: int, j: int, name: Seq<char>|
        holds_shared(after, i, name) && holds_shared(after, j, name) implies i == j by {
        match merge(entries, names, symbol) {
            Merge::Append => {
                if i < entries.len() && j < entries.len() {
                    assert(holds_shared(entries, i, name) && holds_shared(entries, j, name));
                } else if i < entries.len() {
                    assert(holds_shared(entries, i, own));
                } else if j < entries.len() {
                    assert(holds_shared(entries, j, own));
                }
            },
            Merge::Replace(slot) => {
                assert(holds_shared(entries, slot, own));
                if i != slot {
                    assert(holds_shared(entries, i, name));
                }
                if j != slot {
                    assert(holds_shared(entries, j, name));
                }
                if i == slot && j != slot {
                    assert(holds_shared(entries, j, own));
                }
                if j == slot && i != slot {
                    assert(holds_shared(entries, i, own));
                }
            },
            Merge::Keep(_) => {},
            Merge::Conflict(_) => {},
        }
    }
}

/// The names that `undefined_globals` lists are those of the global symbols
/// without a definition: every such symbol is listed, and nothing else is.
pub proof fn lemma_undefined_globals_lists_all(entries: Seq<Symbol>)
    ensures
        forall|i: int|
            0 <= i < entries.len() && (#[trigger] entries[i]).undefined_global()
                ==> undefined_globals(entries).contains(entries[i].name@),
        forall|name: Seq<char>| #[trigger]
            undefined_globals(entries).contains(name) ==> exists|i: int|
                0 <= i < entries.len() && (#[trigger] entries[i]).undefined_global()
                    && entries[i].name@ == name,
        undefined_globals(entries).len() > 0 <==> exists|i: int|
            0 <= i < entries.len() && (#[trigger] entries[i]).undefined_global(),
    decreases entries.len(),
{
    if entries.len() > 0 {
        let rest = entries.drop_last();
        let last = entries.last();
        lemma_undefined_globals_lists_all(rest);
        let listed = undefined_globals(entries);
        let before = undefined_globals(rest);
        assert forall|i: int|
            0 <= i < entries.len() && (#[trigger] entries[i]).undefined_global()
                implies listed.contains(entries[i].name@) by {
            if i < rest.len() {
                assert(rest[i] == entries[i]);
                let k = choose|k: int| 0 <= k < before.len() && before[k] == entries[i].name@;
                assert(listed[k] == entries[i].name@);
            } else {
                assert(listed[before.len() as int] == last.name@);
            }
        }
        assert forall|name: Seq<char>| #[trigger] listed.contains(name) implies exists|i: int|
            0 <= i < entries.len() && (#[trigger] entries[i]).undefined_global()
                && entries[i].name@ == name by {
            let k = choose|k: int| 0 <= k < listed.len() && listed[k] == name;
            if k < before.len() {
                assert(before[k] == name);
                assert(before.contains(name));
                let i = choose|i: int|
                    0 <= i < rest.len() && (#[trigger] rest[i]).undefined_global() && rest[i].name@
                        == name;
                assert(entries[i] == rest[i]);
            } else {
                assert(entries[entries.len() - 1] == last);
            }
        }
        if listed.len() > 0 {
            assert(listed.contains(listed[0]));
        }
        if exists|i: int| 0 <= i < entries.len() && (#[trigger] entries[i]).undefined_global() {
            let i = choose|i: int|
                0 <= i < entries.len() && (#[trigger] entries[i]).undefined_global();
            assert(listed.contains(entries[i].name@));
        }
    }
}

/// Whether no global symbol named `name` in `entries` is defined.
pub open spec fn globals_undefined(entries: Seq<Symbol>, name: Seq<char>) -> bool {
    forall|i: int|
        0 <= i < entries.len() && (#[trigger] entries[i]).name@ == name && entries[i].binding
            == SymbolBinding::Global ==> !entries[i].defined()
}

/// Whether `entries` hold a global symbol named `name` that is not defined.
pub open spec fn holds_reference(entries: Seq<Symbol>, name: Seq<char>) -> bool {
    exists|i: int|
        0 <= i < entries.len() && (#[trigger] entries[i]).undefined_global() && entries[i].name@
            == name
}

/// A reference to a global symbol stays in the table for as long as no
/// global symbol of its name is defined: no local and no weak symbol takes
/// its place.
pub proof fn lemma_reference_stays(
    entries: Seq<Symbol>,
    names: Map<Seq<char>, usize>,
    symbol: Symbol,
    name: Seq<char>,
)
    requires
        globals_undefined(entries, name),
        symbol.name@ == name && symbol.binding == SymbolBinding::Global ==> !symbol.defined(),
    ensures
        !(merge(entries, names, symbol) is Conflict) || symbol.name@ != name,
        globals_undefined(merged(entries, names, symbol), name),
        holds_reference(entries, name) || (symbol.name@ == name && symbol.undefined_global())
            ==> holds_reference(merged(entries, names, symbol), name),
{
    let after = merged(entries, names, symbol);
    let shared = shared_slot_of(entries, symbol.name@);
    if shared is Some {
        assert(holds_shared(entries, shared->Some_0, symbol.name@));
    }
    if holds_reference(entries, name) {
        let i = choose|i: int|
            0 <= i < entries.len() && (#[trigger] entries[i]).undefined_global() && entries[i].name@
                == name;
        assert(after[i] == entries[i]);
        assert(after[i].undefined_global() && after[i].name@ == name);
    } else if symbol.name@ == name && symbol.undefined_global() {
        let slot = merge_slot(entries, names, symbol);
        assert(after[slot].undefined_global() && after[slot].name@ == name);
    }
}

/// Whether `entries` hold a defined global symbol named `name`.
pub open spec fn holds_definition(entries: Seq<Symbol>, name: Seq<char>) -> bool {
    exists|i: int|
        0 <= i < entries.len() && (#[trigger] entries[i]).name@ == name && entries[i].binding
            == SymbolBinding::Global && entries[i].defined()
}

/// The definition of a global symbol stays in the table whatever is added,
/// a defined global symbol that is added is in the table afterwards, and it
/// is refused where the table holds a definition of its name.
pub proof fn lemma_definition_stays(
    entries: Seq<Symbol>,
    names: Map<Seq<char>, usize>,
    symbol: Symbol,
    name: Seq<char>,
)
    requires
        one_shared_entry_per_name(entries),
    ensures
        one_shared_entry_per_name(merged(entries, names, symbol)),
        holds_definition(entries, name) ==> holds_definition(merged(entries, names, symbol), name),
        symbol.name@ == name && symbol.binding == SymbolBinding::Global && symbol.defined() ==> (
        merge(entries, names, symbol) is Conflict <==> holds_definition(entries, name)),
        symbol.name@ == name && symbol.binding == SymbolBinding::Global && symbol.defined()
            ==> holds_definition(merged(entries, names, symbol), name),
{
    let after = merged(entries, names, symbol);
    lemma_merged_keeps_one_shared_entry(entries, names, symbol);
    lemma_refused_when(entries, names, symbol);
    let shared = shared_slot_of(entries, symbol.name@);
    if shared is Some {
        assert(holds_shared(entries, shared->Some_0, symbol.name@));
    }
    if holds_definition(entries, name) {
        let i = choose|i: int|
            0 <= i < entries.len() && (#[trigger] entries[i]).name@ == name && entries[i].binding
                == SymbolBinding::Global && entries[i].defined();
        assert(holds_shared(entries, i, name));
        if symbol.name@ == name {
            lemma_shared_slot_of(entries, i, name);
        }
        assert(after[i] == entries[i]);
        assert(after[i].name@ == name && after[i].binding == SymbolBinding::Global
            && after[i].defined());
    } else if symbol.name@ == name && symbol.binding == SymbolBinding::Global && symbol.defined() {
        let slot = merge_slot(entries, names, symbol);
        assert(after[slot] == symbol);
        assert(after[slot].name@ == name && after[slot].binding == SymbolBinding::Global
            && after[slot].defined());
    }
}

/// Whether slot `j` of `entries` holds a global symbol named `name`.
pub open spec fn global_slot(entries: Seq<Symbol>, j: int, name: Seq<char>) -> bool {
    &&& 0 <= j < entries.len()
    &&& entries[j].name@ == name
    &&& entries[j].binding == SymbolBinding::Global
}

/// The global symbols of one name share one slot: the slot of a global
/// entry stays one, a global symbol that is added stands for such a slot,
/// and a definition in such a slot is the one that was there or the symbol
/// that was added.
pub proof fn lemma_globals_share_a_slot(
    entries: Seq<Symbol>,
    names: Map<Seq<char>, usize>,
    symbol: Symbol,
    name: Seq<char>,
)
    requires
        !(merge(entries, names, symbol) is Conflict),
    ensures
        forall|j: int| #[trigger]
            global_slot(entries, j, name) ==> global_slot(merged(entries, names, symbol), j, name),
        symbol.name@ == name && symbol.binding == SymbolBinding::Global ==> global_slot(
            merged(entries, names, symbol),
            merge_slot(entries, names, symbol),
            name,
        ),
        forall|j: int| #[trigger]
            global_slot(merged(entries, names, symbol), j, name) && merged(
                entries,
                names,
                symbol,
            )[j].defined() ==> (global_slot(entries, j, name) && entries[j] == merged(
                entries,
                names,
                symbol,
            )[j]) || (symbol.name@ == name && symbol.binding == SymbolBinding::Global
                && symbol.defined() && merged(entries, names, symbol)[j] == symbol),
{
    let shared = shared_slot_of(entries, symbol.name@);
    if shared is Some {
        assert(holds_shared(entries, shared->Some_0, symbol.name@));
    }
}

/// Whether `index` gives for each name the slot of its global or weak
/// entry, and knows every such entry.
pub open spec fn indexes_shared(index: Map<Seq<char>, usize>, entries: Seq<Symbol>) -> bool {
    &&& forall|name: Seq<char>| #[trigger]
        index.contains_key(name) ==> holds_shared(entries, index[name] as int, name)
    &&& forall|i: int, name: Seq<char>| #[trigger]
        holds_shared(entries, i, name) ==> index.contains_key(name) && index[name] == i
}

/// Whether every name in `names` stands for a slot that holds a symbol of
/// that name, the name of every entry stands for some slot, and the name of
/// a global or weak entry stands for the slot of that entry.
pub open spec fn names_entries(names: Map<Seq<char>, usize>, entries: Seq<Symbol>) -> bool {
    &&& forall|name: Seq<char>| #[trigger]
        names.contains_key(name) ==> names[name] < entries.len()
            && entries[names[name] as int].name@ == name
    &&& forall|i: int| 0 <= i < entries.len() ==> names.contains_key((#[trigger] entries[i]).name@)
    &&& forall|i: int, name: Seq<char>| #[trigger]
        holds_shared(entries, i, name) ==> names.contains_key(name) && names[name] == i
}

/// An index of the global and weak entries gives the slot of the entry of a
/// name, and the entries it indexes are one per name.
pub proof fn lemma_index_gives_shared_slot(
    index: Map<Seq<char>, usize>,
    entries: Seq<Symbol>,
    name: Seq<char>,
)
    requires
        indexes_shared(index, entries),
    ensures
        one_shared_entry_per_name(entries),
        shared_slot_of(entries, name) == if index.contains_key(name) {
            Some(index[name] as int)
        } else {
            None
        },
{
    if index.contains_key(name) {
        assert(holds_shared(entries, index[name] as int, name));
        lemma_shared_slot_of(entries, index[name] as int, name);
    } else {
        assert forall|i: int| !holds_shared(entries, i, name) by {
            if holds_shared(entries, i, name) {
                assert(index.contains_key(name));
            }
        }
    }
}

/// The index and the names stay right where a symbol is added as `merge`
/// says: the index gains the name of an appended global or weak symbol and
/// loses that of a weak entry which a local symbol replaced.
pub proof fn lemma_added_keeps_indexes(
    index: Map<Seq<char>, usize>,
    names: Map<Seq<char>, usize>,
    entries: Seq<Symbol>,
    symbol: Symbol,
)
    requires
        indexes_shared(index, entries),
        names_entries(names, entries),
        entries.len() <= usize::MAX,
    ensures
        names_entries(renamed(entries, names, symbol), merged(entries, names, symbol)),
        indexes_shared(
            match merge(entries, names, symbol) {
                Merge::Append => if symbol.binding == SymbolBinding::Local {
                    index
                } else {
                    index.insert(symbol.name@, entries.len() as usize)
                },
                Merge::Replace(_) => if symbol.binding == SymbolBinding::Local {
                    index.remove(symbol.name@)
                } else {
                    index
                },
                _ => index,
            },
            merged(entries, names, symbol),
        ),
        !(merge(entries, names, symbol) is Conflict) ==> {
            &&& 0 <= merge_slot(entries, names, symbol) < merged(entries, names, symbol).len()
            &&& merged(entries, names, symbol)[merge_slot(entries, names, symbol)].name@
                == symbol.name@
        },
{
    let own = symbol.name@;
    let after = merged(entries, names, symbol);
    lemma_index_gives_shared_slot(index, entries, own);
    let updated = match merge(entries, names, symbol) {
        Merge::Append => if symbol.binding == SymbolBinding::Local {
            index
        } else {
            index.insert(own, entries.len() as usize)
        },
        Merge::Replace(_) => if symbol.binding == SymbolBinding::Local {
            index.remove(own)
        } else {
            index
        },
        _ => index,
    };
    assert forall|name: Seq<char>| #[trigger] updated.contains_key(name) implies holds_shared(
        after,
        updated[name] as int,
        name,
    ) by {
        if index.contains_key(name) {
            assert(holds_shared(entries, index[name] as int, name));
        }
    }
    assert forall|i: int, name: Seq<char>| #[trigger]
        holds_shared(after, i, name) implies updated.contains_key(name) && updated[name] == i by {
        if i < entries.len() && entries[i] == after[i] {
            assert(holds_shared(entries, i, name));
        }
    }
    let pointed = renamed(entries, names, symbol);
    assert forall|name: Seq<char>| #[trigger] pointed.contains_key(name) implies pointed[name]
        < after.len() && after[pointed[name] as int].name@ == name by {
        if names.contains_key(name) {
            assert(entries[names[name] as int].name@ == name);
        }
        if shared_slot_of(entries, own) is Some {
            assert(holds_shared(entries, shared_slot_of(entries, own)->Some_0, own));
        }
    }
    assert forall|i: int| 0 <= i < after.len() implies pointed.contains_key(
        (#[trigger] after[i]).name@,
    ) by {
        if i < entries.len() {
            assert(names.contains_key(entries[i].name@));
        }
    }
    assert forall|i: int, name: Seq<char>| #[trigger]
        holds_shared(after, i, name) implies pointed.contains_key(name) && pointed[name] == i by {
        assert(updated.contains_key(name) && updated[name] == i);
        if i < entries.len() && entries[i] == after[i] {
            assert(holds_shared(entries, i, name));
        }
    }
    if shared_slot_of(entries, own) is Some {
        assert(holds_shared(entries, shared_slot_of(entries, own)->Some_0, own));
    }
}

/// The global symbol table.
pub struct SymbolTable {
    symbols: Vec<Symbol>,
    symbol_map: StringHashMap<usize>,
    shared_map: StringHashMap<usize>,
}

impl SymbolTable {
    /// The entries, slot by slot.
    pub closed spec fn entries(&self) -> Seq<Symbol> {
        self.symbols@
    }

    /// The slot that each name stands for.
    pub closed spec fn names(&self) -> Map<Seq<char>, usize> {
        self.symbol_map@
    }

    /// Whether the two indexes by name agree with the entries.
    pub closed spec fn wf(&self) -> bool {
        &&& names_entries(self.symbol_map@, self.symbols@)
        &&& indexes_shared(self.shared_map@, self.symbols@)
    }

    /// A table keeps at most one global or weak entry of each name, and its
    /// names stand for entries of those names.
    pub proof fn lemma_wf(&self)
        requires
            self.wf(),
        ensures
            one_shared_entry_per_name(self.entries()),
            names_entries(self.names(), self.entries()),
    {
        if self.symbols@.len() > 0 {
            lemma_index_gives_shared_slot(self.shared_map@, self.symbols@, self.symbols@[0].name@);
        }
        assert forall|i: int, j: int, name: Seq<char>|
            holds_shared(self.symbols@, i, name) && holds_shared(
                self.symbols@,
                j,
                name,
            ) implies i == j by {
            lemma_index_gives_shared_slot(self.shared_map@, self.symbols@, name);
        }
    }

    /// An empty table.
    pub fn new() -> (table: Self)
        ensures
            table.wf(),
            table.entries() == Seq::<Symbol>::empty(),
            table.names() == Map::<Seq<char>, usize>::empty(),
    {
        Self {
            symbols: Vec::new(),
            symbol_map: StringHashMap::new(),
            shared_map: StringHashMap::new(),
        }
    }

    /// The number of slots.
    pub fn len(&self) -> (len: usize)
        ensures
            len == self.entries().len(),
    {
        self.symbols.len()
    }

    /// Adds a symbol and returns the slot that stands for it: a new one, or
    /// the slot of the entry it met. Its name then stands for that slot,
    /// unless it is a local symbol and the table holds a global entry of
    /// its name, which keeps the name. Two defined global symbols of one
    /// name are an error, whatever local symbols came between them, and
    /// the table keeps the first.
    pub fn add_symbol(&mut self, symbol: Symbol) -> (result: Result<usize, LinkerError>)
        requires
            old(self).wf(),
        ensures
            final(self).wf(),
            final(self).entries() == merged(old(self).entries(), old(self).names(), symbol),
            final(self).names() == renamed(old(self).entries(), old(self).names(), symbol),
            match merge(old(self).entries(), old(self).names(), symbol) {
                Merge::Append => result == Ok::<usize, LinkerError>(
                    old(self).entries().len() as usize,
                ),
                Merge::Replace(i) => result == Ok::<usize, LinkerError>(i as usize),
                Merge::Keep(i) => result == Ok::<usize, LinkerError>(i as usize),
                Merge::Conflict(_) => result == Err::<usize, LinkerError>(
                    LinkerError::SymbolResolution(
                        SymbolError::MultipleDefinition { name: symbol.name },
                    ),
                ),
            },
            result is Err <==> symbol.binding == SymbolBinding::Global && symbol.defined()
                && exists|i: int|
                0 <= i < old(self).entries().len() && (#[trigger] old(self).entries()[i]).name@
                    == symbol.name@ && old(self).entries()[i].binding == SymbolBinding::Global
                    && old(self).entries()[i].defined(),
            result matches Ok(slot) ==> {
                &&& slot < final(self).entries().len()
                &&& final(self).entries()[slot as int].name@ == symbol.name@
                &&& slot_of(final(self).names(), symbol.name@) == if global_keeps_name(
                    old(self).entries(),
                    symbol,
                ) {
                    shared_slot_of(old(self).entries(), symbol.name@)
                } else {
                    Some(slot as int)
                }
            },
    {
        let local = match symbol.binding {
            SymbolBinding::Local => true,
            _ => false,
        };
        let weak = match symbol.binding {
            SymbolBinding::Weak => true,
            _ => false,
        };
        proof {
            assert(self.symbols@.len() == self.symbols.len());
            lemma_index_gives_shared_slot(self.shared_map@, self.symbols@, symbol.name@);
            lemma_added_keeps_indexes(self.shared_map@, self.symbol_map@, self.symbols@, symbol);
            lemma_refused_when(self.symbols@, self.symbol_map@, symbol);
        }
        let shared = match self.shared_map.get(symbol.name.as_str()) {
            Some(slot) => Some(*slot),
            None => None,
        };
        // the slot of the entry that the symbol meets, and whether the
        // symbol takes its place
        let met = match shared {
            Some(slot) => {
                let existing = &self.symbols[slot];
                let existing_weak = match existing.binding {
                    SymbolBinding::Weak => true,
                    _ => false,
                };
                if local {
                    if existing_weak {
                        Some((slot, true))
                    } else {
                        None
                    }
                } else if existing_weak {
                    Some((slot, true))
                } else if weak {
                    Some((slot, false))
                } else if existing.is_defined() && symbol.is_defined() {
                    return Err(
                        LinkerError::SymbolResolution(
                            SymbolError::MultipleDefinition { name: symbol.name },
                        ),
                    );
                } else {
                    Some((slot, symbol.is_defined()))
                }
            },
            None => {
                if weak {
                    match self.symbol_map.get(symbol.name.as_str()) {
                        Some(slot) => Some((*slot, false)),
                        None => None,
                    }
                } else {
                    None
                }
            },
        };
        match met {
            Some((slot, replace)) => {
                self.symbol_map.insert(symbol.name.clone(), slot);
                if replace {
                    if local {
                        self.shared_map.remove(symbol.name.as_str());
                    }
                    self.symbols[slot] = symbol;
                }
                Ok(slot)
            },
            None => {
                let slot = self.symbols.len();
                if !local || shared.is_none() {
                    self.symbol_map.insert(symbol.name.clone(), slot);
                }
                if !local {
                    self.shared_map.insert(symbol.name.clone(), slot);
                }
                self.symbols.push(symbol);
                Ok(slot)
            },
        }
    }

    /// The slot that `name` stands for, if the table has a symbol of that
    /// name.
    pub fn find_slot(&self, name: &str) -> (found: Option<usize>)
        requires
            self.wf(),
        ensures
            match slot_of(self.names(), name@) {
                Some(i) => found == Some(i as usize) && i < self.entries().len()
                    && self.entries()[i].name@ == name@,
                None => found is None && forall|i: int|
                    0 <= i < self.entries().len() ==> (#[trigger] self.entries()[i]).name@
                        != name@,
            },
            forall|i: int| #[trigger]
                holds_shared(self.entries(), i, name@) ==> found == Some(i as usize),
    {
        match self.symbol_map.get(name) {
            Some(slot) => Some(*slot),
            None => None,
        }
    }

    /// The entry that `name` stands for, if the table has a symbol of that
    /// name.
    pub fn get_symbol(&self, name: &str) -> (found: Option<&Symbol>)
        requires
            self.wf(),
        ensures
            match slot_of(self.names(), name@) {
                Some(i) => found == Some(&self.entries()[i]) && self.entries()[i].name@ == name@,
                None => found is None,
            },
    {
        match self.find_slot(name) {
            Some(slot) => Some(&self.symbols[slot]),
            None => None,
        }
    }

    /// The entry in slot `index`, if the table has that many slots.
    pub fn get_symbol_by_index(&self, index: usize) -> (found: Option<&Symbol>)
        ensures
            index < self.entries().len() ==> found == Some(&self.entries()[index as int]),
            index >= self.entries().len() ==> found is None,
    {
        if index < self.symbols.len() {
            Some(&self.symbols[index])
        } else {
            None
        }
    }

    /// Checks that every global symbol is defined. Where some are not, the
    /// error names all of them, in the order of their slots. Local and weak
    /// symbols may stay undefined: they resolve to address zero.
    pub fn resolve_undefined_symbols(&self) -> (result: Result<(), LinkerError>)
        ensures
            undefined_globals(self.entries()).len() == 0 ==> result is Ok,
            undefined_globals(self.entries()).len() > 0 ==> {
                &&& result matches Err(LinkerError::SymbolResolution(SymbolError::Undefined { names }))
                &&& spelled(names@) == undefined_globals(self.entries())
            },
    {
        let mut names: Vec<String> = Vec::new();
        let mut i: usize = 0;
        assert(self.symbols@.take(0) == Seq::<Symbol>::empty());
        while i < self.symbols.len()
            invariant
                i <= self.symbols.len(),
                spelled(names@) == undefined_globals(self.symbols@.take(i as int)),
            decreases self.symbols.len() - i,
        {
            let symbol = &self.symbols[i];
            let is_global = match symbol.binding {
                SymbolBinding::Global => true,
                _ => false,
            };
            proof {
                let next = self.symbols@.take(i + 1);
                assert(next.drop_last() == self.symbols@.take(i as int));
                assert(next.last() == self.symbols@[i as int]);
            }
            if is_global && !symbol.is_defined() {
                let ghost before = names@;
                names.push(symbol.name.clone());
                assert(spelled(names@) == spelled(before).push(symbol.name@));
            }
            i += 1;
        }
        assert(self.symbols@.take(i as int) == self.symbols@);
        if names.len() == 0 {
            Ok(())
        } else {
            Err(LinkerError::SymbolResolution(SymbolError::Undefined { names }))
        }
    }
}

} // verus!
