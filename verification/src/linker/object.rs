//! Input objects, and the first pass over them.
//!
//! An object brings sections, symbols that name those sections, and
//! relocations that name both. The first pass numbers the sections of all
//! objects in one sequence and merges the symbols into the global table. A
//! defined symbol enters the table under the number of its section in that
//! sequence, so that the table alone tells where each symbol lives. An
//! absolute symbol names no section: its value is its address.

use vstd::prelude::*;
use crate::elf::section::Section;
use crate::error::{Failure, InputError, LayoutError, LinkerError, SymbolError};
use crate::linker::relocation::Relocation;
use crate::linker::symbol::{
    global_slot,
    globals_undefined,
    holds_definition,
    holds_reference,
    holds_shared,
    lemma_definition_stays,
    lemma_globals_share_a_slot,
    lemma_reference_stays,
    one_shared_entry_per_name,
    merge,
    merge_slot,
    merged,
    renamed,
    Merge,
    Symbol,
    SymbolBinding,
    SymbolTable,
};

verus! {

/// A relocation together with the section whose bytes it patches.
#[derive(Debug, Clone, Copy)]
pub struct SectionRelocation {
    /// Index of the section within its object.
    pub section: usize,
    pub relocation: Relocation,
}

/// One input object, as the parser hands it over.
///
/// A symbol's `section_index` and a relocation's `section` index `sections`;
/// index 0 is never a definition. A relocation's `symbol_index` indexes
/// `symbols`.
pub struct ObjectFile {
    pub sections: Vec<Section>,
    pub symbols: Vec<Symbol>,
    pub relocations: Vec<SectionRelocation>,
}

/// The sections of the first `n` objects, one object after the other.
pub open spec fn all_sections(objects: Seq<ObjectFile>, n: int) -> Seq<Section>
    decreases n,
{
    if n <= 0 {
        Seq::empty()
    } else {
        all_sections(objects, n - 1) + objects[n - 1].sections@
    }
}

/// The section number that marks a symbol as absolute in an object: its
/// value is an address, not an offset within a section.
pub const SHN_ABS: usize = 0xfff1;

/// The section number that marks a symbol as absolute in the table.
pub const ABSOLUTE: usize = usize::MAX;

/// The number under which a symbol of section `k` enters the table, where
/// the sections of its object are `count` and are numbered from `first` on:
/// a reference stays one, section `k` of the object becomes section `first
/// + k` of all, and the mark of an absolute symbol becomes that of the
/// table. Any other number names no section of the object.
pub open spec fn placed_number(k: usize, first: int, count: int) -> Option<usize> {
    if k == 0 {
        Some(0usize)
    } else if k < count {
        Some((first + k) as usize)
    } else if k == SHN_ABS && k >= count {
        Some(ABSOLUTE)
    } else {
        None
    }
}

/// `symbol` as it enters the table, under the number that its section has
/// there. A symbol that names a section its object lacks has no place.
pub open spec fn placed(symbol: Symbol, first: int, count: int) -> Option<Symbol> {
    match placed_number(symbol.section_index, first, count) {
        Some(number) => Some(Symbol { section_index: number, ..symbol }),
        None => None,
    }
}

/// The number under which a symbol of section `k` enters the table.
fn place(k: usize, first: usize, count: usize) -> (number: Option<usize>)
    requires
        first + count <= usize::MAX,
    ensures
        number == placed_number(k, first as int, count as int),
{
    if k == 0 {
        Some(0)
    } else if k < count {
        Some(first + k)
    } else if k == SHN_ABS {
        Some(ABSOLUTE)
    } else {
        None
    }
}

/// The entries of a table after symbol `n` of an object was added, what its
/// names then stand for, and the slot that stands for the symbol; or why it
/// cannot be added: it names a section that the object lacks, or it is a
/// second strong definition.
pub open spec fn collected_symbol(
    table: Seq<Symbol>,
    names: Map<Seq<char>, usize>,
    symbols: Seq<Symbol>,
    n: int,
    object: usize,
    first: int,
    count: int,
) -> Result<(Seq<Symbol>, Map<Seq<char>, usize>, usize), Failure> {
    match placed(symbols[n], first, count) {
        None => Err(Failure::Input(InputError::SymbolSection { object, symbol: n as usize })),
        Some(symbol) => if merge(table, names, symbol) is Conflict {
            Err(Failure::ObjectSymbol { object, symbol: n as usize, name: symbol.name@ })
        } else {
            Ok(
                (
                    merged(table, names, symbol),
                    renamed(table, names, symbol),
                    merge_slot(table, names, symbol) as usize,
                ),
            )
        },
    }
}

/// The table after the first `n` of `symbols` were added to one that holds
/// `entries` and `names`, and the slot that stands for each of them; or the
/// first failure.
pub open spec fn collected_symbols(
    entries: Seq<Symbol>,
    names: Map<Seq<char>, usize>,
    symbols: Seq<Symbol>,
    n: int,
    object: usize,
    first: int,
    count: int,
) -> Result<(Seq<Symbol>, Map<Seq<char>, usize>, Seq<usize>), Failure>
    decreases n,
{
    if n <= 0 {
        Ok((entries, names, Seq::empty()))
    } else {
        match collected_symbols(entries, names, symbols, n - 1, object, first, count) {
            Err(failure) => Err(failure),
            Ok((table, known, slots)) => match collected_symbol(
                table,
                known,
                symbols,
                n - 1,
                object,
                first,
                count,
            ) {
                Err(failure) => Err(failure),
                Ok((next, renamed, slot)) => Ok((next, renamed, slots.push(slot))),
            },
        }
    }
}

/// The table after the symbols of the first `n` objects were added to an
/// empty one, what its names stand for, and for each object the slots of
/// its symbols; or the first failure.
pub open spec fn collected(objects: Seq<ObjectFile>, n: int) -> Result<
    (Seq<Symbol>, Map<Seq<char>, usize>, Seq<Seq<usize>>),
    Failure,
>
    decreases n,
{
    if n <= 0 {
        Ok((Seq::empty(), Map::empty(), Seq::empty()))
    } else {
        match collected(objects, n - 1) {
            Err(failure) => Err(failure),
            Ok((table, names, slots)) => {
                let object = objects[n - 1];
                match collected_symbols(
                    table,
                    names,
                    object.symbols@,
                    object.symbols@.len() as int,
                    (n - 1) as usize,
                    all_sections(objects, n - 1).len() as int,
                    object.sections@.len() as int,
                ) {
                    Err(failure) => Err(failure),
                    Ok((next, renamed, list)) => Ok((next, renamed, slots.push(list))),
                }
            },
        }
    }
}

/// The slot lists that `slots` holds.
pub open spec fn slot_lists(slots: Seq<Vec<usize>>) -> Seq<Seq<usize>> {
    slots.map_values(|list: Vec<usize>| list@)
}

/// A failure among the first symbols is the failure of all of them.
pub proof fn lemma_collected_symbols_fails(
    entries: Seq<Symbol>,
    names: Map<Seq<char>, usize>,
    symbols: Seq<Symbol>,
    m: int,
    n: int,
    object: usize,
    first: int,
    count: int,
)
    requires
        m <= n,
        collected_symbols(entries, names, symbols, m, object, first, count) is Err,
    ensures
        collected_symbols(entries, names, symbols, n, object, first, count) == collected_symbols(
            entries,
            names,
            symbols,
            m,
            object,
            first,
            count,
        ),
    decreases n - m,
{
    if m < n {
        lemma_collected_symbols_fails(entries, names, symbols, m, n - 1, object, first, count);
    }
}

/// Whether no object defines a global symbol named `name`.
pub open spec fn never_defined(objects: Seq<ObjectFile>, name: Seq<char>) -> bool {
    forall|o: int, k: int|
        0 <= o < objects.len() && 0 <= k < objects[o].symbols@.len() && (
        #[trigger] objects[o].symbols@[k]).name@ == name && objects[o].symbols@[k].binding
            == SymbolBinding::Global ==> !objects[o].symbols@[k].defined()
}

/// Whether one of the first `n` objects refers to a global symbol named
/// `name` without defining it.
pub open spec fn refers_to(objects: Seq<ObjectFile>, n: int, name: Seq<char>) -> bool {
    exists|o: int, k: int|
        0 <= o < n && o < objects.len() && 0 <= k < objects[o].symbols@.len() && (
        #[trigger] objects[o].symbols@[k]).undefined_global() && objects[o].symbols@[k].name@
            == name
}

/// Where the symbols of an object define no global symbol named `name`, the
/// table keeps a reference to it that it holds, and gains one with the first
/// such reference among the symbols.
pub proof fn lemma_collected_symbols_keep_reference(
    entries: Seq<Symbol>,
    names: Map<Seq<char>, usize>,
    symbols: Seq<Symbol>,
    n: int,
    object: usize,
    first: int,
    count: int,
    name: Seq<char>,
)
    requires
        0 <= n <= symbols.len(),
        collected_symbols(entries, names, symbols, n, object, first, count) is Ok,
        globals_undefined(entries, name),
        forall|k: int|
            0 <= k < n && (#[trigger] symbols[k]).name@ == name && symbols[k].binding
                == SymbolBinding::Global ==> !symbols[k].defined(),
    ensures
        globals_undefined(
            collected_symbols(entries, names, symbols, n, object, first, count)->Ok_0.0,
            name,
        ),
        holds_reference(entries, name) || (exists|k: int|
            0 <= k < n && (#[trigger] symbols[k]).undefined_global() && symbols[k].name@ == name)
            ==> holds_reference(
            collected_symbols(entries, names, symbols, n, object, first, count)->Ok_0.0,
            name,
        ),
    decreases n,
{
    if n > 0 {
        lemma_collected_symbols_keep_reference(
            entries,
            names,
            symbols,
            n - 1,
            object,
            first,
            count,
            name,
        );
        let before = collected_symbols(entries, names, symbols, n - 1, object, first, count)->Ok_0;
        let symbol = placed(symbols[n - 1], first, count)->Some_0;
        lemma_reference_stays(before.0, before.1, symbol, name);
        if exists|k: int|
            0 <= k < n && (#[trigger] symbols[k]).undefined_global() && symbols[k].name@ == name {
            let k = choose|k: int|
                0 <= k < n && (#[trigger] symbols[k]).undefined_global() && symbols[k].name@
                    == name;
            if k < n - 1 {
                assert(0 <= k < n - 1 && symbols[k].undefined_global() && symbols[k].name@ == name);
            }
        }
    }
}

/// Where no object defines a global symbol named `name`, the table holds a
/// reference to it once the symbols of an object that refers to it are
/// merged.
pub proof fn lemma_collected_keeps_reference(objects: Seq<ObjectFile>, n: int, name: Seq<char>)
    requires
        0 <= n <= objects.len(),
        collected(objects, n) is Ok,
        never_defined(objects, name),
    ensures
        globals_undefined(collected(objects, n)->Ok_0.0, name),
        refers_to(objects, n, name) ==> holds_reference(collected(objects, n)->Ok_0.0, name),
    decreases n,
{
    if n > 0 {
        lemma_collected_keeps_reference(objects, n - 1, name);
        let before = collected(objects, n - 1)->Ok_0;
        let object = objects[n - 1];
        lemma_collected_symbols_keep_reference(
            before.0,
            before.1,
            object.symbols@,
            object.symbols@.len() as int,
            (n - 1) as usize,
            all_sections(objects, n - 1).len() as int,
            object.sections@.len() as int,
            name,
        );
        if refers_to(objects, n, name) {
            let (o, k) = choose|o: int, k: int|
                0 <= o < n && o < objects.len() && 0 <= k < objects[o].symbols@.len() && (
                #[trigger] objects[o].symbols@[k]).undefined_global() && objects[o].symbols@[k].name@
                    == name;
            if o < n - 1 {
                assert(refers_to(objects, n - 1, name));
            } else {
                assert(0 <= k < object.symbols@.len() && object.symbols@[k].undefined_global()
                    && object.symbols@[k].name@ == name);
            }
        }
    }
}

/// Whether `symbol` is a defined global symbol named `name`.
pub open spec fn is_definition(symbol: Symbol, name: Seq<char>) -> bool {
    symbol.name@ == name && symbol.binding == SymbolBinding::Global && symbol.defined()
}

/// Whether symbol `k` of object `o` is a defined global symbol named
/// `name`.
pub open spec fn defines_at(objects: Seq<ObjectFile>, o: int, k: int, name: Seq<char>) -> bool {
    &&& 0 <= o < objects.len()
    &&& 0 <= k < objects[o].symbols@.len()
    &&& is_definition(objects[o].symbols@[k], name)
}

/// Where the first `n` symbols of an object can be merged into a table,
/// they hold at most one definition of a global symbol named `name`, and
/// none where the table held one; and the table holds a definition of the
/// name afterwards if it did before or one of the symbols is one.
pub proof fn lemma_collected_symbols_define_once(
    entries: Seq<Symbol>,
    names: Map<Seq<char>, usize>,
    symbols: Seq<Symbol>,
    n: int,
    object: usize,
    first: int,
    count: int,
    name: Seq<char>,
)
    requires
        0 <= n <= symbols.len(),
        0 <= first,
        first + count <= usize::MAX,
        one_shared_entry_per_name(entries),
        collected_symbols(entries, names, symbols, n, object, first, count) is Ok,
    ensures
        one_shared_entry_per_name(
            collected_symbols(entries, names, symbols, n, object, first, count)->Ok_0.0,
        ),
        holds_definition(entries, name) ==> holds_definition(
            collected_symbols(entries, names, symbols, n, object, first, count)->Ok_0.0,
            name,
        ),
        forall|k: int|
            0 <= k < n && is_definition(#[trigger] symbols[k], name) ==> !holds_definition(
                entries,
                name,
            ) && holds_definition(
                collected_symbols(entries, names, symbols, n, object, first, count)->Ok_0.0,
                name,
            ),
        forall|j: int, k: int|
            0 <= j < k < n && is_definition(#[trigger] symbols[j], name) ==> !is_definition(
                #[trigger] symbols[k],
                name,
            ),
    decreases n,
{
    if n > 0 {
        lemma_collected_symbols_define_once(
            entries,
            names,
            symbols,
            n - 1,
            object,
            first,
            count,
            name,
        );
        let before = collected_symbols(entries, names, symbols, n - 1, object, first, count)->Ok_0;
        let symbol = placed(symbols[n - 1], first, count)->Some_0;
        lemma_definition_stays(before.0, before.1, symbol, name);
        assert(is_definition(symbols[n - 1], name) ==> is_definition(symbol, name));
        assert forall|j: int, k: int|
            0 <= j < k < n && is_definition(#[trigger] symbols[j], name) implies !is_definition(
            #[trigger] symbols[k],
            name,
        ) by {
            if k == n - 1 {
                assert(holds_definition(before.0, name));
            }
        }
    }
}

/// Where the symbols of the first `n` objects can be merged, those objects
/// hold at most one definition of a global symbol named `name`, and the
/// table holds that definition.
pub proof fn lemma_collected_defines_once(objects: Seq<ObjectFile>, n: int, name: Seq<char>)
    requires
        0 <= n <= objects.len(),
        all_sections(objects, objects.len() as int).len() <= usize::MAX,
        collected(objects, n) is Ok,
    ensures
        one_shared_entry_per_name(collected(objects, n)->Ok_0.0),
        forall|o: int, k: int|
            o < n && #[trigger] defines_at(objects, o, k, name) ==> holds_definition(
                collected(objects, n)->Ok_0.0,
                name,
            ),
        forall|o: int, k: int, p: int, q: int|
            o < n && p < n && #[trigger] defines_at(objects, o, k, name) && #[trigger] defines_at(
                objects,
                p,
                q,
                name,
            ) ==> o == p && k == q,
    decreases n,
{
    if n > 0 {
        lemma_collected_defines_once(objects, n - 1, name);
        lemma_all_sections_grows(objects, n, objects.len() as int);
        let before = collected(objects, n - 1)->Ok_0;
        let object = objects[n - 1];
        assert(all_sections(objects, n).len() == all_sections(objects, n - 1).len()
            + object.sections@.len());
        lemma_collected_symbols_define_once(
            before.0,
            before.1,
            object.symbols@,
            object.symbols@.len() as int,
            (n - 1) as usize,
            all_sections(objects, n - 1).len() as int,
            object.sections@.len() as int,
            name,
        );
        assert forall|o: int, k: int, p: int, q: int|
            o < n && p < n && #[trigger] defines_at(objects, o, k, name) && #[trigger] defines_at(
                objects,
                p,
                q,
                name,
            ) implies o == p && k == q by {
            if o == n - 1 && p == n - 1 {
                if k < q {
                    assert(is_definition(object.symbols@[k], name));
                    assert(!is_definition(object.symbols@[q], name));
                } else if q < k {
                    assert(is_definition(object.symbols@[q], name));
                    assert(!is_definition(object.symbols@[k], name));
                }
            } else if o == n - 1 {
                assert(holds_definition(before.0, name));
                assert(is_definition(object.symbols@[k], name));
            } else if p == n - 1 {
                assert(holds_definition(before.0, name));
                assert(is_definition(object.symbols@[q], name));
            }
        }
        assert forall|o: int, k: int| o < n && #[trigger] defines_at(objects, o, k, name) implies
            holds_definition(collected(objects, n)->Ok_0.0, name) by {
            if o == n - 1 {
                assert(is_definition(object.symbols@[k], name));
            } else {
                assert(holds_definition(before.0, name));
            }
        }
    } else {
        assert(one_shared_entry_per_name(Seq::<Symbol>::empty()));
    }
}

/// Whether `symbol` is a global symbol named `name`.
pub open spec fn is_global(symbol: Symbol, name: Seq<char>) -> bool {
    symbol.name@ == name && symbol.binding == SymbolBinding::Global
}

/// Symbol `k` of object `o` as it enters the table.
pub open spec fn placed_in(objects: Seq<ObjectFile>, o: int, k: int) -> Symbol {
    placed(
        objects[o].symbols@[k],
        all_sections(objects, o).len() as int,
        objects[o].sections@.len() as int,
    )->Some_0
}

/// Where the first `n` symbols of an object are merged into a table, the
/// slot of a global entry named `name` stays one, each global symbol of
/// that name stands for such a slot, and a definition in such a slot is the
/// one that was there or one of the symbols.
pub proof fn lemma_collected_symbols_share_a_slot(
    entries: Seq<Symbol>,
    names: Map<Seq<char>, usize>,
    symbols: Seq<Symbol>,
    n: int,
    object: usize,
    first: int,
    count: int,
    name: Seq<char>,
)
    requires
        0 <= n <= symbols.len(),
        collected_symbols(entries, names, symbols, n, object, first, count) is Ok,
        collected_symbols(entries, names, symbols, n, object, first, count)->Ok_0.0.len()
            <= usize::MAX,
    ensures
        ({
            let after = collected_symbols(entries, names, symbols, n, object, first, count)->Ok_0.0;
            let slots = collected_symbols(entries, names, symbols, n, object, first, count)->Ok_0.2;
            &&& slots.len() == n
            &&& entries.len() <= after.len()
            &&& forall|j: int| #[trigger]
                global_slot(entries, j, name) ==> global_slot(after, j, name)
            &&& forall|k: int|
                0 <= k < n && is_global(#[trigger] symbols[k], name) ==> global_slot(
                    after,
                    slots[k] as int,
                    name,
                )
            &&& forall|j: int| #[trigger]
                global_slot(after, j, name) && after[j].defined() ==> (global_slot(entries, j, name)
                    && entries[j] == after[j]) || exists|k: int|
                    0 <= k < n && is_definition(#[trigger] symbols[k], name) && after[j] == placed(
                        symbols[k],
                        first,
                        count,
                    )->Some_0
        }),
    decreases n,
{
    if n > 0 {
        let before = collected_symbols(entries, names, symbols, n - 1, object, first, count)->Ok_0;
        let symbol = placed(symbols[n - 1], first, count)->Some_0;
        let after = merged(before.0, before.1, symbol);
        assert(before.0.len() <= after.len());
        lemma_collected_symbols_share_a_slot(
            entries,
            names,
            symbols,
            n - 1,
            object,
            first,
            count,
            name,
        );
        lemma_globals_share_a_slot(before.0, before.1, symbol, name);
        let slots = before.2.push(merge_slot(before.0, before.1, symbol) as usize);
        assert forall|k: int| 0 <= k < n && is_global(#[trigger] symbols[k], name) implies
            global_slot(after, slots[k] as int, name) by {
            if k < n - 1 {
                assert(global_slot(before.0, before.2[k] as int, name));
            }
        }
        assert forall|j: int| #[trigger]
            global_slot(after, j, name) && after[j].defined() implies (global_slot(entries, j, name)
            && entries[j] == after[j]) || exists|k: int|
            0 <= k < n && is_definition(#[trigger] symbols[k], name) && after[j] == placed(
                symbols[k],
                first,
                count,
            )->Some_0 by {
            if global_slot(before.0, j, name) && before.0[j] == after[j] {
                if !(global_slot(entries, j, name) && entries[j] == after[j]) {
                    let k = choose|k: int|
                        0 <= k < n - 1 && is_definition(#[trigger] symbols[k], name) && before.0[j]
                            == placed(symbols[k], first, count)->Some_0;
                    assert(0 <= k < n && is_definition(symbols[k], name));
                }
            } else {
                assert(after[j] == symbol);
                assert(is_definition(symbols[n - 1], name));
            }
        }
    }
}

/// Where the symbols of the first `n` objects are merged, each global
/// symbol named `name` stands for a slot that holds a global symbol of that
/// name, and a definition in such a slot is one of the symbols of the
/// objects, as it entered the table.
pub proof fn lemma_collected_shares_a_slot(objects: Seq<ObjectFile>, n: int, name: Seq<char>)
    requires
        0 <= n <= objects.len(),
        collected(objects, n) is Ok,
        collected(objects, n)->Ok_0.0.len() <= usize::MAX,
    ensures
        ({
            let entries = collected(objects, n)->Ok_0.0;
            let slots = collected(objects, n)->Ok_0.2;
            &&& slots.len() == n
            &&& forall|o: int| 0 <= o < n ==> (#[trigger] slots[o]).len() == objects[o].symbols@.len()
            &&& forall|o: int, k: int|
                0 <= o < n && 0 <= k < objects[o].symbols@.len() && is_global(
                    #[trigger] objects[o].symbols@[k],
                    name,
                ) ==> global_slot(entries, slots[o][k] as int, name)
            &&& forall|j: int| #[trigger]
                global_slot(entries, j, name) && entries[j].defined() ==> exists|o: int, k: int|
                    o < n && defines_at(objects, o, k, name) && entries[j] == #[trigger] placed_in(
                        objects,
                        o,
                        k,
                    )
        }),
    decreases n,
{
    if n > 0 {
        let before = collected(objects, n - 1)->Ok_0;
        let object = objects[n - 1];
        let first = all_sections(objects, n - 1).len() as int;
        let count = object.sections@.len() as int;
        let len = object.symbols@.len() as int;
        lemma_collected_symbols_share_a_slot(
            before.0,
            before.1,
            object.symbols@,
            len,
            (n - 1) as usize,
            first,
            count,
            name,
        );
        lemma_collected_shares_a_slot(objects, n - 1, name);
        let entries = collected(objects, n)->Ok_0.0;
        let slots = collected(objects, n)->Ok_0.2;
        let list = collected_symbols(
            before.0,
            before.1,
            object.symbols@,
            len,
            (n - 1) as usize,
            first,
            count,
        )->Ok_0.2;
        assert(slots == before.2.push(list));
        assert forall|o: int, k: int|
            0 <= o < n && 0 <= k < objects[o].symbols@.len() && is_global(
                #[trigger] objects[o].symbols@[k],
                name,
            ) implies global_slot(entries, slots[o][k] as int, name) by {
            if o < n - 1 {
                assert(slots[o] == before.2[o]);
                assert(global_slot(before.0, before.2[o][k] as int, name));
            } else {
                assert(slots[o] == list);
                assert(is_global(object.symbols@[k], name));
            }
        }
        assert forall|j: int| #[trigger]
            global_slot(entries, j, name) && entries[j].defined() implies exists|o: int, k: int|
            o < n && defines_at(objects, o, k, name) && entries[j] == #[trigger] placed_in(
                objects,
                o,
                k,
            ) by {
            if global_slot(before.0, j, name) && before.0[j] == entries[j] {
                let (o, k) = choose|o: int, k: int|
                    o < n - 1 && defines_at(objects, o, k, name) && before.0[j]
                        == #[trigger] placed_in(objects, o, k);
                assert(o < n && defines_at(objects, o, k, name) && entries[j] == placed_in(
                    objects,
                    o,
                    k,
                ));
            } else {
                let k = choose|k: int|
                    0 <= k < len && is_definition(#[trigger] object.symbols@[k], name) && entries[j]
                        == placed(object.symbols@[k], first, count)->Some_0;
                assert(defines_at(objects, n - 1, k, name) && entries[j] == placed_in(
                    objects,
                    n - 1,
                    k,
                ));
            }
        }
    }
}

/// Where the symbols of the objects are merged and one of them defines a
/// global symbol named `name`, every global symbol of that name, of
/// whatever object, stands for the slot of that definition: references
/// before it and behind it, with local symbols of the name between them or
/// not.
pub proof fn lemma_globals_stand_for_the_definition(
    objects: Seq<ObjectFile>,
    name: Seq<char>,
    o: int,
    k: int,
    p: int,
    q: int,
)
    requires
        all_sections(objects, objects.len() as int).len() <= usize::MAX,
        collected(objects, objects.len() as int) is Ok,
        collected(objects, objects.len() as int)->Ok_0.0.len() <= usize::MAX,
        0 <= o < objects.len(),
        0 <= k < objects[o].symbols@.len(),
        is_global(objects[o].symbols@[k], name),
        defines_at(objects, p, q, name),
    ensures
        ({
            let entries = collected(objects, objects.len() as int)->Ok_0.0;
            let slots = collected(objects, objects.len() as int)->Ok_0.2;
            &&& 0 <= slots[o][k] < entries.len()
            &&& entries[slots[o][k] as int] == placed_in(objects, p, q)
        }),
{
    let n = objects.len() as int;
    let entries = collected(objects, n)->Ok_0.0;
    let slots = collected(objects, n)->Ok_0.2;
    let slot = slots[o][k] as int;
    lemma_collected_shares_a_slot(objects, n, name);
    lemma_collected_defines_once(objects, n, name);
    assert(is_global(objects[o].symbols@[k], name));
    assert(global_slot(entries, slot, name));
    assert(holds_definition(entries, name));
    let i = choose|i: int|
        0 <= i < entries.len() && (#[trigger] entries[i]).name@ == name && entries[i].binding
            == SymbolBinding::Global && entries[i].defined();
    assert(holds_shared(entries, i, name) && holds_shared(entries, slot, name));
    assert(i == slot);
    let (a, b) = choose|a: int, b: int|
        a < n && defines_at(objects, a, b, name) && entries[slot] == #[trigger] placed_in(
            objects,
            a,
            b,
        );
    assert(a == p && b == q);
}

/// A failure among the first objects is the failure of all of them.
pub proof fn lemma_collected_fails(objects: Seq<ObjectFile>, m: int, n: int)
    requires
        m <= n,
        collected(objects, m) is Err,
    ensures
        collected(objects, n) == collected(objects, m),
    decreases n - m,
{
    if m < n {
        lemma_collected_fails(objects, m, n - 1);
    }
}

/// The number at which the sections of each object begin, or an error where
/// the sections are too many to number.
pub fn section_starts(objects: &Vec<ObjectFile>) -> (result: Result<Vec<usize>, LinkerError>)
    ensures
        match result {
            Ok(starts) => {
                &&& all_sections(objects@, objects@.len() as int).len() <= usize::MAX
                &&& starts@.len() == objects@.len()
                &&& forall|i: int|
                    0 <= i < starts@.len() ==> #[trigger] starts@[i] == all_sections(
                        objects@,
                        i,
                    ).len()
            },
            Err(e) => {
                &&& all_sections(objects@, objects@.len() as int).len() > usize::MAX
                &&& e == LinkerError::Section(LayoutError::TooManySections)
            },
        },
{
    let mut starts: Vec<usize> = Vec::new();
    let mut next: usize = 0;
    let mut i: usize = 0;
    while i < objects.len()
        invariant
            i <= objects.len(),
            next == all_sections(objects@, i as int).len(),
            starts@.len() == i,
            forall|k: int|
                0 <= k < i ==> #[trigger] starts@[k] == all_sections(objects@, k).len(),
        decreases objects.len() - i,
    {
        starts.push(next);
        match next.checked_add(objects[i].sections.len()) {
            Some(sum) => {
                next = sum;
            },
            None => {
                proof {
                    lemma_all_sections_grows(objects@, i + 1, objects@.len() as int);
                }
                return Err(LinkerError::Section(LayoutError::TooManySections));
            },
        }
        i += 1;
    }
    Ok(starts)
}

/// The sections of more objects are no fewer.
pub proof fn lemma_all_sections_grows(objects: Seq<ObjectFile>, m: int, n: int)
    requires
        m <= n,
    ensures
        all_sections(objects, m).len() <= all_sections(objects, n).len(),
    decreases n - m,
{
    if m < n {
        lemma_all_sections_grows(objects, m, n - 1);
    }
}

/// Adds symbol `n` of one object to the table and returns its slot.
fn collect_symbol(
    table: &mut SymbolTable,
    object: &ObjectFile,
    n: usize,
    index: usize,
    first: usize,
) -> (result: Result<usize, LinkerError>)
    requires
        old(table).wf(),
        n < object.symbols@.len(),
        first + object.sections@.len() <= usize::MAX,
    ensures
        final(table).wf(),
        match collected_symbol(
            old(table).entries(),
            old(table).names(),
            object.symbols@,
            n as int,
            index,
            first as int,
            object.sections@.len() as int,
        ) {
            Ok((entries, names, slot)) => result == Ok::<usize, LinkerError>(slot)
                && final(table).entries() == entries && final(table).names() == names,
            Err(failure) => result matches Err(e) && e@ == failure,
        },
{
    let symbol = &object.symbols[n];
    let section_index = match place(symbol.section_index, first, object.sections.len()) {
        Some(number) => number,
        None => {
            return Err(
                LinkerError::InvalidElf(InputError::SymbolSection { object: index, symbol: n }),
            );
        },
    };
    let entry = Symbol {
        name: symbol.name.clone(),
        value: symbol.value,
        size: symbol.size,
        section_index,
        binding: symbol.binding,
        typ: symbol.typ,
        visibility: symbol.visibility,
    };
    assert(placed(*symbol, first as int, object.sections@.len() as int) == Some(entry));
    match table.add_symbol(entry) {
        Ok(slot) => Ok(slot),
        Err(LinkerError::SymbolResolution(SymbolError::MultipleDefinition { name })) => Err(
            LinkerError::ObjectSymbol { object: index, symbol: n, name },
        ),
        Err(other) => Err(other),
    }
}

/// Adds the symbols of one object to the table and returns the slot of each.
fn collect_object(
    table: &mut SymbolTable,
    object: &ObjectFile,
    index: usize,
    first: usize,
) -> (result: Result<Vec<usize>, LinkerError>)
    requires
        old(table).wf(),
        first + object.sections@.len() <= usize::MAX,
    ensures
        final(table).wf(),
        match collected_symbols(
            old(table).entries(),
            old(table).names(),
            object.symbols@,
            object.symbols@.len() as int,
            index,
            first as int,
            object.sections@.len() as int,
        ) {
            Ok((entries, names, slots)) => {
                &&& result matches Ok(list)
                &&& list@ == slots
                &&& final(table).entries() == entries
                &&& final(table).names() == names
            },
            Err(failure) => result matches Err(e) && e@ == failure,
        },
{
    let ghost before = table.entries();
    let ghost known = table.names();
    let ghost symbols = object.symbols@;
    let ghost count = object.sections@.len() as int;
    let mut slots: Vec<usize> = Vec::new();
    let mut s: usize = 0;
    while s < object.symbols.len()
        invariant
            s <= object.symbols.len(),
            table.wf(),
            before == old(table).entries(),
            known == old(table).names(),
            symbols == object.symbols@,
            count == object.sections@.len(),
            first + count <= usize::MAX,
            collected_symbols(before, known, symbols, s as int, index, first as int, count) == Ok::<
                (Seq<Symbol>, Map<Seq<char>, usize>, Seq<usize>),
                Failure,
            >((table.entries(), table.names(), slots@)),
        decreases object.symbols.len() - s,
    {
        match collect_symbol(table, object, s, index, first) {
            Ok(slot) => {
                slots.push(slot);
            },
            Err(e) => {
                proof {
                    lemma_collected_symbols_fails(
                        before,
                        known,
                        symbols,
                        s + 1,
                        symbols.len() as int,
                        index,
                        first as int,
                        count,
                    );
                }
                return Err(e);
            },
        }
        s += 1;
    }
    Ok(slots)
}

/// Adds the symbols of every object, in order, to an empty table, and
/// returns for each object the slots that stand for its symbols. The first
/// symbol that names a missing section, or that is a second strong
/// definition, ends the pass.
pub(crate) fn collect(table: &mut SymbolTable, objects: &Vec<ObjectFile>, starts: &Vec<usize>) -> (result:
    Result<Vec<Vec<usize>>, LinkerError>)
    requires
        old(table).wf(),
        old(table).entries() == Seq::<Symbol>::empty(),
        old(table).names() == Map::<Seq<char>, usize>::empty(),
        all_sections(objects@, objects@.len() as int).len() <= usize::MAX,
        starts@.len() == objects@.len(),
        forall|i: int|
            0 <= i < starts@.len() ==> #[trigger] starts@[i] == all_sections(objects@, i).len(),
    ensures
        final(table).wf(),
        match collected(objects@, objects@.len() as int) {
            Ok((entries, names, slots)) => {
                &&& result matches Ok(lists)
                &&& lists@.len() == objects@.len()
                &&& slot_lists(lists@) == slots
                &&& final(table).entries() == entries
                &&& final(table).names() == names
            },
            Err(failure) => result matches Err(e) && e@ == failure,
        },
{
    let mut lists: Vec<Vec<usize>> = Vec::new();
    let mut i: usize = 0;
    assert(slot_lists(lists@) == Seq::<Seq<usize>>::empty());
    while i < objects.len()
        invariant
            i <= objects.len(),
            lists@.len() == i,
            table.wf(),
            all_sections(objects@, objects@.len() as int).len() <= usize::MAX,
            starts@.len() == objects@.len(),
            forall|k: int|
                0 <= k < starts@.len() ==> #[trigger] starts@[k] == all_sections(objects@, k).len(),
            collected(objects@, i as int) == Ok::<
                (Seq<Symbol>, Map<Seq<char>, usize>, Seq<Seq<usize>>),
                Failure,
            >((table.entries(), table.names(), slot_lists(lists@))),
        decreases objects.len() - i,
    {
        proof {
            lemma_all_sections_grows(objects@, i + 1, objects@.len() as int);
        }
        let ghost before = lists@;
        match collect_object(table, &objects[i], i, starts[i]) {
            Ok(list) => {
                lists.push(list);
                assert(slot_lists(lists@) == slot_lists(before).push(list@));
            },
            Err(e) => {
                proof {
                    lemma_collected_fails(objects@, i + 1, objects@.len() as int);
                }
                return Err(e);
            },
        }
        i += 1;
    }
    Ok(lists)
}

} // verus!
