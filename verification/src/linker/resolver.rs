//! A map from names to what they resolved to.
//!
//! The resolver records one resolution per name. A name that already has a
//! definition keeps it when a second definition arrives; in every other case
//! the newcomer takes the name.
//!
//! The symbol table decides which symbol a name stands for. A resolver made
//! from a table is a reading of it: each name of the table with the final
//! address of the entry it stands for.

use vstd::prelude::*;
use vstd::hash_map::StringHashMap;
use crate::error::LinkerError;
use crate::linker::image::{resolve_address, symbol_address};
use crate::linker::symbol::{names_entries, slot_of, Symbol, SymbolTable};

verus! {

/// What a name resolved to.
#[derive(Debug)]
pub struct SymbolResolution {
    pub symbol_name: String,
    pub section_index: usize,
    pub value: u64,
    pub size: u64,
    pub is_defined: bool,
}

impl Clone for SymbolResolution {
    fn clone(&self) -> (copy: Self)
        ensures
            copy == *self,
    {
        SymbolResolution {
            symbol_name: self.symbol_name.clone(),
            section_index: self.section_index,
            value: self.value,
            size: self.size,
            is_defined: self.is_defined,
        }
    }
}

/// Whether a resolution for a name that holds `existing` is dropped: a
/// definition does not give way to a second definition.
pub open spec fn keeps_existing(existing: Option<SymbolResolution>, incoming: SymbolResolution) -> bool {
    existing matches Some(e) && e.is_defined && incoming.is_defined
}

/// The resolutions after `incoming` was added under `name`.
pub open spec fn resolved_with(
    resolutions: Map<Seq<char>, SymbolResolution>,
    name: Seq<char>,
    incoming: SymbolResolution,
) -> Map<Seq<char>, SymbolResolution> {
    if resolutions.contains_key(name) && keeps_existing(Some(resolutions[name]), incoming) {
        resolutions
    } else {
        resolutions.insert(name, incoming)
    }
}

/// The names after one was added under `name`: a new name goes to the end.
pub open spec fn named_with(names: Seq<Seq<char>>, name: Seq<char>) -> Seq<Seq<char>> {
    if names.contains(name) {
        names
    } else {
        names.push(name)
    }
}

/// What the entry in `slot` of a table resolves to, given the address of
/// every section: the entry with its final address for a value.
pub open spec fn resolution_of(entries: Seq<Symbol>, addresses: Seq<u64>, slot: int) -> SymbolResolution {
    SymbolResolution {
        symbol_name: entries[slot].name,
        section_index: entries[slot].section_index,
        value: symbol_address(entries, addresses, slot),
        size: entries[slot].size,
        is_defined: entries[slot].defined(),
    }
}

/// What the names of a table resolve to: every name, with the resolution
/// of the slot it stands for.
pub open spec fn table_resolutions(
    entries: Seq<Symbol>,
    names: Map<Seq<char>, usize>,
    addresses: Seq<u64>,
) -> Map<Seq<char>, SymbolResolution> {
    Map::new(
        |name: Seq<char>| names.contains_key(name),
        |name: Seq<char>| resolution_of(entries, addresses, names[name] as int),
    )
}

/// Whether the name of the entry in `slot` stands for that slot.
pub open spec fn stands_for_its_name(entries: Seq<Symbol>, names: Map<Seq<char>, usize>, slot: int) -> bool {
    slot_of(names, entries[slot].name@) == Some(slot)
}

/// The names of those of the first `n` entries that their names stand for,
/// in the order of their slots.
pub open spec fn table_names(entries: Seq<Symbol>, names: Map<Seq<char>, usize>, n: int) -> Seq<
    Seq<char>,
>
    decreases n,
{
    if n <= 0 {
        Seq::empty()
    } else if stands_for_its_name(entries, names, n - 1) {
        table_names(entries, names, n - 1).push(entries[n - 1].name@)
    } else {
        table_names(entries, names, n - 1)
    }
}

/// Whether `resolutions` reads the first `n` slots of a table: it knows the
/// names that stand for one of those slots, each with the resolution of its
/// slot.
pub open spec fn reads_slots(
    resolutions: Map<Seq<char>, SymbolResolution>,
    entries: Seq<Symbol>,
    names: Map<Seq<char>, usize>,
    addresses: Seq<u64>,
    n: int,
) -> bool {
    &&& forall|name: Seq<char>| #[trigger]
        resolutions.contains_key(name) <==> names.contains_key(name) && names[name] < n
    &&& forall|name: Seq<char>|
        names.contains_key(name) && names[name] < n ==> #[trigger] resolutions[name]
            == resolution_of(entries, addresses, names[name] as int)
}

/// Reading one slot more: where the name of the slot stands for it, the
/// name is entered with the resolution of the slot, and otherwise nothing
/// changes.
pub proof fn lemma_reads_next_slot(
    before: Map<Seq<char>, SymbolResolution>,
    entries: Seq<Symbol>,
    names: Map<Seq<char>, usize>,
    addresses: Seq<u64>,
    n: int,
)
    requires
        0 <= n < entries.len(),
        names_entries(names, entries),
        reads_slots(before, entries, names, addresses, n),
    ensures
        !before.contains_key(entries[n].name@) || !stands_for_its_name(entries, names, n),
        reads_slots(
            if stands_for_its_name(entries, names, n) {
                before.insert(entries[n].name@, resolution_of(entries, addresses, n))
            } else {
                before
            },
            entries,
            names,
            addresses,
            n + 1,
        ),
{
    let name = entries[n].name@;
    let stands = stands_for_its_name(entries, names, n);
    let after = if stands {
        before.insert(name, resolution_of(entries, addresses, n))
    } else {
        before
    };
    assert forall|other: Seq<char>| #[trigger]
        after.contains_key(other) <==> names.contains_key(other) && names[other] < n + 1 by {
        if names.contains_key(other) && names[other] == n {
            assert(entries[names[other] as int].name@ == other);
        }
    }
    assert forall|other: Seq<char>|
        names.contains_key(other) && names[other] < n + 1 implies #[trigger] after[other]
        == resolution_of(entries, addresses, names[other] as int) by {
        if names[other] == n {
            assert(entries[names[other] as int].name@ == other);
        }
    }
}

/// A reading of every slot of a table is what the names of the table
/// resolve to.
pub proof fn lemma_reads_all_slots(
    resolutions: Map<Seq<char>, SymbolResolution>,
    entries: Seq<Symbol>,
    names: Map<Seq<char>, usize>,
    addresses: Seq<u64>,
)
    requires
        names_entries(names, entries),
        reads_slots(resolutions, entries, names, addresses, entries.len() as int),
    ensures
        resolutions == table_resolutions(entries, names, addresses),
{
    assert(resolutions =~= table_resolutions(entries, names, addresses));
}

/// A map from names to resolutions that remembers the order in which the
/// names arrived.
pub struct SymbolResolver {
    names: Vec<String>,
    symbol_map: StringHashMap<SymbolResolution>,
}

impl SymbolResolver {
    /// The resolution of each name.
    pub closed spec fn resolutions(&self) -> Map<Seq<char>, SymbolResolution> {
        self.symbol_map@
    }

    /// The names, in the order in which each was first added.
    pub closed spec fn names(&self) -> Seq<Seq<char>> {
        self.names@.map_values(|name: String| name@)
    }

    /// Whether the names are those that have a resolution, each once.
    pub open spec fn wf(&self) -> bool {
        &&& self.names().no_duplicates()
        &&& forall|name: Seq<char>|
            self.names().contains(name) <==> #[trigger] self.resolutions().contains_key(name)
    }

    /// A resolver without names.
    pub fn new() -> (resolver: Self)
        ensures
            resolver.wf(),
            resolver.resolutions() == Map::<Seq<char>, SymbolResolution>::empty(),
            resolver.names() == Seq::<Seq<char>>::empty(),
    {
        Self { names: Vec::new(), symbol_map: StringHashMap::new() }
    }

    /// Reads the table: a resolver that knows every name of the table, in
    /// the order of the slots they stand for, each with the final address of
    /// its entry.
    pub fn from_table(table: &SymbolTable, addresses: &Vec<u64>) -> (resolver: Self)
        requires
            table.wf(),
        ensures
            resolver.wf(),
            resolver.resolutions() == table_resolutions(
                table.entries(),
                table.names(),
                addresses@,
            ),
            resolver.names() == table_names(
                table.entries(),
                table.names(),
                table.entries().len() as int,
            ),
    {
        let ghost entries = table.entries();
        let ghost names = table.names();
        let mut resolver = Self::new();
        let mut i: usize = 0;
        proof {
            table.lemma_wf();
        }
        while i < table.len()
            invariant
                i <= entries.len(),
                entries == table.entries(),
                names == table.names(),
                names_entries(names, entries),
                table.wf(),
                resolver.wf(),
                resolver.names() == table_names(entries, names, i as int),
                reads_slots(resolver.resolutions(), entries, names, addresses@, i as int),
            decreases entries.len() - i,
        {
            proof {
                lemma_reads_next_slot(resolver.resolutions(), entries, names, addresses@, i as int);
            }
            match table.get_symbol_by_index(i) {
                Some(symbol) => {
                    let stands = match table.find_slot(symbol.name.as_str()) {
                        Some(slot) => slot == i,
                        None => false,
                    };
                    if stands {
                        let resolution = SymbolResolution {
                            symbol_name: symbol.name.clone(),
                            section_index: symbol.section_index,
                            value: resolve_address(table, addresses, i),
                            size: symbol.size,
                            is_defined: symbol.is_defined(),
                        };
                        assert(!resolver.names().contains(symbol.name@));
                        let _ = resolver.add_symbol(symbol.name.clone(), resolution);
                    }
                },
                None => {
                    assert(false);
                },
            }
            i += 1;
        }
        proof {
            lemma_reads_all_slots(resolver.resolutions(), entries, names, addresses@);
        }
        resolver
    }

    /// Records `resolution` under `name`, unless the name already has a
    /// definition and `resolution` is a definition too: then the first stays.
    /// Never fails.
    pub fn add_symbol(&mut self, name: String, resolution: SymbolResolution) -> (result: Result<
        (),
        LinkerError,
    >)
        requires
            old(self).wf(),
        ensures
            result is Ok,
            final(self).wf(),
            final(self).resolutions() == resolved_with(old(self).resolutions(), name@, resolution),
            final(self).names() == named_with(old(self).names(), name@),
    {
        let ghost before = self.names();
        match self.symbol_map.get(name.as_str()) {
            Some(existing) => {
                if !(existing.is_defined && resolution.is_defined) {
                    self.symbol_map.insert(name, resolution);
                }
                assert forall|n: Seq<char>|
                    self.names().contains(n) <==> #[trigger] self.resolutions().contains_key(
                        n,
                    ) by {
                    assert(old(self).resolutions().contains_key(n) <==> before.contains(n));
                }
            },
            None => {
                self.names.push(name.clone());
                self.symbol_map.insert(name, resolution);
                assert(self.names() == before.push(name@));
                assert(!before.contains(name@)) by {
                    assert(!old(self).resolutions().contains_key(name@));
                }
                assert forall|n: Seq<char>|
                    self.names().contains(n) <==> #[trigger] self.resolutions().contains_key(
                        n,
                    ) by {
                    assert(old(self).resolutions().contains_key(n) <==> before.contains(n));
                    if self.names().contains(n) {
                        let i = choose|i: int| 0 <= i < self.names().len() && self.names()[i] == n;
                        if i < before.len() {
                            assert(before[i] == n);
                        }
                    }
                    if n == name@ {
                        assert(self.names()[before.len() as int] == n);
                    } else if before.contains(n) {
                        let i = choose|i: int| 0 <= i < before.len() && before[i] == n;
                        assert(self.names()[i] == n);
                    }
                }
            },
        }
        Ok(())
    }

    /// The resolution recorded under `name`, if there is one.
    pub fn resolve_symbol(&self, name: &str) -> (found: Option<&SymbolResolution>)
        ensures
            match found {
                Some(resolution) => self.resolutions().contains_key(name@)
                    && *resolution == self.resolutions()[name@],
                None => !self.resolutions().contains_key(name@),
            },
    {
        self.symbol_map.get(name)
    }

    /// Every name with its resolution, in the order in which the names were
    /// first added.
    pub fn get_all_symbols(&self) -> (all: Vec<(&String, &SymbolResolution)>)
        requires
            self.wf(),
        ensures
            all@.len() == self.names().len(),
            forall|i: int|
                0 <= i < all@.len() ==> {
                    &&& (#[trigger] all@[i]).0@ == self.names()[i]
                    &&& *all@[i].1 == self.resolutions()[self.names()[i]]
                },
    {
        let mut all: Vec<(&String, &SymbolResolution)> = Vec::new();
        let mut i: usize = 0;
        while i < self.names.len()
            invariant
                i <= self.names.len(),
                self.wf(),
                all@.len() == i,
                forall|k: int|
                    0 <= k < i ==> {
                        &&& (#[trigger] all@[k]).0@ == self.names()[k]
                        &&& *all@[k].1 == self.resolutions()[self.names()[k]]
                    },
            decreases self.names.len() - i,
        {
            let name = &self.names[i];
            assert(self.names()[i as int] == name@);
            assert(self.names().contains(name@));
            assert(self.resolutions().contains_key(name@));
            match self.symbol_map.get(name.as_str()) {
                Some(resolution) => {
                    all.push((name, resolution));
                },
                None => {
                    assert(false);
                },
            }
            i += 1;
        }
        all
    }
}

} // verus!
