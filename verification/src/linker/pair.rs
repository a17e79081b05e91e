//! Links of two objects that meet in one global symbol: one defines it and
//! the other refers to it in an absolute relocation, or both define it.

use vstd::prelude::*;
use vstd::bytes::*;
use crate::error::Failure;
use crate::linker::image::{
    record_overlaps_earlier,
    record_patched,
    relocated,
    relocated_object,
    relocated_record,
    section_bytes,
    symbol_address,
};
use crate::linker::layout::{image_len, layout_fits};
use crate::linker::object::{
    all_sections,
    collected,
    collected_symbol,
    collected_symbols,
    placed,
    ObjectFile,
};
use crate::linker::relocation::{abs64_patched, patched, target_address, R_AARCH64_ABS64};
use crate::linker::symbol::{
    holds_shared,
    merge,
    merged,
    renamed,
    shared_slot_of,
    undefined_globals,
    Merge,
    Symbol,
    SymbolBinding,
};
use crate::linker::{
    addresses_of,
    field_place,
    lemma_relocation_is_in_the_image,
    linked,
    Linked,
};

verus! {

/// Whether `definer` holds nothing but the definition of one global symbol
/// in one of its sections, and `referrer` nothing but a reference to a
/// global symbol of that name and one absolute relocation of that
/// reference, with its field inside its section.
pub open spec fn defines_for(definer: ObjectFile, referrer: ObjectFile) -> bool {
    let record = referrer.relocations@[0];
    &&& definer.symbols@.len() == 1
    &&& definer.relocations@.len() == 0
    &&& definer.symbols@[0].binding == SymbolBinding::Global
    &&& 0 < definer.symbols@[0].section_index < definer.sections@.len()
    &&& referrer.symbols@.len() == 1
    &&& referrer.symbols@[0].undefined_global()
    &&& referrer.symbols@[0].name@ == definer.symbols@[0].name@
    &&& referrer.relocations@.len() == 1
    &&& record.relocation.typ == R_AARCH64_ABS64
    &&& record.relocation.symbol_index == 0
    &&& record.section < referrer.sections@.len()
    &&& record.relocation.offset + 8 <= referrer.sections@[record.section as int].data@.len()
}

/// The address at which the one symbol of object `d` is loaded: the address
/// of its section plus its value, modulo 2^64.
pub open spec fn definition_address(objects: Seq<ObjectFile>, base: u64, d: int) -> u64 {
    let symbol = objects[d].symbols@[0];
    let addresses = addresses_of(all_sections(objects, objects.len() as int), base as int);
    let sum = addresses[all_sections(objects, d).len() + symbol.section_index] + symbol.value;
    if sum > u64::MAX {
        (sum - 0x1_0000_0000_0000_0000) as u64
    } else {
        sum as u64
    }
}

/// The sections of two objects are those of the first, then those of the
/// second.
proof fn lemma_sections_of_two(objects: Seq<ObjectFile>)
    requires
        objects.len() == 2,
    ensures
        all_sections(objects, 0) == Seq::<crate::elf::Section>::empty(),
        all_sections(objects, 1) == objects[0].sections@,
        all_sections(objects, 2) == objects[0].sections@ + objects[1].sections@,
{
    assert(all_sections(objects, 1) == all_sections(objects, 0) + objects[0].sections@);
    assert(Seq::<crate::elf::Section>::empty() + objects[0].sections@ == objects[0].sections@);
    assert(all_sections(objects, 2) == all_sections(objects, 1) + objects[1].sections@);
}

/// The one global symbol of the first object takes slot 0 of the table.
proof fn lemma_first_is_collected(objects: Seq<ObjectFile>)
    requires
        objects.len() == 2,
        objects[0].symbols@.len() == 1,
        objects[0].symbols@[0].binding == SymbolBinding::Global,
        objects[0].symbols@[0].section_index < objects[0].sections@.len(),
    ensures
        ({
            let first = placed(objects[0].symbols@[0], 0, objects[0].sections@.len() as int);
            &&& first matches Some(symbol)
            &&& symbol.name@ == objects[0].symbols@[0].name@
            &&& symbol.binding == SymbolBinding::Global
            &&& symbol.defined() == objects[0].symbols@[0].defined()
            &&& collected(objects, 1) == Ok::<
                (Seq<Symbol>, Map<Seq<char>, usize>, Seq<Seq<usize>>),
                Failure,
            >(
                (
                    seq![symbol],
                    renamed(Seq::<Symbol>::empty(), Map::<Seq<char>, usize>::empty(), symbol),
                    seq![seq![0usize]],
                ),
            )
        }),
{
    lemma_sections_of_two(objects);
    let none = Seq::<Symbol>::empty();
    let unnamed = Map::<Seq<char>, usize>::empty();
    let count0 = objects[0].sections@.len() as int;
    let symbols0 = objects[0].symbols@;
    let name = symbols0[0].name@;
    let first = placed(symbols0[0], 0, count0)->Some_0;
    assert(placed(symbols0[0], 0, count0) is Some);
    assert(shared_slot_of(none, name) is None);
    assert(merge(none, unnamed, first) == Merge::Append);
    let one = seq![first];
    assert(merged(none, unnamed, first) =~= one);
    let known = renamed(none, unnamed, first);
    assert(collected_symbols(none, unnamed, symbols0, 0, 0usize, 0, count0) == Ok::<
        (Seq<Symbol>, Map<Seq<char>, usize>, Seq<usize>),
        Failure,
    >((none, unnamed, Seq::<usize>::empty())));
    assert(collected_symbol(none, unnamed, symbols0, 0, 0usize, 0, count0) == Ok::<
        (Seq<Symbol>, Map<Seq<char>, usize>, usize),
        Failure,
    >((one, known, 0usize)));
    assert(Seq::<usize>::empty().push(0usize) =~= seq![0usize]);
    assert(collected_symbols(none, unnamed, symbols0, 1, 0usize, 0, count0) == Ok::<
        (Seq<Symbol>, Map<Seq<char>, usize>, Seq<usize>),
        Failure,
    >((one, known, seq![0usize])));
    assert(collected(objects, 0) == Ok::<
        (Seq<Symbol>, Map<Seq<char>, usize>, Seq<Seq<usize>>),
        Failure,
    >((none, unnamed, Seq::<Seq<usize>>::empty())));
    assert(Seq::<Seq<usize>>::empty().push(seq![0usize]) =~= seq![seq![0usize]]);
}

/// The table of the two objects holds the definition, in slot 0, and that
/// slot stands for the symbol of either object.
proof fn lemma_pair_is_collected(objects: Seq<ObjectFile>, d: int)
    requires
        objects.len() == 2,
        d == 0 || d == 1,
        defines_for(objects[d], objects[1 - d]),
        all_sections(objects, 2).len() <= usize::MAX,
    ensures
        collected(objects, 2) matches Ok((entries, names, slots)) && {
            &&& entries.len() == 1
            &&& entries[0] == placed(
                objects[d].symbols@[0],
                all_sections(objects, d).len() as int,
                objects[d].sections@.len() as int,
            )->Some_0
            &&& slots == seq![seq![0usize], seq![0usize]]
        },
{
    lemma_sections_of_two(objects);
    lemma_first_is_collected(objects);
    let count0 = objects[0].sections@.len() as int;
    let count1 = objects[1].sections@.len() as int;
    let symbols1 = objects[1].symbols@;
    let name = objects[0].symbols@[0].name@;
    let first = placed(objects[0].symbols@[0], 0, count0)->Some_0;
    let one = seq![first];
    let known = renamed(Seq::<Symbol>::empty(), Map::<Seq<char>, usize>::empty(), first);
    // the second object meets the entry of the first
    let second = placed(symbols1[0], count0, count1)->Some_0;
    assert(placed(symbols1[0], count0, count1) is Some);
    assert(second.binding == SymbolBinding::Global && second.name@ == name);
    assert(holds_shared(one, 0, name));
    let met = shared_slot_of(one, name)->Some_0;
    assert(holds_shared(one, met, name));
    assert(met == 0);
    let both = merged(one, known, second);
    let renamed_both = renamed(one, known, second);
    if d == 0 {
        assert(first.defined() && !second.defined());
        assert(merge(one, known, second) == Merge::Keep(0));
        assert(both == one);
    } else {
        assert(!first.defined() && second.defined());
        assert(merge(one, known, second) == Merge::Replace(0));
        assert(both =~= seq![second]);
    }
    assert(collected_symbols(one, known, symbols1, 0, 1usize, count0, count1) == Ok::<
        (Seq<Symbol>, Map<Seq<char>, usize>, Seq<usize>),
        Failure,
    >((one, known, Seq::<usize>::empty())));
    assert(collected_symbol(one, known, symbols1, 0, 1usize, count0, count1) == Ok::<
        (Seq<Symbol>, Map<Seq<char>, usize>, usize),
        Failure,
    >((both, renamed_both, 0usize)));
    assert(collected_symbols(one, known, symbols1, 1, 1usize, count0, count1) == Ok::<
        (Seq<Symbol>, Map<Seq<char>, usize>, Seq<usize>),
        Failure,
    >((both, renamed_both, seq![0usize])));
    assert(seq![seq![0usize]].push(seq![0usize]) =~= seq![seq![0usize], seq![0usize]]);
    assert(collected(objects, 2) == Ok::<
        (Seq<Symbol>, Map<Seq<char>, usize>, Seq<Seq<usize>>),
        Failure,
    >((both, renamed_both, seq![seq![0usize], seq![0usize]])));
}

/// Two objects that each hold nothing but the definition of one global
/// symbol, of the same name, do not link: the symbol of the second is
/// refused as a second strong definition, and the failure names it.
pub proof fn lemma_pair_of_definitions_is_refused(objects: Seq<ObjectFile>, base: u64)
    requires
        objects.len() == 2,
        all_sections(objects, 2).len() <= usize::MAX,
        objects[0].symbols@.len() == 1,
        objects[1].symbols@.len() == 1,
        objects[0].symbols@[0].binding == SymbolBinding::Global,
        objects[1].symbols@[0].binding == SymbolBinding::Global,
        0 < objects[0].symbols@[0].section_index < objects[0].sections@.len(),
        0 < objects[1].symbols@[0].section_index < objects[1].sections@.len(),
        objects[0].symbols@[0].name@ == objects[1].symbols@[0].name@,
    ensures
        linked(objects, base) == Err::<Linked, Failure>(
            Failure::ObjectSymbol {
                object: 1,
                symbol: 0,
                name: objects[1].symbols@[0].name@,
            },
        ),
{
    lemma_sections_of_two(objects);
    lemma_first_is_collected(objects);
    let count0 = objects[0].sections@.len() as int;
    let count1 = objects[1].sections@.len() as int;
    let symbols1 = objects[1].symbols@;
    let name = objects[0].symbols@[0].name@;
    let first = placed(objects[0].symbols@[0], 0, count0)->Some_0;
    let one = seq![first];
    let known = renamed(Seq::<Symbol>::empty(), Map::<Seq<char>, usize>::empty(), first);
    let second = placed(symbols1[0], count0, count1)->Some_0;
    assert(placed(symbols1[0], count0, count1) is Some);
    assert(holds_shared(one, 0, name));
    let met = shared_slot_of(one, name)->Some_0;
    assert(holds_shared(one, met, name));
    assert(first.defined() && second.defined());
    assert(merge(one, known, second) == Merge::Conflict(0));
    let failure = Failure::ObjectSymbol { object: 1, symbol: 0, name: second.name@ };
    assert(collected_symbols(one, known, symbols1, 0, 1usize, count0, count1) == Ok::<
        (Seq<Symbol>, Map<Seq<char>, usize>, Seq<usize>),
        Failure,
    >((one, known, Seq::<usize>::empty())));
    assert(collected_symbol(one, known, symbols1, 0, 1usize, count0, count1) == Err::<
        (Seq<Symbol>, Map<Seq<char>, usize>, usize),
        Failure,
    >(failure));
    assert(collected_symbols(one, known, symbols1, 1, 1usize, count0, count1) == Err::<
        (Seq<Symbol>, Map<Seq<char>, usize>, Seq<usize>),
        Failure,
    >(failure));
    assert(collected(objects, 2) == Err::<
        (Seq<Symbol>, Map<Seq<char>, usize>, Seq<Seq<usize>>),
        Failure,
    >(failure));
}

/// The one relocation of the two objects is applied without failure.
proof fn lemma_pair_is_relocated(
    objects: Seq<ObjectFile>,
    d: int,
    entries: Seq<Symbol>,
    addresses: Seq<u64>,
)
    requires
        objects.len() == 2,
        d == 0 || d == 1,
        defines_for(objects[d], objects[1 - d]),
    ensures
        relocated(objects, 2, seq![seq![0usize], seq![0usize]], entries, addresses) is Ok,
{
    lemma_sections_of_two(objects);
    let slots = seq![seq![0usize], seq![0usize]];
    let r = 1 - d;
    let referrer = objects[r];
    let record = referrer.relocations@[0];
    let start = section_bytes(all_sections(objects, 2));
    let first = all_sections(objects, r).len() as int;
    assert(start[first + record.section] == referrer.sections@[record.section as int].data@);
    assert(relocated(objects, 0, slots, entries, addresses) == Ok::<Seq<Seq<u8>>, Failure>(start));
    let address = symbol_address(entries, addresses, 0);
    assert forall|bytes: Seq<Seq<u8>>| #[trigger]
        bytes[first + record.section].len() == start[first + record.section].len()
        implies relocated_object(
        bytes,
        referrer,
        1,
        r as usize,
        first,
        slots[r],
        entries,
        addresses,
    ) is Ok by {
        let data = bytes[first + record.section];
        assert(!record_overlaps_earlier(referrer.relocations@, 0));
        assert(abs64_patched(record.relocation, address, data) is Ok);
        assert(patched(record.relocation, address, data) is Ok);
        assert(record_patched(referrer.relocations@, 0, slots[r], entries, addresses, data) is Ok);
        assert(relocated_object(bytes, referrer, 0, r as usize, first, slots[r], entries, addresses)
            == Ok::<Seq<Seq<u8>>, Failure>(bytes));
        assert(relocated_record(bytes, referrer, 0, r as usize, first, slots[r], entries, addresses)
            is Ok);
    }
    if d == 0 {
        assert(relocated_object(start, objects[0], 0, 0usize, 0, slots[0], entries, addresses)
            == Ok::<Seq<Seq<u8>>, Failure>(start));
        assert(relocated(objects, 1, slots, entries, addresses) == Ok::<Seq<Seq<u8>>, Failure>(
            start,
        ));
        assert(start[first + record.section].len() == start[first + record.section].len());
    } else {
        assert(start[first + record.section].len() == start[first + record.section].len());
        let then = relocated(objects, 1, slots, entries, addresses)->Ok_0;
        assert(relocated(objects, 1, slots, entries, addresses) is Ok);
        assert(relocated_object(
            then,
            objects[1],
            0,
            1usize,
            all_sections(objects, 1).len() as int,
            slots[1],
            entries,
            addresses,
        ) == Ok::<Seq<Seq<u8>>, Failure>(then));
    }
}

/// Two objects, of which one defines a global symbol and the other refers
/// to it in an absolute relocation, link in either order wherever the
/// address space has room for their sections, and the eight bytes of the
/// field then hold, in little-endian order, the address at which the symbol
/// is loaded plus the addend: with no addend, the address itself.
pub proof fn lemma_reference_is_patched_with_the_definition(
    objects: Seq<ObjectFile>,
    base: u64,
    d: int,
)
    requires
        objects.len() == 2,
        d == 0 || d == 1,
        defines_for(objects[d], objects[1 - d]),
        all_sections(objects, 2).len() <= usize::MAX,
        layout_fits(all_sections(objects, 2), base as int),
        image_len(all_sections(objects, 2), base as int) <= usize::MAX,
    ensures
        linked(objects, base) matches Ok(linked) && {
            let reloc = objects[1 - d].relocations@[0].relocation;
            let at = field_place(objects, linked, 1 - d, 0);
            let address = definition_address(objects, base, d);
            &&& 0 <= at
            &&& at + 8 <= linked.image.len()
            &&& linked.image.subrange(at, at + 8) == spec_u64_to_le_bytes(
                target_address(address, reloc.addend),
            )
            &&& reloc.addend == 0 ==> linked.image.subrange(at, at + 8) == spec_u64_to_le_bytes(
                address,
            )
        },
{
    lemma_sections_of_two(objects);
    lemma_pair_is_collected(objects, d);
    let sections = all_sections(objects, 2);
    let entries = collected(objects, 2)->Ok_0.0;
    let addresses = addresses_of(sections, base as int);
    lemma_pair_is_relocated(objects, d, entries, addresses);
    assert(undefined_globals(entries) == Seq::<Seq<char>>::empty()) by {
        assert(entries.drop_last() == Seq::<Symbol>::empty());
        assert(undefined_globals(entries.drop_last()) == Seq::<Seq<char>>::empty());
        assert(entries.last().defined());
    }
    assert(linked(objects, base) is Ok);
    lemma_relocation_is_in_the_image(objects, base, 1 - d, 0);
    let l = linked(objects, base)->Ok_0;
    let at = field_place(objects, l, 1 - d, 0);
    let field = l.image.subrange(at, at + 8);
    lemma_auto_spec_u64_to_from_le_bytes();
    assert(field.len() == 8);
    assert(spec_u64_to_le_bytes(spec_u64_from_le_bytes(field)) == field);
    assert(symbol_address(entries, addresses, 0) == definition_address(objects, base, d));
}

} // verus!
