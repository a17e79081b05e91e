//! The second pass: patching the sections and assembling the image.
//!
//! Once the table is complete and every section has its address, each
//! relocation is applied to a copy of the bytes of its section, with the
//! final address of its symbol. No two relocations of a section may patch
//! the same byte. The patched sections are then written into
//! an image of zeros, each at its address.

use vstd::prelude::*;
use crate::elf::section::Section;
use crate::error::{Failure, InputError, LinkerError, RelocationError};
use crate::linker::layout::contents;
use crate::linker::object::{
    all_sections,
    lemma_all_sections_grows,
    slot_lists,
    ObjectFile,
    SectionRelocation,
    ABSOLUTE,
};
use crate::linker::relocation::{
    field_width,
    fields_meet,
    fields_overlap,
    lemma_patched_keeps_the_rest,
    overwrite,
    patched,
    store,
    RelocationProcessor,
};
use crate::linker::symbol::{Symbol, SymbolTable};

verus! {

/// The final address of `symbol`, given the address of every section: for
/// an absolute symbol its value, and otherwise the address of its section
/// plus its value, modulo 2^64. A symbol without a definition, and one in a
/// section that does not exist, resolve to zero.
pub open spec fn entry_address(symbol: Symbol, addresses: Seq<u64>) -> u64 {
    if symbol.section_index == ABSOLUTE {
        symbol.value
    } else if 0 < symbol.section_index < addresses.len() {
        let sum = addresses[symbol.section_index as int] + symbol.value;
        if sum > u64::MAX {
            (sum - 0x1_0000_0000_0000_0000) as u64
        } else {
            sum as u64
        }
    } else {
        0
    }
}

/// The final address of the symbol in `slot`; zero for a slot that does not
/// exist.
pub open spec fn symbol_address(entries: Seq<Symbol>, addresses: Seq<u64>, slot: int) -> u64 {
    if 0 <= slot < entries.len() {
        entry_address(entries[slot], addresses)
    } else {
        0
    }
}

/// The bytes of each of `sections`.
pub open spec fn section_bytes(sections: Seq<Section>) -> Seq<Seq<u8>> {
    sections.map_values(|section: Section| section.data@)
}

/// The byte sequences that `lists` holds.
pub open spec fn byte_lists(lists: Seq<Vec<u8>>) -> Seq<Seq<u8>> {
    lists.map_values(|list: Vec<u8>| list@)
}

/// Whether the field of record `n` shares a byte with that of an earlier
/// record of the same section.
pub open spec fn record_overlaps_earlier(records: Seq<SectionRelocation>, n: int) -> bool {
    exists|k: int|
        0 <= k < n && (#[trigger] records[k]).section == records[n].section && fields_overlap(
            records[k].relocation,
            records[n].relocation,
        )
}

/// What record `n` makes of `data`, the bytes of its section: its symbol
/// must be one of the object's, its field may not share a byte with that of
/// an earlier record of the section, and then it is patched with the final
/// address of the symbol.
pub open spec fn record_patched(
    records: Seq<SectionRelocation>,
    n: int,
    slots: Seq<usize>,
    entries: Seq<Symbol>,
    addresses: Seq<u64>,
    data: Seq<u8>,
) -> Result<Seq<u8>, RelocationError> {
    let reloc = records[n].relocation;
    if reloc.symbol_index >= slots.len() {
        Err(RelocationError::SymbolNotFound { offset: reloc.offset })
    } else if record_overlaps_earlier(records, n) {
        Err(RelocationError::Overlap { offset: reloc.offset })
    } else {
        patched(
            reloc,
            symbol_address(entries, addresses, slots[reloc.symbol_index as int] as int),
            data,
        )
    }
}

/// What relocation `n` of `object` makes of `bytes`, the bytes of all
/// sections; or its failure, which names the object, the section and the
/// relocation.
pub open spec fn relocated_record(
    bytes: Seq<Seq<u8>>,
    object: ObjectFile,
    n: int,
    index: usize,
    first: int,
    slots: Seq<usize>,
    entries: Seq<Symbol>,
    addresses: Seq<u64>,
) -> Result<Seq<Seq<u8>>, Failure> {
    let record = object.relocations@[n];
    if record.section >= object.sections@.len() {
        Err(Failure::Input(InputError::RelocationSection { object: index, relocation: n as usize }))
    } else {
        match record_patched(
            object.relocations@,
            n,
            slots,
            entries,
            addresses,
            bytes[first + record.section],
        ) {
            Ok(data) => Ok(bytes.update(first + record.section, data)),
            Err(error) => Err(
                Failure::ObjectRelocation {
                    object: index,
                    section: record.section,
                    relocation: n as usize,
                    error,
                },
            ),
        }
    }
}

/// What the first `n` relocations of `object` make of `bytes`, the bytes of
/// all sections; or the first failure. The sections of the object are
/// numbered from `first` on, and `slots` holds the table slot of each of its
/// symbols.
pub open spec fn relocated_object(
    bytes: Seq<Seq<u8>>,
    object: ObjectFile,
    n: int,
    index: usize,
    first: int,
    slots: Seq<usize>,
    entries: Seq<Symbol>,
    addresses: Seq<u64>,
) -> Result<Seq<Seq<u8>>, Failure>
    decreases n,
{
    if n <= 0 {
        Ok(bytes)
    } else {
        match relocated_object(bytes, object, n - 1, index, first, slots, entries, addresses) {
            Err(failure) => Err(failure),
            Ok(before) => relocated_record(
                before,
                object,
                n - 1,
                index,
                first,
                slots,
                entries,
                addresses,
            ),
        }
    }
}

/// What the relocations of the first `n` objects make of the bytes of all
/// sections; or the first failure.
pub open spec fn relocated(
    objects: Seq<ObjectFile>,
    n: int,
    slots: Seq<Seq<usize>>,
    entries: Seq<Symbol>,
    addresses: Seq<u64>,
) -> Result<Seq<Seq<u8>>, Failure>
    decreases n,
{
    if n <= 0 {
        Ok(section_bytes(all_sections(objects, objects.len() as int)))
    } else {
        match relocated(objects, n - 1, slots, entries, addresses) {
            Err(failure) => Err(failure),
            Ok(before) => relocated_object(
                before,
                objects[n - 1],
                objects[n - 1].relocations@.len() as int,
                (n - 1) as usize,
                all_sections(objects, n - 1).len() as int,
                slots[n - 1],
                entries,
                addresses,
            ),
        }
    }
}

/// `len` zero bytes.
pub open spec fn zeros(len: int) -> Seq<u8> {
    Seq::new(len as nat, |i: int| 0u8)
}

/// An image of `len` zero bytes that begins at address `origin`, with the
/// first `n` of the sections written into it, each at its address.
pub open spec fn assembled(
    bytes: Seq<Seq<u8>>,
    addresses: Seq<u64>,
    origin: int,
    len: int,
    n: int,
) -> Seq<u8>
    decreases n,
{
    if n <= 0 {
        zeros(len)
    } else {
        overwrite(
            assembled(bytes, addresses, origin, len, n - 1),
            addresses[n - 1] - origin,
            bytes[n - 1],
        )
    }
}

/// A failure among the first relocations is the failure of all of them.
pub proof fn lemma_relocated_object_fails(
    bytes: Seq<Seq<u8>>,
    object: ObjectFile,
    m: int,
    n: int,
    index: usize,
    first: int,
    slots: Seq<usize>,
    entries: Seq<Symbol>,
    addresses: Seq<u64>,
)
    requires
        m <= n,
        relocated_object(bytes, object, m, index, first, slots, entries, addresses) is Err,
    ensures
        relocated_object(bytes, object, n, index, first, slots, entries, addresses)
            == relocated_object(bytes, object, m, index, first, slots, entries, addresses),
    decreases n - m,
{
    if m < n {
        lemma_relocated_object_fails(bytes, object, m, n - 1, index, first, slots, entries, addresses);
    }
}

/// A failure among the first objects is the failure of all of them.
pub proof fn lemma_relocated_fails(
    objects: Seq<ObjectFile>,
    m: int,
    n: int,
    slots: Seq<Seq<usize>>,
    entries: Seq<Symbol>,
    addresses: Seq<u64>,
)
    requires
        m <= n,
        relocated(objects, m, slots, entries, addresses) is Err,
    ensures
        relocated(objects, n, slots, entries, addresses) == relocated(
            objects,
            m,
            slots,
            entries,
            addresses,
        ),
    decreases n - m,
{
    if m < n {
        lemma_relocated_fails(objects, m, n - 1, slots, entries, addresses);
    }
}

/// Two relocations of one object that patch the same byte of the same
/// section never both apply: the relocations of the object fail.
pub proof fn lemma_overlap_fails_the_object(
    bytes: Seq<Seq<u8>>,
    object: ObjectFile,
    k: int,
    n: int,
    index: usize,
    first: int,
    slots: Seq<usize>,
    entries: Seq<Symbol>,
    addresses: Seq<u64>,
)
    requires
        0 <= k < n < object.relocations@.len(),
        object.relocations@[k].section == object.relocations@[n].section,
        fields_overlap(object.relocations@[k].relocation, object.relocations@[n].relocation),
    ensures
        relocated_object(
            bytes,
            object,
            object.relocations@.len() as int,
            index,
            first,
            slots,
            entries,
            addresses,
        ) is Err,
{
    let len = object.relocations@.len() as int;
    if relocated_object(bytes, object, n, index, first, slots, entries, addresses) is Err {
        lemma_relocated_object_fails(bytes, object, n, len, index, first, slots, entries, addresses);
    } else {
        assert(record_overlaps_earlier(object.relocations@, n));
        assert(relocated_object(bytes, object, n + 1, index, first, slots, entries, addresses)
            is Err);
        lemma_relocated_object_fails(
            bytes,
            object,
            n + 1,
            len,
            index,
            first,
            slots,
            entries,
            addresses,
        );
    }
}

/// Relocations that succeeded had succeeded after each of them.
pub proof fn lemma_relocated_object_succeeds(
    bytes: Seq<Seq<u8>>,
    object: ObjectFile,
    m: int,
    n: int,
    index: usize,
    first: int,
    slots: Seq<usize>,
    entries: Seq<Symbol>,
    addresses: Seq<u64>,
)
    requires
        m <= n,
        relocated_object(bytes, object, n, index, first, slots, entries, addresses) is Ok,
    ensures
        relocated_object(bytes, object, m, index, first, slots, entries, addresses) is Ok,
{
    if relocated_object(bytes, object, m, index, first, slots, entries, addresses) is Err {
        lemma_relocated_object_fails(bytes, object, m, n, index, first, slots, entries, addresses);
    }
}

/// Objects whose relocations succeeded had succeeded after each of them.
pub proof fn lemma_relocated_succeeds(
    objects: Seq<ObjectFile>,
    m: int,
    n: int,
    slots: Seq<Seq<usize>>,
    entries: Seq<Symbol>,
    addresses: Seq<u64>,
)
    requires
        m <= n,
        relocated(objects, n, slots, entries, addresses) is Ok,
    ensures
        relocated(objects, m, slots, entries, addresses) is Ok,
{
    if relocated(objects, m, slots, entries, addresses) is Err {
        lemma_relocated_fails(objects, m, n, slots, entries, addresses);
    }
}

/// The relocations of an object leave the sections that are numbered below
/// its own as they were.
pub proof fn lemma_relocated_object_keeps_earlier_sections(
    bytes: Seq<Seq<u8>>,
    object: ObjectFile,
    n: int,
    index: usize,
    first: int,
    slots: Seq<usize>,
    entries: Seq<Symbol>,
    addresses: Seq<u64>,
    section: int,
)
    requires
        0 <= section < first,
        first + object.sections@.len() <= bytes.len(),
        relocated_object(bytes, object, n, index, first, slots, entries, addresses) is Ok,
    ensures
        relocated_object(bytes, object, n, index, first, slots, entries, addresses)->Ok_0[section]
            == bytes[section],
    decreases n,
{
    if n > 0 {
        lemma_relocated_object_succeeds(
            bytes,
            object,
            n - 1,
            n,
            index,
            first,
            slots,
            entries,
            addresses,
        );
        lemma_relocated_object_keeps_earlier_sections(
            bytes,
            object,
            n - 1,
            index,
            first,
            slots,
            entries,
            addresses,
            section,
        );
        lemma_relocated_object_keeps_lengths(
            bytes,
            object,
            n - 1,
            index,
            first,
            slots,
            entries,
            addresses,
        );
    }
}

/// The field that relocation `r` of an object patched stays as that
/// relocation left it, whatever the later relocations of the object patch:
/// they patch other sections, or other bytes of the section.
pub proof fn lemma_later_records_keep_the_field(
    bytes: Seq<Seq<u8>>,
    object: ObjectFile,
    r: int,
    n: int,
    index: usize,
    first: int,
    slots: Seq<usize>,
    entries: Seq<Symbol>,
    addresses: Seq<u64>,
)
    requires
        0 <= first,
        0 <= r < n <= object.relocations@.len(),
        first + object.sections@.len() <= bytes.len(),
        relocated_object(bytes, object, n, index, first, slots, entries, addresses) is Ok,
    ensures
        ({
            let record = object.relocations@[r];
            let section = first + record.section;
            let from = record.relocation.offset as int;
            let to = from + field_width(record.relocation.typ);
            let then = relocated_object(bytes, object, r + 1, index, first, slots, entries, addresses);
            let now = relocated_object(bytes, object, n, index, first, slots, entries, addresses);
            &&& then is Ok
            &&& record.section < object.sections@.len()
            &&& field_width(record.relocation.typ) > 0
            &&& to <= then->Ok_0[section].len()
            &&& now->Ok_0[section].len() == then->Ok_0[section].len()
            &&& now->Ok_0[section].subrange(from, to) == then->Ok_0[section].subrange(from, to)
        }),
    decreases n,
{
    let records = object.relocations@;
    let record = records[r];
    let section = first + record.section;
    let from = record.relocation.offset as int;
    let to = from + field_width(record.relocation.typ);
    lemma_relocated_object_succeeds(bytes, object, r + 1, n, index, first, slots, entries, addresses);
    lemma_relocated_object_succeeds(bytes, object, r, n, index, first, slots, entries, addresses);
    let start = relocated_object(bytes, object, r, index, first, slots, entries, addresses)->Ok_0;
    lemma_relocated_object_keeps_lengths(bytes, object, r, index, first, slots, entries, addresses);
    lemma_relocated_object_keeps_lengths(
        bytes,
        object,
        r + 1,
        index,
        first,
        slots,
        entries,
        addresses,
    );
    // relocation r itself
    let own = record_patched(records, r, slots, entries, addresses, start[section]);
    assert(own is Ok);
    lemma_patched_keeps_the_rest(
        record.relocation,
        symbol_address(
            entries,
            addresses,
            slots[record.relocation.symbol_index as int] as int,
        ),
        start[section],
    );
    if n > r + 1 {
        lemma_later_records_keep_the_field(
            bytes,
            object,
            r,
            n - 1,
            index,
            first,
            slots,
            entries,
            addresses,
        );
        lemma_relocated_object_succeeds(
            bytes,
            object,
            n - 1,
            n,
            index,
            first,
            slots,
            entries,
            addresses,
        );
        lemma_relocated_object_keeps_lengths(
            bytes,
            object,
            n - 1,
            index,
            first,
            slots,
            entries,
            addresses,
        );
        let before = relocated_object(
            bytes,
            object,
            n - 1,
            index,
            first,
            slots,
            entries,
            addresses,
        )->Ok_0;
        let after = relocated_object(bytes, object, n, index, first, slots, entries, addresses)->Ok_0;
        let later = records[n - 1];
        if later.section == record.section {
            let patch = record_patched(records, n - 1, slots, entries, addresses, before[section]);
            assert(patch is Ok);
            assert(!record_overlaps_earlier(records, n - 1));
            assert(!(records[r].section == records[n - 1].section && fields_overlap(
                records[r].relocation,
                records[n - 1].relocation,
            )));
            lemma_patched_keeps_the_rest(
                later.relocation,
                symbol_address(
                    entries,
                    addresses,
                    slots[later.relocation.symbol_index as int] as int,
                ),
                before[section],
            );
            assert(after[section].subrange(from, to) =~= before[section].subrange(from, to));
        } else {
            assert(after[section] == before[section]);
        }
    }
}

/// The relocations of later objects leave the sections of an earlier object
/// as they were.
pub proof fn lemma_later_objects_keep_the_section(
    objects: Seq<ObjectFile>,
    o: int,
    n: int,
    slots: Seq<Seq<usize>>,
    entries: Seq<Symbol>,
    addresses: Seq<u64>,
    section: int,
)
    requires
        0 <= o < n <= objects.len(),
        0 <= section < all_sections(objects, o + 1).len(),
        relocated(objects, n, slots, entries, addresses) is Ok,
    ensures
        relocated(objects, o + 1, slots, entries, addresses) is Ok,
        relocated(objects, n, slots, entries, addresses)->Ok_0[section] == relocated(
            objects,
            o + 1,
            slots,
            entries,
            addresses,
        )->Ok_0[section],
    decreases n,
{
    lemma_relocated_succeeds(objects, o + 1, n, slots, entries, addresses);
    if n > o + 1 {
        lemma_relocated_succeeds(objects, n - 1, n, slots, entries, addresses);
        lemma_later_objects_keep_the_section(objects, o, n - 1, slots, entries, addresses, section);
        lemma_relocated_keeps_lengths(objects, n - 1, slots, entries, addresses);
        lemma_all_sections_grows(objects, o + 1, n - 1);
        lemma_all_sections_grows(objects, n, objects.len() as int);
        lemma_relocated_object_keeps_earlier_sections(
            relocated(objects, n - 1, slots, entries, addresses)->Ok_0,
            objects[n - 1],
            objects[n - 1].relocations@.len() as int,
            (n - 1) as usize,
            all_sections(objects, n - 1).len() as int,
            slots[n - 1],
            entries,
            addresses,
            section,
        );
    }
}

/// Relocations leave the number of sections and the length of each as they
/// were.
pub proof fn lemma_relocated_object_keeps_lengths(
    bytes: Seq<Seq<u8>>,
    object: ObjectFile,
    n: int,
    index: usize,
    first: int,
    slots: Seq<usize>,
    entries: Seq<Symbol>,
    addresses: Seq<u64>,
)
    requires
        0 <= first,
        first + object.sections@.len() <= bytes.len(),
    ensures
        relocated_object(bytes, object, n, index, first, slots, entries, addresses) matches Ok(
            after,
        ) ==> {
            &&& after.len() == bytes.len()
            &&& forall|i: int| 0 <= i < bytes.len() ==> (#[trigger] after[i]).len() == bytes[i].len()
        },
    decreases n,
{
    if n > 0 {
        lemma_relocated_object_keeps_lengths(
            bytes,
            object,
            n - 1,
            index,
            first,
            slots,
            entries,
            addresses,
        );
    }
}

/// Relocations leave the number of sections and the length of each as they
/// were.
pub proof fn lemma_relocated_keeps_lengths(
    objects: Seq<ObjectFile>,
    n: int,
    slots: Seq<Seq<usize>>,
    entries: Seq<Symbol>,
    addresses: Seq<u64>,
)
    requires
        n <= objects.len(),
    ensures
        relocated(objects, n, slots, entries, addresses) matches Ok(after) ==> {
            let sections = all_sections(objects, objects.len() as int);
            &&& after.len() == sections.len()
            &&& forall|i: int|
                0 <= i < sections.len() ==> (#[trigger] after[i]).len() == sections[i].data@.len()
        },
    decreases n,
{
    if n > 0 {
        lemma_relocated_keeps_lengths(objects, n - 1, slots, entries, addresses);
        lemma_all_sections_grows(objects, n, objects.len() as int);
        if let Ok(before) = relocated(objects, n - 1, slots, entries, addresses) {
            lemma_relocated_object_keeps_lengths(
                before,
                objects[n - 1],
                objects[n - 1].relocations@.len() as int,
                (n - 1) as usize,
                all_sections(objects, n - 1).len() as int,
                slots[n - 1],
                entries,
                addresses,
            );
        }
    }
}

/// Where the sections lie within the image and no two of them share a
/// byte, the image holds the bytes of every section at its address.
pub proof fn lemma_assembled_holds_every_section(
    bytes: Seq<Seq<u8>>,
    addresses: Seq<u64>,
    origin: int,
    len: int,
    n: int,
    i: int,
)
    requires
        0 <= i < n <= bytes.len(),
        bytes.len() == addresses.len(),
        forall|k: int|
            0 <= k < bytes.len() ==> origin <= #[trigger] addresses[k] && addresses[k] - origin
                + bytes[k].len() <= len,
        forall|a: int, b: int|
            0 <= a < b < bytes.len() ==> (#[trigger] addresses[a]) + bytes[a].len()
                <= #[trigger] addresses[b] || addresses[b] + bytes[b].len() <= addresses[a],
    ensures
        assembled(bytes, addresses, origin, len, n).len() == len,
        assembled(bytes, addresses, origin, len, n).subrange(
            addresses[i] - origin,
            addresses[i] - origin + bytes[i].len(),
        ) == bytes[i],
    decreases n,
{
    lemma_assembled_len(bytes, addresses, origin, len, n - 1);
    let before = assembled(bytes, addresses, origin, len, n - 1);
    let after = assembled(bytes, addresses, origin, len, n);
    let at = addresses[i] - origin;
    assert(0 <= addresses[n - 1] - origin && addresses[n - 1] - origin + bytes[n - 1].len() <= len);
    if i == n - 1 {
        assert(after.subrange(at, at + bytes[i].len()) =~= bytes[i]);
    } else {
        lemma_assembled_holds_every_section(bytes, addresses, origin, len, n - 1, i);
        assert(addresses[i] + bytes[i].len() <= addresses[n - 1] || addresses[n - 1] + bytes[n
            - 1].len() <= addresses[i]);
        assert(after.subrange(at, at + bytes[i].len()) =~= before.subrange(
            at,
            at + bytes[i].len(),
        ));
    }
}

/// An assembled image has the length it was given.
pub proof fn lemma_assembled_len(
    bytes: Seq<Seq<u8>>,
    addresses: Seq<u64>,
    origin: int,
    len: int,
    n: int,
)
    requires
        0 <= len,
    ensures
        assembled(bytes, addresses, origin, len, n).len() == len,
    decreases n,
{
    if n > 0 {
        lemma_assembled_len(bytes, addresses, origin, len, n - 1);
    }
}

/// References to the sections of all objects, one object after the other.
pub fn section_refs(objects: &Vec<ObjectFile>) -> (refs: Vec<&Section>)
    ensures
        contents(refs@) == all_sections(objects@, objects@.len() as int),
{
    let mut refs: Vec<&Section> = Vec::new();
    let mut i: usize = 0;
    assert(contents(refs@) == all_sections(objects@, 0));
    while i < objects.len()
        invariant
            i <= objects.len(),
            contents(refs@) == all_sections(objects@, i as int),
        decreases objects.len() - i,
    {
        let object = &objects[i];
        let mut k: usize = 0;
        assert(object.sections@.take(0) == Seq::<Section>::empty());
        while k < object.sections.len()
            invariant
                k <= object.sections.len(),
                i < objects.len(),
                object == &objects[i as int],
                contents(refs@) == all_sections(objects@, i as int) + object.sections@.take(
                    k as int,
                ),
            decreases object.sections.len() - k,
        {
            let ghost before = refs@;
            refs.push(&object.sections[k]);
            assert(contents(refs@) == contents(before).push(object.sections@[k as int]));
            assert(object.sections@.take(k + 1) == object.sections@.take(k as int).push(
                object.sections@[k as int],
            ));
            k += 1;
        }
        assert(object.sections@.take(k as int) == object.sections@);
        i += 1;
    }
    refs
}

/// Copies of the bytes of the sections of all objects, one object after the
/// other.
pub fn section_copies(objects: &Vec<ObjectFile>) -> (copies: Vec<Vec<u8>>)
    ensures
        byte_lists(copies@) == section_bytes(all_sections(objects@, objects@.len() as int)),
{
    let mut copies: Vec<Vec<u8>> = Vec::new();
    let mut i: usize = 0;
    assert(byte_lists(copies@) == section_bytes(all_sections(objects@, 0)));
    while i < objects.len()
        invariant
            i <= objects.len(),
            byte_lists(copies@) == section_bytes(all_sections(objects@, i as int)),
        decreases objects.len() - i,
    {
        let object = &objects[i];
        let mut k: usize = 0;
        assert(object.sections@.take(0) == Seq::<Section>::empty());
        assert(all_sections(objects@, i as int) + object.sections@.take(0) == all_sections(
            objects@,
            i as int,
        ));
        while k < object.sections.len()
            invariant
                k <= object.sections.len(),
                i < objects.len(),
                object == &objects[i as int],
                byte_lists(copies@) == section_bytes(
                    all_sections(objects@, i as int) + object.sections@.take(k as int),
                ),
            decreases object.sections.len() - k,
        {
            let ghost before = copies@;
            let copy = object.sections[k].data.clone();
            copies.push(copy);
            assert(byte_lists(copies@) == byte_lists(before).push(object.sections@[k as int].data@));
            assert(all_sections(objects@, i as int) + object.sections@.take(k + 1) == (all_sections(
                objects@,
                i as int,
            ) + object.sections@.take(k as int)).push(object.sections@[k as int]));
            k += 1;
        }
        assert(object.sections@.take(k as int) == object.sections@);
        i += 1;
    }
    copies
}

/// The final address of the symbol in `slot` of the table.
pub fn resolve_address(table: &SymbolTable, addresses: &Vec<u64>, slot: usize) -> (address: u64)
    ensures
        address == symbol_address(table.entries(), addresses@, slot as int),
{
    match table.get_symbol_by_index(slot) {
        Some(symbol) => {
            if symbol.section_index == ABSOLUTE {
                symbol.value
            } else if symbol.section_index != 0 && symbol.section_index < addresses.len() {
                addresses[symbol.section_index].wrapping_add(symbol.value)
            } else {
                0
            }
        },
        None => 0,
    }
}

/// Whether the field of record `n` shares a byte with that of an earlier
/// record of the same section.
fn record_meets_earlier(records: &Vec<SectionRelocation>, n: usize) -> (meets: bool)
    requires
        n < records.len(),
    ensures
        meets == record_overlaps_earlier(records@, n as int),
{
    let mut k: usize = 0;
    while k < n
        invariant
            k <= n < records.len(),
            forall|j: int|
                0 <= j < k ==> !((#[trigger] records@[j]).section == records@[n as int].section
                    && fields_overlap(records@[j].relocation, records@[n as int].relocation)),
        decreases n - k,
    {
        if records[k].section == records[n].section && fields_meet(
            &records[k].relocation,
            &records[n].relocation,
        ) {
            return true;
        }
        k += 1;
    }
    false
}

/// Applies relocation `n` of one object to the bytes of all sections.
fn relocate_record(
    bytes: &mut Vec<Vec<u8>>,
    object: &ObjectFile,
    n: usize,
    index: usize,
    first: usize,
    slots: &Vec<usize>,
    table: &SymbolTable,
    addresses: &Vec<u64>,
) -> (result: Result<(), LinkerError>)
    requires
        n < object.relocations@.len(),
        first + object.sections@.len() <= old(bytes)@.len(),
    ensures
        final(bytes)@.len() == old(bytes)@.len(),
        match relocated_record(
            byte_lists(old(bytes)@),
            *object,
            n as int,
            index,
            first as int,
            slots@,
            table.entries(),
            addresses@,
        ) {
            Ok(after) => result is Ok && byte_lists(final(bytes)@) == after,
            Err(failure) => result matches Err(e) && e@ == failure,
        },
{
    let record = object.relocations[n];
    let reloc = record.relocation;
    if record.section >= object.sections.len() {
        return Err(
            LinkerError::InvalidElf(InputError::RelocationSection { object: index, relocation: n }),
        );
    }
    assert(bytes@.len() == bytes.len());
    let target = first + record.section;
    let ghost before = bytes@;
    assert(byte_lists(before)[target as int] == before[target as int]@);
    let patched = if reloc.symbol_index >= slots.len() {
        Err(RelocationError::SymbolNotFound { offset: reloc.offset })
    } else if record_meets_earlier(&object.relocations, n) {
        Err(RelocationError::Overlap { offset: reloc.offset })
    } else {
        let address = resolve_address(table, addresses, slots[reloc.symbol_index]);
        RelocationProcessor::patch(&reloc, address, bytes[target].as_mut_slice())
    };
    match patched {
        Ok(()) => {
            assert(byte_lists(bytes@) == byte_lists(before).update(
                target as int,
                bytes@[target as int]@,
            ));
            Ok(())
        },
        Err(error) => Err(
            LinkerError::ObjectRelocation {
                object: index,
                section: record.section,
                relocation: n,
                error,
            },
        ),
    }
}

/// Applies the relocations of one object to the bytes of all sections.
fn relocate_object(
    bytes: &mut Vec<Vec<u8>>,
    object: &ObjectFile,
    index: usize,
    first: usize,
    slots: &Vec<usize>,
    table: &SymbolTable,
    addresses: &Vec<u64>,
) -> (result: Result<(), LinkerError>)
    requires
        first + object.sections@.len() <= old(bytes)@.len(),
    ensures
        match relocated_object(
            byte_lists(old(bytes)@),
            *object,
            object.relocations@.len() as int,
            index,
            first as int,
            slots@,
            table.entries(),
            addresses@,
        ) {
            Ok(after) => result is Ok && byte_lists(final(bytes)@) == after,
            Err(failure) => result matches Err(e) && e@ == failure,
        },
{
    let ghost start = byte_lists(bytes@);
    let ghost entries = table.entries();
    let mut n: usize = 0;
    while n < object.relocations.len()
        invariant
            n <= object.relocations.len(),
            start == byte_lists(old(bytes)@),
            entries == table.entries(),
            bytes@.len() == old(bytes)@.len(),
            first + object.sections@.len() <= bytes@.len(),
            relocated_object(
                start,
                *object,
                n as int,
                index,
                first as int,
                slots@,
                entries,
                addresses@,
            ) == Ok::<Seq<Seq<u8>>, Failure>(byte_lists(bytes@)),
        decreases object.relocations.len() - n,
    {
        if let Err(e) = relocate_record(bytes, object, n, index, first, slots, table, addresses) {
            proof {
                lemma_relocated_object_fails(
                    start,
                    *object,
                    n + 1,
                    object.relocations@.len() as int,
                    index,
                    first as int,
                    slots@,
                    entries,
                    addresses@,
                );
            }
            return Err(e);
        }
        n += 1;
    }
    Ok(())
}

/// Applies every relocation of every object, in order, to copies of the
/// bytes of the sections, and returns the patched bytes. The first
/// relocation that fails ends the pass.
pub(crate) fn relocate(
    objects: &Vec<ObjectFile>,
    starts: &Vec<usize>,
    slots: &Vec<Vec<usize>>,
    table: &SymbolTable,
    addresses: &Vec<u64>,
) -> (result: Result<Vec<Vec<u8>>, LinkerError>)
    requires
        starts@.len() == objects@.len(),
        slots@.len() == objects@.len(),
        forall|i: int|
            0 <= i < starts@.len() ==> #[trigger] starts@[i] == all_sections(objects@, i).len(),
    ensures
        match relocated(
            objects@,
            objects@.len() as int,
            slot_lists(slots@),
            table.entries(),
            addresses@,
        ) {
            Ok(after) => result matches Ok(bytes) && byte_lists(bytes@) == after,
            Err(failure) => result matches Err(e) && e@ == failure,
        },
{
    let ghost lists = slot_lists(slots@);
    let ghost entries = table.entries();
    let ghost total = all_sections(objects@, objects@.len() as int).len();
    let mut bytes = section_copies(objects);
    let mut i: usize = 0;
    assert(byte_lists(bytes@).len() == bytes@.len());
    assert(section_bytes(all_sections(objects@, objects@.len() as int)).len() == total);
    while i < objects.len()
        invariant
            i <= objects.len(),
            lists == slot_lists(slots@),
            entries == table.entries(),
            total == all_sections(objects@, objects@.len() as int).len(),
            bytes@.len() == total,
            starts@.len() == objects@.len(),
            slots@.len() == objects@.len(),
            forall|k: int|
                0 <= k < starts@.len() ==> #[trigger] starts@[k] == all_sections(objects@, k).len(),
            relocated(objects@, i as int, lists, entries, addresses@) == Ok::<
                Seq<Seq<u8>>,
                Failure,
            >(byte_lists(bytes@)),
        decreases objects.len() - i,
    {
        proof {
            lemma_all_sections_grows(objects@, i + 1, objects@.len() as int);
            assert(lists[i as int] == slots@[i as int]@);
        }
        match relocate_object(&mut bytes, &objects[i], i, starts[i], &slots[i], table, addresses) {
            Ok(()) => {
                proof {
                    lemma_relocated_keeps_lengths(objects@, i + 1, lists, entries, addresses@);
                }
            },
            Err(e) => {
                proof {
                    lemma_relocated_fails(
                        objects@,
                        i + 1,
                        objects@.len() as int,
                        lists,
                        entries,
                        addresses@,
                    );
                }
                return Err(e);
            },
        }
        i += 1;
    }
    Ok(bytes)
}

/// Builds the image: `len` zero bytes that begin at address `origin`, with
/// every section written at its address.
pub(crate) fn assemble(sections: &Vec<Vec<u8>>, addresses: &Vec<u64>, origin: u64, len: usize) -> (image:
    Vec<u8>)
    requires
        sections@.len() == addresses@.len(),
        forall|i: int|
            0 <= i < sections@.len() ==> origin <= #[trigger] addresses@[i] && addresses@[i]
                - origin + sections@[i]@.len() <= len,
    ensures
        image@.len() == len,
        image@ == assembled(
            byte_lists(sections@),
            addresses@,
            origin as int,
            len as int,
            sections@.len() as int,
        ),
{
    let mut image: Vec<u8> = Vec::new();
    let mut filled: usize = 0;
    while filled < len
        invariant
            filled <= len,
            image@ == zeros(filled as int),
        decreases len - filled,
    {
        image.push(0);
        filled += 1;
    }
    let mut i: usize = 0;
    while i < sections.len()
        invariant
            i <= sections.len(),
            sections@.len() == addresses@.len(),
            image@.len() == len,
            forall|k: int|
                0 <= k < sections@.len() ==> origin <= #[trigger] addresses@[k] && addresses@[k]
                    - origin + sections@[k]@.len() <= len,
            image@ == assembled(
                byte_lists(sections@),
                addresses@,
                origin as int,
                len as int,
                i as int,
            ),
        decreases sections.len() - i,
    {
        let at = (addresses[i] - origin) as usize;
        store(image.as_mut_slice(), at, &sections[i]);
        i += 1;
    }
    image
}

} // verus!
