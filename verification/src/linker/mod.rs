//! Symbol resolution, relocation patching and their orchestration.
//!
//! A link runs in two passes. The first merges the symbols of every object
//! into the global table and checks that no global symbol is left without a
//! definition. Only then are the sections given their addresses and the
//! relocations applied, so that a relocation may refer to a symbol that a
//! later object defines.

pub mod image;
pub mod layout;
pub mod object;
pub mod pair;
pub mod relocation;
pub mod resolver;
pub mod symbol;

use vstd::prelude::*;
use vstd::bytes::{
    lemma_auto_spec_u64_to_from_le_bytes,
    spec_u64_from_le_bytes,
    spec_u64_to_le_bytes,
};
use crate::elf::header::ElfHeader;
use crate::elf::section::Section;
use crate::elf::segment::{Segment, PAGE_SIZE, PF_RWX, PT_LOAD};
use crate::elf::ElfFile;
use crate::error::{Failure, LayoutError, LinkerError};
use image::{
    assemble,
    assembled,
    byte_lists,
    entry_address,
    lemma_assembled_holds_every_section,
    lemma_later_objects_keep_the_section,
    lemma_later_records_keep_the_field,
    lemma_relocated_keeps_lengths,
    lemma_relocated_object_keeps_lengths,
    lemma_relocated_object_succeeds,
    lemma_relocated_succeeds,
    record_patched,
    relocated_object,
    relocated_record,
    symbol_address,
    relocate,
    relocated,
    section_refs,
};
use layout::{
    align_up,
    contents,
    end_address,
    image_len,
    layout,
    layout_fits,
    lemma_section_within_image,
    lemma_sections_do_not_overlap,
    section_address,
};
use object::{
    all_sections,
    collect,
    collected,
    lemma_all_sections_grows,
    defines_at,
    is_global,
    lemma_collected_defines_once,
    lemma_globals_stand_for_the_definition,
    placed_in,
    lemma_collected_keeps_reference,
    never_defined,
    refers_to,
    section_starts,
    slot_lists,
    ObjectFile,
};
use resolver::{table_names, table_resolutions, SymbolResolver};
use relocation::{field_width, lemma_abs64_reads_back, target_address, R_AARCH64_ABS64};
use symbol::{lemma_undefined_globals_lists_all, undefined_globals, Symbol, SymbolTable};

verus! {

/// The base address of a link that sets none.
pub const DEFAULT_BASE_ADDRESS: u64 = 0x400000;

/// The offset of the image in the file: one page in, so that it is
/// congruent to the address of the image modulo the page size, as a loader
/// asks.
pub const IMAGE_OFFSET: u64 = 0x1000;

/// How far a link has come.
#[derive(Debug, Clone, Copy, PartialEq, Eq, Structural)]
pub enum LinkState {
    /// The symbols of the objects are being merged.
    Collecting,
    /// The table is checked for undefined symbols.
    Resolving,
    /// Addresses are assigned and relocations applied.
    Relocating,
    /// The image is handed to the output file.
    Emitting,
    /// The link succeeded.
    Done,
    /// The link failed.
    Failed,
}

/// What a successful link yields.
pub struct Linked {
    /// The address at which the image is loaded.
    pub origin: u64,
    /// The bytes of the image.
    pub image: Seq<u8>,
    /// The entries of the symbol table.
    pub entries: Seq<Symbol>,
    /// The slot that each name of the symbol table stands for.
    pub names: Map<Seq<char>, usize>,
    /// The address of each section, numbered through all objects.
    pub addresses: Seq<u64>,
    /// The patched bytes of each section.
    pub sections: Seq<Seq<u8>>,
}

/// The address of each of `sections` when the image is based at `base`.
pub open spec fn addresses_of(sections: Seq<Section>, base: int) -> Seq<u64> {
    Seq::new(sections.len(), |i: int| section_address(sections, base, i) as u64)
}

/// What linking `objects` at `base` yields, or why it fails.
///
/// In order: the sections must be few enough to number; the symbols are
/// merged; no global symbol may stay undefined; the image must fit the
/// address space; the relocations are applied; the image is assembled. The
/// first step that fails decides the failure.
pub open spec fn linked(objects: Seq<ObjectFile>, base: u64) -> Result<Linked, Failure> {
    let n = objects.len() as int;
    let sections = all_sections(objects, n);
    if sections.len() > usize::MAX {
        Err(Failure::Layout(LayoutError::TooManySections))
    } else {
        match collected(objects, n) {
            Err(failure) => Err(failure),
            Ok((entries, names, slots)) => if undefined_globals(entries).len() > 0 {
                Err(Failure::Undefined(undefined_globals(entries)))
            } else if !layout_fits(sections, base as int) || image_len(sections, base as int)
                > usize::MAX {
                Err(Failure::Layout(LayoutError::AddressOverflow))
            } else {
                let addresses = addresses_of(sections, base as int);
                match relocated(objects, n, slots, entries, addresses) {
                    Err(failure) => Err(failure),
                    Ok(bytes) => Ok(
                        Linked {
                            origin: align_up(base as int) as u64,
                            image: assembled(
                                bytes,
                                addresses,
                                align_up(base as int),
                                image_len(sections, base as int),
                                sections.len() as int,
                            ),
                            entries,
                            names,
                            addresses,
                            sections: bytes,
                        },
                    ),
                }
            },
        }
    }
}

/// Whether `file` is the output of a link that yielded `linked`: the default
/// header with the entry point, no sections, and one loadable segment that
/// holds the image.
pub open spec fn holds_image(file: ElfFile, entry_point: u64, linked: Linked) -> bool {
    &&& file.header == ElfHeader { e_entry: entry_point, ..ElfHeader::default_header() }
    &&& file.sections@.len() == 0
    &&& file.segments@.len() == 1
    &&& file.segments@[0].p_type == PT_LOAD
    &&& file.segments@[0].p_flags == PF_RWX
    &&& file.segments@[0].p_offset == IMAGE_OFFSET
    &&& file.segments@[0].p_vaddr == linked.origin
    &&& file.segments@[0].p_paddr == linked.origin
    &&& file.segments@[0].p_filesz == linked.image.len()
    &&& file.segments@[0].p_memsz == linked.image.len()
    &&& file.segments@[0].p_align == PAGE_SIZE
    &&& file.segments@[0].data@ == linked.image
}

/// Whether `file` is the output of a link that failed: the default header
/// with the entry point and nothing else.
pub open spec fn holds_nothing(file: ElfFile, entry_point: u64) -> bool {
    &&& file.header == ElfHeader { e_entry: entry_point, ..ElfHeader::default_header() }
    &&& file.sections@.len() == 0
    &&& file.segments@.len() == 0
}

/// Whether `linker` is as a link of `objects` leaves it: with its entry
/// point and base address unchanged and, where the link succeeds, done, with
/// the merged table, the address of every section and the image in its
/// output; where it fails, failed, with an empty table and nothing in its
/// output.
pub open spec fn is_outcome(
    linker: Linker,
    entry_point: u64,
    base: u64,
    objects: Seq<ObjectFile>,
) -> bool {
    &&& linker.entry() == entry_point
    &&& linker.base() == base
    &&& match linked(objects, base) {
        Ok(linked) => {
            &&& linker.link_state() == LinkState::Done
            &&& linker.entries() == linked.entries
            &&& linker.names() == linked.names
            &&& linker.section_addresses() == linked.addresses
            &&& holds_image(linker.output_file(), entry_point, linked)
        },
        Err(_) => {
            &&& linker.link_state() == LinkState::Failed
            &&& linker.entries() == Seq::<Symbol>::empty()
            &&& linker.names() == Map::<Seq<char>, usize>::empty()
            &&& linker.section_addresses() == Seq::<u64>::empty()
            &&& holds_nothing(linker.output_file(), entry_point)
        },
    }
}

/// The image of a link holds every section: each has its address within the
/// image, and there the image holds the patched bytes of the section.
pub proof fn lemma_image_holds_every_section(objects: Seq<ObjectFile>, base: u64, section: int)
    requires
        linked(objects, base) is Ok,
        0 <= section < all_sections(objects, objects.len() as int).len(),
    ensures
        ({
            let linked = linked(objects, base)->Ok_0;
            let at = linked.addresses[section] - linked.origin;
            &&& linked.addresses.len() == all_sections(objects, objects.len() as int).len()
            &&& linked.sections.len() == linked.addresses.len()
            &&& 0 <= at
            &&& at + linked.sections[section].len() <= linked.image.len()
            &&& linked.image.subrange(at, at + linked.sections[section].len())
                == linked.sections[section]
        }),
{
    let n = objects.len() as int;
    let sections = all_sections(objects, n);
    let l = linked(objects, base)->Ok_0;
    let entries = collected(objects, n)->Ok_0.0;
    let slots = collected(objects, n)->Ok_0.2;
    let origin = align_up(base as int);
    let len = image_len(sections, base as int);
    lemma_relocated_keeps_lengths(objects, n, slots, entries, l.addresses);
    assert forall|k: int| 0 <= k < l.sections.len() implies origin <= #[trigger] l.addresses[k]
        && l.addresses[k] - origin + l.sections[k].len() <= len by {
        lemma_section_within_image(sections, base as int, k);
    }
    assert forall|a: int, b: int| 0 <= a < b < l.sections.len() implies (#[trigger] l.addresses[a])
        + l.sections[a].len() <= #[trigger] l.addresses[b] || l.addresses[b] + l.sections[b].len()
        <= l.addresses[a] by {
        lemma_section_within_image(sections, base as int, a);
        lemma_section_within_image(sections, base as int, b);
        lemma_sections_do_not_overlap(sections, base as int, a, b);
    }
    lemma_assembled_holds_every_section(
        l.sections,
        l.addresses,
        origin,
        len,
        l.sections.len() as int,
        section,
    );
}

/// The place in the image of the field that relocation `r` of object `o`
/// patches: the address of its section, less the address at which the image
/// begins, plus its offset.
pub open spec fn field_place(objects: Seq<ObjectFile>, linked: Linked, o: int, r: int) -> int {
    let record = objects[o].relocations@[r];
    linked.addresses[all_sections(objects, o).len() + record.section] - linked.origin
        + record.relocation.offset
}

/// The final address of the symbol that relocation `r` of object `o` refers
/// to.
pub open spec fn referred_address(objects: Seq<ObjectFile>, linked: Linked, o: int, r: int) -> u64 {
    let slots = collected(objects, objects.len() as int)->Ok_0.2;
    symbol_address(
        linked.entries,
        linked.addresses,
        slots[o][objects[o].relocations@[r].relocation.symbol_index as int] as int,
    )
}

/// In the image of a link, the field of every relocation is as that
/// relocation patched it: no later relocation and no other section wrote
/// over it. For an absolute relocation the eight bytes of the field read
/// back as the final address of its symbol plus the addend.
pub proof fn lemma_relocation_is_in_the_image(objects: Seq<ObjectFile>, base: u64, o: int, r: int)
    requires
        linked(objects, base) is Ok,
        0 <= o < objects.len(),
        0 <= r < objects[o].relocations@.len(),
    ensures
        ({
            let linked = linked(objects, base)->Ok_0;
            let reloc = objects[o].relocations@[r].relocation;
            let at = field_place(objects, linked, o, r);
            &&& 0 <= at
            &&& at + field_width(reloc.typ) <= linked.image.len()
            &&& reloc.typ == R_AARCH64_ABS64 ==> spec_u64_from_le_bytes(
                linked.image.subrange(at, at + 8),
            ) == target_address(referred_address(objects, linked, o, r), reloc.addend)
        }),
{
    let n = objects.len() as int;
    let sections = all_sections(objects, n);
    let l = linked(objects, base)->Ok_0;
    let entries = collected(objects, n)->Ok_0.0;
    let slots = collected(objects, n)->Ok_0.2;
    let object = objects[o];
    let record = object.relocations@[r];
    let reloc = record.relocation;
    let first = all_sections(objects, o).len() as int;
    let section = first + record.section;
    let from = reloc.offset as int;
    let to = from + field_width(reloc.typ);
    lemma_relocated_succeeds(objects, o + 1, n, slots, entries, l.addresses);
    lemma_relocated_succeeds(objects, o, n, slots, entries, l.addresses);
    lemma_relocated_keeps_lengths(objects, o, slots, entries, l.addresses);
    lemma_relocated_keeps_lengths(objects, o + 1, slots, entries, l.addresses);
    lemma_relocated_keeps_lengths(objects, n, slots, entries, l.addresses);
    lemma_all_sections_grows(objects, o + 1, n);
    let before = relocated(objects, o, slots, entries, l.addresses)->Ok_0;
    let len = object.relocations@.len() as int;
    // the field as the relocation left it, and as the object left it
    lemma_later_records_keep_the_field(
        before,
        object,
        r,
        len,
        o as usize,
        first,
        slots[o],
        entries,
        l.addresses,
    );
    lemma_relocated_object_succeeds(
        before,
        object,
        r,
        len,
        o as usize,
        first,
        slots[o],
        entries,
        l.addresses,
    );
    let start = relocated_object(before, object, r, o as usize, first, slots[o], entries, l.addresses)->Ok_0;
    let then = relocated_object(
        before,
        object,
        r + 1,
        o as usize,
        first,
        slots[o],
        entries,
        l.addresses,
    )->Ok_0;
    assert(section < sections.len());
    // as the later objects left it
    lemma_later_objects_keep_the_section(objects, o, n, slots, entries, l.addresses, section);
    // and as the image holds it
    lemma_image_holds_every_section(objects, base, section);
    let at = l.addresses[section] - l.origin;
    assert(l.image.subrange(at + from, at + to) =~= l.sections[section].subrange(from, to)) by {
        assert(l.image.subrange(at, at + l.sections[section].len()) == l.sections[section]);
        assert forall|i: int| 0 <= i < to - from implies l.image.subrange(at + from, at + to)[i]
            == l.sections[section].subrange(from, to)[i] by {
            assert(l.image.subrange(at, at + l.sections[section].len())[from + i] == l.image[at
                + from + i]);
        }
    }
    if reloc.typ == R_AARCH64_ABS64 {
        let address = referred_address(objects, l, o, r);
        lemma_abs64_reads_back(reloc, address, start[section]);
        lemma_relocated_object_keeps_lengths(
            before,
            object,
            r,
            o as usize,
            first,
            slots[o],
            entries,
            l.addresses,
        );
        assert(Ok::<Seq<Seq<u8>>, Failure>(then) == relocated_record(
            start,
            object,
            r,
            o as usize,
            first,
            slots[o],
            entries,
            l.addresses,
        ));
        assert(then[section] == record_patched(
            object.relocations@,
            r,
            slots[o],
            entries,
            l.addresses,
            start[section],
        )->Ok_0);
    }
}

/// A global symbol that is left without a definition once all symbols are
/// merged fails the link, and the failure names it.
pub proof fn lemma_undefined_global_fails_the_link(objects: Seq<ObjectFile>, base: u64, slot: int)
    requires
        all_sections(objects, objects.len() as int).len() <= usize::MAX,
        collected(objects, objects.len() as int) is Ok,
        0 <= slot < collected(objects, objects.len() as int)->Ok_0.0.len(),
        collected(objects, objects.len() as int)->Ok_0.0[slot].undefined_global(),
    ensures
        linked(objects, base) matches Err(Failure::Undefined(names)) && names.contains(
            collected(objects, objects.len() as int)->Ok_0.0[slot].name@,
        ),
{
    lemma_undefined_globals_lists_all(collected(objects, objects.len() as int)->Ok_0.0);
}

/// In the image of a link, an absolute relocation that refers to a global
/// symbol holds the address of the definition of that symbol plus the
/// addend, in whatever object the definition stands, before or behind the
/// reference, and whatever local symbols of its name the objects hold.
pub proof fn lemma_reference_holds_the_address_of_the_definition(
    objects: Seq<ObjectFile>,
    base: u64,
    name: Seq<char>,
    o: int,
    r: int,
    p: int,
    q: int,
)
    requires
        linked(objects, base) is Ok,
        linked(objects, base)->Ok_0.entries.len() <= usize::MAX,
        0 <= o < objects.len(),
        0 <= r < objects[o].relocations@.len(),
        objects[o].relocations@[r].relocation.typ == R_AARCH64_ABS64,
        objects[o].relocations@[r].relocation.symbol_index < objects[o].symbols@.len(),
        is_global(
            objects[o].symbols@[objects[o].relocations@[r].relocation.symbol_index as int],
            name,
        ),
        defines_at(objects, p, q, name),
    ensures
        ({
            let linked = linked(objects, base)->Ok_0;
            let reloc = objects[o].relocations@[r].relocation;
            let at = field_place(objects, linked, o, r);
            &&& 0 <= at
            &&& at + 8 <= linked.image.len()
            &&& linked.image.subrange(at, at + 8) == spec_u64_to_le_bytes(
                target_address(
                    entry_address(placed_in(objects, p, q), linked.addresses),
                    reloc.addend,
                ),
            )
        }),
{
    let l = linked(objects, base)->Ok_0;
    let k = objects[o].relocations@[r].relocation.symbol_index as int;
    lemma_relocation_is_in_the_image(objects, base, o, r);
    lemma_globals_stand_for_the_definition(objects, name, o, k, p, q);
    let at = field_place(objects, l, o, r);
    let field = l.image.subrange(at, at + 8);
    lemma_auto_spec_u64_to_from_le_bytes();
    assert(field.len() == 8);
    assert(spec_u64_to_le_bytes(spec_u64_from_le_bytes(field)) == field);
}

/// A link of objects that hold two definitions of one global symbol fails
/// in the first pass, whatever else they hold and in whatever order they
/// come: nothing is laid out and nothing patched.
pub proof fn lemma_two_definitions_fail_the_link(
    objects: Seq<ObjectFile>,
    base: u64,
    name: Seq<char>,
    o: int,
    k: int,
    p: int,
    q: int,
)
    requires
        all_sections(objects, objects.len() as int).len() <= usize::MAX,
        defines_at(objects, o, k, name),
        defines_at(objects, p, q, name),
        o != p || k != q,
    ensures
        collected(objects, objects.len() as int) matches Err(failure) && linked(objects, base)
            == Err::<Linked, Failure>(failure),
{
    if collected(objects, objects.len() as int) is Ok {
        lemma_collected_defines_once(objects, objects.len() as int, name);
    }
}

/// A link of objects of which one refers to a global symbol that none
/// defines fails, where its symbols can be merged at all, and the failure
/// names the symbol.
pub proof fn lemma_reference_without_definition_fails_the_link(
    objects: Seq<ObjectFile>,
    base: u64,
    name: Seq<char>,
)
    requires
        all_sections(objects, objects.len() as int).len() <= usize::MAX,
        collected(objects, objects.len() as int) is Ok,
        refers_to(objects, objects.len() as int, name),
        never_defined(objects, name),
    ensures
        linked(objects, base) matches Err(Failure::Undefined(names)) && names.contains(name),
{
    let entries = collected(objects, objects.len() as int)->Ok_0.0;
    lemma_collected_keeps_reference(objects, objects.len() as int, name);
    let slot = choose|i: int|
        0 <= i < entries.len() && (#[trigger] entries[i]).undefined_global() && entries[i].name@
            == name;
    lemma_undefined_global_fails_the_link(objects, base, slot);
}

/// Linking the same objects with the same entry point and base address
/// gives the same bytes, however often and with whatever linker it is done.
pub proof fn lemma_relinking_gives_the_same_bytes(
    first: Linker,
    second: Linker,
    entry_point: u64,
    base: u64,
    objects: Seq<ObjectFile>,
)
    requires
        is_outcome(first, entry_point, base, objects),
        is_outcome(second, entry_point, base, objects),
    ensures
        first.link_state() == second.link_state(),
        first.output_file().encoded() == second.output_file().encoded(),
{
    let a = first.output_file();
    let b = second.output_file();
    assert(a.sections@ == b.sections@);
    match linked(objects, base) {
        Ok(_) => {
            a.lemma_one_segment();
            b.lemma_one_segment();
            let offset = IMAGE_OFFSET as int;
            assert(a.encoded().len() == b.encoded().len());
            assert forall|i: int| 0 <= i < a.encoded().len() implies a.encoded()[i]
                == b.encoded()[i] by {
                if i < 64 {
                    assert(a.encoded()[i] == a.encoded().take(64)[i]);
                    assert(b.encoded()[i] == b.encoded().take(64)[i]);
                } else if i < 120 {
                    assert(a.segments@[0].header_encoded() == b.segments@[0].header_encoded());
                    assert(a.encoded()[i] == a.encoded().subrange(64, 120)[i - 64]);
                    assert(b.encoded()[i] == b.encoded().subrange(64, 120)[i - 64]);
                } else if i >= offset {
                    assert(a.encoded()[i] == a.encoded().skip(offset)[i - offset]);
                    assert(b.encoded()[i] == b.encoded().skip(offset)[i - offset]);
                }
            }
            assert(a.encoded() =~= b.encoded());
        },
        Err(_) => {
            assert(a.segments@ == b.segments@);
        },
    }
}

/// The file of a link that succeeded has the image one page in, and the
/// image is loaded at an address that is a multiple of the page size: the
/// offset and the address are congruent modulo the alignment of the
/// segment.
pub proof fn lemma_image_is_loadable(linker: Linker, entry_point: u64, base: u64, objects: Seq<ObjectFile>)
    requires
        is_outcome(linker, entry_point, base, objects),
        linked(objects, base) is Ok,
    ensures
        ({
            let file = linker.output_file();
            let image = linked(objects, base)->Ok_0.image;
            &&& file.segments@[0].p_offset % file.segments@[0].p_align == file.segments@[0].p_vaddr
                % file.segments@[0].p_align
            &&& file.encoded().len() == IMAGE_OFFSET + image.len()
            &&& file.encoded().skip(IMAGE_OFFSET as int) == image
        }),
{
    linker.output_file().lemma_one_segment();
}

/// The linker: it turns input objects into one executable image.
pub struct Linker {
    output: ElfFile,
    entry_point: u64,
    base_address: u64,
    symbols: SymbolTable,
    addresses: Vec<u64>,
    state: LinkState,
}

impl Linker {
    /// The output file.
    pub closed spec fn output_file(&self) -> ElfFile {
        self.output
    }

    /// The address at which execution begins.
    pub closed spec fn entry(&self) -> u64 {
        self.entry_point
    }

    /// The address at which the image is based.
    pub closed spec fn base(&self) -> u64 {
        self.base_address
    }

    /// The entries of the symbol table.
    pub closed spec fn entries(&self) -> Seq<Symbol> {
        self.symbols.entries()
    }

    /// The slot that each name of the symbol table stands for.
    pub closed spec fn names(&self) -> Map<Seq<char>, usize> {
        self.symbols.names()
    }

    /// The address of each section, numbered through all objects.
    pub closed spec fn section_addresses(&self) -> Seq<u64> {
        self.addresses@
    }

    /// How far the link has come.
    pub closed spec fn link_state(&self) -> LinkState {
        self.state
    }

    /// Whether the symbol table is well formed.
    pub closed spec fn wf(&self) -> bool {
        self.symbols.wf()
    }

    /// A linker for the given entry point, based at the default address,
    /// that has not linked anything yet.
    pub fn new(entry_point: u64) -> (result: Result<Self, LinkerError>)
        ensures
            result matches Ok(linker) && {
                &&& linker.wf()
                &&& linker.entry() == entry_point
                &&& linker.base() == DEFAULT_BASE_ADDRESS
                &&& linker.link_state() == LinkState::Collecting
                &&& linker.entries() == Seq::<Symbol>::empty()
                &&& linker.names() == Map::<Seq<char>, usize>::empty()
                &&& linker.section_addresses() == Seq::<u64>::empty()
                &&& holds_nothing(linker.output_file(), entry_point)
            },
    {
        let mut output = ElfFile::new();
        output.header.e_entry = entry_point;
        Ok(
            Self {
                output,
                entry_point,
                base_address: DEFAULT_BASE_ADDRESS,
                symbols: SymbolTable::new(),
                addresses: Vec::new(),
                state: LinkState::Collecting,
            },
        )
    }

    /// Sets the address at which the image is based. It is rounded up to a
    /// page when the sections are laid out.
    pub fn set_base_address(&mut self, base_address: u64)
        ensures
            final(self).base() == base_address,
            final(self).entry() == old(self).entry(),
            final(self).entries() == old(self).entries(),
            final(self).names() == old(self).names(),
            final(self).section_addresses() == old(self).section_addresses(),
            final(self).link_state() == old(self).link_state(),
            final(self).output_file() == old(self).output_file(),
            final(self).wf() == old(self).wf(),
    {
        self.base_address = base_address;
    }

    /// The address at which execution begins.
    pub fn entry_point(&self) -> (entry_point: u64)
        ensures
            entry_point == self.entry(),
    {
        self.entry_point
    }

    /// The address at which the image is based.
    pub fn base_address(&self) -> (base_address: u64)
        ensures
            base_address == self.base(),
    {
        self.base_address
    }

    /// How far the link has come.
    pub fn state(&self) -> (state: LinkState)
        ensures
            state == self.link_state(),
    {
        self.state
    }

    /// The output file: after a link that succeeded it holds the image,
    /// otherwise nothing but its header.
    pub fn output(&self) -> (output: &ElfFile)
        ensures
            *output == self.output_file(),
    {
        &self.output
    }

    /// The names of the linked image with their final addresses, read from
    /// the symbol table.
    pub fn resolver(&self) -> (resolver: SymbolResolver)
        requires
            self.wf(),
        ensures
            resolver.wf(),
            resolver.resolutions() == table_resolutions(
                self.entries(),
                self.names(),
                self.section_addresses(),
            ),
            resolver.names() == table_names(
                self.entries(),
                self.names(),
                self.entries().len() as int,
            ),
    {
        SymbolResolver::from_table(&self.symbols, &self.addresses)
    }

    /// The symbol table.
    pub fn symbols(&self) -> (table: &SymbolTable)
        ensures
            table.entries() == self.entries(),
            table.names() == self.names(),
            table.wf() == self.wf(),
    {
        &self.symbols
    }

    /// Links the objects, in the order given, into one image.
    ///
    /// Every call starts anew: what an earlier call left in the table and in
    /// the output is dropped. On success the output file holds the image in
    /// one loadable segment; on any failure it holds no segment at all.
    pub fn link_objects(&mut self, objects: &Vec<ObjectFile>) -> (result: Result<(), LinkerError>)
        ensures
            final(self).wf(),
            is_outcome(*final(self), old(self).entry(), old(self).base(), objects@),
            match linked(objects@, old(self).base()) {
                Ok(_) => result is Ok,
                Err(failure) => result matches Err(e) && e@ == failure,
            },
    {
        self.state = LinkState::Collecting;
        self.symbols = SymbolTable::new();
        self.addresses = Vec::new();
        self.output = ElfFile::new();
        self.output.header.e_entry = self.entry_point;
        match self.build_segment(objects) {
            Ok(segment) => {
                self.state = LinkState::Emitting;
                self.output.segments.push(segment);
                self.state = LinkState::Done;
                Ok(())
            },
            Err(e) => {
                self.symbols = SymbolTable::new();
                self.addresses = Vec::new();
                self.state = LinkState::Failed;
                Err(e)
            },
        }
    }

    /// Runs both passes and returns the segment that holds the image.
    fn build_segment(&mut self, objects: &Vec<ObjectFile>) -> (result: Result<Segment, LinkerError>)
        requires
            old(self).symbols.wf(),
            old(self).symbols.entries() == Seq::<Symbol>::empty(),
            old(self).symbols.names() == Map::<Seq<char>, usize>::empty(),
        ensures
            final(self).symbols.wf(),
            final(self).entry_point == old(self).entry_point,
            final(self).base_address == old(self).base_address,
            final(self).output == old(self).output,
            match linked(objects@, old(self).base_address) {
                Ok(linked) => {
                    &&& result matches Ok(segment)
                    &&& final(self).symbols.entries() == linked.entries
                    &&& final(self).symbols.names() == linked.names
                    &&& final(self).addresses@ == linked.addresses
                    &&& segment.p_type == PT_LOAD
                    &&& segment.p_flags == PF_RWX
                    &&& segment.p_offset == IMAGE_OFFSET
                    &&& segment.p_vaddr == linked.origin
                    &&& segment.p_paddr == linked.origin
                    &&& segment.p_filesz == linked.image.len()
                    &&& segment.p_memsz == linked.image.len()
                    &&& segment.p_align == PAGE_SIZE
                    &&& segment.data@ == linked.image
                },
                Err(failure) => result matches Err(e) && e@ == failure,
            },
    {
        let ghost sections = all_sections(objects@, objects@.len() as int);
        let ghost base = self.base_address as int;
        let starts = section_starts(objects)?;
        let slots = collect(&mut self.symbols, objects, &starts)?;
        self.state = LinkState::Resolving;
        self.symbols.resolve_undefined_symbols()?;
        self.state = LinkState::Relocating;
        let refs = section_refs(objects);
        let placed = layout(&refs, self.base_address)?;
        let extent = if placed.end > placed.origin {
            placed.end - placed.origin
        } else {
            0
        };
        if extent > usize::MAX as u64 {
            return Err(LinkerError::Section(LayoutError::AddressOverflow));
        }
        assert(placed.addresses@ == addresses_of(sections, base));
        let bytes = relocate(objects, &starts, &slots, &self.symbols, &placed.addresses)?;
        proof {
            lemma_relocated_keeps_lengths(
                objects@,
                objects@.len() as int,
                slot_lists(slots@),
                self.symbols.entries(),
                placed.addresses@,
            );
            assert forall|i: int| 0 <= i < bytes@.len() implies placed.origin
                <= #[trigger] placed.addresses@[i] && placed.addresses@[i] - placed.origin
                + bytes@[i]@.len() <= extent by {
                lemma_section_within_image(sections, base, i);
                assert(byte_lists(bytes@)[i] == bytes@[i]@);
            }
        }
        let image = assemble(&bytes, &placed.addresses, placed.origin, extent as usize);
        let mut segment = Segment::new();
        segment.p_offset = IMAGE_OFFSET;
        segment.p_vaddr = placed.origin;
        segment.p_paddr = placed.origin;
        segment.p_filesz = extent;
        segment.p_memsz = extent;
        segment.data = image;
        self.addresses = placed.addresses;
        Ok(segment)
    }
}

} // verus!
