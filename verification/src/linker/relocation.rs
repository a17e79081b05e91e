//! Relocation records and the processor that patches section bytes.
//!
//! Three relocation types are patched: a 64-bit absolute address, the 26-bit
//! field of a branch instruction and the 21-bit page field of an address
//! instruction. Every other type is refused. A patch that does not fit its
//! field, that would reach past the end of the section, or that shares a
//! byte with an earlier patch of the same section is an error and leaves the
//! section as it was.

use vstd::prelude::*;
use vstd::bytes::*;
use vstd::slice::slice_subrange;
use std::collections::HashMap;
use crate::error::{LinkerError, RelocationError};

verus! {

/// Relocation type of a 64-bit absolute address.
pub const R_AARCH64_ABS64: u32 = 257;

/// Relocation type of the page-relative upper 21 bits of an address.
pub const R_AARCH64_ADR_PREL_PG_HI21: u32 = 275;

/// Relocation type of the 26-bit field of a call instruction.
pub const R_AARCH64_CALL26: u32 = 283;

/// The bits of an instruction word that a 26-bit branch field occupies.
pub const CALL26_MASK: u32 = 0x03ff_ffff;

/// The bits of an instruction word that a 21-bit page field occupies.
pub const HI21_MASK: u32 = 0x001f_ffff;

/// A request to patch one field of a section once the address of a symbol is known.
#[derive(Debug, Clone, Copy)]
pub struct Relocation {
    /// Byte offset of the patched field within its section.
    pub offset: u64,
    /// Index of the symbol whose address the patch depends on.
    pub symbol_index: usize,
    /// Relocation type, as the object file numbers it.
    pub typ: u32,
    /// Value added to the symbol's address before it is encoded.
    pub addend: i64,
}

/// The address a relocation encodes: the symbol's address plus the addend, modulo 2^64.
pub open spec fn target_address(symbol_addr: u64, addend: i64) -> u64 {
    ((symbol_addr as int + addend as int) % 0x1_0000_0000_0000_0000) as u64
}

/// The distance from `pc` up to `target`, modulo 2^64.
pub open spec fn distance(target: u64, pc: u64) -> u64 {
    if target >= pc {
        (target - pc) as u64
    } else {
        (target - pc + 0x1_0000_0000_0000_0000) as u64
    }
}

/// The value of a 26-bit branch field: the distance from the word that holds
/// the instruction to the target, in words.
pub open spec fn branch_field(target: u64, offset: u64) -> u64 {
    distance(target, offset & !0x3u64) >> 2u64
}

/// The value of a 21-bit page field: the distance from the page that holds
/// the instruction to the target, in pages of 4 KiB.
pub open spec fn page_field(target: u64, offset: u64) -> u64 {
    distance(target, offset & !0xfffu64) >> 12u64
}

/// `word` with the bits under `mask` replaced by those of `field`.
pub open spec fn patch_field(word: u32, field: u32, mask: u32) -> u32 {
    (word & !mask) | (field & mask)
}

/// `data` with `bytes` written over the positions from `at` on.
pub open spec fn overwrite(data: Seq<u8>, at: int, bytes: Seq<u8>) -> Seq<u8> {
    Seq::new(data.len(), |i: int| if at <= i < at + bytes.len() { bytes[i - at] } else { data[i] })
}

/// The little-endian instruction word that `data` holds at `at`.
pub open spec fn word_at(data: Seq<u8>, at: int) -> u32 {
    spec_u32_from_le_bytes(data.subrange(at, at + 4))
}

/// `data` with the bits under `mask` of the instruction word at `at` replaced
/// by those of `field`.
pub open spec fn patch_word(data: Seq<u8>, at: int, field: u64, mask: u32) -> Seq<u8> {
    overwrite(data, at, spec_u32_to_le_bytes(patch_field(word_at(data, at), field as u32, mask)))
}

/// What a 64-bit absolute relocation makes of `data`.
pub open spec fn abs64_patched(reloc: Relocation, symbol_addr: u64, data: Seq<u8>) -> Result<
    Seq<u8>,
    RelocationError,
> {
    if reloc.offset + 8 > data.len() {
        Err(RelocationError::InvalidOffset { offset: reloc.offset })
    } else {
        Ok(
            overwrite(
                data,
                reloc.offset as int,
                spec_u64_to_le_bytes(target_address(symbol_addr, reloc.addend)),
            ),
        )
    }
}

/// What a 26-bit call relocation makes of `data`.
pub open spec fn call26_patched(reloc: Relocation, symbol_addr: u64, data: Seq<u8>) -> Result<
    Seq<u8>,
    RelocationError,
> {
    let field = branch_field(target_address(symbol_addr, reloc.addend), reloc.offset);
    if reloc.offset + 4 > data.len() {
        Err(RelocationError::InvalidOffset { offset: reloc.offset })
    } else if field > CALL26_MASK {
        Err(RelocationError::BranchTooFar { offset: reloc.offset })
    } else {
        Ok(patch_word(data, reloc.offset as int, field, CALL26_MASK))
    }
}

/// What a 21-bit page relocation makes of `data`.
pub open spec fn adr_prel_patched(reloc: Relocation, symbol_addr: u64, data: Seq<u8>) -> Result<
    Seq<u8>,
    RelocationError,
> {
    let field = page_field(target_address(symbol_addr, reloc.addend), reloc.offset);
    if reloc.offset + 4 > data.len() {
        Err(RelocationError::InvalidOffset { offset: reloc.offset })
    } else if field > HI21_MASK {
        Err(RelocationError::TargetTooFar { offset: reloc.offset })
    } else {
        Ok(patch_word(data, reloc.offset as int, field, HI21_MASK))
    }
}

/// What one relocation makes of `data`, given the address of its symbol.
pub open spec fn patched(reloc: Relocation, symbol_addr: u64, data: Seq<u8>) -> Result<
    Seq<u8>,
    RelocationError,
> {
    if reloc.typ == R_AARCH64_ABS64 {
        abs64_patched(reloc, symbol_addr, data)
    } else if reloc.typ == R_AARCH64_CALL26 {
        call26_patched(reloc, symbol_addr, data)
    } else if reloc.typ == R_AARCH64_ADR_PREL_PG_HI21 {
        adr_prel_patched(reloc, symbol_addr, data)
    } else {
        Err(RelocationError::Unsupported { typ: reloc.typ })
    }
}

/// The number of bytes of the field that a relocation of type `typ` patches;
/// zero for a type that is not patched.
pub open spec fn field_width(typ: u32) -> int {
    if typ == R_AARCH64_ABS64 {
        8
    } else if typ == R_AARCH64_CALL26 || typ == R_AARCH64_ADR_PREL_PG_HI21 {
        4
    } else {
        0
    }
}

/// Whether the fields of two relocations of one section share a byte.
pub open spec fn fields_overlap(a: Relocation, b: Relocation) -> bool {
    &&& field_width(a.typ) > 0
    &&& field_width(b.typ) > 0
    &&& a.offset < b.offset + field_width(b.typ)
    &&& b.offset < a.offset + field_width(a.typ)
}

/// Whether the field of record `n` shares a byte with that of an earlier
/// record.
pub open spec fn overlaps_earlier(relocs: Seq<Relocation>, n: int) -> bool {
    exists|k: int| 0 <= k < n && fields_overlap(#[trigger] relocs[k], relocs[n])
}

/// What record `n` of a run makes of `data`: its symbol must have an
/// address, its field may not share a byte with that of an earlier record,
/// and then it is patched.
pub open spec fn patched_step(
    relocs: Seq<Relocation>,
    addresses: Map<usize, u64>,
    data: Seq<u8>,
    n: int,
) -> Result<Seq<u8>, RelocationError> {
    let reloc = relocs[n];
    if !addresses.dom().contains(reloc.symbol_index) {
        Err(RelocationError::SymbolNotFound { offset: reloc.offset })
    } else if overlaps_earlier(relocs, n) {
        Err(RelocationError::Overlap { offset: reloc.offset })
    } else {
        patched(reloc, addresses[reloc.symbol_index], data)
    }
}

/// What the first `n` records of a run make of `data`: they are applied in
/// order, and the first that fails ends the run, with the bytes as the ones
/// before it left them.
pub open spec fn patched_all(
    relocs: Seq<Relocation>,
    addresses: Map<usize, u64>,
    data: Seq<u8>,
    n: int,
) -> (Seq<u8>, Option<RelocationError>)
    decreases n,
{
    if n <= 0 {
        (data, None)
    } else {
        let before = patched_all(relocs, addresses, data, n - 1);
        if before.1 is Some {
            before
        } else {
            match patched_step(relocs, addresses, before.0, n - 1) {
                Ok(next) => (next, None),
                Err(e) => (before.0, Some(e)),
            }
        }
    }
}

/// A run that failed among its first records has failed, with the same
/// bytes and the same error.
pub proof fn lemma_patched_all_fails(
    relocs: Seq<Relocation>,
    addresses: Map<usize, u64>,
    data: Seq<u8>,
    m: int,
    n: int,
)
    requires
        m <= n,
        patched_all(relocs, addresses, data, m).1 is Some,
    ensures
        patched_all(relocs, addresses, data, n) == patched_all(relocs, addresses, data, m),
    decreases n - m,
{
    if m < n {
        lemma_patched_all_fails(relocs, addresses, data, m, n - 1);
    }
}

/// Two records whose fields share a byte never both apply: the later one
/// ends the run.
pub proof fn lemma_overlap_ends_the_run(
    relocs: Seq<Relocation>,
    addresses: Map<usize, u64>,
    data: Seq<u8>,
    k: int,
    n: int,
)
    requires
        0 <= k < n < relocs.len(),
        fields_overlap(relocs[k], relocs[n]),
    ensures
        patched_all(relocs, addresses, data, relocs.len() as int).1 is Some,
{
    if patched_all(relocs, addresses, data, n).1 is Some {
        lemma_patched_all_fails(relocs, addresses, data, n, relocs.len() as int);
    } else {
        assert(overlaps_earlier(relocs, n));
        assert(patched_all(relocs, addresses, data, n + 1).1 is Some);
        lemma_patched_all_fails(relocs, addresses, data, n + 1, relocs.len() as int);
    }
}

/// Patching a field leaves the bits outside the mask as they were and sets
/// those under the mask to the bits of the field.
pub proof fn lemma_patch_field(word: u32, field: u32, mask: u32)
    ensures
        patch_field(word, field, mask) & !mask == word & !mask,
        patch_field(word, field, mask) & mask == field & mask,
{
    assert(((word & !mask) | (field & mask)) & !mask == word & !mask) by (bit_vector);
    assert(((word & !mask) | (field & mask)) & mask == field & mask) by (bit_vector);
}

/// Bytes written over a range read back as they were written, and the
/// bytes outside the range stay.
pub proof fn lemma_overwrite(data: Seq<u8>, at: int, bytes: Seq<u8>)
    requires
        0 <= at,
        at + bytes.len() <= data.len(),
    ensures
        overwrite(data, at, bytes).len() == data.len(),
        overwrite(data, at, bytes).subrange(at, at + bytes.len()) == bytes,
        forall|i: int|
            0 <= i < data.len() && !(at <= i < at + bytes.len()) ==> #[trigger] overwrite(
                data,
                at,
                bytes,
            )[i] == data[i],
{
    assert(overwrite(data, at, bytes).subrange(at, at + bytes.len()) =~= bytes);
}

/// A relocation that succeeds has a field within the section and changes no
/// byte outside it.
pub proof fn lemma_patched_keeps_the_rest(reloc: Relocation, symbol_addr: u64, data: Seq<u8>)
    requires
        patched(reloc, symbol_addr, data) is Ok,
    ensures
        field_width(reloc.typ) > 0,
        reloc.offset + field_width(reloc.typ) <= data.len(),
        patched(reloc, symbol_addr, data)->Ok_0.len() == data.len(),
        forall|i: int|
            0 <= i < data.len() && !(reloc.offset <= i < reloc.offset + field_width(reloc.typ))
                ==> #[trigger] patched(reloc, symbol_addr, data)->Ok_0[i] == data[i],
{
    lemma_auto_spec_u32_to_from_le_bytes();
    lemma_auto_spec_u64_to_from_le_bytes();
}

/// An absolute relocation that lies within the section succeeds, and the
/// eight bytes at its offset then read back, least significant byte first,
/// as the target address.
pub proof fn lemma_abs64_reads_back(reloc: Relocation, symbol_addr: u64, data: Seq<u8>)
    requires
        reloc.typ == R_AARCH64_ABS64,
        reloc.offset + 8 <= data.len(),
    ensures
        patched(reloc, symbol_addr, data) matches Ok(bytes) && bytes.len() == data.len()
            && spec_u64_from_le_bytes(bytes.subrange(reloc.offset as int, reloc.offset + 8))
            == target_address(symbol_addr, reloc.addend),
{
    lemma_auto_spec_u64_to_from_le_bytes();
    lemma_overwrite(
        data,
        reloc.offset as int,
        spec_u64_to_le_bytes(target_address(symbol_addr, reloc.addend)),
    );
}

/// Where a value that fits one of the two instruction fields is patched
/// into a word within the section, the field then holds the value, and the
/// other bits of the instruction word are those it had.
pub proof fn lemma_field_is_encoded(data: Seq<u8>, at: int, field: u64, mask: u32)
    requires
        0 <= at,
        at + 4 <= data.len(),
        mask == CALL26_MASK || mask == HI21_MASK,
        field <= mask,
    ensures
        patch_word(data, at, field, mask).len() == data.len(),
        word_at(patch_word(data, at, field, mask), at) & mask == field,
        word_at(patch_word(data, at, field, mask), at) & !mask == word_at(data, at) & !mask,
{
    lemma_auto_spec_u32_to_from_le_bytes();
    let word = patch_field(word_at(data, at), field as u32, mask);
    lemma_overwrite(data, at, spec_u32_to_le_bytes(word));
    lemma_patch_field(word_at(data, at), field as u32, mask);
    let value = field as u32;
    assert((mask == 0x03ff_ffffu32 || mask == 0x001f_ffffu32) && value <= mask ==> value & mask
        == value) by (bit_vector);
}

/// A call relocation within the section succeeds exactly when the distance
/// fits 26 bits; it then encodes the distance and keeps the opcode.
/// Otherwise the branch is too far.
pub proof fn lemma_call26(reloc: Relocation, symbol_addr: u64, data: Seq<u8>)
    requires
        reloc.typ == R_AARCH64_CALL26,
        reloc.offset + 4 <= data.len(),
    ensures
        ({
            let field = branch_field(target_address(symbol_addr, reloc.addend), reloc.offset);
            let at = reloc.offset as int;
            if field <= CALL26_MASK {
                patched(reloc, symbol_addr, data) matches Ok(bytes) && word_at(bytes, at)
                    & CALL26_MASK == field && word_at(bytes, at) & !CALL26_MASK == word_at(data, at)
                    & !CALL26_MASK
            } else {
                patched(reloc, symbol_addr, data) == Err::<Seq<u8>, RelocationError>(
                    RelocationError::BranchTooFar { offset: reloc.offset },
                )
            }
        }),
{
    let field = branch_field(target_address(symbol_addr, reloc.addend), reloc.offset);
    if field <= CALL26_MASK {
        lemma_field_is_encoded(data, reloc.offset as int, field, CALL26_MASK);
    }
}

/// A page relocation within the section succeeds exactly when the page
/// distance fits 21 bits; it then encodes the distance and keeps the other
/// bits. Otherwise the target is too far.
pub proof fn lemma_adr_prel_pg_hi21(reloc: Relocation, symbol_addr: u64, data: Seq<u8>)
    requires
        reloc.typ == R_AARCH64_ADR_PREL_PG_HI21,
        reloc.offset + 4 <= data.len(),
    ensures
        ({
            let field = page_field(target_address(symbol_addr, reloc.addend), reloc.offset);
            let at = reloc.offset as int;
            if field <= HI21_MASK {
                patched(reloc, symbol_addr, data) matches Ok(bytes) && word_at(bytes, at)
                    & HI21_MASK == field && word_at(bytes, at) & !HI21_MASK == word_at(data, at)
                    & !HI21_MASK
            } else {
                patched(reloc, symbol_addr, data) == Err::<Seq<u8>, RelocationError>(
                    RelocationError::TargetTooFar { offset: reloc.offset },
                )
            }
        }),
{
    let field = page_field(target_address(symbol_addr, reloc.addend), reloc.offset);
    if field <= HI21_MASK {
        lemma_field_is_encoded(data, reloc.offset as int, field, HI21_MASK);
    }
}

/// The relocation type that goblin names `R_AARCH64_ABS64`, which its source
/// defines as 257.
#[verifier::external_body]
fn abs64_type() -> (typ: u32)
    ensures
        typ == R_AARCH64_ABS64,
{
    goblin::elf64::reloc::R_AARCH64_ABS64
}

/// The relocation type that goblin names `R_AARCH64_CALL26`, which its source
/// defines as 283.
#[verifier::external_body]
fn call26_type() -> (typ: u32)
    ensures
        typ == R_AARCH64_CALL26,
{
    goblin::elf64::reloc::R_AARCH64_CALL26
}

/// The relocation type that goblin names `R_AARCH64_ADR_PREL_PG_HI21`, which
/// its source defines as 275.
#[verifier::external_body]
fn adr_prel_pg_hi21_type() -> (typ: u32)
    ensures
        typ == R_AARCH64_ADR_PREL_PG_HI21,
{
    goblin::elf64::reloc::R_AARCH64_ADR_PREL_PG_HI21
}

/// Copies `bytes` into `data` from position `at` on.
pub(crate) fn store(data: &mut [u8], at: usize, bytes: &Vec<u8>)
    requires
        at + bytes.len() <= old(data).len(),
    ensures
        final(data)@ == overwrite(old(data)@, at as int, bytes@),
{
    let mut i: usize = 0;
    while i < bytes.len()
        invariant
            i <= bytes.len(),
            at + bytes.len() <= data.len(),
            data@ == overwrite(old(data)@, at as int, bytes@.take(i as int)),
        decreases bytes.len() - i,
    {
        data[at + i] = bytes[i];
        i += 1;
    }
    assert(bytes@.take(bytes.len() as int) == bytes@);
}

/// The number of bytes of the field that a relocation of type `typ` patches.
fn width_of(typ: u32) -> (width: u64)
    ensures
        width == field_width(typ),
{
    if typ == abs64_type() {
        8
    } else if typ == call26_type() || typ == adr_prel_pg_hi21_type() {
        4
    } else {
        0
    }
}

/// Whether the fields of two relocations of one section share a byte.
pub fn fields_meet(a: &Relocation, b: &Relocation) -> (meet: bool)
    ensures
        meet == fields_overlap(*a, *b),
{
    let a_width = width_of(a.typ);
    let b_width = width_of(b.typ);
    if a_width == 0 || b_width == 0 {
        false
    } else if a.offset >= b.offset {
        a.offset - b.offset < b_width
    } else {
        b.offset - a.offset < a_width
    }
}

/// Whether the field of record `n` shares a byte with that of an earlier
/// record.
fn meets_earlier(relocs: &Vec<Relocation>, n: usize) -> (meets: bool)
    requires
        n < relocs.len(),
    ensures
        meets == overlaps_earlier(relocs@, n as int),
{
    let mut k: usize = 0;
    while k < n
        invariant
            k <= n < relocs.len(),
            forall|j: int| 0 <= j < k ==> !fields_overlap(#[trigger] relocs@[j], relocs@[n as int]),
        decreases n - k,
    {
        if fields_meet(&relocs[k], &relocs[n]) {
            return true;
        }
        k += 1;
    }
    false
}

/// Whether a field of `width` bytes at `offset` reaches past `len` bytes.
fn out_of_bounds(offset: u64, width: usize, len: usize) -> (out: bool)
    ensures
        out == (offset + width > len),
{
    len < width || offset > (len - width) as u64
}

/// Replaces the bits under `mask` of the instruction word at `at`.
fn store_field(data: &mut [u8], at: usize, field: u64, mask: u32)
    requires
        at + 4 <= old(data).len(),
        field <= mask,
    ensures
        final(data)@ == patch_word(old(data)@, at as int, field, mask),
{
    let word = u32_from_le_bytes(slice_subrange(data, at, at + 4));
    let word = (word & !mask) | (field as u32 & mask);
    let bytes = u32_to_le_bytes(word);
    proof {
        lemma_auto_spec_u32_to_from_le_bytes();
    }
    store(data, at, &bytes);
}

/// A set of relocation records together with the addresses of the symbols
/// they refer to.
pub struct RelocationProcessor {
    relocations: Vec<Relocation>,
    symbol_addresses: HashMap<usize, u64>,
}

impl RelocationProcessor {
    /// The records, in the order in which they were added.
    pub closed spec fn relocations(&self) -> Seq<Relocation> {
        self.relocations@
    }

    /// The address known for each symbol index.
    pub closed spec fn addresses(&self) -> Map<usize, u64> {
        self.symbol_addresses@
    }

    /// A processor with no record and no address.
    pub fn new() -> (processor: Self)
        ensures
            processor.relocations() == Seq::<Relocation>::empty(),
            processor.addresses() == Map::<usize, u64>::empty(),
    {
        Self { relocations: Vec::new(), symbol_addresses: HashMap::new() }
    }

    /// Adds a record behind those already held.
    pub fn add_relocation(&mut self, reloc: Relocation)
        ensures
            final(self).relocations() == old(self).relocations().push(reloc),
            final(self).addresses() == old(self).addresses(),
    {
        self.relocations.push(reloc);
    }

    /// Records the address of a symbol, in place of any recorded before.
    pub fn set_symbol_address(&mut self, symbol_index: usize, address: u64)
        ensures
            final(self).addresses() == old(self).addresses().insert(symbol_index, address),
            final(self).relocations() == old(self).relocations(),
    {
        self.symbol_addresses.insert(symbol_index, address);
    }

    /// Applies the records in order to the bytes of one section. The first
    /// record that fails ends the run: the records before it stay applied,
    /// itself and those behind it are not. A record fails where its symbol
    /// has no address, where its field shares a byte with that of an
    /// earlier record, and where its patch fails.
    pub fn process_relocations(&self, section_data: &mut [u8]) -> (result: Result<(), LinkerError>)
        ensures
            final(section_data)@ == patched_all(
                self.relocations(),
                self.addresses(),
                old(section_data)@,
                self.relocations().len() as int,
            ).0,
            match patched_all(
                self.relocations(),
                self.addresses(),
                old(section_data)@,
                self.relocations().len() as int,
            ).1 {
                None => result is Ok,
                Some(e) => result == Err::<(), LinkerError>(LinkerError::Relocation(e)),
            },
    {
        let ghost relocs = self.relocations@;
        let ghost addresses = self.symbol_addresses@;
        let mut i: usize = 0;
        while i < self.relocations.len()
            invariant
                i <= relocs.len(),
                relocs == self.relocations@,
                addresses == self.symbol_addresses@,
                patched_all(relocs, addresses, old(section_data)@, i as int) == (
                    section_data@,
                    None::<RelocationError>,
                ),
            decreases relocs.len() - i,
        {
            let reloc = self.relocations[i];
            let step = match self.symbol_addresses.get(&reloc.symbol_index) {
                None => Err(RelocationError::SymbolNotFound { offset: reloc.offset }),
                Some(symbol_addr) => {
                    if meets_earlier(&self.relocations, i) {
                        Err(RelocationError::Overlap { offset: reloc.offset })
                    } else {
                        Self::patch(&reloc, *symbol_addr, section_data)
                    }
                },
            };
            if let Err(e) = step {
                proof {
                    lemma_patched_all_fails(
                        relocs,
                        addresses,
                        old(section_data)@,
                        i + 1,
                        relocs.len() as int,
                    );
                }
                return Err(LinkerError::Relocation(e));
            }
            i += 1;
        }
        Ok(())
    }

    /// Applies one record to the bytes of its section, given the final
    /// address of its symbol. On an error the bytes are left as they were.
    pub fn apply(reloc: &Relocation, symbol_addr: u64, data: &mut [u8]) -> (result: Result<
        (),
        LinkerError,
    >)
        ensures
            match patched(*reloc, symbol_addr, old(data)@) {
                Ok(bytes) => result is Ok && final(data)@ == bytes,
                Err(e) => result == Err::<(), LinkerError>(LinkerError::Relocation(e))
                    && final(data)@ == old(data)@,
            },
    {
        match Self::patch(reloc, symbol_addr, data) {
            Ok(()) => Ok(()),
            Err(e) => Err(LinkerError::Relocation(e)),
        }
    }

    /// Applies one record as `apply` does, and names the failure without
    /// wrapping it.
    pub fn patch(reloc: &Relocation, symbol_addr: u64, data: &mut [u8]) -> (result: Result<
        (),
        RelocationError,
    >)
        ensures
            match patched(*reloc, symbol_addr, old(data)@) {
                Ok(bytes) => result is Ok && final(data)@ == bytes,
                Err(e) => result == Err::<(), RelocationError>(e) && final(data)@ == old(data)@,
            },
    {
        if reloc.typ == abs64_type() {
            Self::handle_abs64(data, reloc, symbol_addr)
        } else if reloc.typ == call26_type() {
            Self::handle_call26(data, reloc, symbol_addr)
        } else if reloc.typ == adr_prel_pg_hi21_type() {
            Self::handle_adr_prel(data, reloc, symbol_addr)
        } else {
            Err(RelocationError::Unsupported { typ: reloc.typ })
        }
    }

    /// Writes the target address over the eight bytes at the record's offset,
    /// least significant byte first.
    pub fn handle_abs64(data: &mut [u8], reloc: &Relocation, symbol_addr: u64) -> (result: Result<
        (),
        RelocationError,
    >)
        ensures
            match abs64_patched(*reloc, symbol_addr, old(data)@) {
                Ok(bytes) => result is Ok && final(data)@ == bytes,
                Err(e) => result == Err::<(), RelocationError>(e) && final(data)@ == old(data)@,
            },
    {
        if out_of_bounds(reloc.offset, 8, data.len()) {
            return Err(RelocationError::InvalidOffset { offset: reloc.offset });
        }
        let value = symbol_addr.wrapping_add_signed(reloc.addend);
        let bytes = u64_to_le_bytes(value);
        proof {
            lemma_auto_spec_u64_to_from_le_bytes();
        }
        store(data, reloc.offset as usize, &bytes);
        Ok(())
    }

    /// Encodes the distance to the target, in words, in the low 26 bits of
    /// the instruction at the record's offset.
    pub fn handle_call26(data: &mut [u8], reloc: &Relocation, symbol_addr: u64) -> (result: Result<
        (),
        RelocationError,
    >)
        ensures
            match call26_patched(*reloc, symbol_addr, old(data)@) {
                Ok(bytes) => result is Ok && final(data)@ == bytes,
                Err(e) => result == Err::<(), RelocationError>(e) && final(data)@ == old(data)@,
            },
    {
        if out_of_bounds(reloc.offset, 4, data.len()) {
            return Err(RelocationError::InvalidOffset { offset: reloc.offset });
        }
        let pc = reloc.offset & !0x3;
        let target = symbol_addr.wrapping_add_signed(reloc.addend);
        let field = target.wrapping_sub(pc) >> 2;
        if field > CALL26_MASK as u64 {
            return Err(RelocationError::BranchTooFar { offset: reloc.offset });
        }
        store_field(data, reloc.offset as usize, field, CALL26_MASK);
        Ok(())
    }

    /// Encodes the distance to the target, in pages, in the low 21 bits of
    /// the instruction at the record's offset.
    pub fn handle_adr_prel(data: &mut [u8], reloc: &Relocation, symbol_addr: u64) -> (result:
        Result<(), RelocationError>)
        ensures
            match adr_prel_patched(*reloc, symbol_addr, old(data)@) {
                Ok(bytes) => result is Ok && final(data)@ == bytes,
                Err(e) => result == Err::<(), RelocationError>(e) && final(data)@ == old(data)@,
            },
    {
        if out_of_bounds(reloc.offset, 4, data.len()) {
            return Err(RelocationError::InvalidOffset { offset: reloc.offset });
        }
        let pc = reloc.offset & !0xfff;
        let target = symbol_addr.wrapping_add_signed(reloc.addend);
        let field = target.wrapping_sub(pc) >> 12;
        if field > HI21_MASK as u64 {
            return Err(RelocationError::TargetTooFar { offset: reloc.offset });
        }
        store_field(data, reloc.offset as usize, field, HI21_MASK);
        Ok(())
    }
}

} // verus!
