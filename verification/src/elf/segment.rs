//! Segments: the loadable regions of the output.

use vstd::prelude::*;
use vstd::bytes::*;
use crate::elf::encode::{put_bytes, put_u32, put_u64};

verus! {

/// Segment type of a loadable region.
pub const PT_LOAD: u32 = 1;

/// Permission flags of a region that may be read, written and executed.
pub const PF_RWX: u32 = 7;

/// The alignment of a loadable region: one page of 4 KiB.
pub const PAGE_SIZE: u64 = 0x1000;

/// A region of the output that is loaded under one set of permissions.
#[derive(Debug)]
pub struct Segment {
    pub p_type: u32,
    pub p_flags: u32,
    pub p_offset: u64,
    pub p_vaddr: u64,
    pub p_paddr: u64,
    pub p_filesz: u64,
    pub p_memsz: u64,
    pub p_align: u64,
    pub data: Vec<u8>,
}

impl Clone for Segment {
    fn clone(&self) -> (copy: Self)
        ensures
            copy.data@ == self.data@,
            copy.p_type == self.p_type,
            copy.p_flags == self.p_flags,
            copy.p_offset == self.p_offset,
            copy.p_vaddr == self.p_vaddr,
            copy.p_paddr == self.p_paddr,
            copy.p_filesz == self.p_filesz,
            copy.p_memsz == self.p_memsz,
            copy.p_align == self.p_align,
    {
        Segment {
            p_type: self.p_type,
            p_flags: self.p_flags,
            p_offset: self.p_offset,
            p_vaddr: self.p_vaddr,
            p_paddr: self.p_paddr,
            p_filesz: self.p_filesz,
            p_memsz: self.p_memsz,
            p_align: self.p_align,
            data: self.data.clone(),
        }
    }
}

impl Segment {
    /// The program header of the segment: 56 bytes.
    pub open spec fn header_encoded(&self) -> Seq<u8> {
        spec_u32_to_le_bytes(self.p_type) + spec_u32_to_le_bytes(self.p_flags)
            + spec_u64_to_le_bytes(self.p_offset) + spec_u64_to_le_bytes(self.p_vaddr)
            + spec_u64_to_le_bytes(self.p_paddr) + spec_u64_to_le_bytes(self.p_filesz)
            + spec_u64_to_le_bytes(self.p_memsz) + spec_u64_to_le_bytes(self.p_align)
    }

    /// The segment with its data right behind its program header.
    pub open spec fn encoded(&self) -> Seq<u8> {
        self.header_encoded() + self.data@
    }

    /// A program header has 56 bytes, and an encoded segment is its data
    /// behind them.
    pub proof fn lemma_encoded_len(&self)
        ensures
            self.header_encoded().len() == 56,
            self.encoded().len() == 56 + self.data@.len(),
            self.encoded().skip(56) == self.data@,
    {
        lemma_auto_spec_u32_to_from_le_bytes();
        lemma_auto_spec_u64_to_from_le_bytes();
    }

    /// An empty loadable segment that may be read, written and executed,
    /// aligned to a page.
    pub fn new() -> (segment: Self)
        ensures
            segment.p_type == PT_LOAD,
            segment.p_flags == PF_RWX,
            segment.p_offset == 0,
            segment.p_vaddr == 0,
            segment.p_paddr == 0,
            segment.p_filesz == 0,
            segment.p_memsz == 0,
            segment.p_align == PAGE_SIZE,
            segment.data@ == Seq::<u8>::empty(),
    {
        Self {
            p_type: PT_LOAD,
            p_flags: PF_RWX,
            p_offset: 0,
            p_vaddr: 0,
            p_paddr: 0,
            p_filesz: 0,
            p_memsz: 0,
            p_align: PAGE_SIZE,
            data: Vec::new(),
        }
    }

    /// Appends the program header of the segment to `out`.
    pub fn write_header(&self, out: &mut Vec<u8>)
        ensures
            final(out)@ == old(out)@ + self.header_encoded(),
    {
        put_u32(out, self.p_type);
        put_u32(out, self.p_flags);
        put_u64(out, self.p_offset);
        put_u64(out, self.p_vaddr);
        put_u64(out, self.p_paddr);
        put_u64(out, self.p_filesz);
        put_u64(out, self.p_memsz);
        put_u64(out, self.p_align);
    }

    /// Appends the program header of the segment and then its data to
    /// `out`.
    pub fn write(&self, out: &mut Vec<u8>)
        ensures
            final(out)@ == old(out)@ + self.encoded(),
    {
        self.write_header(out);
        put_bytes(out, self.data.as_slice());
    }
}

} // verus!
