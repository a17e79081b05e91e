//! The ELF file header.

use vstd::prelude::*;
use vstd::bytes::*;
use crate::elf::encode::{put_bytes, put_u16, put_u32, put_u64};

verus! {

/// The identification bytes of a 64-bit little-endian ELF file: the magic
/// number, the class, the byte order and the version, then padding.
pub open spec fn elf_ident() -> Seq<u8> {
    seq![0x7fu8, 0x45u8, 0x4cu8, 0x46u8, 2u8, 1u8, 1u8, 0u8, 0u8, 0u8, 0u8, 0u8, 0u8, 0u8, 0u8, 0u8]
}

/// The header at the start of an ELF file.
pub struct ElfHeader {
    pub e_ident: [u8; 16],
    pub e_type: u16,
    pub e_machine: u16,
    pub e_version: u32,
    pub e_entry: u64,
    pub e_phoff: u64,
    pub e_shoff: u64,
    pub e_flags: u32,
    pub e_ehsize: u16,
    pub e_phentsize: u16,
    pub e_phnum: u16,
    pub e_shentsize: u16,
    pub e_shnum: u16,
    pub e_shstrndx: u16,
}

impl Default for ElfHeader {
    /// The header of an AArch64 executable with one program header that
    /// follows the file header, no section headers, and entry 0x400000.
    fn default() -> (header: Self)
        ensures
            header == ElfHeader::default_header(),
            header.e_ident@ == elf_ident(),
    {
        let header = Self {
            e_ident: [0x7f, 0x45, 0x4c, 0x46, 2, 1, 1, 0, 0, 0, 0, 0, 0, 0, 0, 0],
            e_type: 2,
            e_machine: 183,
            e_version: 1,
            e_entry: 0x400000,
            e_phoff: 64,
            e_shoff: 0,
            e_flags: 0,
            e_ehsize: 64,
            e_phentsize: 56,
            e_phnum: 1,
            e_shentsize: 64,
            e_shnum: 0,
            e_shstrndx: 0,
        };
        assert(header.e_ident@ == elf_ident());
        assert(header.e_ident == ElfHeader::default_header().e_ident);
        header
    }
}

impl ElfHeader {
    /// The header that `default` returns.
    pub open spec fn default_header() -> ElfHeader {
        ElfHeader {
            e_ident: [0x7fu8, 0x45u8, 0x4cu8, 0x46u8, 2u8, 1u8, 1u8, 0u8, 0u8, 0u8, 0u8, 0u8, 0u8, 0u8, 0u8, 0u8],
            e_type: 2,
            e_machine: 183,
            e_version: 1,
            e_entry: 0x400000,
            e_phoff: 64,
            e_shoff: 0,
            e_flags: 0,
            e_ehsize: 64,
            e_phentsize: 56,
            e_phnum: 1,
            e_shentsize: 64,
            e_shnum: 0,
            e_shstrndx: 0,
        }
    }

    /// The 64 bytes of the header as they stand in a file: the
    /// identification, then each field in order, least significant byte
    /// first.
    pub open spec fn encoded(&self) -> Seq<u8> {
        self.e_ident@ + spec_u16_to_le_bytes(self.e_type) + spec_u16_to_le_bytes(self.e_machine)
            + spec_u32_to_le_bytes(self.e_version) + spec_u64_to_le_bytes(self.e_entry)
            + spec_u64_to_le_bytes(self.e_phoff) + spec_u64_to_le_bytes(self.e_shoff)
            + spec_u32_to_le_bytes(self.e_flags) + spec_u16_to_le_bytes(self.e_ehsize)
            + spec_u16_to_le_bytes(self.e_phentsize) + spec_u16_to_le_bytes(self.e_phnum)
            + spec_u16_to_le_bytes(self.e_shentsize) + spec_u16_to_le_bytes(self.e_shnum)
            + spec_u16_to_le_bytes(self.e_shstrndx)
    }

    /// An encoded header is 64 bytes long.
    pub proof fn lemma_encoded_len(&self)
        ensures
            self.encoded().len() == 64,
    {
        lemma_auto_spec_u16_to_from_le_bytes();
        lemma_auto_spec_u32_to_from_le_bytes();
        lemma_auto_spec_u64_to_from_le_bytes();
    }

    /// Appends the encoded header to `out`.
    pub fn write(&self, out: &mut Vec<u8>)
        ensures
            final(out)@ == old(out)@ + self.encoded(),
    {
        put_bytes(out, self.e_ident.as_slice());
        put_u16(out, self.e_type);
        put_u16(out, self.e_machine);
        put_u32(out, self.e_version);
        put_u64(out, self.e_entry);
        put_u64(out, self.e_phoff);
        put_u64(out, self.e_shoff);
        put_u32(out, self.e_flags);
        put_u16(out, self.e_ehsize);
        put_u16(out, self.e_phentsize);
        put_u16(out, self.e_phnum);
        put_u16(out, self.e_shentsize);
        put_u16(out, self.e_shnum);
        put_u16(out, self.e_shstrndx);
    }
}

} // verus!
