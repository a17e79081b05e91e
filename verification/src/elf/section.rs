//! Sections: named, typed and flagged runs of bytes.

use vstd::prelude::*;
use vstd::bytes::*;
use crate::elf::encode::{put_bytes, put_u32, put_u64};

verus! {

/// A section of an object file or of the output.
#[derive(Debug)]
pub struct Section {
    pub name: String,
    pub sh_type: u32,
    pub sh_flags: u64,
    pub sh_addr: u64,
    pub sh_offset: u64,
    pub sh_size: u64,
    pub sh_link: u32,
    pub sh_info: u32,
    pub sh_addralign: u64,
    pub sh_entsize: u64,
    pub data: Vec<u8>,
}

impl Clone for Section {
    fn clone(&self) -> (copy: Self)
        ensures
            copy.name@ == self.name@,
            copy.data@ == self.data@,
            copy.sh_type == self.sh_type,
            copy.sh_flags == self.sh_flags,
            copy.sh_addr == self.sh_addr,
            copy.sh_offset == self.sh_offset,
            copy.sh_size == self.sh_size,
            copy.sh_link == self.sh_link,
            copy.sh_info == self.sh_info,
            copy.sh_addralign == self.sh_addralign,
            copy.sh_entsize == self.sh_entsize,
    {
        Section {
            name: self.name.clone(),
            sh_type: self.sh_type,
            sh_flags: self.sh_flags,
            sh_addr: self.sh_addr,
            sh_offset: self.sh_offset,
            sh_size: self.sh_size,
            sh_link: self.sh_link,
            sh_info: self.sh_info,
            sh_addralign: self.sh_addralign,
            sh_entsize: self.sh_entsize,
            data: self.data.clone(),
        }
    }
}

impl Section {
    /// The section as it stands in a file: a header of 64 bytes, whose name
    /// offset is zero, then the data.
    pub open spec fn encoded(&self) -> Seq<u8> {
        spec_u32_to_le_bytes(0) + spec_u32_to_le_bytes(self.sh_type) + spec_u64_to_le_bytes(
            self.sh_flags,
        ) + spec_u64_to_le_bytes(self.sh_addr) + spec_u64_to_le_bytes(self.sh_offset)
            + spec_u64_to_le_bytes(self.sh_size) + spec_u32_to_le_bytes(self.sh_link)
            + spec_u32_to_le_bytes(self.sh_info) + spec_u64_to_le_bytes(self.sh_addralign)
            + spec_u64_to_le_bytes(self.sh_entsize) + self.data@
    }

    /// An encoded section is its data behind a header of 64 bytes.
    pub proof fn lemma_encoded_len(&self)
        ensures
            self.encoded().len() == 64 + self.data@.len(),
            self.encoded().skip(64) == self.data@,
    {
        lemma_auto_spec_u32_to_from_le_bytes();
        lemma_auto_spec_u64_to_from_le_bytes();
    }

    /// An empty section of the given name: no type, no flags, no address,
    /// alignment 1.
    pub fn new(name: &str) -> (section: Self)
        ensures
            section.name@ == name@,
            section.sh_type == 0,
            section.sh_flags == 0,
            section.sh_addr == 0,
            section.sh_offset == 0,
            section.sh_size == 0,
            section.sh_link == 0,
            section.sh_info == 0,
            section.sh_addralign == 1,
            section.sh_entsize == 0,
            section.data@ == Seq::<u8>::empty(),
    {
        Self {
            name: name.to_owned(),
            sh_type: 0,
            sh_flags: 0,
            sh_addr: 0,
            sh_offset: 0,
            sh_size: 0,
            sh_link: 0,
            sh_info: 0,
            sh_addralign: 1,
            sh_entsize: 0,
            data: Vec::new(),
        }
    }

    /// Appends the encoded section to `out`.
    pub fn write(&self, out: &mut Vec<u8>)
        ensures
            final(out)@ == old(out)@ + self.encoded(),
    {
        put_u32(out, 0);
        put_u32(out, self.sh_type);
        put_u64(out, self.sh_flags);
        put_u64(out, self.sh_addr);
        put_u64(out, self.sh_offset);
        put_u64(out, self.sh_size);
        put_u32(out, self.sh_link);
        put_u32(out, self.sh_info);
        put_u64(out, self.sh_addralign);
        put_u64(out, self.sh_entsize);
        put_bytes(out, self.data.as_slice());
    }
}

} // verus!
