use arm64_linker::elf::{ElfFile, ElfHeader, Section, Segment};

#[test]
fn default_header_describes_an_aarch64_executable() {
    let header = ElfHeader::default();
    assert_eq!(header.e_ident, [0x7f, b'E', b'L', b'F', 2, 1, 1, 0, 0, 0, 0, 0, 0, 0, 0, 0]);
    assert_eq!(header.e_type, 2);
    assert_eq!(header.e_machine, 183);
    assert_eq!(header.e_version, 1);
    assert_eq!(header.e_entry, 0x400000);
    assert_eq!(header.e_phoff, 64);
    assert_eq!(header.e_shoff, 0);
    assert_eq!(header.e_flags, 0);
    assert_eq!(header.e_ehsize, 64);
    assert_eq!(header.e_phentsize, 56);
    assert_eq!(header.e_phnum, 1);
    assert_eq!(header.e_shentsize, 64);
    assert_eq!(header.e_shnum, 0);
    assert_eq!(header.e_shstrndx, 0);
}

#[test]
fn header_is_written_field_by_field_little_endian() {
    let mut out = vec![0xee];
    ElfHeader::default().write(&mut out);
    let expected: Vec<u8> = vec![
        0xee, // what was there before
        0x7f, 0x45, 0x4c, 0x46, 0x02, 0x01, 0x01, 0x00, 0, 0, 0, 0, 0, 0, 0, 0, // e_ident
        0x02, 0x00, // e_type
        0xb7, 0x00, // e_machine
        0x01, 0x00, 0x00, 0x00, // e_version
        0x00, 0x00, 0x40, 0x00, 0x00, 0x00, 0x00, 0x00, // e_entry
        0x40, 0x00, 0x00, 0x00, 0x00, 0x00, 0x00, 0x00, // e_phoff
        0x00, 0x00, 0x00, 0x00, 0x00, 0x00, 0x00, 0x00, // e_shoff
        0x00, 0x00, 0x00, 0x00, // e_flags
        0x40, 0x00, // e_ehsize
        0x38, 0x00, // e_phentsize
        0x01, 0x00, // e_phnum
        0x40, 0x00, // e_shentsize
        0x00, 0x00, // e_shnum
        0x00, 0x00, // e_shstrndx
    ];
    assert_eq!(out, expected);
    assert_eq!(out.len(), 65);
}

#[test]
fn header_fields_keep_their_byte_order() {
    let mut header = ElfHeader::default();
    header.e_type = 0x0102;
    header.e_machine = 0x0304;
    header.e_version = 0x0506_0708;
    header.e_entry = 0x1112_1314_1516_1718;
    header.e_phoff = 0x2122_2324_2526_2728;
    header.e_shoff = 0x3132_3334_3536_3738;
    header.e_flags = 0x4142_4344;
    header.e_ehsize = 0x5152;
    header.e_phentsize = 0x5354;
    header.e_phnum = 0x5556;
    header.e_shentsize = 0x5758;
    header.e_shnum = 0x595a;
    header.e_shstrndx = 0x5b5c;
    let mut out = Vec::new();
    header.write(&mut out);
    assert_eq!(out.len(), 64);
    assert_eq!(&out[16..18], &[0x02, 0x01]);
    assert_eq!(&out[18..20], &[0x04, 0x03]);
    assert_eq!(&out[20..24], &[0x08, 0x07, 0x06, 0x05]);
    assert_eq!(&out[24..32], &[0x18, 0x17, 0x16, 0x15, 0x14, 0x13, 0x12, 0x11]);
    assert_eq!(&out[32..40], &[0x28, 0x27, 0x26, 0x25, 0x24, 0x23, 0x22, 0x21]);
    assert_eq!(&out[40..48], &[0x38, 0x37, 0x36, 0x35, 0x34, 0x33, 0x32, 0x31]);
    assert_eq!(&out[48..52], &[0x44, 0x43, 0x42, 0x41]);
    assert_eq!(&out[52..64], &[0x52, 0x51, 0x54, 0x53, 0x56, 0x55, 0x58, 0x57, 0x5a, 0x59, 0x5c, 0x5b]);
}

#[test]
fn new_section_is_empty_with_alignment_one() {
    let section = Section::new(".text");
    assert_eq!(section.name, ".text");
    assert_eq!(section.sh_type, 0);
    assert_eq!(section.sh_flags, 0);
    assert_eq!(section.sh_addr, 0);
    assert_eq!(section.sh_offset, 0);
    assert_eq!(section.sh_size, 0);
    assert_eq!(section.sh_link, 0);
    assert_eq!(section.sh_info, 0);
    assert_eq!(section.sh_addralign, 1);
    assert_eq!(section.sh_entsize, 0);
    assert!(section.data.is_empty());
}

#[test]
fn section_is_written_as_header_then_data() {
    let mut section = Section::new(".data");
    section.sh_type = 1;
    section.sh_flags = 3;
    section.sh_addr = 0x401000;
    section.sh_offset = 0x1000;
    section.sh_size = 3;
    section.sh_link = 5;
    section.sh_info = 6;
    section.sh_addralign = 8;
    section.sh_entsize = 0x10;
    section.data = vec![0xde, 0xad, 0xbe];
    let mut out = Vec::new();
    section.write(&mut out);
    let expected: Vec<u8> = vec![
        0, 0, 0, 0, // sh_name
        1, 0, 0, 0, // sh_type
        3, 0, 0, 0, 0, 0, 0, 0, // sh_flags
        0x00, 0x10, 0x40, 0, 0, 0, 0, 0, // sh_addr
        0x00, 0x10, 0, 0, 0, 0, 0, 0, // sh_offset
        3, 0, 0, 0, 0, 0, 0, 0, // sh_size
        5, 0, 0, 0, // sh_link
        6, 0, 0, 0, // sh_info
        8, 0, 0, 0, 0, 0, 0, 0, // sh_addralign
        0x10, 0, 0, 0, 0, 0, 0, 0, // sh_entsize
        0xde, 0xad, 0xbe, // data
    ];
    assert_eq!(out, expected);
    assert_eq!(out.len(), 64 + 3);
}

#[test]
fn section_clone_is_equal_in_every_field() {
    let mut section = Section::new(".rodata");
    section.sh_type = 1;
    section.sh_flags = 2;
    section.data = vec![1, 2, 3];
    let copy = section.clone();
    assert_eq!(copy.name, ".rodata");
    assert_eq!(copy.sh_type, 1);
    assert_eq!(copy.sh_flags, 2);
    assert_eq!(copy.sh_addralign, 1);
    assert_eq!(copy.data, vec![1, 2, 3]);
}

#[test]
fn new_segment_is_loadable_with_all_permissions() {
    let segment = Segment::new();
    assert_eq!(segment.p_type, 1);
    assert_eq!(segment.p_flags, 7);
    assert_eq!(segment.p_offset, 0);
    assert_eq!(segment.p_vaddr, 0);
    assert_eq!(segment.p_paddr, 0);
    assert_eq!(segment.p_filesz, 0);
    assert_eq!(segment.p_memsz, 0);
    assert_eq!(segment.p_align, 0x1000);
    assert!(segment.data.is_empty());
}

#[test]
fn segment_is_written_as_program_header_then_data() {
    let mut segment = Segment::new();
    segment.p_offset = 0x78;
    segment.p_vaddr = 0x400000;
    segment.p_paddr = 0x500000;
    segment.p_filesz = 2;
    segment.p_memsz = 4;
    segment.data = vec![0xca, 0xfe];
    let mut out = Vec::new();
    segment.write(&mut out);
    let expected: Vec<u8> = vec![
        1, 0, 0, 0, // p_type
        7, 0, 0, 0, // p_flags
        0x78, 0, 0, 0, 0, 0, 0, 0, // p_offset
        0, 0, 0x40, 0, 0, 0, 0, 0, // p_vaddr
        0, 0, 0x50, 0, 0, 0, 0, 0, // p_paddr
        2, 0, 0, 0, 0, 0, 0, 0, // p_filesz
        4, 0, 0, 0, 0, 0, 0, 0, // p_memsz
        0, 0x10, 0, 0, 0, 0, 0, 0, // p_align
        0xca, 0xfe, // data
    ];
    assert_eq!(out, expected);
    let copy = segment.clone();
    assert_eq!((copy.p_type, copy.p_flags, copy.p_offset, copy.p_vaddr), (1, 7, 0x78, 0x400000));
    assert_eq!((copy.p_paddr, copy.p_filesz, copy.p_memsz, copy.p_align), (0x500000, 2, 4, 0x1000));
    assert_eq!(copy.data, vec![0xca, 0xfe]);
}

#[test]
fn new_file_has_the_default_header_and_nothing_else() {
    let file = ElfFile::new();
    assert_eq!(file.header.e_entry, 0x400000);
    assert_eq!(file.header.e_machine, 183);
    assert!(file.sections.is_empty());
    assert!(file.segments.is_empty());
    let mut header = Vec::new();
    ElfHeader::default().write(&mut header);
    assert_eq!(file.to_bytes(), header);
}

#[test]
fn file_is_headers_then_segment_data_then_sections() {
    let mut file = ElfFile::new();
    file.header.e_entry = 0x401000;
    let mut first = Segment::new();
    first.p_offset = 0x100;
    first.data = vec![1, 2, 3];
    let mut second = Segment::new();
    second.p_flags = 5;
    second.p_offset = 0x80;
    second.data = vec![4];
    let mut section = Section::new(".text");
    section.data = vec![9, 9];
    file.segments.push(first.clone());
    file.segments.push(second.clone());
    file.sections.push(section.clone());
    let mut expected = Vec::new();
    file.header.write(&mut expected);
    first.write_header(&mut expected);
    second.write_header(&mut expected);
    assert_eq!(expected.len(), 64 + 56 + 56);
    // zeros up to the offset of the first segment, then its data
    expected.resize(0x100, 0);
    expected.extend([1, 2, 3]);
    // the file is past the offset of the second: its data follows at once
    expected.extend([4]);
    section.write(&mut expected);
    let bytes = file.to_bytes();
    assert_eq!(bytes, expected);
    assert_eq!(bytes.len(), 0x100 + 3 + 1 + (64 + 2));
    assert_eq!(&bytes[24..32], &[0x00, 0x10, 0x40, 0, 0, 0, 0, 0]);
    assert_eq!(&bytes[0x100..0x103], &[1, 2, 3]);
    assert_eq!(bytes[64 + 56 + 4], 5);
    assert_eq!(&bytes[bytes.len() - 2..], &[9, 9]);
}

#[test]
fn a_segment_is_its_data_behind_its_program_header() {
    let mut segment = Segment::new();
    segment.p_offset = 0x1000;
    segment.data = vec![7, 8];
    let mut header = Vec::new();
    segment.write_header(&mut header);
    assert_eq!(header.len(), 56);
    assert_eq!(&header[8..16], &[0, 0x10, 0, 0, 0, 0, 0, 0]);
    let mut whole = Vec::new();
    segment.write(&mut whole);
    assert_eq!(&whole[..56], &header[..]);
    assert_eq!(&whole[56..], &[7, 8]);
}

#[test]
fn segment_data_at_the_end_of_the_headers_needs_no_padding() {
    let mut file = ElfFile::new();
    let mut segment = Segment::new();
    segment.p_offset = 120;
    segment.data = vec![5; 4];
    file.segments.push(segment);
    let bytes = file.to_bytes();
    assert_eq!(bytes.len(), 124);
    assert_eq!(&bytes[120..], &[5, 5, 5, 5]);
}
