use arm64_linker::error::{LinkerError, RelocationError};
use arm64_linker::linker::relocation::{
    Relocation, RelocationProcessor, CALL26_MASK, HI21_MASK, R_AARCH64_ABS64,
    R_AARCH64_ADR_PREL_PG_HI21, R_AARCH64_CALL26,
};

fn word(data: &[u8], at: usize) -> u32 {
    u32::from_le_bytes([data[at], data[at + 1], data[at + 2], data[at + 3]])
}

fn reloc_error(result: Result<(), LinkerError>) -> RelocationError {
    match result {
        Err(LinkerError::Relocation(e)) => e,
        other => panic!("expected a relocation error, got {:?}", other),
    }
}

#[test]
fn relocation_types_are_those_of_the_object_format() {
    assert_eq!(R_AARCH64_ABS64, 257);
    assert_eq!(R_AARCH64_ADR_PREL_PG_HI21, 275);
    assert_eq!(R_AARCH64_CALL26, 283);
    assert_eq!(R_AARCH64_ABS64, goblin::elf64::reloc::R_AARCH64_ABS64);
    assert_eq!(R_AARCH64_ADR_PREL_PG_HI21, goblin::elf64::reloc::R_AARCH64_ADR_PREL_PG_HI21);
    assert_eq!(R_AARCH64_CALL26, goblin::elf64::reloc::R_AARCH64_CALL26);
    assert_eq!(CALL26_MASK, 0x03ff_ffff);
    assert_eq!(HI21_MASK, 0x001f_ffff);
}

#[test]
fn abs64_writes_target_little_endian() {
    let reloc = Relocation { offset: 4, symbol_index: 0, typ: R_AARCH64_ABS64, addend: 8 };
    let mut data = vec![0xaau8; 16];
    assert!(RelocationProcessor::apply(&reloc, 0x401000, &mut data).is_ok());
    assert_eq!(&data[4..12], &[0x08, 0x10, 0x40, 0, 0, 0, 0, 0]);
    let mut field = [0u8; 8];
    field.copy_from_slice(&data[4..12]);
    assert_eq!(u64::from_le_bytes(field), 0x401008);
    assert_eq!(&data[0..4], &[0xaa; 4]);
    assert_eq!(&data[12..16], &[0xaa; 4]);
}

#[test]
fn abs64_negative_addend_goes_below_the_symbol() {
    let reloc = Relocation { offset: 0, symbol_index: 0, typ: R_AARCH64_ABS64, addend: -16 };
    let mut data = vec![0u8; 8];
    assert!(RelocationProcessor::apply(&reloc, 0x401000, &mut data).is_ok());
    assert_eq!(u64::from_le_bytes([data[0], data[1], data[2], data[3], data[4], data[5], data[6], data[7]]), 0x400ff0);
}

#[test]
fn abs64_target_wraps_modulo_two_to_the_64() {
    let reloc = Relocation { offset: 0, symbol_index: 0, typ: R_AARCH64_ABS64, addend: 2 };
    let mut data = vec![0u8; 8];
    assert!(RelocationProcessor::apply(&reloc, u64::MAX, &mut data).is_ok());
    assert_eq!(data, vec![1, 0, 0, 0, 0, 0, 0, 0]);
    let reloc = Relocation { offset: 0, symbol_index: 0, typ: R_AARCH64_ABS64, addend: -1 };
    assert!(RelocationProcessor::apply(&reloc, 0, &mut data).is_ok());
    assert_eq!(data, vec![0xff; 8]);
}

#[test]
fn abs64_at_the_very_end_of_the_section_fits() {
    let reloc = Relocation { offset: 8, symbol_index: 0, typ: R_AARCH64_ABS64, addend: 0 };
    let mut data = vec![0u8; 16];
    assert!(RelocationProcessor::apply(&reloc, 0x1122334455667788, &mut data).is_ok());
    assert_eq!(&data[8..16], &[0x88, 0x77, 0x66, 0x55, 0x44, 0x33, 0x22, 0x11]);
}

#[test]
fn abs64_past_the_end_is_refused_and_changes_nothing() {
    let reloc = Relocation { offset: 9, symbol_index: 0, typ: R_AARCH64_ABS64, addend: 0 };
    let mut data = vec![0x55u8; 16];
    let e = reloc_error(RelocationProcessor::apply(&reloc, 0x401000, &mut data));
    assert_eq!(e, RelocationError::InvalidOffset { offset: 9 });
    assert_eq!(data, vec![0x55u8; 16]);
    let mut short = vec![0u8; 7];
    let reloc = Relocation { offset: 0, symbol_index: 0, typ: R_AARCH64_ABS64, addend: 0 };
    let e = reloc_error(RelocationProcessor::apply(&reloc, 0x401000, &mut short));
    assert_eq!(e, RelocationError::InvalidOffset { offset: 0 });
    let reloc = Relocation { offset: u64::MAX, symbol_index: 0, typ: R_AARCH64_ABS64, addend: 0 };
    let e = reloc_error(RelocationProcessor::apply(&reloc, 0x401000, &mut data));
    assert_eq!(e, RelocationError::InvalidOffset { offset: u64::MAX });
}

#[test]
fn call26_encodes_word_distance() {
    let mut data = vec![0u8; 0x1004];
    data[0x1000..0x1004].copy_from_slice(&0x9400_0000u32.to_le_bytes());
    let reloc = Relocation { offset: 0x1000, symbol_index: 0, typ: R_AARCH64_CALL26, addend: 0 };
    assert!(RelocationProcessor::apply(&reloc, 0x1000 + 0x100, &mut data).is_ok());
    let insn = word(&data, 0x1000);
    assert_eq!(insn & 0x03ff_ffff, 0x40);
    assert_eq!(insn, 0x9400_0040);
    assert!(data[..0x1000].iter().all(|b| *b == 0));
}

#[test]
fn call26_replaces_an_old_field_and_keeps_the_opcode() {
    let mut data = 0x97ff_ffffu32.to_le_bytes().to_vec();
    let reloc = Relocation { offset: 0, symbol_index: 0, typ: R_AARCH64_CALL26, addend: 4 };
    assert!(RelocationProcessor::apply(&reloc, 0x20, &mut data).is_ok());
    assert_eq!(word(&data, 0), 0x9400_0009);
}

#[test]
fn call26_measures_from_the_word_that_holds_the_offset() {
    let mut data = vec![0u8; 12];
    let reloc = Relocation { offset: 6, symbol_index: 0, typ: R_AARCH64_CALL26, addend: 0 };
    assert!(RelocationProcessor::apply(&reloc, 0x104, &mut data).is_ok());
    assert_eq!(word(&data, 6), (0x104 - 4) >> 2);
}

#[test]
fn call26_largest_distance_fits() {
    let mut data = 0x9400_0000u32.to_le_bytes().to_vec();
    let reloc = Relocation { offset: 0, symbol_index: 0, typ: R_AARCH64_CALL26, addend: 0 };
    assert!(RelocationProcessor::apply(&reloc, 0x03ff_ffff << 2, &mut data).is_ok());
    assert_eq!(word(&data, 0), 0x97ff_ffff);
    let mut data = 0x9400_0000u32.to_le_bytes().to_vec();
    assert!(RelocationProcessor::apply(&reloc, (0x03ff_ffff << 2) + 3, &mut data).is_ok());
    assert_eq!(word(&data, 0), 0x97ff_ffff);
}

#[test]
fn call26_too_far_is_refused_and_leaves_the_word() {
    let mut data = 0x9400_1234u32.to_le_bytes().to_vec();
    let reloc = Relocation { offset: 0, symbol_index: 0, typ: R_AARCH64_CALL26, addend: 0 };
    let e = reloc_error(RelocationProcessor::apply(&reloc, 0x0400_0000 << 2, &mut data));
    assert_eq!(e, RelocationError::BranchTooFar { offset: 0 });
    assert_eq!(word(&data, 0), 0x9400_1234);
}

#[test]
fn call26_backward_target_is_too_far() {
    let mut data = vec![0u8; 0x20];
    data[0x10..0x14].copy_from_slice(&0x9400_0000u32.to_le_bytes());
    let reloc = Relocation { offset: 0x10, symbol_index: 0, typ: R_AARCH64_CALL26, addend: 0 };
    let e = reloc_error(RelocationProcessor::apply(&reloc, 0x8, &mut data));
    assert_eq!(e, RelocationError::BranchTooFar { offset: 0x10 });
    assert_eq!(word(&data, 0x10), 0x9400_0000);
}

#[test]
fn call26_past_the_end_is_an_invalid_offset_before_anything_else() {
    let mut data = vec![0u8; 6];
    let reloc = Relocation { offset: 3, symbol_index: 0, typ: R_AARCH64_CALL26, addend: 0 };
    let e = reloc_error(RelocationProcessor::apply(&reloc, u64::MAX, &mut data));
    assert_eq!(e, RelocationError::InvalidOffset { offset: 3 });
    assert_eq!(data, vec![0u8; 6]);
}

#[test]
fn adr_prel_encodes_page_distance() {
    let mut data = vec![0u8; 0x2008];
    data[0x2004..0x2008].copy_from_slice(&0x9000_0000u32.to_le_bytes());
    let reloc =
        Relocation { offset: 0x2004, symbol_index: 0, typ: R_AARCH64_ADR_PREL_PG_HI21, addend: 0x10 };
    assert!(RelocationProcessor::apply(&reloc, 0x5ff0, &mut data).is_ok());
    // target 0x6000, page of the instruction 0x2000: four pages ahead
    assert_eq!(word(&data, 0x2004), 0x9000_0004);
}

#[test]
fn adr_prel_keeps_the_bits_above_the_field() {
    let mut data = 0xffff_ffffu32.to_le_bytes().to_vec();
    let reloc = Relocation { offset: 0, symbol_index: 0, typ: R_AARCH64_ADR_PREL_PG_HI21, addend: 0 };
    assert!(RelocationProcessor::apply(&reloc, 0x3fff, &mut data).is_ok());
    assert_eq!(word(&data, 0), 0xffe0_0003);
}

#[test]
fn adr_prel_largest_distance_fits_and_the_next_does_not() {
    let reloc = Relocation { offset: 0, symbol_index: 0, typ: R_AARCH64_ADR_PREL_PG_HI21, addend: 0 };
    let mut data = vec![0u8; 4];
    assert!(RelocationProcessor::apply(&reloc, 0x001f_ffff << 12, &mut data).is_ok());
    assert_eq!(word(&data, 0), 0x001f_ffff);
    let mut data = 0x9000_0abcu32.to_le_bytes().to_vec();
    let e = reloc_error(RelocationProcessor::apply(&reloc, 0x0020_0000 << 12, &mut data));
    assert_eq!(e, RelocationError::TargetTooFar { offset: 0 });
    assert_eq!(word(&data, 0), 0x9000_0abc);
}

#[test]
fn adr_prel_past_the_end_is_an_invalid_offset() {
    let mut data = vec![0u8; 4];
    let reloc = Relocation { offset: 1, symbol_index: 0, typ: R_AARCH64_ADR_PREL_PG_HI21, addend: 0 };
    let e = reloc_error(RelocationProcessor::apply(&reloc, 0x1000, &mut data));
    assert_eq!(e, RelocationError::InvalidOffset { offset: 1 });
    assert_eq!(data, vec![0u8; 4]);
}

#[test]
fn other_types_are_unsupported() {
    let mut data = vec![0x11u8; 16];
    for typ in [0u32, 1, 256, 258, 274, 276, 282, 284, 1024, u32::MAX] {
        let reloc = Relocation { offset: 0, symbol_index: 0, typ, addend: 0 };
        let e = reloc_error(RelocationProcessor::apply(&reloc, 0x1000, &mut data));
        assert_eq!(e, RelocationError::Unsupported { typ });
        assert_eq!(data, vec![0x11u8; 16]);
    }
}

#[test]
fn processor_applies_records_in_order() {
    let mut processor = RelocationProcessor::new();
    processor.set_symbol_address(3, 0x401000);
    processor.set_symbol_address(5, 0x100);
    processor.add_relocation(Relocation { offset: 12, symbol_index: 3, typ: R_AARCH64_ABS64, addend: 0 });
    processor.add_relocation(Relocation { offset: 8, symbol_index: 5, typ: R_AARCH64_CALL26, addend: 0 });
    processor.add_relocation(Relocation { offset: 0, symbol_index: 5, typ: R_AARCH64_ABS64, addend: 1 });
    let mut data = vec![0u8; 20];
    data[8..12].copy_from_slice(&0x9400_0000u32.to_le_bytes());
    assert!(processor.process_relocations(&mut data).is_ok());
    assert_eq!(&data[0..8], &[0x01, 0x01, 0, 0, 0, 0, 0, 0]);
    assert_eq!(word(&data, 8), 0x9400_0000 | ((0x100 - 8) >> 2));
    assert_eq!(&data[12..20], &[0x00, 0x10, 0x40, 0, 0, 0, 0, 0]);
}

#[test]
fn a_record_that_overlaps_an_earlier_one_is_refused() {
    let mut processor = RelocationProcessor::new();
    processor.set_symbol_address(0, 0x401000);
    processor.add_relocation(Relocation { offset: 0, symbol_index: 0, typ: R_AARCH64_ABS64, addend: 0 });
    processor.add_relocation(Relocation { offset: 4, symbol_index: 0, typ: R_AARCH64_ABS64, addend: 0 });
    let mut data = vec![0u8; 12];
    let e = reloc_error(processor.process_relocations(&mut data));
    assert_eq!(e, RelocationError::Overlap { offset: 4 });
    // the first record stays applied, the second wrote nothing
    assert_eq!(data, vec![0x00, 0x10, 0x40, 0, 0, 0, 0, 0, 0, 0, 0, 0]);
}

#[test]
fn overlap_is_told_by_the_width_of_each_field() {
    let run = |first: (u64, u32), second: (u64, u32)| {
        let mut processor = RelocationProcessor::new();
        processor.set_symbol_address(0, 0x40);
        processor.add_relocation(Relocation { offset: first.0, symbol_index: 0, typ: first.1, addend: 0 });
        processor.add_relocation(Relocation { offset: second.0, symbol_index: 0, typ: second.1, addend: 0 });
        let mut data = vec![0u8; 32];
        processor.process_relocations(&mut data)
    };
    // fields that touch share no byte
    assert!(run((0, R_AARCH64_ABS64), (8, R_AARCH64_ABS64)).is_ok());
    assert!(run((8, R_AARCH64_ABS64), (4, R_AARCH64_CALL26)).is_ok());
    assert!(run((4, R_AARCH64_CALL26), (8, R_AARCH64_ADR_PREL_PG_HI21)).is_ok());
    // one byte in common is enough, in either order
    assert_eq!(reloc_error(run((0, R_AARCH64_ABS64), (7, R_AARCH64_CALL26))), RelocationError::Overlap { offset: 7 });
    assert_eq!(reloc_error(run((7, R_AARCH64_CALL26), (0, R_AARCH64_ABS64))), RelocationError::Overlap { offset: 0 });
    assert_eq!(reloc_error(run((4, R_AARCH64_CALL26), (1, R_AARCH64_ADR_PREL_PG_HI21))), RelocationError::Overlap { offset: 1 });
    assert_eq!(reloc_error(run((4, R_AARCH64_CALL26), (4, R_AARCH64_CALL26))), RelocationError::Overlap { offset: 4 });
    // a type that is not patched has no field
    assert_eq!(reloc_error(run((0, R_AARCH64_ABS64), (0, 999))), RelocationError::Unsupported { typ: 999 });
}

#[test]
fn overlap_is_found_among_all_earlier_records() {
    let mut processor = RelocationProcessor::new();
    processor.set_symbol_address(0, 0x40);
    for offset in [16u64, 0, 8] {
        processor.add_relocation(Relocation { offset, symbol_index: 0, typ: R_AARCH64_ABS64, addend: 0 });
    }
    processor.add_relocation(Relocation { offset: 20, symbol_index: 0, typ: R_AARCH64_CALL26, addend: 0 });
    let mut data = vec![0u8; 24];
    let e = reloc_error(processor.process_relocations(&mut data));
    assert_eq!(e, RelocationError::Overlap { offset: 20 });
    assert_eq!(&data[16..24], &[0x40, 0, 0, 0, 0, 0, 0, 0]);
}

#[test]
fn a_symbol_without_address_is_reported_before_an_overlap() {
    let mut processor = RelocationProcessor::new();
    processor.set_symbol_address(0, 0x40);
    processor.add_relocation(Relocation { offset: 0, symbol_index: 0, typ: R_AARCH64_ABS64, addend: 0 });
    processor.add_relocation(Relocation { offset: 0, symbol_index: 1, typ: R_AARCH64_ABS64, addend: 0 });
    let mut data = vec![0u8; 8];
    let e = reloc_error(processor.process_relocations(&mut data));
    assert_eq!(e, RelocationError::SymbolNotFound { offset: 0 });
}

#[test]
fn the_handlers_patch_their_own_type() {
    let mut data = vec![0u8; 8];
    let reloc = Relocation { offset: 0, symbol_index: 0, typ: 0, addend: 1 };
    assert_eq!(RelocationProcessor::handle_abs64(&mut data, &reloc, 0x10), Ok(()));
    assert_eq!(data, vec![0x11, 0, 0, 0, 0, 0, 0, 0]);
    assert_eq!(RelocationProcessor::handle_call26(&mut data, &reloc, 0x3f), Ok(()));
    assert_eq!(word(&data, 0), 0x10);
    assert_eq!(RelocationProcessor::handle_adr_prel(&mut data, &reloc, 0x2fff), Ok(()));
    assert_eq!(word(&data, 0), 0x3);
    let far = Relocation { offset: 8, symbol_index: 0, typ: 0, addend: 0 };
    assert_eq!(RelocationProcessor::handle_abs64(&mut data, &far, 0), Err(RelocationError::InvalidOffset { offset: 8 }));
    assert_eq!(RelocationProcessor::handle_call26(&mut data, &far, 0), Err(RelocationError::InvalidOffset { offset: 8 }));
    assert_eq!(RelocationProcessor::handle_adr_prel(&mut data, &far, 0), Err(RelocationError::InvalidOffset { offset: 8 }));
    let plain = Relocation { offset: 0, symbol_index: 0, typ: 0, addend: 0 };
    assert_eq!(RelocationProcessor::handle_call26(&mut data, &plain, u64::MAX), Err(RelocationError::BranchTooFar { offset: 0 }));
    assert_eq!(RelocationProcessor::handle_adr_prel(&mut data, &plain, u64::MAX), Err(RelocationError::TargetTooFar { offset: 0 }));
    assert_eq!(RelocationProcessor::patch(&reloc, 0, &mut data), Err(RelocationError::Unsupported { typ: 0 }));
}

#[test]
fn processor_without_records_changes_nothing() {
    let processor = RelocationProcessor::new();
    let mut data = vec![7u8; 5];
    assert!(processor.process_relocations(&mut data).is_ok());
    assert_eq!(data, vec![7u8; 5]);
}

#[test]
fn processor_reports_a_symbol_without_address() {
    let mut processor = RelocationProcessor::new();
    processor.set_symbol_address(1, 0x1000);
    processor.add_relocation(Relocation { offset: 0x20, symbol_index: 2, typ: R_AARCH64_ABS64, addend: 0 });
    let mut data = vec![0u8; 64];
    let e = reloc_error(processor.process_relocations(&mut data));
    assert_eq!(e, RelocationError::SymbolNotFound { offset: 0x20 });
    assert_eq!(data, vec![0u8; 64]);
}

#[test]
fn processor_stops_at_the_first_failure() {
    let mut processor = RelocationProcessor::new();
    processor.set_symbol_address(0, 0xabcd);
    processor.add_relocation(Relocation { offset: 0, symbol_index: 0, typ: R_AARCH64_ABS64, addend: 0 });
    processor.add_relocation(Relocation { offset: 0, symbol_index: 0, typ: 999, addend: 0 });
    processor.add_relocation(Relocation { offset: 8, symbol_index: 0, typ: R_AARCH64_ABS64, addend: 0 });
    let mut data = vec![0u8; 16];
    let e = reloc_error(processor.process_relocations(&mut data));
    assert_eq!(e, RelocationError::Unsupported { typ: 999 });
    assert_eq!(&data[0..8], &[0xcd, 0xab, 0, 0, 0, 0, 0, 0]);
    assert_eq!(&data[8..16], &[0u8; 8]);
}

#[test]
fn processor_uses_the_address_set_last() {
    let mut processor = RelocationProcessor::new();
    processor.set_symbol_address(0, 0x1111);
    processor.set_symbol_address(0, 0x2222);
    processor.add_relocation(Relocation { offset: 0, symbol_index: 0, typ: R_AARCH64_ABS64, addend: 0 });
    let mut data = vec![0u8; 8];
    assert!(processor.process_relocations(&mut data).is_ok());
    assert_eq!(&data[0..2], &[0x22, 0x22]);
}
