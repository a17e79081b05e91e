use arm64_linker::elf::Section;
use arm64_linker::error::{LayoutError, LinkerError};
use arm64_linker::linker::layout::layout;

fn part(name: &str, sh_type: u32, len: usize) -> Section {
    let mut section = Section::new(name);
    section.sh_type = sh_type;
    section.data = vec![0xab; len];
    section
}

#[test]
fn no_sections_make_an_empty_image_at_the_base() {
    let placed = layout(&Vec::new(), 0x400000).unwrap();
    assert!(placed.addresses.is_empty());
    assert_eq!(placed.origin, 0x400000);
    assert_eq!(placed.end, 0x400000);
}

#[test]
fn distinct_sections_start_on_pages_in_order() {
    let text = part(".text", 1, 0x10);
    let data = part(".data", 1, 0x1001);
    let bss = part(".bss", 8, 1);
    let placed = layout(&vec![&text, &data, &bss], 0x400000).unwrap();
    assert_eq!(placed.addresses, vec![0x400000, 0x401000, 0x403000]);
    assert_eq!(placed.origin, 0x400000);
    assert_eq!(placed.end, 0x403001);
}

#[test]
fn sections_of_one_name_and_type_follow_one_another() {
    let a = part(".text", 1, 8);
    let b = part(".data", 1, 4);
    let c = part(".text", 1, 6);
    let d = part(".data", 1, 2);
    let e = part(".text", 1, 1);
    let placed = layout(&vec![&a, &b, &c, &d, &e], 0x400000).unwrap();
    assert_eq!(placed.addresses, vec![0x400000, 0x401000, 0x400008, 0x401004, 0x40000e]);
    assert_eq!(placed.end, 0x401006);
}

#[test]
fn same_name_with_another_type_is_another_output_section() {
    let a = part(".note", 7, 4);
    let b = part(".note", 1, 4);
    let c = part(".note", 7, 4);
    let placed = layout(&vec![&a, &b, &c], 0x10000).unwrap();
    assert_eq!(placed.addresses, vec![0x10000, 0x11000, 0x10004]);
    assert_eq!(placed.end, 0x11004);
}

#[test]
fn an_unaligned_base_is_rounded_up_to_a_page() {
    let a = part(".text", 1, 4);
    let placed = layout(&vec![&a], 0x400001).unwrap();
    assert_eq!(placed.origin, 0x401000);
    assert_eq!(placed.addresses, vec![0x401000]);
    assert_eq!(placed.end, 0x401004);
    let placed = layout(&vec![&a], 0xfff).unwrap();
    assert_eq!(placed.origin, 0x1000);
    let placed = layout(&vec![&a], 0).unwrap();
    assert_eq!((placed.origin, placed.end), (0, 4));
}

#[test]
fn empty_sections_take_no_room() {
    let null = part("", 0, 0);
    let text = part(".text", 1, 0x20);
    let other = part("", 0, 0);
    let data = part(".data", 1, 0);
    let last = part(".last", 1, 1);
    let placed = layout(&vec![&null, &text, &other, &data, &last], 0x400000).unwrap();
    assert_eq!(placed.addresses, vec![0x400000, 0x400000, 0x400000, 0x401000, 0x401000]);
    assert_eq!(placed.end, 0x401001);
}

#[test]
fn a_section_that_fills_its_page_pushes_the_next_by_one_page() {
    let a = part(".a", 1, 0x1000);
    let b = part(".b", 1, 1);
    let placed = layout(&vec![&a, &b], 0x400000).unwrap();
    assert_eq!(placed.addresses, vec![0x400000, 0x401000]);
}

#[test]
fn an_image_past_the_address_space_is_refused() {
    let a = part(".text", 1, 1);
    match layout(&vec![&a], u64::MAX - 10) {
        Err(LinkerError::Section(LayoutError::AddressOverflow)) => {}
        other => panic!("expected an address overflow, got {:?}", other.map(|p| p.addresses)),
    }
    match layout(&Vec::new(), u64::MAX) {
        Err(LinkerError::Section(LayoutError::AddressOverflow)) => {}
        other => panic!("expected an address overflow, got {:?}", other.map(|p| p.addresses)),
    }
    let page = part(".text", 1, 0x1000);
    let more = part(".data", 1, 1);
    match layout(&vec![&page, &more], 0xffff_ffff_ffff_f000) {
        Err(LinkerError::Section(LayoutError::AddressOverflow)) => {}
        other => panic!("expected an address overflow, got {:?}", other.map(|p| p.addresses)),
    }
}

#[test]
fn an_image_that_ends_with_the_address_space_fits() {
    let a = part(".text", 1, 0xfff);
    let placed = layout(&vec![&a], 0xffff_ffff_ffff_f000).unwrap();
    assert_eq!(placed.addresses, vec![0xffff_ffff_ffff_f000]);
    assert_eq!(placed.end, u64::MAX);
}
