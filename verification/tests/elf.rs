use mergehex_rs::elf::{elf_pairs, parse_elf_file, segments_overflow, Segment};
use mergehex_rs::MergehexError;

/// A little-endian ELF64 executable with one `PT_LOAD` program header.
fn elf_with_segment(p_flags: u32, vaddr: u64, data: &[u8]) -> Vec<u8> {
    let mut f = Vec::new();
    f.extend_from_slice(&[0x7f, b'E', b'L', b'F', 2, 1, 1, 0, 0, 0, 0, 0, 0, 0, 0, 0]);
    f.extend_from_slice(&2u16.to_le_bytes()); // e_type: EXEC
    f.extend_from_slice(&0x3eu16.to_le_bytes()); // e_machine: x86-64
    f.extend_from_slice(&1u32.to_le_bytes()); // e_version
    f.extend_from_slice(&vaddr.to_le_bytes()); // e_entry
    f.extend_from_slice(&64u64.to_le_bytes()); // e_phoff
    f.extend_from_slice(&0u64.to_le_bytes()); // e_shoff
    f.extend_from_slice(&0u32.to_le_bytes()); // e_flags
    f.extend_from_slice(&64u16.to_le_bytes()); // e_ehsize
    f.extend_from_slice(&56u16.to_le_bytes()); // e_phentsize
    f.extend_from_slice(&1u16.to_le_bytes()); // e_phnum
    f.extend_from_slice(&64u16.to_le_bytes()); // e_shentsize
    f.extend_from_slice(&0u16.to_le_bytes()); // e_shnum
    f.extend_from_slice(&0u16.to_le_bytes()); // e_shstrndx
    assert_eq!(f.len(), 64);
    f.extend_from_slice(&1u32.to_le_bytes()); // p_type: PT_LOAD
    f.extend_from_slice(&p_flags.to_le_bytes());
    f.extend_from_slice(&120u64.to_le_bytes()); // p_offset
    f.extend_from_slice(&vaddr.to_le_bytes()); // p_vaddr
    f.extend_from_slice(&vaddr.to_le_bytes()); // p_paddr
    f.extend_from_slice(&(data.len() as u64).to_le_bytes()); // p_filesz
    f.extend_from_slice(&(data.len() as u64).to_le_bytes()); // p_memsz
    f.extend_from_slice(&0x1000u64.to_le_bytes()); // p_align
    assert_eq!(f.len(), 120);
    f.extend_from_slice(data);
    f
}

#[test]
fn elf_loadable_segment_bytes() {
    let file = elf_with_segment(5, 0x8000, &[0xde, 0xad, 0xbe, 0xef]);
    let pairs = parse_elf_file(&file).unwrap().unwrap();
    assert_eq!(pairs, vec![(0x8000, 0xde), (0x8001, 0xad), (0x8002, 0xbe), (0x8003, 0xef)]);
}

#[test]
fn elf_segment_without_permissions_is_skipped() {
    let file = elf_with_segment(0, 0x8000, &[1, 2]);
    assert!(matches!(parse_elf_file(&file), Some(Err(MergehexError::ElfParse { .. }))));
}

#[test]
fn elf_rejects_garbage() {
    assert!(matches!(parse_elf_file(&[1, 2, 3, 4]), Some(Err(MergehexError::ElfParse { .. }))));
}

#[test]
fn elf_segment_past_the_address_space() {
    let file = elf_with_segment(4, u64::MAX - 1, &[1, 2, 3]);
    assert!(parse_elf_file(&file).is_none());
}

#[test]
fn segments_in_order_with_errors_and_empties() {
    let segs = vec![
        Segment { elf_p_flags: Some(4), address: 0x10, data: Ok(vec![1, 2]) },
        Segment { elf_p_flags: Some(0), address: 0x20, data: Err("unreadable".to_string()) },
        Segment { elf_p_flags: None, address: 0x30, data: Ok(vec![]) },
        Segment { elf_p_flags: None, address: 0x40, data: Ok(vec![3]) },
    ];
    assert!(!segments_overflow(&segs));
    assert_eq!(elf_pairs(&segs).unwrap(), vec![(0x10, 1), (0x11, 2), (0x40, 3)]);
    let failing = vec![
        Segment { elf_p_flags: Some(2), address: 0x10, data: Err("bad offset".to_string()) },
    ];
    match elf_pairs(&failing) {
        Err(MergehexError::ElfParse { detail }) => {
            assert_eq!(detail, "failed to read segment data: bad offset")
        }
        other => panic!("unexpected {:?}", other),
    }
    assert!(segments_overflow(&vec![Segment { elf_p_flags: None, address: u64::MAX, data: Ok(vec![1, 2]) }]));
}

#[test]
fn elf_without_loadable_bytes_detail() {
    let file = elf_with_segment(0, 0x8000, &[1, 2]);
    match parse_elf_file(&file) {
        Some(Err(MergehexError::ElfParse { detail })) => assert_eq!(detail, "no loadable segments found"),
        other => panic!("unexpected {:?}", other),
    }
}

#[test]
fn elf_parse_error_texts() {
    let detail = |data: &[u8]| match parse_elf_file(data) {
        Some(Err(MergehexError::ElfParse { detail })) => detail,
        other => panic!("unexpected {:?}", other),
    };
    assert_eq!(detail(&[1, 2, 3, 4]), "Could not read file magic");
    assert_eq!(detail(&[0u8; 16]), "Unknown file magic");
}
