use mw3rando::patch::{patch, placeholders_valid};

#[test]
fn patch_copies_plain_routine() {
    let mut rom = vec![0u8; 10];
    let range = patch(&mut rom, 3, vec![1, 2, 3], vec![]);
    assert_eq!(range, (3, 6));
    assert_eq!(rom, vec![0, 0, 0, 1, 2, 3, 0, 0, 0, 0]);
}

#[test]
fn patch_fills_placeholder_big_endian() {
    let mut rom = vec![0xaau8; 8];
    let range = patch(&mut rom, 1, vec![0x4e, 0xfe, 0xed, 0xed, 0x01, 0x75], vec![7, 0x12345678]);
    assert_eq!(range, (1, 7));
    assert_eq!(rom, vec![0xaa, 0x4e, 0x12, 0x34, 0x56, 0x78, 0x75, 0xaa]);
}

#[test]
fn patch_fills_every_placeholder() {
    let mut rom = vec![0u8; 8];
    patch(&mut rom, 0, vec![0xfe, 0xed, 0xed, 0x00, 0xfe, 0xed, 0xed, 0x00], vec![0xa5010]);
    assert_eq!(rom, vec![0x00, 0x0a, 0x50, 0x10, 0x00, 0x0a, 0x50, 0x10]);
}

#[test]
fn patch_at_end_of_rom() {
    let mut rom = vec![9u8; 4];
    let range = patch(&mut rom, 2, vec![1, 2], vec![]);
    assert_eq!(range, (2, 4));
    assert_eq!(rom, vec![9, 9, 1, 2]);
}

#[test]
fn patch_empty_routine_changes_nothing() {
    let mut rom = vec![5u8; 3];
    assert_eq!(patch(&mut rom, 3, vec![], vec![]), (3, 3));
    assert_eq!(rom, vec![5, 5, 5]);
}

#[test]
fn partial_marker_is_copied() {
    let mut rom = vec![0u8; 4];
    patch(&mut rom, 0, vec![0xfe, 0xed, 0x00, 0xed], vec![]);
    assert_eq!(rom, vec![0xfe, 0xed, 0x00, 0xed]);
}

#[test]
fn placeholders_validity() {
    assert!(placeholders_valid(&[1, 2, 3], &[]));
    assert!(placeholders_valid(&[0xfe, 0xed, 0xed, 0x00], &[5]));
    assert!(!placeholders_valid(&[0xfe, 0xed, 0xed, 0x01], &[5]));
    assert!(!placeholders_valid(&[0x00, 0xfe, 0xed, 0xed], &[5]));
    assert!(placeholders_valid(&[0xfe, 0xed], &[]));
}

#[test]
fn routine_without_marker_is_copied_verbatim() {
    let data = vec![0x4e, 0x75, 0xfe, 0xed, 0x4e, 0x71];
    assert!(placeholders_valid(&data, &[]));
    let mut rom = vec![1u8; 8];
    patch(&mut rom, 1, data.clone(), vec![]);
    assert_eq!(&rom[1..7], data.as_slice());
    assert_eq!(rom[0], 1);
    assert_eq!(rom[7], 1);
}

#[test]
fn empty_routine_may_be_placed_past_the_end() {
    let mut rom = vec![3u8; 2];
    assert_eq!(patch(&mut rom, 10, vec![], vec![]), (10, 10));
    assert_eq!(rom, vec![3, 3]);
}
