use mw3rando::script::{dialogue_decodes, read_dialogue, DialogueEvent};
use mw3rando::words::{JUMP_END_ADDRESS, JUMP_START_ADDRESS};

use mw3rando::text::Dialogue;
use mw3rando::words::WordList;

fn rom_with_word_at(entry: usize, word: &[u8], dialogue_at: usize, dialogue: &[u8]) -> (Vec<u8>, usize) {
    let mut rom = vec![0u8; JUMP_END_ADDRESS + 0x100];
    let word_addr = JUMP_END_ADDRESS + 0x10;
    rom[word_addr..word_addr + word.len()].copy_from_slice(word);
    let off = (word_addr - JUMP_START_ADDRESS) as u16;
    rom[JUMP_START_ADDRESS + 2 * entry] = (off >> 8) as u8;
    rom[JUMP_START_ADDRESS + 2 * entry + 1] = off as u8;
    rom[dialogue_at..dialogue_at + dialogue.len()].copy_from_slice(dialogue);
    (rom, word_addr)
}

#[test]
fn decodes_control_codes() {
    let rom = vec![0x03, 0x02, 0x04, 0x01, 0x05, 0x09, 0x0a, 0x07, 0x0b, 0x0a, 0x25, 0x0b, 0x08, 0x33, 0x0b, 0x10, 0x20, 0x41, 0x21, 0x7f, 0x00];
    let events = read_dialogue(&rom, 0, 0);
    assert_eq!(
        events,
        vec![
            (0, DialogueEvent::Address(0)),
            (0, DialogueEvent::TextSpeed(2)),
            (0, DialogueEvent::Indent(1)),
            (0, DialogueEvent::WaitForInput),
            (0, DialogueEvent::NewLine),
            (0, DialogueEvent::LineIndent(7)),
            (0, DialogueEvent::SetCurrentItem(0x25)),
            (0, DialogueEvent::RewardItem(0x33)),
            (0, DialogueEvent::UnknownCall(0x20)),
            (0, DialogueEvent::Space),
            (0, DialogueEvent::Char(b'A')),
            (0, DialogueEvent::Char(b'!')),
            (0, DialogueEvent::Unknown(0x7f)),
            (0, DialogueEvent::End),
        ]
    );
}

#[test]
fn decodes_word_reference_one_level_deeper() {
    let (rom, word_addr) = rom_with_word_at(3, &[b'H', b'i', 0x00], 0x10, &[0x0c, 3, b'!', 0x00]);
    let events = read_dialogue(&rom, 0x10, 1);
    assert_eq!(
        events,
        vec![
            (1, DialogueEvent::Address(0x10)),
            (1, DialogueEvent::JumpTo(word_addr)),
            (2, DialogueEvent::Address(word_addr)),
            (2, DialogueEvent::Char(b'H')),
            (2, DialogueEvent::Char(b'i')),
            (2, DialogueEvent::End),
            (1, DialogueEvent::Char(b'!')),
            (1, DialogueEvent::End),
        ]
    );
}

#[test]
fn reading_past_the_rom_fails() {
    assert!(!dialogue_decodes(&vec![0x41, 0x42], 0, 0));
    assert!(!dialogue_decodes(&vec![0x03], 0, 0));
    assert!(!dialogue_decodes(&vec![0x00], 1, 0));
}

#[test]
fn unknown_call_with_high_offset_fails() {
    assert!(!dialogue_decodes(&vec![0x0b, 0x80, 0x00], 0, 0));
    assert_eq!(read_dialogue(&vec![0x0b, 0x7f, 0x00], 0, 0)[1], (0, DialogueEvent::UnknownCall(0xfe)));
}

#[test]
fn word_reference_outside_the_table_fails() {
    assert!(!dialogue_decodes(&vec![0x0c, 0x00, 0x00], 0, 0));
}

#[test]
fn self_referencing_word_fails_at_depth_limit() {
    let mut rom = vec![0u8; JUMP_END_ADDRESS + 0x10];
    let word_addr = JUMP_END_ADDRESS;
    rom[word_addr] = 0x0c;
    rom[word_addr + 1] = 0;
    let off = (word_addr - JUMP_START_ADDRESS) as u16;
    rom[JUMP_START_ADDRESS] = (off >> 8) as u8;
    rom[JUMP_START_ADDRESS + 1] = off as u8;
    assert!(!dialogue_decodes(&rom, word_addr, 0));
}

#[test]
fn decoding_a_built_dialogue_gives_it_back() {
    let wl = WordList::new();
    let mut d = Dialogue::new(&wl);
    let bytes = d.speed(2).text("Hi 2!").eol().set_item(5).give_item(6).indent(1).finish();
    let mut rom = vec![0xffu8; 3];
    rom.extend_from_slice(&bytes);
    let events = read_dialogue(&rom, 3, 4);
    assert_eq!(
        events,
        vec![
            (4, DialogueEvent::Address(3)),
            (4, DialogueEvent::TextSpeed(2)),
            (4, DialogueEvent::Char(b'H')),
            (4, DialogueEvent::Char(b'i')),
            (4, DialogueEvent::Space),
            (4, DialogueEvent::Unknown(b'2')),
            (4, DialogueEvent::Char(b'!')),
            (4, DialogueEvent::NewLine),
            (4, DialogueEvent::SetCurrentItem(5)),
            (4, DialogueEvent::RewardItem(6)),
            (4, DialogueEvent::Indent(1)),
            (4, DialogueEvent::WaitForInput),
            (4, DialogueEvent::End),
        ]
    );
}

#[test]
fn decodable_dialogues_are_reported() {
    assert!(dialogue_decodes(&vec![0x41, 0x00], 0, 0));
    assert!(dialogue_decodes(&vec![0xff, 0x41, 0x00], 1, 255));
}

#[test]
fn decoding_ignores_bytes_after_the_end() {
    let a = vec![0x03, 0x01, 0x41, 0x00, 0x11, 0x22];
    let b = vec![0x03, 0x01, 0x41, 0x00];
    assert_eq!(read_dialogue(&a, 0, 2), read_dialogue(&b, 0, 2));
}
