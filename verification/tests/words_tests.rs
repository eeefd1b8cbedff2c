use mw3rando::words::{build_word_list, get_jump_address, get_word, word_table_readable, WordList, JUMP_END_ADDRESS, JUMP_START_ADDRESS, WORD_COUNT};

/// A ROM whose word table points entry `i` at `words[i]`, every later entry at
/// the last word.
fn rom_with_words(words: &[&str]) -> Vec<u8> {
    let mut rom = vec![0u8; JUMP_END_ADDRESS + 0x400];
    let mut next = JUMP_END_ADDRESS + 1;
    let mut addrs = Vec::new();
    for w in words {
        addrs.push(next);
        for b in w.bytes() {
            rom[next] = b;
            next += 1;
        }
        rom[next] = 0;
        next += 1;
    }
    for i in 0..WORD_COUNT {
        let addr = addrs[i.min(addrs.len() - 1)];
        let off = (addr - JUMP_START_ADDRESS) as u16;
        rom[JUMP_START_ADDRESS + 2 * i] = (off >> 8) as u8;
        rom[JUMP_START_ADDRESS + 2 * i + 1] = off as u8;
    }
    rom
}

#[test]
fn word_list_insert_and_get() {
    let mut wl = WordList::new();
    assert!(wl.is_empty());
    assert_eq!(wl.get("sword"), None);
    wl.insert("sword".to_string(), 3);
    wl.insert("shield".to_string(), 4);
    assert!(!wl.is_empty());
    assert_eq!(wl.get("sword"), Some(3));
    assert_eq!(wl.get("shield"), Some(4));
    wl.insert("sword".to_string(), 9);
    assert_eq!(wl.get("sword"), Some(9));
    assert_eq!(wl.get("swor"), None);
}

#[test]
fn jump_address_is_big_endian_offset() {
    let mut rom = vec![0u8; JUMP_END_ADDRESS];
    rom[JUMP_START_ADDRESS + 4] = 0x01;
    rom[JUMP_START_ADDRESS + 5] = 0x02;
    assert_eq!(get_jump_address(&rom, 2), JUMP_START_ADDRESS + 0x0102);
}

#[test]
fn get_word_reads_up_to_zero() {
    let rom = rom_with_words(&["Oasis Boots", "the "]);
    assert_eq!(get_word(&rom, 0), "Oasis Boots");
    assert_eq!(get_word(&rom, 1), "the ");
    assert_eq!(get_word(&rom, 200), "the ");
}

#[test]
fn get_word_reads_high_bytes_as_characters() {
    let mut rom = rom_with_words(&["ab"]);
    let addr = get_jump_address(&rom, 0);
    rom[addr] = 0xe9;
    assert_eq!(get_word(&rom, 0), "\u{e9}b");
}

#[test]
fn build_word_list_keeps_last_index() {
    let rom = rom_with_words(&["Oasis Boots", "the ", "sword"]);
    assert!(word_table_readable(&rom));
    let wl = build_word_list(&rom);
    assert_eq!(wl.get("Oasis Boots"), Some(0));
    assert_eq!(wl.get("the "), Some(1));
    assert_eq!(wl.get("sword"), Some((WORD_COUNT - 1) as u8));
    assert_eq!(wl.get("shield"), None);
}

#[test]
fn dictionary_lookup_reads_back_the_word() {
    let rom = rom_with_words(&["Oasis Boots", "the ", "sword", "the "]);
    let wl = build_word_list(&rom);
    for i in 0..4u8 {
        let w = get_word(&rom, i);
        let j = wl.get(&w).unwrap();
        assert!(j >= i);
        assert_eq!(get_word(&rom, j), w);
    }
    assert_eq!(wl.get("the "), Some((WORD_COUNT - 1) as u8));
}

#[test]
fn word_table_readability() {
    let rom = rom_with_words(&["a"]);
    assert!(word_table_readable(&rom));
    assert!(!word_table_readable(&vec![0u8; JUMP_END_ADDRESS - 1]));
    let mut unterminated = rom_with_words(&["a"]);
    let last = unterminated.len() - 1;
    let off = (last - JUMP_START_ADDRESS) as u16;
    unterminated[JUMP_START_ADDRESS] = (off >> 8) as u8;
    unterminated[JUMP_START_ADDRESS + 1] = off as u8;
    unterminated[last] = b'x';
    assert!(!word_table_readable(&unterminated));
}
