use mw3rando::rando::{randomize, Routines, CHECK_STORE_ITEM_ENTRY_POINT, NEW_GAME_ENTRY_POINT, SET_PRICE_ENTRY_POINT, SET_SPELL_BOUGHT_ENTRY_POINT, START_ADDRESS};
use mw3rando::words::{JUMP_START_ADDRESS, WORD_COUNT};

fn rom_with_words(len: usize, words: &[&str]) -> Vec<u8> {
    let mut rom = vec![0u8; len];
    let mut next = 0x21400;
    let mut addrs = Vec::new();
    for w in words {
        addrs.push(next);
        for b in w.bytes() {
            rom[next] = b;
            next += 1;
        }
        rom[next] = 0;
        next += 1;
    }
    for i in 0..WORD_COUNT {
        let addr = addrs[i.min(addrs.len() - 1)];
        let off = (addr - JUMP_START_ADDRESS) as u16;
        rom[JUMP_START_ADDRESS + 2 * i] = (off >> 8) as u8;
        rom[JUMP_START_ADDRESS + 2 * i + 1] = off as u8;
    }
    rom
}

fn routines() -> Routines {
    Routines {
        item_bought_check: vec![1, 2, 3],
        item_bought_check_entry: vec![0x4e, 0xf9, 0xfe, 0xed, 0xed, 0x00],
        price_1_gold: vec![4, 5],
        jsr: vec![0x4e, 0xb9, 0xfe, 0xed, 0xed, 0x00],
        spell_bought_set: vec![6],
        new_game: vec![7, 8],
        nop: vec![0x4e, 0x71],
    }
}

#[test]
fn randomize_patches_code_items_and_texts() {
    let mut rom = rom_with_words(0xa6000, &["go", "Oasis Boots", "the cave"]);
    let intro = randomize(&mut rom, &routines()).unwrap();
    assert_eq!(intro, vec![b'L', b'e', b't', b'\'', b's', b' ', 0x0c, 0, 0x05, 0x00]);

    assert_eq!(&rom[0x1b2..0x1bc], &[0xf8, 0x20, 0, 0, 0, 0, 0, 0, 0x03, 0xff]);
    assert_eq!(&rom[START_ADDRESS..START_ADDRESS + 16], b"MW3RANDO CODE - ");
    assert_eq!(&rom[0xa5010..0xa5018], &[1, 2, 3, 4, 5, 6, 7, 8]);
    assert_eq!(&rom[CHECK_STORE_ITEM_ENTRY_POINT..CHECK_STORE_ITEM_ENTRY_POINT + 6], &[0x4e, 0xf9, 0x00, 0x0a, 0x50, 0x10]);
    assert_eq!(&rom[SET_PRICE_ENTRY_POINT..SET_PRICE_ENTRY_POINT + 6], &[0x4e, 0xb9, 0x00, 0x0a, 0x50, 0x13]);
    assert_eq!(&rom[SET_SPELL_BOUGHT_ENTRY_POINT..SET_SPELL_BOUGHT_ENTRY_POINT + 6], &[0x4e, 0xb9, 0x00, 0x0a, 0x50, 0x15]);
    assert_eq!(&rom[NEW_GAME_ENTRY_POINT..NEW_GAME_ENTRY_POINT + 6], &[0x4e, 0xb9, 0x00, 0x0a, 0x50, 0x16]);
    assert_eq!(&rom[0x24fa..0x24fc], &[0x4e, 0x71]);
    assert_eq!(&rom[0x719e..0x71a0], &[0x4e, 0x71]);

    assert_eq!(rom[0x1e07f], 0x22);
    assert_eq!(rom[0x1e08b], 0x23);
    assert_eq!(rom[0x22b08], 0x4a);
    assert_eq!(rom[0x22b62], 0x80);
    assert_eq!(rom[0x22b36], 0x74);
    assert_eq!(rom[0xa752], 0x82);
    assert_eq!(rom[0x27946], 0x50);
    assert_eq!(rom[0x2ca09], 0xb3);
    assert_eq!(rom[0x2ca05], 0x33);
    assert_eq!(rom[0x2ccad], 0x33);

    assert_eq!(&rom[0x1df29..0x1df29 + intro.len()], intro.as_slice());
    let mut sonia = b"I lost my".to_vec();
    sonia.extend_from_slice(&[0x09, 0x0c, 1, 0x09]);
    sonia.extend_from_slice(b"in ");
    sonia.extend_from_slice(&[0x0c, (WORD_COUNT - 1) as u8, 0x05, 0x00]);
    assert_eq!(&rom[0x1e731..0x1e731 + sonia.len()], sonia.as_slice());
    let mut store = vec![0x04, 2, 0x09];
    store.extend_from_slice(b"Please return withthe ");
    store.extend_from_slice(&[0x0c, 1, 0x05, 0x00]);
    assert_eq!(&rom[0x1faaa..0x1faaa + store.len()], store.as_slice());
    let mut seal = b"Bracelet seal".to_vec();
    seal.extend_from_slice(&[0x05, 0x00]);
    assert_eq!(&rom[0x20f48..0x20f48 + seal.len()], seal.as_slice());
    assert_eq!(rom.len(), 0xa6000);
}

#[test]
fn randomize_fails_on_small_rom() {
    let mut rom = vec![0u8; 0x1000];
    assert!(randomize(&mut rom, &routines()).is_none());
    let mut rom = rom_with_words(0xa5010, &["go", "Oasis Boots"]);
    assert!(randomize(&mut rom, &routines()).is_none());
}

#[test]
fn randomize_fails_on_bad_placeholder() {
    let mut rom = rom_with_words(0xa6000, &["go", "Oasis Boots"]);
    let mut r = routines();
    r.jsr = vec![0x4e, 0xb9, 0xfe, 0xed, 0xed, 0x01];
    assert!(randomize(&mut rom, &r).is_none());
}

#[test]
fn randomize_fails_without_the_word_for_the_boots() {
    let mut rom = rom_with_words(0xa6000, &["go", "the cave"]);
    assert!(randomize(&mut rom, &routines()).is_none());
}
