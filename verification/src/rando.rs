//! The randomizer itself: which routines go into the ROM, where the items are
//! placed, and which dialogue is rewritten.

use crate::patch::{patch, patched, placeholders_ok, placeholders_valid, lemma_patched_elsewhere};
use crate::text::{CommandSpec, Dialogue, encode_script, split_text, text_ok, words_known, lemma_split_words_known,
    lemma_encode_script_concat, lemma_finish_bytes, lemma_split_len, lemma_utf8_len};
use crate::words::{build_word_list, dictionary, word_table_ok, word_table_readable, WordList, WORD_COUNT};
use vstd::prelude::*;
use vstd::slice::slice_to_vec;
use vstd::utf8::encode_utf8;

verus! {

/// Where the game sets the price of a store item.
pub const SET_PRICE_ENTRY_POINT: usize = 0x1da6;

/// Where the game checks whether a store item was bought.
pub const CHECK_STORE_ITEM_ENTRY_POINT: usize = 0x243e;

/// Start of the free area of the ROM that the routines go to.
pub const START_ADDRESS: usize = 0xa5000;

/// Where the game records a bought spell.
pub const SET_SPELL_BOUGHT_ENTRY_POINT: usize = 0x1888;

/// Where the game starts a new game.
pub const NEW_GAME_ENTRY_POINT: usize = 0x8eb4;

/// Where the opening text is.
pub const INTRO_TEXT_ADDRESS: usize = 0x1df29;

/// Where Sonia's text about the item in the cave is.
pub const SONIA_TEXT_ADDRESS: usize = 0x1e731;

/// Where the text of the weapon store of Purapril is.
pub const STORE_TEXT_ADDRESS: usize = 0x1faaa;

/// Where the text of the seal of the dark world is.
pub const SEAL_TEXT_ADDRESS: usize = 0x20f48;

/// The assembled routines that the randomizer adds to the ROM.
pub struct Routines {
    pub item_bought_check: Vec<u8>,
    pub item_bought_check_entry: Vec<u8>,
    pub price_1_gold: Vec<u8>,
    pub jsr: Vec<u8>,
    pub spell_bought_set: Vec<u8>,
    pub new_game: Vec<u8>,
    pub nop: Vec<u8>,
}

/// The header put before the routines: `MW3RANDO CODE - `.
pub open spec fn code_header() -> Seq<u8> {
    seq![0x4du8, 0x57, 0x33, 0x52, 0x41, 0x4e, 0x44, 0x4f, 0x20, 0x43, 0x4f, 0x44, 0x45, 0x20, 0x2d, 0x20]
}

/// The ROM with its save memory declared as SRAM rather than EEPROM.
pub open spec fn with_sram(rom: Seq<u8>) -> Seq<u8> {
    rom.update(0x1b2, 0xf8).update(0x1b3, 0x20).update(0x1ba, 0x03).update(0x1bb, 0xff)
}

/// Where the item-bought check goes.
pub open spec fn check_address() -> int {
    START_ADDRESS + 16
}

/// Where the one-gold price routine goes.
pub open spec fn price_address(r: &Routines) -> int {
    check_address() + r.item_bought_check@.len()
}

/// Where the spell-bought routine goes.
pub open spec fn spell_address(r: &Routines) -> int {
    price_address(r) + r.price_1_gold@.len()
}

/// Where the new-game routine goes.
pub open spec fn new_game_address(r: &Routines) -> int {
    spell_address(r) + r.spell_bought_set@.len()
}

/// Where the routines end.
pub open spec fn code_end(r: &Routines) -> int {
    new_game_address(r) + r.new_game@.len()
}

/// The ROM with the routines placed one after another from `START_ADDRESS`
/// (after the header), and a call to each written at its entry point.
pub open spec fn with_routines(rom: Seq<u8>, r: &Routines) -> Seq<u8> {
    let r1 = patched(rom, START_ADDRESS as int, code_header(), seq![]);
    let r2 = patched(r1, check_address(), r.item_bought_check@, seq![]);
    let r3 = patched(r2, CHECK_STORE_ITEM_ENTRY_POINT as int, r.item_bought_check_entry@, seq![check_address() as u32]);
    let r4 = patched(r3, price_address(r), r.price_1_gold@, seq![]);
    let r5 = patched(r4, SET_PRICE_ENTRY_POINT as int, r.jsr@, seq![price_address(r) as u32]);
    let r6 = patched(r5, spell_address(r), r.spell_bought_set@, seq![]);
    let r7 = patched(r6, SET_SPELL_BOUGHT_ENTRY_POINT as int, r.jsr@, seq![spell_address(r) as u32]);
    let r8 = patched(r7, new_game_address(r), r.new_game@, seq![]);
    patched(r8, NEW_GAME_ENTRY_POINT as int, r.jsr@, seq![new_game_address(r) as u32])
}

/// The identifier of the sprite of an item.
pub open spec fn sprite_of(item: u8) -> u8 {
    item << 1u8
}

/// The identifier of the drop of an item.
pub open spec fn drop_of(item: u16) -> u8 {
    ((((0x1000u16 + item) - 0xf80u16) as u16) & 0xffu16) as u8
}

/// The ROM with the items of the starting area, the fairy village, the fairy
/// cave, Purapril and the jungle cave placed.
pub open spec fn with_items(rom: Seq<u8>) -> Seq<u8> {
    rom.update(0x1e07f, 0x22).update(0x1e08b, 0x23)
        .update(0x1e239, 0x25).update(0x22b08, sprite_of(0x25))
        .update(0x1e292, 0x40).update(0x22b62, sprite_of(0x40))
        .update(0x1e1c1, 0x3a).update(0x22b36, sprite_of(0x3a))
        .update(0x1e1e5, 0x23).update(0x22b3c, sprite_of(0x23))
        .update(0x1e215, 0x39).update(0x22b42, sprite_of(0x39))
        .update(0xa752, drop_of(0x02))
        .update(0x1e277, 0x28).update(0x1e27c, 0x28).update(0x27946, sprite_of(0x28))
        .update(0x1e1af, 0x20).update(0x22b8a, sprite_of(0x20))
        .update(0x1e203, 0x23).update(0x22b84, sprite_of(0x23))
        .update(0x2ca09, drop_of(0x33)).update(0x2ca05, 0x33).update(0x2ccad, 0x33)
}

/// The ROM with the removal of items from the inventory and the demo timer
/// check both replaced by the `nop` routine.
pub open spec fn with_nops(rom: Seq<u8>, r: &Routines) -> Seq<u8> {
    patched(patched(rom, 0x24fa, r.nop@, seq![]), 0x719e, r.nop@, seq![])
}

/// The ROM before its dialogue is rewritten.
pub open spec fn code_patched(rom: Seq<u8>, r: &Routines) -> Seq<u8> {
    with_nops(with_items(with_routines(with_sram(rom), r)), r)
}

/// The commands that text `s` splits into.
pub open spec fn split(words: Map<Seq<char>, u8>, s: Seq<char>) -> Seq<CommandSpec> {
    split_text(words, encode_utf8(s), 0, seq![])
}

/// `cmds` followed by a pause and the end.
pub open spec fn finished(cmds: Seq<CommandSpec>) -> Seq<CommandSpec> {
    cmds.push(CommandSpec::WaitForInput).push(CommandSpec::End)
}

/// The opening text.
pub open spec fn intro_script(words: Map<Seq<char>, u8>) -> Seq<CommandSpec> {
    finished(split(words, "Let's go"@))
}

/// Sonia's text about the item lost in the cave.
pub open spec fn sonia_script(words: Map<Seq<char>, u8>) -> Seq<CommandSpec> {
    finished(split(words, "I lost my"@) + seq![CommandSpec::NewLine, CommandSpec::Word("Oasis Boots"@), CommandSpec::NewLine]
        + split(words, "in the cave"@))
}

/// The text of the weapon store of Purapril.
pub open spec fn store_script(words: Map<Seq<char>, u8>) -> Seq<CommandSpec> {
    finished(seq![CommandSpec::SetTextIndent(2)] + split(words, "Please return with\nthe Oasis Boots"@))
}

/// The text of the seal of the dark world.
pub open spec fn seal_script(words: Map<Seq<char>, u8>) -> Seq<CommandSpec> {
    finished(split(words, "Bracelet seal"@))
}

/// The dictionary read from the ROM once its code is patched.
pub open spec fn rom_words(rom: Seq<u8>, r: &Routines) -> Map<Seq<char>, u8> {
    dictionary(code_patched(rom, r), WORD_COUNT as int)
}

/// The ROM with the four texts of the randomizer written over the game's
/// own.
pub open spec fn with_texts(rom: Seq<u8>, words: Map<Seq<char>, u8>) -> Seq<u8> {
    let r1 = patched(rom, INTRO_TEXT_ADDRESS as int, encode_script(intro_script(words), words), seq![]);
    let r2 = patched(r1, SONIA_TEXT_ADDRESS as int, encode_script(sonia_script(words), words), seq![]);
    let r3 = patched(r2, STORE_TEXT_ADDRESS as int, encode_script(store_script(words), words), seq![]);
    patched(r3, SEAL_TEXT_ADDRESS as int, encode_script(seal_script(words), words), seq![])
}

/// The randomized ROM.
pub open spec fn randomized(rom: Seq<u8>, r: &Routines) -> Seq<u8> {
    with_texts(code_patched(rom, r), rom_words(rom, r))
}

/// Whether `data` fits at `address` in a ROM of `len` bytes and its
/// placeholders are well formed for `args` (an empty routine fits anywhere).
pub open spec fn fits(len: int, address: int, data: Seq<u8>, args: Seq<u32>) -> bool {
    (data.len() == 0 || address + data.len() <= len) && placeholders_ok(data, args, 0)
}

/// Whether every routine fits in a ROM of `len` bytes, with well-formed
/// placeholders.
pub open spec fn code_fits(len: int, r: &Routines) -> bool {
    &&& fits(len, START_ADDRESS as int, code_header(), seq![])
    &&& fits(len, check_address(), r.item_bought_check@, seq![])
    &&& fits(len, CHECK_STORE_ITEM_ENTRY_POINT as int, r.item_bought_check_entry@, seq![check_address() as u32])
    &&& fits(len, price_address(r), r.price_1_gold@, seq![])
    &&& fits(len, SET_PRICE_ENTRY_POINT as int, r.jsr@, seq![price_address(r) as u32])
    &&& fits(len, spell_address(r), r.spell_bought_set@, seq![])
    &&& fits(len, SET_SPELL_BOUGHT_ENTRY_POINT as int, r.jsr@, seq![spell_address(r) as u32])
    &&& fits(len, new_game_address(r), r.new_game@, seq![])
    &&& fits(len, NEW_GAME_ENTRY_POINT as int, r.jsr@, seq![new_game_address(r) as u32])
    &&& fits(len, 0x24fa, r.nop@, seq![])
    &&& fits(len, 0x719e, r.nop@, seq![])
}

/// Whether the four texts split and build with the dictionary `words`, and
/// fit in a ROM of `len` bytes.
pub open spec fn texts_ok(len: int, words: Map<Seq<char>, u8>) -> bool {
    &&& text_ok(words, encode_utf8("Let's go"@), 0)
    &&& fits(len, INTRO_TEXT_ADDRESS as int, encode_script(intro_script(words), words), seq![])
    &&& text_ok(words, encode_utf8("I lost my"@), 0)
    &&& text_ok(words, encode_utf8("in the cave"@), 0)
    &&& words_known(sonia_script(words), words)
    &&& fits(len, SONIA_TEXT_ADDRESS as int, encode_script(sonia_script(words), words), seq![])
    &&& text_ok(words, encode_utf8("Please return with\nthe Oasis Boots"@), 0)
    &&& fits(len, STORE_TEXT_ADDRESS as int, encode_script(store_script(words), words), seq![])
    &&& text_ok(words, encode_utf8("Bracelet seal"@), 0)
    &&& fits(len, SEAL_TEXT_ADDRESS as int, encode_script(seal_script(words), words), seq![])
}

/// Whether randomizing `rom` succeeds: every write and every routine fits in
/// the ROM with well-formed placeholders, the word table can be read, each
/// text splits, and every word the texts name is in the dictionary.
pub open spec fn randomize_ok(rom: Seq<u8>, r: &Routines) -> bool {
    &&& 0x2ccad < rom.len()
    &&& code_fits(rom.len() as int, r)
    &&& word_table_ok(code_patched(rom, r))
    &&& texts_ok(rom.len() as int, rom_words(rom, r))
}

/// Patches `data` at `address` if it fits with well-formed placeholders, and
/// returns the range it now occupies.
fn try_patch(rom_data: &mut Vec<u8>, address: usize, data: &Vec<u8>, args: Vec<u32>) -> (range: Option<(usize, usize)>)
    ensures
        range is Some == fits(old(rom_data)@.len() as int, address as int, data@, args@),
        range is Some ==> final(rom_data)@ == patched(old(rom_data)@, address as int, data@, args@),
        range matches Some((a, e)) ==> a == address && e == address + data@.len(),
        final(rom_data)@.len() == old(rom_data)@.len(),
{
    if data.len() > 0 && (address > rom_data.len() || data.len() > rom_data.len() - address) {
        return None;
    }
    if !placeholders_valid(data.as_slice(), args.as_slice()) {
        return None;
    }
    Some(patch(rom_data, address, slice_to_vec(data.as_slice()), args))
}

fn place_items(rom_data: &mut Vec<u8>)
    requires
        0x2ccad < old(rom_data)@.len(),
    ensures
        final(rom_data)@ == with_items(old(rom_data)@),
{
    // Starting area
    let elder_elixir: u8 = 0x22;
    let elder_fire_storm: u8 = 0x23;
    rom_data.set(0x1e07f, elder_elixir);
    rom_data.set(0x1e08b, elder_fire_storm);

    let leather_boots: u8 = 0x25;
    rom_data.set(0x1e239, leather_boots);
    rom_data.set(0x22b08, leather_boots << 1);

    // Fairy village
    let medicine: u8 = 0x40;
    rom_data.set(0x1e292, medicine);
    rom_data.set(0x22b62, medicine << 1);

    let spear: u8 = 0x3A;
    rom_data.set(0x1e1c1, spear);
    rom_data.set(0x22b36, spear << 1);

    let armor: u8 = 0x23;
    rom_data.set(0x1e1e5, armor);
    rom_data.set(0x22b3c, armor << 1);

    let shield: u8 = 0x39;
    rom_data.set(0x1e215, shield);
    rom_data.set(0x22b42, shield << 1);

    let cave_boss_chest: u16 = 0x02;
    rom_data.set(0xa752, (((0x1000 + cave_boss_chest) - 0xf80) & 0xff) as u8);

    // Fairy Cave (the item can be neither a spell nor a heart)
    let ocarina: u8 = 0x28;
    rom_data.set(0x1e277, ocarina);  // named in "Oh, it's X"
    rom_data.set(0x1e27c, ocarina);  // the reward
    rom_data.set(0x27946, ocarina << 1);  // the sprite, and the item looked for in the inventory

    // Purapril
    let excalibur: u8 = 0x20;
    rom_data.set(0x1e1af, excalibur);
    rom_data.set(0x22b8a, excalibur << 1);

    let steel_shield: u8 = 0x23;
    rom_data.set(0x1e203, steel_shield);
    rom_data.set(0x22b84, steel_shield << 1);

    // Jungle Cave (the item can be neither a spell nor a heart)
    let bat_reward: u8 = 0x33;
    rom_data.set(0x2ca09, (((0x1000 + bat_reward as u16) - 0xf80) & 0xff) as u8);  // the bat's drop
    rom_data.set(0x2ca05, bat_reward);  // the bat does not come back once the item is owned
    rom_data.set(0x2ccad, bat_reward);  // nor does the door close behind the player

    assert(rom_data@ =~= with_items(old(rom_data)@));
}


fn patch_code(rom_data: &mut Vec<u8>, r: &Routines) -> (ok: bool)
    requires
        0x2ccad < old(rom_data)@.len(),
    ensures
        ok == code_fits(old(rom_data)@.len() as int, r),
        ok ==> final(rom_data)@ == code_patched(old(rom_data)@, r),
        final(rom_data)@.len() == old(rom_data)@.len(),
{
    let ghost rom0 = old(rom_data)@;
    let ghost len = rom0.len() as int;

    // SRAM patch (better compatibility than EEPROM saving)
    rom_data.set(0x1b2, 0xf8);
    rom_data.set(0x1b3, 0x20);
    rom_data.set(0x1ba, 0x03);
    rom_data.set(0x1bb, 0xff);
    let ghost s0 = rom_data@;
    assert(s0 =~= with_sram(rom0));

    // Code section header
    let header: Vec<u8> = vec![0x4d, 0x57, 0x33, 0x52, 0x41, 0x4e, 0x44, 0x4f, 0x20, 0x43, 0x4f, 0x44, 0x45, 0x20, 0x2d, 0x20];
    assert(header@ =~= code_header());
    let no_args: Vec<u32> = Vec::new();
    assert(no_args@ =~= Seq::<u32>::empty());
    let (_, address) = match try_patch(rom_data, START_ADDRESS, &header, no_args) {
        Some(range) => range,
        None => return false,
    };

    let (start_addr, address) = match try_patch(rom_data, address, &r.item_bought_check, Vec::new()) {
        Some(range) => range,
        None => return false,
    };
    let args = vec![start_addr as u32];
    assert(args@ =~= seq![check_address() as u32]);
    if try_patch(rom_data, CHECK_STORE_ITEM_ENTRY_POINT, &r.item_bought_check_entry, args).is_none() {
        return false;
    }

    let (start_addr, address) = match try_patch(rom_data, address, &r.price_1_gold, Vec::new()) {
        Some(range) => range,
        None => return false,
    };
    let args = vec![start_addr as u32];
    assert(args@ =~= seq![price_address(r) as u32]);
    if try_patch(rom_data, SET_PRICE_ENTRY_POINT, &r.jsr, args).is_none() {
        return false;
    }

    // Only one spell of each kind can be sold in a store
    let (start_addr, address) = match try_patch(rom_data, address, &r.spell_bought_set, Vec::new()) {
        Some(range) => range,
        None => return false,
    };
    let args = vec![start_addr as u32];
    assert(args@ =~= seq![spell_address(r) as u32]);
    if try_patch(rom_data, SET_SPELL_BOUGHT_ENTRY_POINT, &r.jsr, args).is_none() {
        return false;
    }

    let (start_addr, _) = match try_patch(rom_data, address, &r.new_game, Vec::new()) {
        Some(range) => range,
        None => return false,
    };
    let args = vec![start_addr as u32];
    assert(args@ =~= seq![new_game_address(r) as u32]);
    if try_patch(rom_data, NEW_GAME_ENTRY_POINT, &r.jsr, args).is_none() {
        return false;
    }
    assert(rom_data@ == with_routines(s0, r));

    place_items(rom_data);

    // Items stay in the inventory (so they do not come back in stores)
    if try_patch(rom_data, 0x24fa, &r.nop, Vec::new()).is_none() {
        return false;
    }
    // No demo timer check
    if try_patch(rom_data, 0x719e, &r.nop, Vec::new()).is_none() {
        return false;
    }
    true
}

proof fn lemma_finished_known(cmds: Seq<CommandSpec>, words: Map<Seq<char>, u8>)
    ensures
        words_known(finished(cmds), words) == words_known(cmds, words),
{
    let f = finished(cmds);
    if words_known(cmds, words) {
        assert forall|i: int| 0 <= i < f.len() implies (#[trigger] f[i] matches CommandSpec::Word(w) ==> words.contains_key(w)) by {
            if i < cmds.len() {
                assert(f[i] == cmds[i]);
            }
        }
    }
    if words_known(f, words) {
        assert forall|i: int| 0 <= i < cmds.len() implies (#[trigger] cmds[i] matches CommandSpec::Word(w) ==> words.contains_key(w)) by {
            assert(f[i] == cmds[i]);
        }
    }
}

fn write_texts(rom_data: &mut Vec<u8>, word_list: &WordList) -> (intro: Option<Vec<u8>>)
    ensures
        intro is Some == texts_ok(old(rom_data)@.len() as int, word_list@),
        intro matches Some(b) ==> final(rom_data)@ == with_texts(old(rom_data)@, word_list@)
            && b@ == encode_script(intro_script(word_list@), word_list@),
{
    let ghost words = word_list@;
    let ghost len = old(rom_data)@.len() as int;

    // Intro text
    let mut d = Dialogue::new(word_list);
    if !d.can_split("Let's go") {
        return None;
    }
    proof {
        lemma_split_words_known(words, encode_utf8("Let's go"@), 0, seq![]);
    }
    let text = d.text("Let's go").finish();
    assert(d.script() =~= intro_script(words));
    let intro = slice_to_vec(text.as_slice());
    if try_patch(rom_data, INTRO_TEXT_ADDRESS, &text, Vec::new()).is_none() {
        return None;
    }

    // Sonia item check
    let mut d = Dialogue::new(word_list);
    if !d.can_split("I lost my") || !d.can_split("in the cave") {
        return None;
    }
    d.text("I lost my").eol().word("Oasis Boots").eol().text("in the cave");
    proof {
        lemma_finished_known(d.script(), words);
    }
    assert(finished(d.script()) =~= sonia_script(words));
    if !d.words_defined() {
        return None;
    }
    let text = d.finish();
    assert(d.script() =~= sonia_script(words));
    if try_patch(rom_data, SONIA_TEXT_ADDRESS, &text, Vec::new()).is_none() {
        return None;
    }

    // Purapril weapon store text
    let mut d = Dialogue::new(word_list);
    if !d.can_split("Please return with\nthe Oasis Boots") {
        return None;
    }
    proof {
        lemma_split_words_known(words, encode_utf8("Please return with\nthe Oasis Boots"@), 0, seq![]);
    }
    let text = d.indent(2).text("Please return with\nthe Oasis Boots").finish();
    assert(d.script() =~= store_script(words));
    if try_patch(rom_data, STORE_TEXT_ADDRESS, &text, Vec::new()).is_none() {
        return None;
    }

    // Dark world seal text
    let mut d = Dialogue::new(word_list);
    if !d.can_split("Bracelet seal") {
        return None;
    }
    proof {
        lemma_split_words_known(words, encode_utf8("Bracelet seal"@), 0, seq![]);
    }
    let text = d.text("Bracelet seal").finish();
    assert(d.script() =~= seal_script(words));
    if try_patch(rom_data, SEAL_TEXT_ADDRESS, &text, Vec::new()).is_none() {
        return None;
    }
    Some(intro)
}

/// Randomizes the ROM image `rom_data` with the assembled `routines`: adds
/// the routines and the calls to them, places the items, and rewrites four
/// texts. Returns the bytes of the new opening text, or `None`, with
/// `rom_data` then left part-way, when the ROM or the routines do not allow it.
pub fn randomize(rom_data: &mut Vec<u8>, routines: &Routines) -> (intro: Option<Vec<u8>>)
    ensures
        intro is Some == randomize_ok(old(rom_data)@, routines),
        intro matches Some(b) ==> final(rom_data)@ == randomized(old(rom_data)@, routines)
            && b@ == encode_script(intro_script(rom_words(old(rom_data)@, routines)), rom_words(old(rom_data)@, routines)),
{
    let ghost rom0 = rom_data@;
    if rom_data.len() <= 0x2ccad {
        return None;
    }
    if !patch_code(rom_data, routines) {
        return None;
    }
    if !word_table_readable(rom_data) {
        return None;
    }
    let word_list = build_word_list(rom_data);
    write_texts(rom_data, &word_list)
}


proof fn lemma_routines_len(rom: Seq<u8>, r: &Routines)
    requires
        code_fits(rom.len() as int, r),
    ensures
        with_routines(rom, r).len() == rom.len(),
{
    let r1 = patched(rom, START_ADDRESS as int, code_header(), seq![]);
    lemma_patched_elsewhere(rom, START_ADDRESS as int, code_header(), seq![]);
    let r2 = patched(r1, check_address(), r.item_bought_check@, seq![]);
    lemma_patched_elsewhere(r1, check_address(), r.item_bought_check@, seq![]);
    let r3 = patched(r2, CHECK_STORE_ITEM_ENTRY_POINT as int, r.item_bought_check_entry@, seq![check_address() as u32]);
    lemma_patched_elsewhere(r2, CHECK_STORE_ITEM_ENTRY_POINT as int, r.item_bought_check_entry@, seq![check_address() as u32]);
    let r4 = patched(r3, price_address(r), r.price_1_gold@, seq![]);
    lemma_patched_elsewhere(r3, price_address(r), r.price_1_gold@, seq![]);
    let r5 = patched(r4, SET_PRICE_ENTRY_POINT as int, r.jsr@, seq![price_address(r) as u32]);
    lemma_patched_elsewhere(r4, SET_PRICE_ENTRY_POINT as int, r.jsr@, seq![price_address(r) as u32]);
    let r6 = patched(r5, spell_address(r), r.spell_bought_set@, seq![]);
    lemma_patched_elsewhere(r5, spell_address(r), r.spell_bought_set@, seq![]);
    let r7 = patched(r6, SET_SPELL_BOUGHT_ENTRY_POINT as int, r.jsr@, seq![spell_address(r) as u32]);
    lemma_patched_elsewhere(r6, SET_SPELL_BOUGHT_ENTRY_POINT as int, r.jsr@, seq![spell_address(r) as u32]);
    let r8 = patched(r7, new_game_address(r), r.new_game@, seq![]);
    lemma_patched_elsewhere(r7, new_game_address(r), r.new_game@, seq![]);
    lemma_patched_elsewhere(r8, NEW_GAME_ENTRY_POINT as int, r.jsr@, seq![new_game_address(r) as u32]);
}

proof fn lemma_split_short(words: Map<Seq<char>, u8>, s: Seq<char>)
    ensures
        encode_script(split(words, s), words).len() <= 16 * s.len(),
{
    lemma_utf8_len(s);
    lemma_split_len(words, encode_utf8(s), 0, seq![]);
    assert(encode_utf8(Seq::<char>::empty()) =~= Seq::<u8>::empty());
}

proof fn lemma_texts_short(words: Map<Seq<char>, u8>)
    ensures
        encode_script(intro_script(words), words).len() <= 200,
        encode_script(sonia_script(words), words).len() <= 400,
        encode_script(store_script(words), words).len() <= 600,
        encode_script(seal_script(words), words).len() <= 300,
{
    reveal_strlit("Let's go");
    reveal_strlit("I lost my");
    reveal_strlit("in the cave");
    reveal_strlit("Please return with\nthe Oasis Boots");
    reveal_strlit("Bracelet seal");

    let intro = split(words, "Let's go"@);
    lemma_split_short(words, "Let's go"@);
    lemma_finish_bytes(intro, words);

    let a = split(words, "I lost my"@);
    let b = split(words, "in the cave"@);
    let mid = seq![CommandSpec::NewLine, CommandSpec::Word("Oasis Boots"@), CommandSpec::NewLine];
    lemma_split_short(words, "I lost my"@);
    lemma_split_short(words, "in the cave"@);
    let m1 = seq![CommandSpec::NewLine];
    let m2 = seq![CommandSpec::NewLine, CommandSpec::Word("Oasis Boots"@)];
    assert(m1.drop_last() =~= Seq::<CommandSpec>::empty());
    assert(m2.drop_last() =~= m1);
    assert(mid.drop_last() =~= m2);
    assert(encode_script(Seq::<CommandSpec>::empty(), words).len() == 0);
    assert(encode_script(m1, words).len() == 1);
    assert(encode_script(m2, words).len() == 3);
    assert(encode_script(mid, words).len() == 4);
    lemma_encode_script_concat(a, mid, words);
    lemma_encode_script_concat(a + mid, b, words);
    lemma_finish_bytes(a + mid + b, words);

    let st = split(words, "Please return with\nthe Oasis Boots"@);
    let ind = seq![CommandSpec::SetTextIndent(2)];
    lemma_split_short(words, "Please return with\nthe Oasis Boots"@);
    assert(ind.drop_last() =~= Seq::<CommandSpec>::empty());
    assert(encode_script(Seq::<CommandSpec>::empty(), words).len() == 0);
    assert(encode_script(ind, words).len() == 2);
    lemma_encode_script_concat(ind, st, words);
    lemma_finish_bytes(ind + st, words);

    let seal = split(words, "Bracelet seal"@);
    lemma_split_short(words, "Bracelet seal"@);
    lemma_finish_bytes(seal, words);
}

/// In the randomized ROM, the reward of the fairy cave is the item that the
/// cave's text names, the ocarina, and the sprite shown and looked for there
/// is that item's sprite (its identifier doubled) — unless the `nop` routine
/// is so long that it runs over those bytes.
pub proof fn lemma_fairy_cave_reward(rom: Seq<u8>, r: &Routines)
    requires
        randomize_ok(rom, r),
        r.nop@.len() == 0 || 0x719e + r.nop@.len() <= 0x1e277,
    ensures
        randomized(rom, r)[0x1e277] == 0x28,
        randomized(rom, r)[0x1e27c] == randomized(rom, r)[0x1e277],
        randomized(rom, r)[0x27946] == 2 * randomized(rom, r)[0x1e27c],
{
    let len = rom.len();
    let s0 = with_sram(rom);
    assert(s0.len() == len);
    lemma_routines_len(s0, r);
    let i0 = with_items(with_routines(s0, r));
    assert(i0.len() == len);
    assert(0x28u8 << 1u8 == 0x50u8) by (bit_vector);
    assert(i0[0x1e277] == 0x28);
    assert(i0[0x1e27c] == 0x28);
    assert(i0[0x27946] == 0x50);

    let n1 = patched(i0, 0x24fa, r.nop@, seq![]);
    lemma_patched_elsewhere(i0, 0x24fa, r.nop@, seq![]);
    let c = patched(n1, 0x719e, r.nop@, seq![]);
    lemma_patched_elsewhere(n1, 0x719e, r.nop@, seq![]);
    assert(c == code_patched(rom, r));
    assert(n1[0x1e277] == i0[0x1e277] && n1[0x1e27c] == i0[0x1e27c] && n1[0x27946] == i0[0x27946]);
    assert(c[0x1e277] == 0x28 && c[0x1e27c] == 0x28 && c[0x27946] == 0x50);

    let words = rom_words(rom, r);
    lemma_texts_short(words);
    let t1 = patched(c, INTRO_TEXT_ADDRESS as int, encode_script(intro_script(words), words), seq![]);
    lemma_patched_elsewhere(c, INTRO_TEXT_ADDRESS as int, encode_script(intro_script(words), words), seq![]);
    let t2 = patched(t1, SONIA_TEXT_ADDRESS as int, encode_script(sonia_script(words), words), seq![]);
    lemma_patched_elsewhere(t1, SONIA_TEXT_ADDRESS as int, encode_script(sonia_script(words), words), seq![]);
    let t3 = patched(t2, STORE_TEXT_ADDRESS as int, encode_script(store_script(words), words), seq![]);
    lemma_patched_elsewhere(t2, STORE_TEXT_ADDRESS as int, encode_script(store_script(words), words), seq![]);
    let t4 = patched(t3, SEAL_TEXT_ADDRESS as int, encode_script(seal_script(words), words), seq![]);
    lemma_patched_elsewhere(t3, SEAL_TEXT_ADDRESS as int, encode_script(seal_script(words), words), seq![]);
    assert(t4 == randomized(rom, r));
    assert(t1[0x1e277] == 0x28 && t1[0x1e27c] == 0x28 && t1[0x27946] == 0x50);
    assert(t2[0x1e277] == 0x28 && t2[0x1e27c] == 0x28 && t2[0x27946] == 0x50);
    assert(t3[0x1e277] == 0x28 && t3[0x1e27c] == 0x28 && t3[0x27946] == 0x50);
    assert(t4[0x1e277] == 0x28 && t4[0x1e27c] == 0x28 && t4[0x27946] == 0x50);
}

} // verus!
