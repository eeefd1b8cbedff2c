use mw3rando::text::{Dialogue, TextCommand};
use mw3rando::words::WordList;

fn word_list(entries: &[(&str, u8)]) -> WordList {
    let mut wl = WordList::new();
    for (w, i) in entries {
        wl.insert(w.to_string(), *i);
    }
    wl
}

fn is_text(c: &TextCommand, s: &str) -> bool {
    matches!(c, TextCommand::Text(t) if t == s)
}

fn is_word(c: &TextCommand, s: &str) -> bool {
    matches!(c, TextCommand::Word(t) if t == s)
}

#[test]
fn text_without_dictionary_is_one_text() {
    let wl = WordList::new();
    let mut d = Dialogue::new(&wl);
    d.text("Let's go");
    assert_eq!(d.commands().len(), 1);
    assert!(is_text(&d.commands()[0], "Let's go"));
    assert_eq!(d.build(), b"Let's go".to_vec());
}

#[test]
fn empty_text_adds_nothing() {
    let wl = word_list(&[("go", 1)]);
    let mut d = Dialogue::new(&wl);
    d.text("");
    assert_eq!(d.commands().len(), 0);
    assert_eq!(d.build(), Vec::<u8>::new());
}

#[test]
fn text_takes_longest_word() {
    let wl = word_list(&[("the ", 1), ("the cave", 2), ("cave", 3)]);
    let mut d = Dialogue::new(&wl);
    d.text("in the cave");
    let c = d.commands();
    assert_eq!(c.len(), 2);
    assert!(is_text(&c[0], "in "));
    assert!(is_word(&c[1], "the cave"));
    assert_eq!(d.build(), vec![b'i', b'n', b' ', 0x0c, 2]);
}

#[test]
fn text_word_at_start_and_end() {
    let wl = word_list(&[("go", 7), ("Let", 8)]);
    let mut d = Dialogue::new(&wl);
    d.text("Let's go");
    let c = d.commands();
    assert_eq!(c.len(), 3);
    assert!(is_word(&c[0], "Let"));
    assert!(is_text(&c[1], "'s "));
    assert!(is_word(&c[2], "go"));
    assert_eq!(d.finish(), vec![0x0c, 8, b'\'', b's', b' ', 0x0c, 7, 0x05, 0x00]);
}

#[test]
fn line_feed_comes_before_pending_text() {
    let wl = WordList::new();
    let mut d = Dialogue::new(&wl);
    d.text("ab\ncd");
    let c = d.commands();
    assert_eq!(c.len(), 2);
    assert!(matches!(c[0], TextCommand::NewLine));
    assert!(is_text(&c[1], "abcd"));
    assert_eq!(d.build(), vec![0x09, b'a', b'b', b'c', b'd']);
}

#[test]
fn line_feed_then_word_flushes_text() {
    let wl = word_list(&[("cd", 5)]);
    let mut d = Dialogue::new(&wl);
    d.text("ab\ncd");
    let c = d.commands();
    assert_eq!(c.len(), 3);
    assert!(matches!(c[0], TextCommand::NewLine));
    assert!(is_text(&c[1], "ab"));
    assert!(is_word(&c[2], "cd"));
}

#[test]
fn builder_commands_bytes() {
    let wl = word_list(&[("Oasis Boots", 0x2a)]);
    let mut d = Dialogue::new(&wl);
    d.word("Oasis Boots")
        .eol()
        .wait_for_input()
        .indent(2)
        .speed(3)
        .set_item(0x25)
        .give_item(0x33)
        .bytes(vec![0xde, 0xad])
        .end();
    assert_eq!(d.commands().len(), 9);
    assert_eq!(
        d.build(),
        vec![0x0c, 0x2a, 0x09, 0x05, 0x04, 2, 0x03, 3, 0x0b, 0x0a, 0x25, 0x0b, 0x08, 0x33, 0xde, 0xad, 0x00]
    );
}

#[test]
fn add_appends_command() {
    let wl = WordList::new();
    let mut d = Dialogue::new(&wl);
    d.add(TextCommand::SetItem(1)).add(TextCommand::RawBytes(vec![7]));
    assert_eq!(d.build(), vec![0x0b, 0x0a, 1, 7]);
}

#[test]
fn finish_appends_wait_and_end() {
    let wl = WordList::new();
    let mut d = Dialogue::new(&wl);
    d.text("Hi");
    let before = d.build();
    let after = d.finish();
    let mut expected = before.clone();
    expected.extend_from_slice(&[0x05, 0x00]);
    assert_eq!(after, expected);
    assert_eq!(d.commands().len(), 3);
}

#[test]
fn build_is_bytes_of_parts_in_order() {
    let wl = word_list(&[("sword", 4)]);
    let mut a = Dialogue::new(&wl);
    a.text("a sword");
    let mut b = Dialogue::new(&wl);
    b.speed(1).eol();
    let mut ab = Dialogue::new(&wl);
    ab.text("a sword").speed(1).eol();
    let mut expected = a.build();
    expected.extend(b.build());
    assert_eq!(ab.build(), expected);
}

#[test]
fn non_ascii_without_dictionary_is_read_bytewise() {
    let wl = WordList::new();
    let mut d = Dialogue::new(&wl);
    assert!(d.can_split("\u{e9}"));
    d.text("\u{e9}");
    assert!(is_text(&d.commands()[0], "\u{c3}\u{a9}"));
    assert_eq!(d.build(), vec![0xc3, 0x83, 0xc2, 0xa9]);
}

#[test]
fn can_split_cases() {
    let wl = word_list(&[("go", 1)]);
    let d = Dialogue::new(&wl);
    assert!(d.can_split("Let's go"));
    assert!(!d.can_split("caf\u{e9}"));
    let wl2 = word_list(&[("\u{e9}", 1)]);
    let d2 = Dialogue::new(&wl2);
    assert!(d2.can_split("caf\u{e9}"));
    let wl3 = word_list(&[("", 1)]);
    let d3 = Dialogue::new(&wl3);
    assert!(!d3.can_split("x"));
    assert!(d3.can_split(""));
}

#[test]
fn word_made_of_non_ascii_is_matched() {
    let wl = word_list(&[("\u{e9}", 6)]);
    let mut d = Dialogue::new(&wl);
    d.text("caf\u{e9}");
    assert_eq!(d.build(), vec![b'c', b'a', b'f', 0x0c, 6]);
}

#[test]
fn words_defined_cases() {
    let wl = word_list(&[("sword", 4)]);
    let mut d = Dialogue::new(&wl);
    d.word("sword");
    assert!(d.words_defined());
    d.word("shield");
    assert!(!d.words_defined());
}

#[test]
fn plain_text_compresses_to_word_references() {
    let wl = word_list(&[("Boots", 0x10), ("Oasis ", 0x11), ("Oasis Boots", 0x12)]);
    let mut d = Dialogue::new(&wl);
    d.text("Oasis Boots, Oasis Shoes and Boots");
    let mut expected = vec![0x0c, 0x12];
    expected.extend_from_slice(b", ");
    expected.extend_from_slice(&[0x0c, 0x11]);
    expected.extend_from_slice(b"Shoes and ");
    expected.extend_from_slice(&[0x0c, 0x10]);
    assert_eq!(d.build(), expected);
}
