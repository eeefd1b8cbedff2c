//! Dialogue scripts: a builder of text commands and their byte code.

use crate::words::{WordList, push_char, word_fits, has_word_at, longest_word_at, lemma_longest_unique, lemma_longest_exists};
use vstd::prelude::*;
use vstd::utf8::{encode_utf8, encode_scalar, is_ascii_chars, is_ascii_chars_encode_utf8};
use vstd::string::*;

verus! {

/// One command of a dialogue script.
#[derive(Debug)]
pub enum TextCommand {
    Text(String),
    Word(String),
    NewLine,
    WaitForInput,
    GiveItem(u8),
    SetItem(u8),
    SetTextSpeed(u8),
    SetTextIndent(u8),
    RawBytes(Vec<u8>),
    End,
}

/// A command of a dialogue script, as a mathematical value.
pub enum CommandSpec {
    Text(Seq<char>),
    Word(Seq<char>),
    NewLine,
    WaitForInput,
    GiveItem(u8),
    SetItem(u8),
    SetTextSpeed(u8),
    SetTextIndent(u8),
    RawBytes(Seq<u8>),
    End,
}

impl View for TextCommand {
    type V = CommandSpec;

    open spec fn view(&self) -> CommandSpec {
        match self {
            TextCommand::Text(s) => CommandSpec::Text(s@),
            TextCommand::Word(s) => CommandSpec::Word(s@),
            TextCommand::NewLine => CommandSpec::NewLine,
            TextCommand::WaitForInput => CommandSpec::WaitForInput,
            TextCommand::GiveItem(i) => CommandSpec::GiveItem(*i),
            TextCommand::SetItem(i) => CommandSpec::SetItem(*i),
            TextCommand::SetTextSpeed(s) => CommandSpec::SetTextSpeed(*s),
            TextCommand::SetTextIndent(i) => CommandSpec::SetTextIndent(*i),
            TextCommand::RawBytes(b) => CommandSpec::RawBytes(b@),
            TextCommand::End => CommandSpec::End,
        }
    }
}

/// The commands of a finished dialogue.
#[derive(Debug)]
pub struct DialogueData {
    commands: Vec<TextCommand>,
}

/// A dialogue script under construction, with the dictionary its words come from.
pub struct Dialogue<'a> {
    commands: Vec<TextCommand>,
    word_list: &'a WordList,
}

impl<'a> Dialogue<'a> {
    /// The commands added so far.
    pub closed spec fn script(&self) -> Seq<CommandSpec> {
        self.commands@.map_values(|c: TextCommand| c@)
    }

    /// The dictionary that words are looked up in.
    pub closed spec fn words(&self) -> Map<Seq<char>, u8> {
        self.word_list@
    }

    /// A dialogue with no command yet.
    pub fn new(word_list: &'a WordList) -> (d: Dialogue<'a>)
        ensures
            d.script() == Seq::<CommandSpec>::empty(),
            d.words() == word_list@,
    {
        let d = Dialogue { word_list: word_list, commands: Vec::new() };
        assert(d.script() =~= Seq::<CommandSpec>::empty());
        d
    }

    /// Appends `command`.
    pub fn add(&mut self, command: TextCommand) -> (r: &mut Dialogue<'a>)
        ensures
            r.script() == old(self).script().push(command@),
            r.words() == old(self).words(),
            *final(self) == *final(r),
    {
        let ghost c = command@;
        self.commands.push(command);
        assert(self.script() =~= old(self).script().push(c));
        self
    }

    /// Appends a line break.
    pub fn eol(&mut self) -> (r: &mut Dialogue<'a>)
        ensures
            r.script() == old(self).script().push(CommandSpec::NewLine),
            r.words() == old(self).words(),
            *final(self) == *final(r),
    {
        self.add(TextCommand::NewLine)
    }
}


/// The bytes of one command: text as its UTF-8 bytes, a word as `0c` and its
/// index, the others as their control codes.
pub open spec fn encode_command(c: CommandSpec, words: Map<Seq<char>, u8>) -> Seq<u8> {
    match c {
        CommandSpec::Text(s) => encode_utf8(s),
        CommandSpec::Word(w) => seq![0x0cu8, words[w]],
        CommandSpec::NewLine => seq![0x09u8],
        CommandSpec::WaitForInput => seq![0x05u8],
        CommandSpec::SetItem(item) => seq![0x0bu8, 0x0au8, item],
        CommandSpec::GiveItem(item) => seq![0x0bu8, 0x08u8, item],
        CommandSpec::RawBytes(b) => b,
        CommandSpec::SetTextSpeed(speed) => seq![0x03u8, speed],
        CommandSpec::SetTextIndent(indent) => seq![0x04u8, indent],
        CommandSpec::End => seq![0x00u8],
    }
}

/// The bytes of a script: the bytes of its commands, one after another.
pub open spec fn encode_script(cmds: Seq<CommandSpec>, words: Map<Seq<char>, u8>) -> Seq<u8>
    decreases cmds.len(),
{
    if cmds.len() == 0 {
        seq![]
    } else {
        encode_script(cmds.drop_last(), words) + encode_command(cmds.last(), words)
    }
}

/// Every word that the script names is in the dictionary.
pub open spec fn words_known(cmds: Seq<CommandSpec>, words: Map<Seq<char>, u8>) -> bool {
    forall|i: int| 0 <= i < cmds.len() ==> (#[trigger] cmds[i] matches CommandSpec::Word(w) ==> words.contains_key(w))
}

/// The pending text as a command, if there is any.
pub open spec fn flush(pending: Seq<char>) -> Seq<CommandSpec> {
    if pending.len() == 0 {
        seq![]
    } else {
        seq![CommandSpec::Text(pending)]
    }
}

/// The commands that the UTF-8 text `t` becomes from `pos` on, with `pending`
/// the characters read but not yet emitted. At each position the longest
/// dictionary word standing there is emitted as a word (after the pending text);
/// else a line feed is emitted as a line break at once (the pending text stays
/// pending), and any other byte joins the pending text as one character.
pub open spec fn split_text(words: Map<Seq<char>, u8>, t: Seq<u8>, pos: int, pending: Seq<char>) -> Seq<CommandSpec>
    decreases t.len() - pos,
{
    if pos < 0 || pos >= t.len() {
        flush(pending)
    } else if has_word_at(words, t, pos) {
        let w = longest_word_at(words, t, pos);
        let n = encode_utf8(w).len();
        if n == 0 || pos + n > t.len() {
            flush(pending)
        } else {
            flush(pending) + seq![CommandSpec::Word(w)] + split_text(words, t, pos + n, seq![])
        }
    } else if t[pos] == 10 {
        seq![CommandSpec::NewLine] + split_text(words, t, pos + 1, pending)
    } else {
        split_text(words, t, pos + 1, pending.push(t[pos] as char))
    }
}

/// Whether splitting `t` from `pos` on ends and reads every byte at a character
/// boundary: no empty word is ever the longest match, and, unless the
/// dictionary is empty, every byte read on its own is ASCII.
pub open spec fn text_ok(words: Map<Seq<char>, u8>, t: Seq<u8>, pos: int) -> bool
    decreases t.len() - pos,
{
    if pos < 0 || pos >= t.len() {
        true
    } else if has_word_at(words, t, pos) {
        let n = encode_utf8(longest_word_at(words, t, pos)).len();
        n > 0 && pos + n <= t.len() && text_ok(words, t, pos + n)
    } else {
        (words == Map::<Seq<char>, u8>::empty() || t[pos] < 0x80) && text_ok(words, t, pos + 1)
    }
}

/// Appends `src` to `out`.
fn append_bytes(out: &mut Vec<u8>, src: &[u8])
    ensures
        final(out)@ == old(out)@ + src@,
{
    let n = src.len();
    let mut k: usize = 0;
    while k < n
        invariant
            n == src@.len(),
            k <= n,
            out@ == old(out)@ + src@.take(k as int),
        decreases n - k,
    {
        out.push(src[k]);
        assert(src@.take(k + 1) =~= src@.take(k as int).push(src@[k as int]));
        k = k + 1;
    }
    assert(src@.take(n as int) =~= src@);
}

impl<'a> Dialogue<'a> {
    /// Appends the text `text`, with each dictionary word in it replaced by a
    /// reference to the word (the longest word wherever several start).
    pub fn text(&mut self, text: &str) -> (r: &mut Dialogue<'a>)
        requires
            text_ok(old(self).words(), text.spec_bytes(), 0),
        ensures
            r.script() == old(self).script() + split_text(old(self).words(), text.spec_bytes(), 0, seq![]),
            r.words() == old(self).words(),
            *final(self) == *final(r),
    {
        let t = text.as_bytes();
        let n = t.len();
        let ghost words = self.words();
        let ghost start = self.script();
        let mut pending = String::new();
        let mut pos: usize = 0;
        while pos < n
            invariant
                n == t@.len(),
                pos <= n,
                self.words() == words,
                text_ok(words, t@, pos as int),
                start + split_text(words, t@, 0, seq![]) == self.script() + split_text(words, t@, pos as int, pending@),
            decreases n - pos,
        {
            let ghost before = self.script();
            let ghost p = pending@;
            match self.word_list.longest_at(t, pos) {
                Some(w) => {
                    proof {
                        lemma_longest_unique(words, t@, pos as int, w@, longest_word_at(words, t@, pos as int));
                    }
                    let wl = w.as_str().len();
                    if !pending.as_str().is_empty() {
                        self.add(TextCommand::Text(pending));
                        pending = String::new();
                    }
                    let ghost wv = w@;
                    self.add(TextCommand::Word(w));
                    proof {
                        assert(self.script() =~= before + flush(p) + seq![CommandSpec::Word(wv)]);
                        assert(split_text(words, t@, pos as int, p) == flush(p) + seq![CommandSpec::Word(wv)] + split_text(words, t@, pos + wl, seq![]));
                        assert(pending@ =~= Seq::<char>::empty());
                    }
                    pos = pos + wl;
                },
                None => {
                    let b = t[pos];
                    if b == 10 {
                        self.add(TextCommand::NewLine);
                        assert(self.script() =~= before.push(CommandSpec::NewLine));
                    } else {
                        push_char(&mut pending, b as char);
                    }
                    pos = pos + 1;
                },
            }
        }
        let ghost before = self.script();
        let ghost p = pending@;
        if !pending.as_str().is_empty() {
            self.add(TextCommand::Text(pending));
        }
        assert(self.script() =~= before + flush(p));
        assert(start + split_text(words, t@, 0, seq![]) =~= self.script());
        self
    }

    /// Appends a reference to the dictionary word `word`.
    pub fn word(&mut self, word: &str) -> (r: &mut Dialogue<'a>)
        ensures
            r.script() == old(self).script().push(CommandSpec::Word(word@)),
            r.words() == old(self).words(),
            *final(self) == *final(r),
    {
        self.add(TextCommand::Word(String::from_str(word)))
    }

    /// Appends a pause until the player presses a button.
    pub fn wait_for_input(&mut self) -> (r: &mut Dialogue<'a>)
        ensures
            r.script() == old(self).script().push(CommandSpec::WaitForInput),
            r.words() == old(self).words(),
            *final(self) == *final(r),
    {
        self.add(TextCommand::WaitForInput)
    }

    /// Appends the end of the dialogue.
    pub fn end(&mut self) -> (r: &mut Dialogue<'a>)
        ensures
            r.script() == old(self).script().push(CommandSpec::End),
            r.words() == old(self).words(),
            *final(self) == *final(r),
    {
        self.add(TextCommand::End)
    }

    /// Appends a change of the text indentation.
    pub fn indent(&mut self, indent: u8) -> (r: &mut Dialogue<'a>)
        ensures
            r.script() == old(self).script().push(CommandSpec::SetTextIndent(indent)),
            r.words() == old(self).words(),
            *final(self) == *final(r),
    {
        self.add(TextCommand::SetTextIndent(indent))
    }

    /// Appends a change of the text speed.
    pub fn speed(&mut self, speed: u8) -> (r: &mut Dialogue<'a>)
        ensures
            r.script() == old(self).script().push(CommandSpec::SetTextSpeed(speed)),
            r.words() == old(self).words(),
            *final(self) == *final(r),
    {
        self.add(TextCommand::SetTextSpeed(speed))
    }

    /// Appends the choice of the current item.
    pub fn set_item(&mut self, item: u8) -> (r: &mut Dialogue<'a>)
        ensures
            r.script() == old(self).script().push(CommandSpec::SetItem(item)),
            r.words() == old(self).words(),
            *final(self) == *final(r),
    {
        self.add(TextCommand::SetItem(item))
    }

    /// Appends the gift of an item to the player.
    pub fn give_item(&mut self, item: u8) -> (r: &mut Dialogue<'a>)
        ensures
            r.script() == old(self).script().push(CommandSpec::GiveItem(item)),
            r.words() == old(self).words(),
            *final(self) == *final(r),
    {
        self.add(TextCommand::GiveItem(item))
    }

    /// Add raw bytes to dialogue
    pub fn bytes(&mut self, bytes: Vec<u8>) -> (r: &mut Dialogue<'a>)
        ensures
            r.script() == old(self).script().push(CommandSpec::RawBytes(bytes@)),
            r.words() == old(self).words(),
            *final(self) == *final(r),
    {
        self.add(TextCommand::RawBytes(bytes))
    }

    /// Returns the byte array for the dialogue
    pub fn build(&self) -> (bytes: Vec<u8>)
        requires
            words_known(self.script(), self.words()),
        ensures
            bytes@ == encode_script(self.script(), self.words()),
    {
        let mut bytes: Vec<u8> = Vec::new();
        let n = self.commands.len();
        let ghost script = self.script();
        let mut i: usize = 0;
        while i < n
            invariant
                n == self.commands@.len(),
                script == self.script(),
                words_known(script, self.words()),
                i <= n,
                bytes@ == encode_script(script.take(i as int), self.words()),
            decreases n - i,
        {
            let ghost prev = bytes@;
            assert(script[i as int] == self.commands@[i as int]@);
            match &self.commands[i] {
                TextCommand::Text(s) => {
                    append_bytes(&mut bytes, s.as_str().as_bytes());
                },
                TextCommand::Word(s) => {
                    match self.word_list.get(s.as_str()) {
                        Some(index) => {
                            bytes.push(0x0c);
                            bytes.push(index);
                        },
                        None => {
                            assert(false);
                        },
                    }
                },
                TextCommand::NewLine => {
                    bytes.push(0x09);
                },
                TextCommand::WaitForInput => {
                    bytes.push(0x05);
                },
                TextCommand::SetItem(item) => {
                    bytes.push(0x0b);
                    bytes.push(0x0a);
                    bytes.push(*item);
                },
                TextCommand::GiveItem(item) => {
                    bytes.push(0x0b);
                    bytes.push(0x08);
                    bytes.push(*item);
                },
                TextCommand::RawBytes(b) => {
                    append_bytes(&mut bytes, b.as_slice());
                },
                TextCommand::SetTextSpeed(speed) => {
                    bytes.push(0x03);
                    bytes.push(*speed);
                },
                TextCommand::SetTextIndent(indent) => {
                    bytes.push(0x04);
                    bytes.push(*indent);
                },
                TextCommand::End => {
                    bytes.push(0x00);
                },
            }
            assert(script.take(i + 1).drop_last() =~= script.take(i as int));
            assert(bytes@ =~= prev + encode_command(script[i as int], self.words()));
            i = i + 1;
        }
        assert(script.take(n as int) =~= script);
        bytes
    }

    /// Shortcut for `.wait_for_input().end().build()`
    pub fn finish(&mut self) -> (bytes: Vec<u8>)
        requires
            words_known(old(self).script(), old(self).words()),
        ensures
            final(self).script() == old(self).script().push(CommandSpec::WaitForInput).push(CommandSpec::End),
            final(self).words() == old(self).words(),
            bytes@ == encode_script(final(self).script(), final(self).words()),
    {
        self.wait_for_input().end().build()
    }
}


/// The bytes of two scripts one after the other are the bytes of the first
/// followed by the bytes of the second.
pub proof fn lemma_encode_script_concat(a: Seq<CommandSpec>, b: Seq<CommandSpec>, words: Map<Seq<char>, u8>)
    ensures
        encode_script(a + b, words) == encode_script(a, words) + encode_script(b, words),
    decreases b.len(),
{
    if b.len() == 0 {
        assert(a + b =~= a);
        assert(encode_script(a, words) + encode_script(b, words) =~= encode_script(a, words));
    } else {
        lemma_encode_script_concat(a, b.drop_last(), words);
        assert((a + b).drop_last() =~= a + b.drop_last());
        assert((a + b).last() == b.last());
        assert(encode_script(a + b, words) =~= encode_script(a, words) + encode_script(b, words));
    }
}

/// Finishing a dialogue appends the bytes `05 00` (wait for input, end) to
/// the bytes that the script had before.
pub proof fn lemma_finish_bytes(cmds: Seq<CommandSpec>, words: Map<Seq<char>, u8>)
    ensures
        encode_script(cmds.push(CommandSpec::WaitForInput).push(CommandSpec::End), words)
            == encode_script(cmds, words) + seq![0x05u8, 0x00u8],
{
    let s1 = cmds.push(CommandSpec::WaitForInput);
    let s2 = s1.push(CommandSpec::End);
    assert(s2.drop_last() =~= s1);
    assert(s1.drop_last() =~= cmds);
    assert(encode_script(s2, words) == encode_script(s1, words) + seq![0x00u8]);
    assert(encode_script(s1, words) == encode_script(cmds, words) + seq![0x05u8]);
    assert(encode_script(s2, words) =~= encode_script(cmds, words) + seq![0x05u8, 0x00u8]);
}

/// The dictionary-compressed bytes of the UTF-8 text `t` from `pos` on: each
/// longest word standing at a position is replaced by `0c` and its index,
/// other bytes are kept.
pub open spec fn compressed(words: Map<Seq<char>, u8>, t: Seq<u8>, pos: int) -> Seq<u8>
    decreases t.len() - pos,
{
    if pos < 0 || pos >= t.len() {
        seq![]
    } else if has_word_at(words, t, pos) {
        let w = longest_word_at(words, t, pos);
        let n = encode_utf8(w).len();
        if n == 0 || pos + n > t.len() {
            seq![]
        } else {
            seq![0x0cu8, words[w]] + compressed(words, t, pos + n)
        }
    } else {
        seq![t[pos]] + compressed(words, t, pos + 1)
    }
}

/// Whether splitting `t` from `pos` on never matches an empty word and reads on
/// its own only ASCII bytes other than a line feed.
pub open spec fn plain_text(words: Map<Seq<char>, u8>, t: Seq<u8>, pos: int) -> bool
    decreases t.len() - pos,
{
    if pos < 0 || pos >= t.len() {
        true
    } else if has_word_at(words, t, pos) {
        let n = encode_utf8(longest_word_at(words, t, pos)).len();
        n > 0 && pos + n <= t.len() && plain_text(words, t, pos + n)
    } else {
        t[pos] < 0x80 && t[pos] != 10 && plain_text(words, t, pos + 1)
    }
}

proof fn lemma_encode_one(c: CommandSpec, words: Map<Seq<char>, u8>)
    ensures
        encode_script(seq![c], words) == encode_command(c, words),
{
    assert(seq![c].drop_last() =~= Seq::<CommandSpec>::empty());
    assert(seq![c].last() == c);
    assert(encode_script(Seq::<CommandSpec>::empty(), words) == Seq::<u8>::empty());
    assert(encode_script(seq![c], words) == encode_script(Seq::<CommandSpec>::empty(), words) + encode_command(c, words));
    assert(encode_script(seq![c], words) =~= encode_command(c, words));
}

proof fn lemma_flush_bytes(p: Seq<char>, words: Map<Seq<char>, u8>)
    ensures
        encode_script(flush(p), words) == encode_utf8(p),
        words_known(flush(p), words),
{
    if p.len() == 0 {
        assert(encode_utf8(p) =~= Seq::<u8>::empty());
    } else {
        lemma_encode_one(CommandSpec::Text(p), words);
    }
}

proof fn lemma_words_known_concat(a: Seq<CommandSpec>, b: Seq<CommandSpec>, words: Map<Seq<char>, u8>)
    requires
        words_known(a, words),
        words_known(b, words),
    ensures
        words_known(a + b, words),
{
    assert forall|i: int| 0 <= i < (a + b).len() implies (#[trigger] (a + b)[i] matches CommandSpec::Word(w) ==> words.contains_key(w)) by {
        if i < a.len() {
            assert((a + b)[i] == a[i]);
        } else {
            assert((a + b)[i] == b[i - a.len()]);
        }
    }
}

proof fn lemma_split_bytes(words: Map<Seq<char>, u8>, t: Seq<u8>, pos: int, pending: Seq<char>)
    requires
        0 <= pos,
        plain_text(words, t, pos),
        is_ascii_chars(pending),
    ensures
        words_known(split_text(words, t, pos, pending), words),
        encode_script(split_text(words, t, pos, pending), words) == encode_utf8(pending) + compressed(words, t, pos),
    decreases t.len() - pos,
{
    lemma_flush_bytes(pending, words);
    if pos >= t.len() {
        assert(encode_utf8(pending) + compressed(words, t, pos) =~= encode_utf8(pending));
    } else if has_word_at(words, t, pos) {
        lemma_longest_exists(words, t, pos);
        let w = longest_word_at(words, t, pos);
        let n = encode_utf8(w).len();
        let rest = split_text(words, t, pos + n, seq![]);
        lemma_split_bytes(words, t, pos + n, seq![]);
        assert(encode_utf8(Seq::<char>::empty()) =~= Seq::<u8>::empty());
        lemma_encode_one(CommandSpec::Word(w), words);
        lemma_encode_script_concat(flush(pending), seq![CommandSpec::Word(w)], words);
        lemma_encode_script_concat(flush(pending) + seq![CommandSpec::Word(w)], rest, words);
        assert(words_known(seq![CommandSpec::Word(w)], words));
        lemma_words_known_concat(flush(pending), seq![CommandSpec::Word(w)], words);
        lemma_words_known_concat(flush(pending) + seq![CommandSpec::Word(w)], rest, words);
        assert(encode_script(split_text(words, t, pos, pending), words)
            =~= encode_utf8(pending) + compressed(words, t, pos));
    } else {
        let b = t[pos];
        let c = b as char;
        let p2 = pending.push(c);
        assert(is_ascii_chars(p2)) by {
            assert forall|i| 0 <= i < p2.len() implies '\0' <= #[trigger] p2[i] <= '\u{7f}' by {
                if i < pending.len() {
                    assert(p2[i] == pending[i]);
                }
            }
        }
        lemma_split_bytes(words, t, pos + 1, p2);
        is_ascii_chars_encode_utf8(pending);
        is_ascii_chars_encode_utf8(p2);
        assert(p2[pending.len() as int] as u8 == b);
        assert(encode_utf8(p2) =~= encode_utf8(pending) + seq![b]) by {
            assert forall|i| 0 <= i < p2.len() implies #[trigger] encode_utf8(p2)[i] == (encode_utf8(pending) + seq![b])[i] by {
                if i < pending.len() {
                    assert(p2[i] == pending[i]);
                    assert(encode_utf8(pending)[i] == pending[i] as u8);
                }
            }
        }
        assert(encode_utf8(pending) + compressed(words, t, pos) =~= encode_utf8(p2) + compressed(words, t, pos + 1));
    }
}

/// Text whose bytes are ASCII except within dictionary words, and that holds
/// no line feed, becomes, once split and built, its own bytes with each
/// longest dictionary word replaced by `0c` and the word's index.
pub proof fn lemma_text_compresses(words: Map<Seq<char>, u8>, t: Seq<u8>)
    requires
        plain_text(words, t, 0),
    ensures
        words_known(split_text(words, t, 0, seq![]), words),
        encode_script(split_text(words, t, 0, seq![]), words) == compressed(words, t, 0),
{
    lemma_split_bytes(words, t, 0, seq![]);
    assert(encode_utf8(Seq::<char>::empty()) =~= Seq::<u8>::empty());
    assert(encode_utf8(Seq::<char>::empty()) + compressed(words, t, 0) =~= compressed(words, t, 0));
}


impl<'a> Dialogue<'a> {
    /// Whether `text` can be appended with `text`: its splitting ends and reads
    /// every byte at a character boundary.
    pub fn can_split(&self, text: &str) -> (ok: bool)
        ensures
            ok == text_ok(self.words(), text.spec_bytes(), 0),
    {
        let t = text.as_bytes();
        let n = t.len();
        let ghost words = self.words();
        let no_words = self.word_list.is_empty();
        let mut pos: usize = 0;
        while pos < n
            invariant
                n == t@.len(),
                t@ == text.spec_bytes(),
                pos <= n,
                words == self.words(),
                no_words == (words =~= Map::<Seq<char>, u8>::empty()),
                text_ok(words, t@, 0) == text_ok(words, t@, pos as int),
            decreases n - pos,
        {
            match self.word_list.longest_at(t, pos) {
                Some(w) => {
                    proof {
                        lemma_longest_unique(words, t@, pos as int, w@, longest_word_at(words, t@, pos as int));
                    }
                    let wl = w.as_str().len();
                    assert(word_fits(t@, pos as int, w@));
                    assert(has_word_at(words, t@, pos as int));
                    if wl == 0 {
                        assert(!text_ok(words, t@, pos as int));
                        return false;
                    }
                    pos = pos + wl;
                },
                None => {
                    if !no_words && t[pos] >= 0x80 {
                        assert(words != Map::<Seq<char>, u8>::empty());
                        assert(!text_ok(words, t@, pos as int));
                        return false;
                    }
                    pos = pos + 1;
                },
            }
        }
        true
    }

    /// Whether every word the dialogue refers to is in its dictionary, so that
    /// it can be built.
    pub fn words_defined(&self) -> (ok: bool)
        ensures
            ok == words_known(self.script(), self.words()),
    {
        let n = self.commands.len();
        let mut i: usize = 0;
        while i < n
            invariant
                n == self.commands@.len(),
                i <= n,
                forall|j: int| 0 <= j < i ==> (#[trigger] self.script()[j] matches CommandSpec::Word(w) ==> self.words().contains_key(w)),
            decreases n - i,
        {
            assert(self.script()[i as int] == self.commands@[i as int]@);
            match &self.commands[i] {
                TextCommand::Word(s) => {
                    if self.word_list.get(s.as_str()).is_none() {
                        return false;
                    }
                },
                _ => {},
            }
            i = i + 1;
        }
        true
    }

    /// The commands added so far.
    pub fn commands(&self) -> (cmds: &Vec<TextCommand>)
        ensures
            cmds@.map_values(|c: TextCommand| c@) == self.script(),
    {
        &self.commands
    }
}


/// Every word that splitting text yields is a word of the dictionary.
pub proof fn lemma_split_words_known(words: Map<Seq<char>, u8>, t: Seq<u8>, pos: int, pending: Seq<char>)
    ensures
        words_known(split_text(words, t, pos, pending), words),
    decreases t.len() - pos,
{
    lemma_flush_bytes(pending, words);
    if pos < 0 || pos >= t.len() {
    } else if has_word_at(words, t, pos) {
        lemma_longest_exists(words, t, pos);
        let w = longest_word_at(words, t, pos);
        let n = encode_utf8(w).len();
        if n != 0 && pos + n <= t.len() {
            lemma_split_words_known(words, t, pos + n, seq![]);
            assert(words_known(seq![CommandSpec::Word(w)], words));
            lemma_words_known_concat(flush(pending), seq![CommandSpec::Word(w)], words);
            lemma_words_known_concat(flush(pending) + seq![CommandSpec::Word(w)], split_text(words, t, pos + n, seq![]), words);
        }
    } else if t[pos] == 10 {
        lemma_split_words_known(words, t, pos + 1, pending);
        assert(words_known(seq![CommandSpec::NewLine], words));
        lemma_words_known_concat(seq![CommandSpec::NewLine], split_text(words, t, pos + 1, pending), words);
    } else {
        lemma_split_words_known(words, t, pos + 1, pending.push(t[pos] as char));
    }
}


/// ASCII text always splits, as long as the dictionary holds no empty word.
pub proof fn lemma_ascii_text_ok(words: Map<Seq<char>, u8>, t: Seq<u8>, pos: int)
    requires
        0 <= pos,
        !words.contains_key(Seq::<char>::empty()),
        forall|i: int| pos <= i < t.len() ==> #[trigger] t[i] < 0x80,
    ensures
        text_ok(words, t, pos),
    decreases t.len() - pos,
{
    if pos < t.len() {
        if has_word_at(words, t, pos) {
            lemma_longest_exists(words, t, pos);
            let w = longest_word_at(words, t, pos);
            assert(w.len() > 0) by {
                if w.len() == 0 {
                    assert(w =~= Seq::<char>::empty());
                }
            }
            assert(encode_utf8(w).len() > 0) by {
                assert(encode_utf8(w) == encode_scalar(w[0] as u32) + encode_utf8(w.drop_first()));
            }
            lemma_ascii_text_ok(words, t, pos + encode_utf8(w).len());
        } else {
            lemma_ascii_text_ok(words, t, pos + 1);
        }
    }
}


/// The number of line breaks among `cmds`.
pub open spec fn newline_count(cmds: Seq<CommandSpec>) -> nat
    decreases cmds.len(),
{
    if cmds.len() == 0 {
        0
    } else {
        newline_count(cmds.drop_last()) + if cmds.last() is NewLine { 1nat } else { 0nat }
    }
}

/// The number of line feeds in the text `t` from `pos` on that are not part
/// of a dictionary word: at each position where a word stands, the longest
/// such word is stepped over whole.
pub open spec fn free_line_feeds(words: Map<Seq<char>, u8>, t: Seq<u8>, pos: int) -> nat
    decreases t.len() - pos,
{
    if pos < 0 || pos >= t.len() {
        0
    } else if has_word_at(words, t, pos) {
        let n = encode_utf8(longest_word_at(words, t, pos)).len();
        if n == 0 || pos + n > t.len() {
            0
        } else {
            free_line_feeds(words, t, pos + n)
        }
    } else if t[pos] == 10 {
        1 + free_line_feeds(words, t, pos + 1)
    } else {
        free_line_feeds(words, t, pos + 1)
    }
}

proof fn lemma_newline_count_concat(a: Seq<CommandSpec>, b: Seq<CommandSpec>)
    ensures
        newline_count(a + b) == newline_count(a) + newline_count(b),
    decreases b.len(),
{
    if b.len() == 0 {
        assert(a + b =~= a);
    } else {
        lemma_newline_count_concat(a, b.drop_last());
        assert((a + b).drop_last() =~= a + b.drop_last());
        assert((a + b).last() == b.last());
    }
}

proof fn lemma_flush_no_newline(p: Seq<char>)
    ensures
        newline_count(flush(p)) == 0,
{
    assert(newline_count(Seq::<CommandSpec>::empty()) == 0);
    if p.len() > 0 {
        assert(flush(p).drop_last() =~= Seq::<CommandSpec>::empty());
        assert(flush(p).last() == CommandSpec::Text(p));
    } else {
        assert(flush(p) =~= Seq::<CommandSpec>::empty());
    }
}

/// Every line feed of a text that is not part of a dictionary word becomes
/// exactly one line break, whatever text is pending when it is read: the
/// commands that splitting yields hold as many line breaks as the text holds
/// such line feeds.
pub proof fn lemma_split_line_feeds(words: Map<Seq<char>, u8>, t: Seq<u8>, pos: int, pending: Seq<char>)
    ensures
        newline_count(split_text(words, t, pos, pending)) == free_line_feeds(words, t, pos),
    decreases t.len() - pos,
{
    lemma_flush_no_newline(pending);
    if pos < 0 || pos >= t.len() {
    } else if has_word_at(words, t, pos) {
        let w = longest_word_at(words, t, pos);
        let n = encode_utf8(w).len();
        if n != 0 && pos + n <= t.len() {
            lemma_split_line_feeds(words, t, pos + n, seq![]);
            let one = seq![CommandSpec::Word(w)];
            assert(one.drop_last() =~= Seq::<CommandSpec>::empty());
            assert(newline_count(Seq::<CommandSpec>::empty()) == 0);
            assert(newline_count(one) == 0);
            lemma_newline_count_concat(flush(pending), one);
            lemma_newline_count_concat(flush(pending) + one, split_text(words, t, pos + n, seq![]));
        }
    } else if t[pos] == 10 {
        lemma_split_line_feeds(words, t, pos + 1, pending);
        let one = seq![CommandSpec::NewLine];
        assert(one.drop_last() =~= Seq::<CommandSpec>::empty());
        assert(newline_count(Seq::<CommandSpec>::empty()) == 0);
        assert(newline_count(one) == 1);
        lemma_newline_count_concat(one, split_text(words, t, pos + 1, pending));
    } else {
        lemma_split_line_feeds(words, t, pos + 1, pending.push(t[pos] as char));
    }
}

/// Raw bytes are built verbatim: in the bytes of a script, a `RawBytes(b)`
/// command stands as `b` itself, whole and unchanged, right after the bytes of
/// the commands before it and right before the bytes of those after it.
pub proof fn lemma_raw_bytes_verbatim(before: Seq<CommandSpec>, b: Seq<u8>, after: Seq<CommandSpec>, words: Map<Seq<char>, u8>)
    ensures
        encode_script(before.push(CommandSpec::RawBytes(b)) + after, words).len()
            == encode_script(before, words).len() + b.len() + encode_script(after, words).len(),
        encode_script(before.push(CommandSpec::RawBytes(b)) + after, words).subrange(
            encode_script(before, words).len() as int,
            (encode_script(before, words).len() + b.len()) as int,
        ) == b,
        encode_script(before.push(CommandSpec::RawBytes(b)) + after, words).skip(
            (encode_script(before, words).len() + b.len()) as int,
        ) == encode_script(after, words),
{
    let s = before.push(CommandSpec::RawBytes(b));
    lemma_encode_script_concat(s, after, words);
    assert(s.drop_last() =~= before);
    let eb = encode_script(before, words);
    let ea = encode_script(after, words);
    assert(encode_script(s, words) == eb + b);
    let all = encode_script(s + after, words);
    assert(all == eb + b + ea);
    assert(all.subrange(eb.len() as int, (eb.len() + b.len()) as int) =~= b);
    assert(all.skip((eb.len() + b.len()) as int) =~= ea);
}


proof fn lemma_utf8_concat(a: Seq<char>, b: Seq<char>)
    ensures
        encode_utf8(a + b) == encode_utf8(a) + encode_utf8(b),
    decreases a.len(),
{
    if a.len() == 0 {
        assert(a + b =~= b);
        assert(encode_utf8(a) + encode_utf8(b) =~= encode_utf8(b));
    } else {
        lemma_utf8_concat(a.drop_first(), b);
        assert((a + b).drop_first() =~= a.drop_first() + b);
        assert((a + b)[0] == a[0]);
        assert(encode_utf8(a + b) =~= encode_utf8(a) + encode_utf8(b));
    }
}

/// A character takes at most four bytes in UTF-8.
pub(crate) proof fn lemma_utf8_len(a: Seq<char>)
    ensures
        encode_utf8(a).len() <= 4 * a.len(),
    decreases a.len(),
{
    if a.len() > 0 {
        lemma_utf8_len(a.drop_first());
        assert(encode_scalar(a[0] as u32).len() <= 4);
    }
}

/// The bytes of the commands that splitting text yields are at most four for
/// each byte of the text, besides those of the pending text.
pub(crate) proof fn lemma_split_len(words: Map<Seq<char>, u8>, t: Seq<u8>, pos: int, pending: Seq<char>)
    requires
        0 <= pos <= t.len(),
    ensures
        encode_script(split_text(words, t, pos, pending), words).len() <= encode_utf8(pending).len() + 4 * (t.len() - pos),
    decreases t.len() - pos,
{
    lemma_flush_bytes(pending, words);
    if pos >= t.len() {
    } else if has_word_at(words, t, pos) {
        let w = longest_word_at(words, t, pos);
        let n = encode_utf8(w).len();
        if n != 0 && pos + n <= t.len() {
            let rest = split_text(words, t, pos + n, seq![]);
            lemma_split_len(words, t, pos + n, seq![]);
            assert(encode_utf8(Seq::<char>::empty()) =~= Seq::<u8>::empty());
            lemma_encode_one(CommandSpec::Word(w), words);
            lemma_encode_script_concat(flush(pending), seq![CommandSpec::Word(w)], words);
            lemma_encode_script_concat(flush(pending) + seq![CommandSpec::Word(w)], rest, words);
        }
    } else if t[pos] == 10 {
        lemma_split_len(words, t, pos + 1, pending);
        lemma_encode_one(CommandSpec::NewLine, words);
        lemma_encode_script_concat(seq![CommandSpec::NewLine], split_text(words, t, pos + 1, pending), words);
    } else {
        let c = t[pos] as char;
        lemma_split_len(words, t, pos + 1, pending.push(c));
        assert(pending.push(c) =~= pending + seq![c]);
        lemma_utf8_concat(pending, seq![c]);
        lemma_utf8_len(seq![c]);
    }
}


/// The characters of the text commands among `cmds`, one after another.
pub open spec fn text_chars(cmds: Seq<CommandSpec>) -> Seq<char>
    decreases cmds.len(),
{
    if cmds.len() == 0 {
        seq![]
    } else {
        text_chars(cmds.drop_last()) + match cmds.last() {
            CommandSpec::Text(s) => s,
            _ => Seq::<char>::empty(),
        }
    }
}

/// The words that the commands among `cmds` refer to, in order.
pub open spec fn referred_words(cmds: Seq<CommandSpec>) -> Seq<Seq<char>>
    decreases cmds.len(),
{
    if cmds.len() == 0 {
        seq![]
    } else {
        referred_words(cmds.drop_last()) + match cmds.last() {
            CommandSpec::Word(w) => seq![w],
            _ => Seq::<Seq<char>>::empty(),
        }
    }
}

/// The bytes of the text `t` from `pos` on, each as a character, that are
/// neither part of a dictionary word nor a line feed.
pub open spec fn free_chars(words: Map<Seq<char>, u8>, t: Seq<u8>, pos: int) -> Seq<char>
    decreases t.len() - pos,
{
    if pos < 0 || pos >= t.len() {
        seq![]
    } else if has_word_at(words, t, pos) {
        let n = encode_utf8(longest_word_at(words, t, pos)).len();
        if n == 0 || pos + n > t.len() {
            seq![]
        } else {
            free_chars(words, t, pos + n)
        }
    } else if t[pos] == 10 {
        free_chars(words, t, pos + 1)
    } else {
        seq![t[pos] as char] + free_chars(words, t, pos + 1)
    }
}

/// The dictionary words found in the text `t` from `pos` on: at each position
/// where words stand, the longest, which is then stepped over whole.
pub open spec fn matched_words(words: Map<Seq<char>, u8>, t: Seq<u8>, pos: int) -> Seq<Seq<char>>
    decreases t.len() - pos,
{
    if pos < 0 || pos >= t.len() {
        seq![]
    } else if has_word_at(words, t, pos) {
        let w = longest_word_at(words, t, pos);
        let n = encode_utf8(w).len();
        if n == 0 || pos + n > t.len() {
            seq![]
        } else {
            seq![w] + matched_words(words, t, pos + n)
        }
    } else {
        matched_words(words, t, pos + 1)
    }
}

proof fn lemma_text_chars_concat(a: Seq<CommandSpec>, b: Seq<CommandSpec>)
    ensures
        text_chars(a + b) == text_chars(a) + text_chars(b),
        referred_words(a + b) == referred_words(a) + referred_words(b),
    decreases b.len(),
{
    if b.len() == 0 {
        assert(a + b =~= a);
        assert(text_chars(a) + text_chars(b) =~= text_chars(a));
        assert(referred_words(a) + referred_words(b) =~= referred_words(a));
    } else {
        lemma_text_chars_concat(a, b.drop_last());
        assert((a + b).drop_last() =~= a + b.drop_last());
        assert((a + b).last() == b.last());
        assert(text_chars(a + b) =~= text_chars(a) + text_chars(b));
        assert(referred_words(a + b) =~= referred_words(a) + referred_words(b));
    }
}

proof fn lemma_one_command(c: CommandSpec)
    ensures
        text_chars(seq![c]) == (match c {
            CommandSpec::Text(s) => s,
            _ => Seq::<char>::empty(),
        }),
        referred_words(seq![c]) == (match c {
            CommandSpec::Word(w) => seq![w],
            _ => Seq::<Seq<char>>::empty(),
        }),
{
    assert(seq![c].drop_last() =~= Seq::<CommandSpec>::empty());
    assert(seq![c].last() == c);
    assert(text_chars(Seq::<CommandSpec>::empty()) == Seq::<char>::empty());
    assert(referred_words(Seq::<CommandSpec>::empty()) == Seq::<Seq<char>>::empty());
    assert(text_chars(seq![c]) =~= Seq::<char>::empty() + match c {
        CommandSpec::Text(s) => s,
        _ => Seq::<char>::empty(),
    });
    assert(referred_words(seq![c]) =~= Seq::<Seq<char>>::empty() + match c {
        CommandSpec::Word(w) => seq![w],
        _ => Seq::<Seq<char>>::empty(),
    });
}

proof fn lemma_flush_chars(p: Seq<char>)
    ensures
        text_chars(flush(p)) == p,
        referred_words(flush(p)) == Seq::<Seq<char>>::empty(),
{
    if p.len() > 0 {
        lemma_one_command(CommandSpec::Text(p));
    } else {
        assert(flush(p) =~= Seq::<CommandSpec>::empty());
        assert(p =~= Seq::<char>::empty());
    }
}

/// Splitting text loses and adds no character: the text commands it yields
/// hold, in order, the pending characters and then every byte of the text that
/// is neither part of a dictionary word nor a line feed; and the word
/// references it yields are, in order, the longest words found in the text.
pub proof fn lemma_split_contents(words: Map<Seq<char>, u8>, t: Seq<u8>, pos: int, pending: Seq<char>)
    ensures
        text_chars(split_text(words, t, pos, pending)) == pending + free_chars(words, t, pos),
        referred_words(split_text(words, t, pos, pending)) == matched_words(words, t, pos),
    decreases t.len() - pos,
{
    lemma_flush_chars(pending);
    if pos < 0 || pos >= t.len() {
        assert(pending + free_chars(words, t, pos) =~= pending);
    } else if has_word_at(words, t, pos) {
        let w = longest_word_at(words, t, pos);
        let n = encode_utf8(w).len();
        if n == 0 || pos + n > t.len() {
            assert(pending + free_chars(words, t, pos) =~= pending);
        } else {
            let rest = split_text(words, t, pos + n, seq![]);
            lemma_split_contents(words, t, pos + n, seq![]);
            lemma_one_command(CommandSpec::Word(w));
            lemma_text_chars_concat(flush(pending), seq![CommandSpec::Word(w)]);
            lemma_text_chars_concat(flush(pending) + seq![CommandSpec::Word(w)], rest);
            assert(Seq::<char>::empty() + free_chars(words, t, pos + n) =~= free_chars(words, t, pos + n));
            assert(pending + Seq::<char>::empty() =~= pending);
            assert(text_chars(split_text(words, t, pos, pending)) =~= pending + free_chars(words, t, pos));
            assert(referred_words(split_text(words, t, pos, pending)) =~= matched_words(words, t, pos));
        }
    } else if t[pos] == 10 {
        let rest = split_text(words, t, pos + 1, pending);
        lemma_split_contents(words, t, pos + 1, pending);
        lemma_one_command(CommandSpec::NewLine);
        lemma_text_chars_concat(seq![CommandSpec::NewLine], rest);
        assert(text_chars(split_text(words, t, pos, pending)) =~= pending + free_chars(words, t, pos));
        assert(referred_words(split_text(words, t, pos, pending)) =~= matched_words(words, t, pos));
    } else {
        let c = t[pos] as char;
        lemma_split_contents(words, t, pos + 1, pending.push(c));
        assert(pending.push(c) + free_chars(words, t, pos + 1) =~= pending + free_chars(words, t, pos));
    }
}

} // verus!
