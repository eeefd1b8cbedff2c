//! The word dictionary of the ROM: common words are stored once, in a table of
//! jump addresses, and dialogue refers to them by their index in that table.

use crate::endian::{be_u16, read_u16_be};
use vstd::prelude::*;
use vstd::slice::slice_subrange;
use vstd::utf8::{encode_utf8, encode_utf8_decode_utf8};

verus! {

/// Start of the table of word addresses in the ROM.
pub const JUMP_START_ADDRESS: usize = 0x211da;

/// End of the table of word addresses in the ROM.
pub const JUMP_END_ADDRESS: usize = 0x213a9;

/// Number of entries in the word table.
pub const WORD_COUNT: usize = 231;

/// The address that entry `index` of the word table points to: a big-endian
/// offset from the start of the table.
pub open spec fn jump_address(rom: Seq<u8>, index: int) -> int {
    be_u16(rom[JUMP_START_ADDRESS + 2 * index], rom[JUMP_START_ADDRESS + 2 * index + 1])
        + JUMP_START_ADDRESS
}

/// Whether entry `index` of the word table lies inside `rom`.
pub open spec fn jump_entry_in(rom: Seq<u8>, index: int) -> bool {
    0 <= index && JUMP_START_ADDRESS + 2 * index + 2 <= rom.len()
}

/// Whether a zero byte stands in `rom` at `start` or after it.
pub open spec fn has_terminator(rom: Seq<u8>, start: int) -> bool
    decreases rom.len() - start,
{
    if start < 0 || start >= rom.len() {
        false
    } else {
        rom[start] == 0 || has_terminator(rom, start + 1)
    }
}

/// The bytes from `start` up to the next zero byte (or the end of `rom`).
pub open spec fn word_bytes(rom: Seq<u8>, start: int) -> Seq<u8>
    decreases rom.len() - start,
{
    if start < 0 || start >= rom.len() || rom[start] == 0 {
        seq![]
    } else {
        seq![rom[start]] + word_bytes(rom, start + 1)
    }
}

/// Each byte read as the character of that code point.
pub open spec fn latin1(bytes: Seq<u8>) -> Seq<char> {
    bytes.map_values(|b: u8| b as char)
}

/// The word that entry `index` of the word table points to.
pub open spec fn word_at(rom: Seq<u8>, index: int) -> Seq<char> {
    latin1(word_bytes(rom, jump_address(rom, index)))
}

/// Whether the word table of `rom` can be read: the table lies inside the ROM
/// and every word it points to is terminated by a zero byte.
pub open spec fn word_table_ok(rom: Seq<u8>) -> bool {
    &&& JUMP_END_ADDRESS <= rom.len()
    &&& forall|i: int| 0 <= i < WORD_COUNT ==> #[trigger] has_terminator(rom, jump_address(rom, i))
}

/// The dictionary made of the first `n` entries of the word table, a later
/// entry replacing an earlier one with the same word.
pub open spec fn dictionary(rom: Seq<u8>, n: int) -> Map<Seq<char>, u8>
    decreases n,
{
    if n <= 0 {
        Map::empty()
    } else {
        dictionary(rom, n - 1).insert(word_at(rom, n - 1), (n - 1) as u8)
    }
}

/// Whether the UTF-8 encoding of `w` stands in `t` at `pos`.
pub open spec fn word_fits(t: Seq<u8>, pos: int, w: Seq<char>) -> bool {
    let wb = encode_utf8(w);
    &&& 0 <= pos
    &&& pos + wb.len() <= t.len()
    &&& t.subrange(pos, pos + wb.len()) == wb
}

/// Whether some word of `words` stands in `t` at `pos`.
pub open spec fn has_word_at(words: Map<Seq<char>, u8>, t: Seq<u8>, pos: int) -> bool {
    exists|w: Seq<char>| words.contains_key(w) && #[trigger] word_fits(t, pos, w)
}

/// Whether `w` is a word of `words` standing in `t` at `pos` with no longer
/// one standing there.
pub open spec fn is_longest_at(words: Map<Seq<char>, u8>, t: Seq<u8>, pos: int, w: Seq<char>) -> bool {
    &&& words.contains_key(w)
    &&& word_fits(t, pos, w)
    &&& forall|w2: Seq<char>|
        words.contains_key(w2) && #[trigger] word_fits(t, pos, w2) ==> encode_utf8(w2).len()
            <= encode_utf8(w).len()
}

/// The longest word of `words` that stands in `t` at `pos`.
pub open spec fn longest_word_at(words: Map<Seq<char>, u8>, t: Seq<u8>, pos: int) -> Seq<char> {
    choose|w: Seq<char>| is_longest_at(words, t, pos, w)
}

/// Two words whose encodings are equal are equal.
pub proof fn lemma_encode_injective(a: Seq<char>, b: Seq<char>)
    requires
        encode_utf8(a) == encode_utf8(b),
    ensures
        a == b,
{
    encode_utf8_decode_utf8(a);
    encode_utf8_decode_utf8(b);
}

/// At most one word is the longest at a position.
pub proof fn lemma_longest_unique(words: Map<Seq<char>, u8>, t: Seq<u8>, pos: int, w1: Seq<char>, w2: Seq<char>)
    requires
        is_longest_at(words, t, pos, w1),
        is_longest_at(words, t, pos, w2),
    ensures
        w1 == w2,
{
    assert(word_fits(t, pos, w1));
    assert(word_fits(t, pos, w2));
    lemma_encode_injective(w1, w2);
}

/// A dictionary of words, each with its index in the word table.
pub struct WordList {
    entries: Vec<(String, u8)>,
}

impl WordList {
    #[verifier::type_invariant]
    closed spec fn distinct_words(self) -> bool {
        forall|i: int, j: int|
            0 <= i < j < self.entries@.len() ==> (#[trigger] self.entries@[i]).0@ != (#[trigger] self.entries@[j]).0@
    }

    closed spec fn key(&self, i: int) -> Seq<char> {
        self.entries@[i].0@
    }

    closed spec fn index_of(&self, w: Seq<char>) -> int {
        choose|i: int| 0 <= i < self.entries@.len() && self.key(i) == w
    }
}

impl View for WordList {
    type V = Map<Seq<char>, u8>;

    closed spec fn view(&self) -> Map<Seq<char>, u8> {
        Map::new(
            |w: Seq<char>| exists|i: int| 0 <= i < self.entries@.len() && #[trigger] self.key(i) == w,
            |w: Seq<char>| self.entries@[self.index_of(w)].1,
        )
    }
}

/// Whether `t[pos..pos + w.len()]` equals `w`.
fn bytes_at(t: &[u8], pos: usize, w: &[u8]) -> (r: bool)
    requires
        pos <= t@.len(),
    ensures
        r == (pos + w@.len() <= t@.len() && t@.subrange(pos as int, pos + w@.len()) == w@),
{
    if w.len() > t.len() - pos {
        return false;
    }
    let tl = t.len();
    let mut k: usize = 0;
    while k < w.len()
        invariant
            tl == t@.len(),
            pos + w@.len() <= t@.len(),
            k <= w@.len(),
            forall|m: int| 0 <= m < k ==> t@[pos + m] == w@[m],
        decreases w@.len() - k,
    {
        if t[pos + k] != w[k] {
            assert(t@.subrange(pos as int, pos + w@.len())[k as int] != w@[k as int]);
            return false;
        }
        k = k + 1;
    }
    assert(t@.subrange(pos as int, pos + w@.len()) =~= w@);
    true
}

impl WordList {
    proof fn lemma_entry(&self, i: int)
        requires
            self.distinct_words(),
            0 <= i < self.entries@.len(),
        ensures
            self@.contains_key(self.key(i)),
            self@[self.key(i)] == self.entries@[i].1,
    {
        let w = self.key(i);
        assert(exists|j: int| 0 <= j < self.entries@.len() && #[trigger] self.key(j) == w);
        let j = self.index_of(w);
        if j != i {
            if j < i {
                assert(self.entries@[j].0@ != self.entries@[i].0@);
            } else {
                assert(self.entries@[i].0@ != self.entries@[j].0@);
            }
        }
    }

    proof fn lemma_key_in(&self, w: Seq<char>)
        requires
            self@.contains_key(w),
        ensures
            0 <= self.index_of(w) < self.entries@.len(),
            self.key(self.index_of(w)) == w,
    {
    }

    /// An empty dictionary.
    pub fn new() -> (r: Self)
        ensures
            r@ == Map::<Seq<char>, u8>::empty(),
    {
        let r = WordList { entries: Vec::new() };
        assert(r@ =~= Map::<Seq<char>, u8>::empty());
        r
    }

    /// The position of the entry whose word has the UTF-8 encoding `wb`.
    fn find(&self, wb: &[u8]) -> (r: Option<usize>)
        ensures
            match r {
                Some(i) => i < self.entries@.len() && encode_utf8(self.key(i as int)) == wb@,
                None => forall|i: int| 0 <= i < self.entries@.len() ==> encode_utf8(#[trigger] self.key(i)) != wb@,
            },
    {
        let n = self.entries.len();
        let mut i: usize = 0;
        while i < n
            invariant
                n == self.entries@.len(),
                i <= n,
                forall|j: int| 0 <= j < i ==> encode_utf8(#[trigger] self.key(j)) != wb@,
            decreases n - i,
        {
            let kb = self.entries[i].0.as_str().as_bytes();
            if bytes_at(kb, 0, wb) && kb.len() == wb.len() {
                assert(kb@.subrange(0, wb@.len() as int) =~= kb@);
                return Some(i);
            }
            proof {
                if encode_utf8(self.key(i as int)) == wb@ {
                    assert(kb@.subrange(0, wb@.len() as int) =~= kb@);
                }
            }
            i = i + 1;
        }
        None
    }

    /// The index of `word`, if it is in the dictionary.
    pub fn get(&self, word: &str) -> (r: Option<u8>)
        ensures
            r == (if self@.contains_key(word@) { Some(self@[word@]) } else { None::<u8> }),
    {
        proof {
            use_type_invariant(self);
        }
        let wb = word.as_bytes();
        match self.find(wb) {
            Some(i) => {
                proof {
                    lemma_encode_injective(self.key(i as int), word@);
                    self.lemma_entry(i as int);
                }
                Some(self.entries[i].1)
            },
            None => {
                proof {
                    if self@.contains_key(word@) {
                        self.lemma_key_in(word@);
                        let j = self.index_of(word@);
                        assert(encode_utf8(self.key(j)) != wb@);
                    }
                }
                None
            },
        }
    }

    /// Whether the dictionary holds no word.
    pub fn is_empty(&self) -> (r: bool)
        ensures
            r == (self@ =~= Map::<Seq<char>, u8>::empty()),
    {
        proof {
            use_type_invariant(self);
        }
        if self.entries.len() == 0 {
            assert(self@ =~= Map::<Seq<char>, u8>::empty());
            true
        } else {
            proof {
                self.lemma_entry(0);
                assert(self@.contains_key(self.key(0)));
            }
            false
        }
    }

    /// Maps `word` to `index`, replacing the index it had.
    pub fn insert(&mut self, word: String, index: u8)
        ensures
            final(self)@ == old(self)@.insert(word@, index),
    {
        proof {
            use_type_invariant(&*self);
        }
        let ghost old_self = *self;
        let found = self.find(word.as_str().as_bytes());
        match found {
            Some(i) => {
                proof {
                    lemma_encode_injective(self.key(i as int), word@);
                }
                let mut entries: Vec<(String, u8)> = Vec::new();
                std::mem::swap(&mut entries, &mut self.entries);
                entries.set(i, (word, index));
                self.entries = entries;
                proof {
                    use_type_invariant(&*self);
                    assert forall|w: Seq<char>| #[trigger] self@.contains_key(w) == old_self@.insert(word@, index).contains_key(w) by {
                        if self@.contains_key(w) {
                            self.lemma_key_in(w);
                            let j = self.index_of(w);
                            if j != i {
                                old_self.lemma_entry(j);
                            }
                        }
                        if old_self@.contains_key(w) && w != word@ {
                            old_self.lemma_key_in(w);
                            let j = old_self.index_of(w);
                            self.lemma_entry(j);
                        }
                        if w == word@ {
                            self.lemma_entry(i as int);
                        }
                    }
                    assert forall|w: Seq<char>| #[trigger] self@.contains_key(w) implies self@[w] == old_self@.insert(word@, index)[w] by {
                        self.lemma_key_in(w);
                        let j = self.index_of(w);
                        self.lemma_entry(j);
                        if j != i {
                            old_self.lemma_entry(j);
                        }
                    }
                    assert(self@ =~= old_self@.insert(word@, index));
                }
            },
            None => {
                let mut entries: Vec<(String, u8)> = Vec::new();
                std::mem::swap(&mut entries, &mut self.entries);
                entries.push((word, index));
                proof {
                    assert forall|a: int, b: int| 0 <= a < b < entries@.len() implies (#[trigger] entries@[a]).0@ != (#[trigger] entries@[b]).0@ by {
                        if b == old_self.entries@.len() {
                            assert(encode_utf8(old_self.key(a)) != encode_utf8(word@));
                        }
                    }
                }
                self.entries = entries;
                proof {
                    use_type_invariant(&*self);
                    let n = old_self.entries@.len() as int;
                    assert forall|w: Seq<char>| #[trigger] self@.contains_key(w) == old_self@.insert(word@, index).contains_key(w) by {
                        if self@.contains_key(w) {
                            self.lemma_key_in(w);
                            let j = self.index_of(w);
                            if j != n {
                                old_self.lemma_entry(j);
                            }
                        }
                        if old_self@.contains_key(w) && w != word@ {
                            old_self.lemma_key_in(w);
                            let j = old_self.index_of(w);
                            self.lemma_entry(j);
                        }
                        if w == word@ {
                            self.lemma_entry(n);
                        }
                    }
                    assert forall|w: Seq<char>| #[trigger] self@.contains_key(w) implies self@[w] == old_self@.insert(word@, index)[w] by {
                        self.lemma_key_in(w);
                        let j = self.index_of(w);
                        self.lemma_entry(j);
                        if j != n {
                            old_self.lemma_entry(j);
                        }
                    }
                    assert(self@ =~= old_self@.insert(word@, index));
                }
            },
        }
    }
}


impl WordList {
    /// The longest word of the dictionary whose UTF-8 encoding stands in `t`
    /// at `pos`, if any does.
    pub(crate) fn longest_at(&self, t: &[u8], pos: usize) -> (r: Option<String>)
        requires
            pos <= t@.len(),
        ensures
            match r {
                Some(w) => is_longest_at(self@, t@, pos as int, w@),
                None => !has_word_at(self@, t@, pos as int),
            },
    {
        proof {
            use_type_invariant(self);
        }
        let n = self.entries.len();
        let mut best: Option<usize> = None;
        let mut best_len: usize = 0;
        let mut i: usize = 0;
        while i < n
            invariant
                n == self.entries@.len(),
                i <= n,
                pos <= t@.len(),
                match best {
                    Some(b) => {
                        &&& b < i
                        &&& word_fits(t@, pos as int, self.key(b as int))
                        &&& best_len == encode_utf8(self.key(b as int)).len()
                        &&& forall|j: int| 0 <= j < i && #[trigger] word_fits(t@, pos as int, self.key(j))
                            ==> encode_utf8(self.key(j)).len() <= best_len
                    },
                    None => forall|j: int| 0 <= j < i ==> !#[trigger] word_fits(t@, pos as int, self.key(j)),
                },
            decreases n - i,
        {
            let kb = self.entries[i].0.as_str().as_bytes();
            assert(kb@ == encode_utf8(self.key(i as int)));
            if bytes_at(t, pos, kb) {
                match best {
                    Some(_) => {
                        if kb.len() > best_len {
                            best = Some(i);
                            best_len = kb.len();
                        }
                    },
                    None => {
                        best = Some(i);
                        best_len = kb.len();
                    },
                }
            }
            i = i + 1;
        }
        match best {
            Some(b) => {
                proof {
                    self.lemma_entry(b as int);
                    assert forall|w2: Seq<char>| self@.contains_key(w2) && #[trigger] word_fits(t@, pos as int, w2)
                        implies encode_utf8(w2).len() <= encode_utf8(self.key(b as int)).len() by {
                        self.lemma_key_in(w2);
                        let j = self.index_of(w2);
                        assert(word_fits(t@, pos as int, self.key(j)));
                    }
                }
                Some(self.entries[b].0.clone())
            },
            None => {
                proof {
                    if has_word_at(self@, t@, pos as int) {
                        let w = choose|w: Seq<char>| self@.contains_key(w) && #[trigger] word_fits(t@, pos as int, w);
                        self.lemma_key_in(w);
                        let j = self.index_of(w);
                        assert(word_fits(t@, pos as int, self.key(j)));
                    }
                }
                None
            },
        }
    }
}

/// Appends `c` to `s` with std's `String::push`. Trusted: the characters of
/// `s` afterwards are those before with `c` at the end, as std documents.
#[verifier::external_body]
pub(crate) fn push_char(s: &mut String, c: char)
    ensures
        final(s)@ == old(s)@.push(c),
{
    s.push(c)
}

/// The address that entry `offset` of the word table points to.
pub fn get_jump_address(rom_data: &Vec<u8>, offset: u8) -> (addr: usize)
    requires
        jump_entry_in(rom_data@, offset as int),
    ensures
        addr == jump_address(rom_data@, offset as int),
{
    let entry = JUMP_START_ADDRESS + (offset as usize) * 2;
    let v = read_u16_be(slice_subrange(rom_data.as_slice(), entry, entry + 2));
    (v as usize) + JUMP_START_ADDRESS
}

/// The word that entry `offset` of the word table points to: its bytes up to
/// the next zero byte, each read as one character.
pub fn get_word(rom_data: &Vec<u8>, offset: u8) -> (word: String)
    requires
        jump_entry_in(rom_data@, offset as int),
        has_terminator(rom_data@, jump_address(rom_data@, offset as int)),
    ensures
        word@ == word_at(rom_data@, offset as int),
{
    let addr = get_jump_address(rom_data, offset);
    let len = rom_data.len();
    let ghost rom = rom_data@;
    let mut word = String::new();
    let mut pos = addr;
    while rom_data[pos] != 0
        invariant
            len == rom.len(),
            rom == rom_data@,
            addr <= pos < len,
            has_terminator(rom, pos as int),
            word_bytes(rom, addr as int) == rom.subrange(addr as int, pos as int) + word_bytes(rom, pos as int),
            word@ == latin1(rom.subrange(addr as int, pos as int)),
        decreases len - pos,
    {
        let c = rom_data[pos];
        push_char(&mut word, c as char);
        proof {
            assert(rom.subrange(addr as int, pos + 1) =~= rom.subrange(addr as int, pos as int).push(c));
            assert(latin1(rom.subrange(addr as int, pos + 1)) =~= latin1(rom.subrange(addr as int, pos as int)).push(c as char));
            assert(has_terminator(rom, pos + 1));
        }
        pos = pos + 1;
    }
    assert(word_bytes(rom, pos as int) =~= Seq::<u8>::empty());
    assert(rom.subrange(addr as int, pos as int) + Seq::<u8>::empty() =~= rom.subrange(addr as int, pos as int));
    word
}

/// Reads the word table of the ROM into a dictionary from word to index; when
/// a word appears twice, the later index is kept.
pub fn build_word_list(rom_data: &Vec<u8>) -> (word_list: WordList)
    requires
        word_table_ok(rom_data@),
    ensures
        word_list@ == dictionary(rom_data@, WORD_COUNT as int),
{
    let mut word_list = WordList::new();
    let count = (JUMP_END_ADDRESS - JUMP_START_ADDRESS) / 2;
    assert(count == WORD_COUNT);
    let mut i: usize = 0;
    while i < count
        invariant
            count == WORD_COUNT,
            i <= count,
            word_table_ok(rom_data@),
            word_list@ == dictionary(rom_data@, i as int),
        decreases count - i,
    {
        assert(has_terminator(rom_data@, jump_address(rom_data@, i as int)));
        let word = get_word(rom_data, i as u8);
        word_list.insert(word, i as u8);
        i = i + 1;
    }
    word_list
}

/// Reading the word table gives a dictionary in which each word of the table
/// is found, under the index of the last entry of the table that holds it:
/// looking a word up and reading that entry back gives the word again.
pub proof fn lemma_dictionary_lookup(rom: Seq<u8>, n: int, i: int)
    requires
        0 <= i < n <= 256,
    ensures
        dictionary(rom, n).contains_key(word_at(rom, i)),
        i <= dictionary(rom, n)[word_at(rom, i)] < n,
        word_at(rom, dictionary(rom, n)[word_at(rom, i)] as int) == word_at(rom, i),
        forall|j: int| dictionary(rom, n)[word_at(rom, i)] < j < n ==> word_at(rom, j) != word_at(rom, i),
    decreases n,
{
    if i < n - 1 && word_at(rom, n - 1) != word_at(rom, i) {
        lemma_dictionary_lookup(rom, n - 1, i);
    }
}


/// Whenever some word of `words` stands in `t` at `pos`, a longest one does.
pub proof fn lemma_longest_exists(words: Map<Seq<char>, u8>, t: Seq<u8>, pos: int)
    requires
        has_word_at(words, t, pos),
    ensures
        is_longest_at(words, t, pos, longest_word_at(words, t, pos)),
{
    let w = choose|w: Seq<char>| words.contains_key(w) && #[trigger] word_fits(t, pos, w);
    lemma_longest_from(words, t, pos, encode_utf8(w).len() as int);
}

proof fn lemma_longest_from(words: Map<Seq<char>, u8>, t: Seq<u8>, pos: int, k: int)
    requires
        exists|w: Seq<char>| words.contains_key(w) && #[trigger] word_fits(t, pos, w) && encode_utf8(w).len() >= k,
    ensures
        is_longest_at(words, t, pos, longest_word_at(words, t, pos)),
    decreases t.len() - pos + 1 - k,
{
    let w = choose|w: Seq<char>| words.contains_key(w) && #[trigger] word_fits(t, pos, w) && encode_utf8(w).len() >= k;
    if exists|w2: Seq<char>| words.contains_key(w2) && #[trigger] word_fits(t, pos, w2) && encode_utf8(w2).len() >= k + 1 {
        lemma_longest_from(words, t, pos, k + 1);
    } else {
        assert(is_longest_at(words, t, pos, w));
    }
}


/// Whether the word table of `rom_data` can be read (see `build_word_list`).
pub fn word_table_readable(rom_data: &Vec<u8>) -> (ok: bool)
    ensures
        ok == word_table_ok(rom_data@),
{
    let len = rom_data.len();
    if len < JUMP_END_ADDRESS {
        return false;
    }
    let mut i: usize = 0;
    while i < WORD_COUNT
        invariant
            len == rom_data@.len(),
            JUMP_END_ADDRESS <= len,
            i <= WORD_COUNT,
            forall|j: int| 0 <= j < i ==> #[trigger] has_terminator(rom_data@, jump_address(rom_data@, j)),
        decreases WORD_COUNT - i,
    {
        let addr = get_jump_address(rom_data, i as u8);
        let mut pos = addr;
        while pos < len && rom_data[pos] != 0
            invariant
                len == rom_data@.len(),
                addr <= pos,
                has_terminator(rom_data@, addr as int) == has_terminator(rom_data@, pos as int),
            decreases len - pos,
        {
            pos = pos + 1;
        }
        if pos >= len {
            return false;
        }
        i = i + 1;
    }
    true
}


/// After a word is inserted, looking it up gives its new index, and every
/// other word keeps what it had.
pub proof fn lemma_get_after_insert(words: Map<Seq<char>, u8>, w: Seq<char>, index: u8, other: Seq<char>)
    ensures
        words.insert(w, index).contains_key(w),
        words.insert(w, index)[w] == index,
        other != w ==> words.insert(w, index).contains_key(other) == words.contains_key(other),
        other != w && words.contains_key(other) ==> words.insert(w, index)[other] == words[other],
{
}

} // verus!
