//! Decoding of dialogue byte code as stored in the ROM, for inspection.

use crate::words::{get_jump_address, jump_address, jump_entry_in, JUMP_START_ADDRESS};
use crate::text::{CommandSpec, encode_command, encode_script, lemma_encode_script_concat};
use vstd::prelude::*;
use vstd::utf8::{encode_utf8, is_ascii_chars, is_ascii_chars_encode_utf8};

verus! {

/// One step of a decoded dialogue.
#[derive(Debug, Clone, Copy, PartialEq, Eq)]
pub enum DialogueEvent {
    /// Decoding of a dialogue starts at this address.
    Address(usize),
    /// `00`: end of the dialogue.
    End,
    /// `03 x`: set the text speed.
    TextSpeed(u8),
    /// `04 x`: set the indentation.
    Indent(u8),
    /// `05`: wait for input.
    WaitForInput,
    /// `09`: line break.
    NewLine,
    /// `0a x`: set the indentation of the lines.
    LineIndent(u8),
    /// `0b 0a x`: set the current item.
    SetCurrentItem(u8),
    /// `0b 08 x`: give an item.
    RewardItem(u8),
    /// `0b x` for another `x`: call of the routine at offset `2x` (given here).
    UnknownCall(u8),
    /// `0c x`: the dictionary word `x`, decoded from this address on.
    JumpTo(usize),
    /// `20`: a space.
    Space,
    /// An ASCII letter or punctuation character.
    Char(u8),
    /// Any other byte.
    Unknown(u8),
}

/// Whether `v` is an ASCII letter or ASCII punctuation.
pub open spec fn is_letter_or_punctuation(v: u8) -> bool {
    ||| 0x41 <= v <= 0x5a
    ||| 0x61 <= v <= 0x7a
    ||| 0x21 <= v <= 0x2f
    ||| 0x3a <= v <= 0x40
    ||| 0x5b <= v <= 0x60
    ||| 0x7b <= v <= 0x7e
}

/// `rest` with the event `ev` at depth `level` in front, if `rest` is there.
pub open spec fn cons(level: int, ev: DialogueEvent, rest: Option<Seq<(u8, DialogueEvent)>>) -> Option<Seq<(u8, DialogueEvent)>> {
    match rest {
        Some(r) => Some(seq![(level as u8, ev)] + r),
        None => None,
    }
}

/// The events of decoding the dialogue in `rom` from `pos` on at depth
/// `level`, up to and including its end byte; `None` when reading runs past
/// the ROM, a word reference leaves the word table, the depth would pass 255,
/// or an unknown call's offset would not fit in a byte.
pub open spec fn dialogue_body(rom: Seq<u8>, pos: int, level: int) -> Option<Seq<(u8, DialogueEvent)>>
    decreases 255 - level, rom.len() - pos,
{
    if pos < 0 || pos >= rom.len() || level < 0 || level > 255 {
        None
    } else {
        let b = rom[pos];
        if b == 0x00 {
            Some(seq![(level as u8, DialogueEvent::End)])
        } else if b == 0x03 || b == 0x04 || b == 0x0a {
            if pos + 1 < rom.len() {
                let x = rom[pos + 1];
                let ev = if b == 0x03 {
                    DialogueEvent::TextSpeed(x)
                } else if b == 0x04 {
                    DialogueEvent::Indent(x)
                } else {
                    DialogueEvent::LineIndent(x)
                };
                cons(level, ev, dialogue_body(rom, pos + 2, level))
            } else {
                None
            }
        } else if b == 0x05 {
            cons(level, DialogueEvent::WaitForInput, dialogue_body(rom, pos + 1, level))
        } else if b == 0x09 {
            cons(level, DialogueEvent::NewLine, dialogue_body(rom, pos + 1, level))
        } else if b == 0x0b {
            if pos + 1 < rom.len() {
                let x = rom[pos + 1];
                if x == 0x0a || x == 0x08 {
                    if pos + 2 < rom.len() {
                        let y = rom[pos + 2];
                        let ev = if x == 0x0a {
                            DialogueEvent::SetCurrentItem(y)
                        } else {
                            DialogueEvent::RewardItem(y)
                        };
                        cons(level, ev, dialogue_body(rom, pos + 3, level))
                    } else {
                        None
                    }
                } else if x < 0x80 {
                    cons(level, DialogueEvent::UnknownCall((x * 2) as u8), dialogue_body(rom, pos + 2, level))
                } else {
                    None
                }
            } else {
                None
            }
        } else if b == 0x0c {
            if pos + 1 < rom.len() && jump_entry_in(rom, rom[pos + 1] as int) && level < 255 {
                let addr = jump_address(rom, rom[pos + 1] as int);
                match (dialogue_body(rom, addr, level + 1), dialogue_body(rom, pos + 2, level)) {
                    (Some(sub), Some(rest)) => Some(
                        seq![(level as u8, DialogueEvent::JumpTo(addr as usize)), ((level + 1) as u8, DialogueEvent::Address(addr as usize))]
                            + sub + rest,
                    ),
                    _ => None,
                }
            } else {
                None
            }
        } else if b == 0x20 {
            cons(level, DialogueEvent::Space, dialogue_body(rom, pos + 1, level))
        } else if is_letter_or_punctuation(b) {
            cons(level, DialogueEvent::Char(b), dialogue_body(rom, pos + 1, level))
        } else {
            cons(level, DialogueEvent::Unknown(b), dialogue_body(rom, pos + 1, level))
        }
    }
}

/// The events of decoding the dialogue at `start` at depth `level`, starting
/// with its address; `None` when decoding it fails as `dialogue_body` says.
pub open spec fn dialogue_trace(rom: Seq<u8>, start: int, level: int) -> Option<Seq<(u8, DialogueEvent)>> {
    cons(level, DialogueEvent::Address(start as usize), dialogue_body(rom, start, level))
}

fn is_letter_or_punct(v: u8) -> (r: bool)
    ensures
        r == is_letter_or_punctuation(v),
{
    (0x41 <= v && v <= 0x5a) || (0x61 <= v && v <= 0x7a) || (0x21 <= v && v <= 0x2f) || (0x3a <= v
        && v <= 0x40) || (0x5b <= v && v <= 0x60) || (0x7b <= v && v <= 0x7e)
}

#[verifier::rlimit(40)]
fn read_body(rom_data: &Vec<u8>, pos: usize, level: u8, out: &mut Vec<(u8, DialogueEvent)>) -> (ok: bool)
    ensures
        ok == dialogue_body(rom_data@, pos as int, level as int) is Some,
        ok ==> final(out)@ == old(out)@ + dialogue_body(rom_data@, pos as int, level as int).unwrap(),
    decreases 255 - level, rom_data@.len() - pos,
{
    let ghost rom = rom_data@;
    let ghost whole = dialogue_body(rom, pos as int, level as int);
    let len = rom_data.len();
    let mut p = pos;
    loop
        invariant_except_break
            len == rom.len(),
            rom == rom_data@,
            pos <= p,
            whole == dialogue_body(rom, pos as int, level as int),
            whole is Some == dialogue_body(rom, p as int, level as int) is Some,
            whole is Some ==> whole.unwrap() == out@.skip(old(out)@.len() as int) + dialogue_body(rom, p as int, level as int).unwrap(),
            old(out)@ == out@.take(old(out)@.len() as int),
            old(out)@.len() <= out@.len(),
        ensures
            whole is Some ==> out@ == old(out)@ + whole.unwrap(),
        decreases len - p,
    {
        if p >= len {
            return false;
        }
        let ghost prev = out@;
        let ghost rest = dialogue_body(rom, p as int, level as int);
        let b = rom_data[p];
        if b == 0x00 {
            out.push((level, DialogueEvent::End));
            proof {
                if whole is Some {
                    assert(out@ =~= old(out)@ + whole.unwrap());
                }
            }
            return true;
        } else if b == 0x03 || b == 0x04 || b == 0x0a {
            if p + 1 >= len {
                return false;
            }
            let x = rom_data[p + 1];
            let ev = if b == 0x03 {
                DialogueEvent::TextSpeed(x)
            } else if b == 0x04 {
                DialogueEvent::Indent(x)
            } else {
                DialogueEvent::LineIndent(x)
            };
            out.push((level, ev));
            p = p + 2;
        } else if b == 0x05 {
            out.push((level, DialogueEvent::WaitForInput));
            p = p + 1;
        } else if b == 0x09 {
            out.push((level, DialogueEvent::NewLine));
            p = p + 1;
        } else if b == 0x0b {
            if p + 1 >= len {
                return false;
            }
            let x = rom_data[p + 1];
            if x == 0x0a || x == 0x08 {
                if p + 2 >= len {
                    return false;
                }
                let y = rom_data[p + 2];
                if x == 0x0a {
                    out.push((level, DialogueEvent::SetCurrentItem(y)));
                } else {
                    out.push((level, DialogueEvent::RewardItem(y)));
                }
                p = p + 3;
            } else {
                if x >= 0x80 {
                    return false;
                }
                out.push((level, DialogueEvent::UnknownCall(x * 2)));
                p = p + 2;
            }
        } else if b == 0x0c {
            if p + 1 >= len {
                return false;
            }
            let x = rom_data[p + 1];
            if JUMP_START_ADDRESS + 2 * (x as usize) + 2 > len || level == 255 {
                return false;
            }
            let addr = get_jump_address(rom_data, x);
            out.push((level, DialogueEvent::JumpTo(addr)));
            out.push((level + 1, DialogueEvent::Address(addr)));
            let ghost mid = out@;
            if !read_body(rom_data, addr, level + 1, out) {
                return false;
            }
            proof {
                let sub = dialogue_body(rom, addr as int, level + 1);
                assert(out@ == mid + sub.unwrap());
            }
            p = p + 2;
            proof {
                if dialogue_body(rom, p as int, level as int) is Some {
                    assert(out@ + dialogue_body(rom, p as int, level as int).unwrap() =~= prev + rest.unwrap());
                }
            }
        } else if b == 0x20 {
            out.push((level, DialogueEvent::Space));
            p = p + 1;
        } else if is_letter_or_punct(b) {
            out.push((level, DialogueEvent::Char(b)));
            p = p + 1;
        } else {
            out.push((level, DialogueEvent::Unknown(b)));
            p = p + 1;
        }
        proof {
            assert(out@.take(old(out)@.len() as int) =~= prev.take(old(out)@.len() as int));
            if rest is Some {
                assert(prev + rest.unwrap() =~= out@ + dialogue_body(rom, p as int, level as int).unwrap());
            }
            assert(out@.skip(old(out)@.len() as int) =~= prev.skip(old(out)@.len() as int) + out@.skip(prev.len() as int));
        }
    }
}

/// Whether the dialogue that starts at `start_address` can be decoded (see
/// `dialogue_body`), so that `read_dialogue` may be called on it.
pub fn dialogue_decodes(rom_data: &Vec<u8>, start_address: usize, level: u8) -> (ok: bool)
    ensures
        ok == dialogue_trace(rom_data@, start_address as int, level as int) is Some,
{
    let mut scratch: Vec<(u8, DialogueEvent)> = Vec::new();
    read_body(rom_data, start_address, level, &mut scratch)
}

/// Decodes the dialogue that starts at `start_address`, following word
/// references into the dictionary, and returns each event with its depth
/// (`level` for the dialogue itself, one more inside each word).
pub fn read_dialogue(rom_data: &Vec<u8>, start_address: usize, level: u8) -> (events: Vec<(u8, DialogueEvent)>)
    requires
        dialogue_trace(rom_data@, start_address as int, level as int) is Some,
    ensures
        dialogue_trace(rom_data@, start_address as int, level as int) == Some(events@),
{
    let mut events: Vec<(u8, DialogueEvent)> = Vec::new();
    events.push((level, DialogueEvent::Address(start_address)));
    let ghost first = events@;
    let ok = read_body(rom_data, start_address, level, &mut events);
    assert(ok);
    assert(first =~= seq![(level, DialogueEvent::Address(start_address))]);
    events
}

/// The event that a printable ASCII byte decodes to.
pub open spec fn byte_event(b: u8) -> DialogueEvent {
    if b == 0x20 {
        DialogueEvent::Space
    } else if is_letter_or_punctuation(b) {
        DialogueEvent::Char(b)
    } else {
        DialogueEvent::Unknown(b)
    }
}

/// Whether a command is one that decoding gives back: a control code other
/// than the end, or text of printable ASCII characters.
pub open spec fn decodable(c: CommandSpec) -> bool {
    match c {
        CommandSpec::Text(s) => forall|i: int| 0 <= i < s.len() ==> ' ' <= #[trigger] s[i] <= '~',
        CommandSpec::Word(_) => false,
        CommandSpec::RawBytes(_) => false,
        CommandSpec::End => false,
        _ => true,
    }
}

/// The events that a decodable command decodes to.
pub open spec fn command_events(c: CommandSpec) -> Seq<DialogueEvent> {
    match c {
        CommandSpec::Text(s) => encode_utf8(s).map_values(|b: u8| byte_event(b)),
        CommandSpec::NewLine => seq![DialogueEvent::NewLine],
        CommandSpec::WaitForInput => seq![DialogueEvent::WaitForInput],
        CommandSpec::SetItem(item) => seq![DialogueEvent::SetCurrentItem(item)],
        CommandSpec::GiveItem(item) => seq![DialogueEvent::RewardItem(item)],
        CommandSpec::SetTextSpeed(x) => seq![DialogueEvent::TextSpeed(x)],
        CommandSpec::SetTextIndent(x) => seq![DialogueEvent::Indent(x)],
        _ => seq![],
    }
}

/// The events that the commands `cmds` decode to, one command after another.
pub open spec fn script_events(cmds: Seq<CommandSpec>) -> Seq<DialogueEvent>
    decreases cmds.len(),
{
    if cmds.len() == 0 {
        seq![]
    } else {
        command_events(cmds[0]) + script_events(cmds.drop_first())
    }
}

/// Each event paired with the depth `level`.
pub open spec fn at_level(level: int, evs: Seq<DialogueEvent>) -> Seq<(u8, DialogueEvent)> {
    evs.map_values(|e: DialogueEvent| (level as u8, e))
}

proof fn lemma_decode_bytes(rom: Seq<u8>, pos: int, level: int, bytes: Seq<u8>, tail: Seq<(u8, DialogueEvent)>)
    requires
        0 <= pos,
        0 <= level <= 255,
        pos + bytes.len() <= rom.len(),
        rom.subrange(pos, pos + bytes.len()) == bytes,
        forall|i: int| 0 <= i < bytes.len() ==> 0x20 <= #[trigger] bytes[i] <= 0x7e,
        dialogue_body(rom, pos + bytes.len(), level) == Some(tail),
    ensures
        dialogue_body(rom, pos, level) == Some(at_level(level, bytes.map_values(|b: u8| byte_event(b))) + tail),
    decreases bytes.len(),
{
    if bytes.len() == 0 {
        assert(at_level(level, bytes.map_values(|b: u8| byte_event(b))) + tail =~= tail);
    } else {
        let rest = bytes.drop_first();
        assert(rom.subrange(pos + 1, pos + 1 + rest.len()) =~= rest);
        lemma_decode_bytes(rom, pos + 1, level, rest, tail);
        assert(rom[pos] == bytes[0]);
        assert(at_level(level, bytes.map_values(|b: u8| byte_event(b))) + tail
            =~= seq![(level as u8, byte_event(bytes[0]))] + (at_level(level, rest.map_values(|b: u8| byte_event(b))) + tail));
    }
}

proof fn lemma_decode_command(rom: Seq<u8>, pos: int, level: int, c: CommandSpec, words: Map<Seq<char>, u8>, tail: Seq<(u8, DialogueEvent)>)
    requires
        0 <= pos,
        0 <= level <= 255,
        decodable(c),
        pos + encode_command(c, words).len() <= rom.len(),
        rom.subrange(pos, pos + encode_command(c, words).len()) == encode_command(c, words),
        dialogue_body(rom, pos + encode_command(c, words).len(), level) == Some(tail),
    ensures
        dialogue_body(rom, pos, level) == Some(at_level(level, command_events(c)) + tail),
{
    let bytes = encode_command(c, words);
    assert forall|i: int| 0 <= i < bytes.len() implies rom[pos + i] == bytes[i] by {
        assert(rom.subrange(pos, pos + bytes.len())[i] == rom[pos + i]);
    }
    match c {
        CommandSpec::Text(s) => {
            assert(is_ascii_chars(s));
            is_ascii_chars_encode_utf8(s);
            assert forall|i: int| 0 <= i < bytes.len() implies 0x20 <= #[trigger] bytes[i] <= 0x7e by {
                assert(bytes[i] == s[i] as u8);
                assert(' ' <= s[i] <= '~');
            }
            lemma_decode_bytes(rom, pos, level, bytes, tail);
            let evs = bytes.map_values(|b: u8| byte_event(b));
            assert(dialogue_body(rom, pos, level) == Some(at_level(level, evs) + tail));
            assert(evs =~= command_events(c));
            assert(at_level(level, evs) == at_level(level, command_events(c)));
        },
        CommandSpec::SetItem(_) | CommandSpec::GiveItem(_) => {
            assert(rom[pos] == bytes[0] && rom[pos + 1] == bytes[1] && rom[pos + 2] == bytes[2]);
            assert(at_level(level, command_events(c)) + tail =~= seq![(level as u8, command_events(c)[0])] + tail);
        },
        CommandSpec::SetTextSpeed(_) | CommandSpec::SetTextIndent(_) => {
            assert(rom[pos] == bytes[0] && rom[pos + 1] == bytes[1]);
            assert(at_level(level, command_events(c)) + tail =~= seq![(level as u8, command_events(c)[0])] + tail);
        },
        _ => {
            assert(rom[pos] == bytes[0]);
            assert(at_level(level, command_events(c)) + tail =~= seq![(level as u8, command_events(c)[0])] + tail);
        },
    }
}

/// Decoding the bytes that a script builds to gives back the script: for
/// commands that are control codes or printable ASCII text, followed by the
/// end, the decoder finds one event per control code and per character, and
/// the end.
pub proof fn lemma_decode_built_script(
    rom: Seq<u8>,
    pos: int,
    level: int,
    cmds: Seq<CommandSpec>,
    words: Map<Seq<char>, u8>,
)
    requires
        0 <= pos,
        0 <= level <= 255,
        forall|i: int| 0 <= i < cmds.len() ==> decodable(#[trigger] cmds[i]),
        pos + encode_script(cmds.push(CommandSpec::End), words).len() <= rom.len(),
        rom.subrange(pos, pos + encode_script(cmds.push(CommandSpec::End), words).len())
            == encode_script(cmds.push(CommandSpec::End), words),
    ensures
        dialogue_body(rom, pos, level) == Some(at_level(level, script_events(cmds).push(DialogueEvent::End))),
    decreases cmds.len(),
{
    let all = cmds.push(CommandSpec::End);
    let bytes = encode_script(all, words);
    if cmds.len() == 0 {
        assert(all.drop_last() =~= Seq::<CommandSpec>::empty());
        assert(bytes == encode_script(Seq::<CommandSpec>::empty(), words) + seq![0x00u8]);
        assert(bytes =~= seq![0x00u8]);
        assert(rom[pos] == rom.subrange(pos, pos + 1)[0]);
        assert(at_level(level, script_events(cmds).push(DialogueEvent::End)) =~= seq![(level as u8, DialogueEvent::End)]);
    } else {
        let c = cmds[0];
        let rest = cmds.drop_first();
        assert(all =~= seq![c] + rest.push(CommandSpec::End));
        lemma_encode_script_concat(seq![c], rest.push(CommandSpec::End), words);
        assert(seq![c].drop_last() =~= Seq::<CommandSpec>::empty());
        assert(encode_script(seq![c], words) == encode_script(Seq::<CommandSpec>::empty(), words) + encode_command(c, words));
        let cb = encode_command(c, words);
        let rb = encode_script(rest.push(CommandSpec::End), words);
        assert(bytes =~= cb + rb);
        assert(rom.subrange(pos + cb.len(), pos + cb.len() + rb.len()) =~= rb) by {
            assert(rom.subrange(pos + cb.len(), pos + cb.len() + rb.len()) =~= rom.subrange(pos, pos + bytes.len()).subrange(cb.len() as int, bytes.len() as int));
        }
        assert(rom.subrange(pos, pos + cb.len()) =~= cb) by {
            assert(rom.subrange(pos, pos + cb.len()) =~= rom.subrange(pos, pos + bytes.len()).subrange(0, cb.len() as int));
        }
        assert forall|i: int| 0 <= i < rest.len() implies decodable(#[trigger] rest[i]) by {
            assert(rest[i] == cmds[i + 1]);
        }
        lemma_decode_built_script(rom, pos + cb.len(), level, rest, words);
        assert(decodable(cmds[0]));
        lemma_decode_command(rom, pos, level, c, words, at_level(level, script_events(rest).push(DialogueEvent::End)));
        assert(script_events(cmds) == command_events(c) + script_events(rest));
        assert(at_level(level, command_events(c)) + at_level(level, script_events(rest).push(DialogueEvent::End))
            =~= at_level(level, script_events(cmds).push(DialogueEvent::End)));
    }
}


/// The position of the end byte of the dialogue at `pos`, stepping over each
/// code and its operands; `None` when a word reference (`0c`) comes first or
/// the ROM ends first.
pub open spec fn flat_end(rom: Seq<u8>, pos: int) -> Option<int>
    decreases rom.len() + 3 - pos,
{
    if pos < 0 || pos >= rom.len() {
        None
    } else {
        let b = rom[pos];
        if b == 0x00 {
            Some(pos)
        } else if b == 0x0c {
            None
        } else if b == 0x03 || b == 0x04 || b == 0x0a {
            flat_end(rom, pos + 2)
        } else if b == 0x0b {
            if pos + 1 < rom.len() && (rom[pos + 1] == 0x0a || rom[pos + 1] == 0x08) {
                flat_end(rom, pos + 3)
            } else {
                flat_end(rom, pos + 2)
            }
        } else {
            flat_end(rom, pos + 1)
        }
    }
}

proof fn lemma_flat_end_after(rom: Seq<u8>, pos: int)
    requires
        flat_end(rom, pos) is Some,
    ensures
        pos <= flat_end(rom, pos).unwrap() < rom.len(),
    decreases rom.len() + 3 - pos,
{
    let b = rom[pos];
    if b == 0x00 {
    } else if b == 0x03 || b == 0x04 || b == 0x0a {
        lemma_flat_end_after(rom, pos + 2);
    } else if b == 0x0b {
        if pos + 1 < rom.len() && (rom[pos + 1] == 0x0a || rom[pos + 1] == 0x08) {
            lemma_flat_end_after(rom, pos + 3);
        } else {
            lemma_flat_end_after(rom, pos + 2);
        }
    } else {
        lemma_flat_end_after(rom, pos + 1);
    }
}

/// Decoding a dialogue with no word reference reads nothing past its end
/// byte: any ROM that holds the same bytes from `pos` up to and including
/// that end byte decodes it to the same events.
pub proof fn lemma_decode_local(rom1: Seq<u8>, rom2: Seq<u8>, pos: int, level: int)
    requires
        dialogue_body(rom1, pos, level) is Some,
        flat_end(rom1, pos) is Some,
        flat_end(rom1, pos).unwrap() < rom2.len(),
        rom2.subrange(pos, flat_end(rom1, pos).unwrap() + 1) == rom1.subrange(pos, flat_end(rom1, pos).unwrap() + 1),
    ensures
        dialogue_body(rom2, pos, level) == dialogue_body(rom1, pos, level),
        dialogue_trace(rom2, pos, level) == dialogue_trace(rom1, pos, level),
    decreases rom1.len() - pos,
{
    lemma_flat_end_after(rom1, pos);
    let t = flat_end(rom1, pos).unwrap();
    assert forall|k: int| pos <= k <= t implies rom2[k] == rom1[k] by {
        assert(rom2.subrange(pos, t + 1)[k - pos] == rom1.subrange(pos, t + 1)[k - pos]);
    }
    let b = rom1[pos];
    let step: int = if b == 0x00 {
        0
    } else if b == 0x03 || b == 0x04 || b == 0x0a {
        2
    } else if b == 0x0b {
        if rom1[pos + 1] == 0x0a || rom1[pos + 1] == 0x08 { 3 } else { 2 }
    } else {
        1
    };
    if step > 0 {
        let q = pos + step;
        assert(flat_end(rom1, q) == Some(t));
        lemma_flat_end_after(rom1, q);
        assert(rom2.subrange(q, t + 1) =~= rom1.subrange(q, t + 1)) by {
            assert forall|k: int| 0 <= k < t + 1 - q implies #[trigger] rom2.subrange(q, t + 1)[k] == rom1.subrange(q, t + 1)[k] by {
                assert(rom2[q + k] == rom1[q + k]);
            }
        }
        lemma_decode_local(rom1, rom2, q, level);
    }
}

/// Every event of decoding the dialogue at `pos` at depth `level` is at depth
/// `level` or deeper.
pub proof fn lemma_decode_depths(rom: Seq<u8>, pos: int, level: int)
    requires
        dialogue_body(rom, pos, level) is Some,
    ensures
        forall|i: int| 0 <= i < dialogue_body(rom, pos, level).unwrap().len()
            ==> #[trigger] dialogue_body(rom, pos, level).unwrap()[i].0 >= level,
    decreases 255 - level, rom.len() - pos,
{
    let body = dialogue_body(rom, pos, level).unwrap();
    let b = rom[pos];
    if b == 0x00 {
    } else if b == 0x0c {
        let addr = jump_address(rom, rom[pos + 1] as int);
        lemma_decode_depths(rom, addr, level + 1);
        lemma_decode_depths(rom, pos + 2, level);
        let sub = dialogue_body(rom, addr, level + 1).unwrap();
        let rest = dialogue_body(rom, pos + 2, level).unwrap();
        assert forall|i: int| 0 <= i < body.len() implies #[trigger] body[i].0 >= level by {
            if i >= 2 && i < 2 + sub.len() {
                assert(body[i] == sub[i - 2]);
            } else if i >= 2 + sub.len() {
                assert(body[i] == rest[i - 2 - sub.len()]);
            }
        }
    } else {
        let q = if b == 0x03 || b == 0x04 || b == 0x0a {
            pos + 2
        } else if b == 0x0b {
            if rom[pos + 1] == 0x0a || rom[pos + 1] == 0x08 { pos + 3 } else { pos + 2 }
        } else {
            pos + 1
        };
        lemma_decode_depths(rom, q, level);
        let rest = dialogue_body(rom, q, level).unwrap();
        assert forall|i: int| 0 <= i < body.len() implies #[trigger] body[i].0 >= level by {
            if i >= 1 {
                assert(body[i] == rest[i - 1]);
            }
        }
    }
}

/// A word reference `0c x` decodes to the jump to the word's address, then
/// the whole decoded word one level deeper (its address first), then the rest
/// of the dialogue after `x`.
pub proof fn lemma_decode_jump(rom: Seq<u8>, pos: int, level: int)
    requires
        0 <= pos < rom.len(),
        rom[pos] == 0x0c,
        dialogue_body(rom, pos, level) is Some,
    ensures
        pos + 1 < rom.len(),
        jump_entry_in(rom, rom[pos + 1] as int),
        level < 255,
        dialogue_trace(rom, jump_address(rom, rom[pos + 1] as int), level + 1) is Some,
        dialogue_body(rom, pos + 2, level) is Some,
        dialogue_body(rom, pos, level) == Some(
            seq![(level as u8, DialogueEvent::JumpTo(jump_address(rom, rom[pos + 1] as int) as usize))]
                + dialogue_trace(rom, jump_address(rom, rom[pos + 1] as int), level + 1).unwrap()
                + dialogue_body(rom, pos + 2, level).unwrap(),
        ),
{
    let addr = jump_address(rom, rom[pos + 1] as int);
    let sub = dialogue_body(rom, addr, level + 1).unwrap();
    let rest = dialogue_body(rom, pos + 2, level).unwrap();
    assert(seq![(level as u8, DialogueEvent::JumpTo(addr as usize)), ((level + 1) as u8, DialogueEvent::Address(addr as usize))] + sub + rest
        =~= seq![(level as u8, DialogueEvent::JumpTo(addr as usize))] + (seq![((level + 1) as u8, DialogueEvent::Address(addr as usize))] + sub) + rest);
}


/// An ASCII letter: `A` to `Z` or `a` to `z`.
pub open spec fn ascii_alphabetic(c: char) -> bool {
    ('A' <= c <= 'Z') || ('a' <= c <= 'z')
}

/// An ASCII decimal digit: `0` to `9`.
pub open spec fn ascii_digit(c: char) -> bool {
    '0' <= c <= '9'
}

/// A printable ASCII character other than the space: `!` to `~`.
pub open spec fn ascii_graphic(c: char) -> bool {
    '!' <= c <= '~'
}

/// ASCII punctuation: the printable characters other than the space that are
/// neither letters nor digits.
pub open spec fn ascii_punctuation(c: char) -> bool {
    ascii_graphic(c) && !ascii_alphabetic(c) && !ascii_digit(c)
}

/// The bytes that decode as characters are exactly the ASCII letters and the
/// ASCII punctuation characters.
pub proof fn lemma_letter_or_punctuation(v: u8)
    ensures
        is_letter_or_punctuation(v) <==> ascii_alphabetic(v as char) || ascii_punctuation(v as char),
{
}

/// In a dialogue, each ASCII letter or punctuation byte decodes as that
/// character, and each digit as an unknown byte, before the rest of the
/// dialogue.
pub proof fn lemma_decode_char(rom: Seq<u8>, pos: int, level: int)
    requires
        0 <= pos < rom.len(),
        0 <= level <= 255,
    ensures
        ascii_alphabetic(rom[pos] as char) || ascii_punctuation(rom[pos] as char)
            ==> dialogue_body(rom, pos, level) == cons(level, DialogueEvent::Char(rom[pos]), dialogue_body(rom, pos + 1, level)),
        ascii_digit(rom[pos] as char)
            ==> dialogue_body(rom, pos, level) == cons(level, DialogueEvent::Unknown(rom[pos]), dialogue_body(rom, pos + 1, level)),
{
    lemma_letter_or_punctuation(rom[pos]);
}

} // verus!
