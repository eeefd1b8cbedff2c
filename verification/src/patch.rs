//! Copying an assembled routine into the ROM image, with placeholders filled in.
//!
//! A routine may hold the marker bytes `fe ed ed` followed by an index byte
//! `k`: those four bytes are replaced by `args[k]`, big-endian.

use crate::endian::{be_bytes_u32, write_u32_be};
use vstd::prelude::*;

verus! {

/// Whether a placeholder marker `fe ed ed` starts at `i` in `data`.
pub open spec fn marker_at(data: Seq<u8>, i: int) -> bool {
    &&& 0 <= i
    &&& i + 3 <= data.len()
    &&& data[i] == 0xfe
    &&& data[i + 1] == 0xed
    &&& data[i + 2] == 0xed
}

/// Scanning `data` from `i`, every marker met has an index byte after it and
/// that index names an element of `args`.
pub open spec fn placeholders_ok(data: Seq<u8>, args: Seq<u32>, i: int) -> bool
    decreases data.len() - i,
{
    if i < 0 || i >= data.len() {
        true
    } else if marker_at(data, i) {
        &&& i + 3 < data.len()
        &&& (data[i + 3] as int) < args.len()
        &&& placeholders_ok(data, args, i + 4)
    } else {
        placeholders_ok(data, args, i + 1)
    }
}

/// The bytes that `data` from `i` on becomes once each placeholder met is
/// replaced by its argument.
pub open spec fn filled(data: Seq<u8>, args: Seq<u32>, i: int) -> Seq<u8>
    decreases data.len() - i,
{
    if i < 0 || i >= data.len() {
        seq![]
    } else if marker_at(data, i) {
        if i + 3 < data.len() && (data[i + 3] as int) < args.len() {
            be_bytes_u32(args[data[i + 3] as int]) + filled(data, args, i + 4)
        } else {
            seq![]
        }
    } else {
        seq![data[i]] + filled(data, args, i + 1)
    }
}

/// The ROM image `rom` with `data` placed at `address`, placeholders filled
/// (an empty routine leaves the ROM as it is, wherever it is placed).
pub open spec fn patched(rom: Seq<u8>, address: int, data: Seq<u8>, args: Seq<u32>) -> Seq<u8> {
    if data.len() == 0 {
        rom
    } else {
        rom.take(address) + filled(data, args, 0) + rom.skip(address + data.len())
    }
}

/// A routine whose placeholders are all well formed keeps its length once filled.
pub proof fn lemma_filled_len(data: Seq<u8>, args: Seq<u32>, i: int)
    requires
        0 <= i <= data.len(),
        placeholders_ok(data, args, i),
    ensures
        filled(data, args, i).len() == data.len() - i,
    decreases data.len() - i,
{
    if i < data.len() {
        if marker_at(data, i) {
            lemma_filled_len(data, args, i + 4);
        } else {
            lemma_filled_len(data, args, i + 1);
        }
    }
}

/// Whether every placeholder of `data` is well formed for `args`, so that
/// `patch` can fill it.
pub fn placeholders_valid(data: &[u8], args: &[u32]) -> (ok: bool)
    ensures
        ok == placeholders_ok(data@, args@, 0),
{
    let len = data.len();
    let mut i: usize = 0;
    while i < len
        invariant
            len == data@.len(),
            i <= len,
            placeholders_ok(data@, args@, 0) == placeholders_ok(data@, args@, i as int),
        decreases len - i,
    {
        if len - i >= 3 && data[i] == 0xfe && data[i + 1] == 0xed && data[i + 2] == 0xed {
            if len - i == 3 || (data[i + 3] as usize) >= args.len() {
                return false;
            }
            i = i + 4;
        } else {
            i = i + 1;
        }
    }
    true
}

/// Writes `data` into `rom_data` at `address`, replacing each placeholder
/// `fe ed ed k` by the four big-endian bytes of `args[k]`, and returns the
/// range `(address, address + data.len())` that now holds the routine.
pub fn patch(rom_data: &mut Vec<u8>, address: usize, data: Vec<u8>, args: Vec<u32>) -> (range: (usize, usize))
    requires
        data@.len() == 0 || address + data@.len() <= old(rom_data)@.len(),
        placeholders_ok(data@, args@, 0),
    ensures
        final(rom_data)@ == patched(old(rom_data)@, address as int, data@, args@),
        final(rom_data)@.len() == old(rom_data)@.len(),
        range == (address, (address + data@.len()) as usize),
{
    let len = data.len();
    if len == 0 {
        return (address, address);
    }
    let ghost old_rom = rom_data@;
    let mut i: usize = 0;
    let rom_len = rom_data.len();
    assert(old_rom.len() == rom_len);
    proof {
        lemma_filled_len(data@, args@, 0);
    }
    while i < len
        invariant
            len == data@.len(),
            i <= len,
            address + len <= old_rom.len(),
            old_rom.len() <= usize::MAX,
            rom_data@.len() == old_rom.len(),
            placeholders_ok(data@, args@, i as int),
            filled(data@, args@, 0) == rom_data@.subrange(address as int, address + i)
                + filled(data@, args@, i as int),
            forall|k: int| 0 <= k < address ==> rom_data@[k] == old_rom[k],
            forall|k: int| address + i <= k < old_rom.len() ==> rom_data@[k] == old_rom[k],
        decreases len - i,
    {
        let pos = address + i;
        if len - i >= 3 && data[i] == 0xfe && data[i + 1] == 0xed && data[i + 2] == 0xed {
            let arg = args[data[i + 3] as usize];
            let wtr = write_u32_be(arg);
            let ghost before = rom_data@;
            rom_data.set(pos, wtr[0]);
            rom_data.set(pos + 1, wtr[1]);
            rom_data.set(pos + 2, wtr[2]);
            rom_data.set(pos + 3, wtr[3]);
            assert(rom_data@.subrange(address as int, pos + 4) =~= before.subrange(address as int, pos as int) + wtr@);
            i = i + 4;
        } else {
            let ghost before = rom_data@;
            rom_data.set(pos, data[i]);
            assert(rom_data@.subrange(address as int, pos + 1) =~= before.subrange(address as int, pos as int) + seq![data@[i as int]]);
            i = i + 1;
        }
    }
    assert(rom_data@ =~= patched(old_rom, address as int, data@, args@));
    (address, address + len)
}


/// A routine with no placeholder marker is copied as it is.
pub proof fn lemma_no_marker_copied(data: Seq<u8>, args: Seq<u32>, i: int)
    requires
        0 <= i <= data.len(),
        forall|j: int| i <= j < data.len() ==> !#[trigger] marker_at(data, j),
    ensures
        placeholders_ok(data, args, i),
        filled(data, args, i) == data.skip(i),
    decreases data.len() - i,
{
    if i < data.len() {
        assert(!marker_at(data, i));
        lemma_no_marker_copied(data, args, i + 1);
        assert(data.skip(i) =~= seq![data[i]] + data.skip(i + 1));
    } else {
        assert(data.skip(i) =~= Seq::<u8>::empty());
    }
}


/// Whether the scan for placeholders, started at `i`, stops at `j`: at a
/// marker it steps over the whole placeholder, elsewhere over one byte.
pub open spec fn scan_reaches(data: Seq<u8>, i: int, j: int) -> bool
    decreases j - i,
{
    if i == j {
        true
    } else if i < 0 || i > j {
        false
    } else if marker_at(data, i) {
        i + 4 <= j && scan_reaches(data, i + 4, j)
    } else {
        scan_reaches(data, i + 1, j)
    }
}

proof fn lemma_scan_order(data: Seq<u8>, i: int, j: int)
    requires
        scan_reaches(data, i, j),
    ensures
        i <= j,
    decreases j - i,
{
    if i != j {
        if marker_at(data, i) {
            lemma_scan_order(data, i + 4, j);
        } else {
            lemma_scan_order(data, i + 1, j);
        }
    }
}

proof fn lemma_filled_at(data: Seq<u8>, args: Seq<u32>, i: int, j: int)
    requires
        0 <= i,
        0 <= j < data.len(),
        placeholders_ok(data, args, i),
        scan_reaches(data, i, j),
    ensures
        marker_at(data, j) ==> j + 4 <= data.len() && (data[j + 3] as int) < args.len()
            && filled(data, args, i).subrange(j - i, j - i + 4) == be_bytes_u32(args[data[j + 3] as int]),
        !marker_at(data, j) ==> j - i < filled(data, args, i).len() && filled(data, args, i)[j - i] == data[j],
    decreases j - i,
{
    lemma_filled_len(data, args, i);
    lemma_scan_order(data, i, j);
    if i == j {
        if marker_at(data, j) {
            let b = be_bytes_u32(args[data[j + 3] as int]);
            assert(filled(data, args, i).subrange(0, 4) =~= b);
        }
    } else if marker_at(data, i) {
        lemma_scan_order(data, i + 4, j);
        lemma_filled_len(data, args, i + 4);
        lemma_filled_at(data, args, i + 4, j);
        let b = be_bytes_u32(args[data[i + 3] as int]);
        let rest = filled(data, args, i + 4);
        assert(filled(data, args, i) == b + rest);
        if marker_at(data, j) {
            assert(filled(data, args, i).subrange(j - i, j - i + 4) =~= rest.subrange(j - i - 4, j - i));
        } else {
            assert(filled(data, args, i)[j - i] == rest[j - i - 4]);
        }
    } else {
        lemma_scan_order(data, i + 1, j);
        lemma_filled_len(data, args, i + 1);
        lemma_filled_at(data, args, i + 1, j);
        let rest = filled(data, args, i + 1);
        assert(filled(data, args, i) == seq![data[i]] + rest);
        if marker_at(data, j) {
            assert(filled(data, args, i).subrange(j - i, j - i + 4) =~= rest.subrange(j - i - 1, j - i + 3));
        } else {
            assert(filled(data, args, i)[j - i] == rest[j - i - 1]);
        }
    }
}

/// Each placeholder `fe ed ed k` that the scan meets becomes, in the patched
/// ROM, the four bytes of `args[k]`, most significant first, at the
/// placeholder's own place; every other byte the scan meets is copied as it
/// is.
pub proof fn lemma_placeholder_filled(rom: Seq<u8>, address: int, data: Seq<u8>, args: Seq<u32>, j: int)
    requires
        0 <= address,
        address + data.len() <= rom.len(),
        placeholders_ok(data, args, 0),
        0 <= j < data.len(),
        scan_reaches(data, 0, j),
    ensures
        marker_at(data, j) ==> j + 4 <= data.len() && (data[j + 3] as int) < args.len()
            && patched(rom, address, data, args).subrange(address + j, address + j + 4)
                == be_bytes_u32(args[data[j + 3] as int]),
        !marker_at(data, j) ==> patched(rom, address, data, args)[address + j] == data[j],
{
    lemma_filled_at(data, args, 0, j);
    lemma_filled_len(data, args, 0);
    let f = filled(data, args, 0);
    let p = patched(rom, address, data, args);
    assert(p == rom.take(address) + f + rom.skip(address + data.len()));
    if marker_at(data, j) {
        assert(p.subrange(address + j, address + j + 4) =~= f.subrange(j, j + 4));
    } else {
        assert(p[address + j] == f[j]);
    }
}

/// Writing a routine leaves the length of the ROM and every byte outside the
/// routine's range as they were.
pub proof fn lemma_patched_elsewhere(rom: Seq<u8>, address: int, data: Seq<u8>, args: Seq<u32>)
    requires
        0 <= address,
        data.len() == 0 || address + data.len() <= rom.len(),
        placeholders_ok(data, args, 0),
    ensures
        patched(rom, address, data, args).len() == rom.len(),
        forall|k: int| 0 <= k < rom.len() && (k < address || address + data.len() <= k)
            ==> #[trigger] patched(rom, address, data, args)[k] == rom[k],
{
    if data.len() > 0 {
        lemma_filled_len(data, args, 0);
        let f = filled(data, args, 0);
        let p = patched(rom, address, data, args);
        assert forall|k: int| 0 <= k < rom.len() && (k < address || address + data.len() <= k)
            implies #[trigger] p[k] == rom[k] by {
            if k >= address + data.len() {
                assert(p[k] == rom.skip(address + data.len())[k - address - data.len()]);
            }
        }
    }
}

} // verus!
