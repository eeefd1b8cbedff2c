//! Big-endian integer encoding, as done by the `byteorder` crate.

use byteorder::{BigEndian, ReadBytesExt, WriteBytesExt};
use vstd::prelude::*;

verus! {

/// The four bytes of `n`, most significant first.
pub open spec fn be_bytes_u32(n: u32) -> Seq<u8> {
    seq![(n >> 24u32) as u8, (n >> 16u32) as u8, (n >> 8u32) as u8, n as u8]
}

/// The number that the two bytes `hi`, `lo` denote, most significant first.
pub open spec fn be_u16(hi: u8, lo: u8) -> int {
    hi as int * 256 + lo as int
}

/// Writes `n` with `byteorder`'s `WriteBytesExt::write_u32::<BigEndian>` into a
/// fresh vector. Trusted: the result is the four bytes of `n`, most
/// significant first (byteorder writes `n.to_be_bytes()`; writing to a `Vec`
/// cannot fail).
#[verifier::external_body]
pub(crate) fn write_u32_be(n: u32) -> (out: Vec<u8>)
    ensures
        out@ == be_bytes_u32(n),
{
    let mut wtr: Vec<u8> = Vec::new();
    wtr.write_u32::<BigEndian>(n).unwrap();
    wtr
}

/// Reads a `u16` with `byteorder`'s `ReadBytesExt::read_u16::<BigEndian>` from a
/// cursor at the start of `bytes`. Trusted: the result is the first two bytes
/// read most significant first (byteorder reads `u16::from_be_bytes`); the read
/// fails (and the unwrap would panic) only when fewer than two bytes are there,
/// which `requires` rules out.
#[verifier::external_body]
pub(crate) fn read_u16_be(bytes: &[u8]) -> (v: u16)
    requires
        bytes@.len() >= 2,
    ensures
        v as int == be_u16(bytes@[0], bytes@[1]),
{
    let mut reader = std::io::Cursor::new(bytes);
    reader.read_u16::<BigEndian>().unwrap()
}

} // verus!
