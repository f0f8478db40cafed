//! Little-endian u32 field access on byte buffers, through the `byteorder`
//! crate. These two wrappers are the only place the crate touches it; every
//! caller reasons through `vstd::bytes`' little-endian specification.

use vstd::prelude::*;
use vstd::bytes::{spec_u32_from_le_bytes, spec_u32_to_le_bytes};
use byteorder::{ByteOrder, LittleEndian};

verus! {

/// Relies on `byteorder::LittleEndian::read_u32`: it returns
/// `u32::from_le_bytes` of the slice's first four bytes.
#[verifier::external_body]
pub fn read_u32_at(buf: &Vec<u8>, pos: usize) -> (r: u32)
    requires
        pos + 4 <= buf@.len(),
    ensures
        r == spec_u32_from_le_bytes(buf@.subrange(pos as int, pos as int + 4)),
{
    LittleEndian::read_u32(&buf[pos..pos + 4])
}

/// Relies on `byteorder::LittleEndian::write_u32`: it overwrites the slice's
/// first four bytes with `v.to_le_bytes()` and touches nothing else.
#[verifier::external_body]
pub fn write_u32_at(buf: &mut Vec<u8>, pos: usize, v: u32)
    requires
        pos + 4 <= old(buf)@.len(),
    ensures
        final(buf)@.len() == old(buf)@.len(),
        final(buf)@.subrange(pos as int, pos as int + 4) == spec_u32_to_le_bytes(v),
        forall|i: int|
            0 <= i < old(buf)@.len() && !(pos <= i < pos + 4) ==> final(buf)@[i] == old(buf)@[i],
{
    LittleEndian::write_u32(&mut buf[pos..pos + 4], v)
}

} // verus!
