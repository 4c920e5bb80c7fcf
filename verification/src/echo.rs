//! The upper-case echo of the serial port: what is done to the bytes that
//! were read, and how far a partial write has come.

use vstd::prelude::*;

verus! {

/// The upper-case form of an ASCII byte: a lower-case letter becomes its
/// capital, every other byte stays.
pub open spec fn upper(byte: u8) -> u8 {
    if 0x61 <= byte <= 0x7a {
        (byte - 0x20) as u8
    } else {
        byte
    }
}

/// `after` is `before` with its first `count` bytes in upper case.
pub open spec fn echoes(before: Seq<u8>, count: int, after: Seq<u8>) -> bool {
    &&& after.len() == before.len()
    &&& forall|i: int| 0 <= i < before.len() ==> #[trigger] after[i] == if i < count { upper(before[i]) } else { before[i] }
}

/// The upper-case form of one byte.
pub fn to_upper(byte: u8) -> (out: u8)
    ensures
        out == upper(byte),
{
    if 0x61 <= byte && byte <= 0x7a {
        assert(byte & !0x20u8 == byte - 0x20u8) by (bit_vector)
            requires
                0x61u8 <= byte <= 0x7au8,
        ;
        byte & !0x20
    } else {
        byte
    }
}

/// Turns the first `count` bytes of `buf` into upper case, in place. The bytes
/// after them stay as they are; a `count` beyond the buffer means all of it.
pub fn uppercase(buf: &mut [u8], count: usize)
    ensures
        echoes(old(buf)@, count as int, final(buf)@),
{
    let mut i: usize = 0;
    while i < count && i < buf.len()
        invariant
            i <= count,
            buf@.len() == old(buf)@.len(),
            forall|k: int| 0 <= k < buf@.len() ==> #[trigger] buf@[k] == if k < i { upper(old(buf)@[k]) } else { old(buf)@[k] },
        decreases buf.len() - i,
    {
        buf[i] = to_upper(buf[i]);
        i += 1;
    }
}

/// Where a write that started at `offset` stands after the port has answered:
/// the bytes it took are behind it; an error, or an answer of no bytes, leaves
/// it where it was, to be tried again.
pub fn advance_write(offset: usize, written: Option<usize>) -> (next: usize)
    requires
        written is Some ==> offset + written.unwrap() <= usize::MAX,
    ensures
        next == match written {
            Some(len) => offset + len,
            None => offset as int,
        },
{
    match written {
        Some(len) => offset + len,
        None => offset,
    }
}

} // verus!
