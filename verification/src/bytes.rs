//! Reading and writing at an offset of a growable byte buffer.

use vstd::prelude::*;
use vstd::slice::slice_subrange;

verus! {

/// `n` zero bytes.
pub open spec fn zeros(n: nat) -> Seq<u8> {
    Seq::new(n, |i: int| 0u8)
}

/// The buffer `data` after `src` has been written at offset `pos`: a gap
/// between the old end and `pos` is filled with zeros, bytes under `src` are
/// replaced, and whatever of `src` reaches past the end is appended.
pub open spec fn write_result(data: Seq<u8>, pos: nat, src: Seq<u8>) -> Seq<u8> {
    let padded = if pos > data.len() {
        data + zeros((pos - data.len()) as nat)
    } else {
        data
    };
    let end = pos + src.len();
    let rest = if end < padded.len() {
        padded.subrange(end as int, padded.len() as int)
    } else {
        Seq::empty()
    };
    padded.subrange(0, pos as int) + src + rest
}

/// How many bytes a read at `pos` into room for `room` bytes delivers.
pub open spec fn read_len(data: Seq<u8>, pos: nat, room: nat) -> nat {
    if pos >= data.len() {
        0
    } else if data.len() - pos < room {
        (data.len() - pos) as nat
    } else {
        room
    }
}

/// The bytes a read at `pos` into room for `room` bytes delivers.
pub open spec fn read_result(data: Seq<u8>, pos: nat, room: nat) -> Seq<u8> {
    if pos >= data.len() {
        Seq::empty()
    } else {
        data.subrange(pos as int, (pos + read_len(data, pos, room)) as int)
    }
}

/// Writes `src` into `data` at offset `pos`, growing the buffer as needed.
pub fn write_at(data: &mut Vec<u8>, pos: usize, src: &[u8])
    requires
        pos + src@.len() <= usize::MAX,
    ensures
        final(data)@ == write_result(old(data)@, pos as nat, src@),
{
    if pos > data.len() {
        data.resize(pos, 0u8);
    }
    let ghost padded = data@;
    let space: usize = data.len() - pos;
    let overlap: usize = if src.len() < space {
        src.len()
    } else {
        space
    };
    let mut i: usize = 0;
    while i < overlap
        invariant
            i <= overlap,
            overlap <= src@.len(),
            pos + overlap <= padded.len(),
            data.len() == padded.len(),
            data@ == padded.subrange(0, pos as int) + src@.subrange(0, i as int)
                + padded.subrange(pos + i, padded.len() as int),
        decreases overlap - i,
    {
        data[pos + i] = src[i];
        i += 1;
    }
    data.extend_from_slice(slice_subrange(src, overlap, src.len()));
}

/// Copies into `buf` the bytes of `data` from offset `pos` on, as many as are
/// there and fit, and returns their number. The rest of `buf` is untouched.
pub fn read_at(data: &Vec<u8>, pos: u64, buf: &mut [u8]) -> (n: usize)
    ensures
        n == read_len(data@, pos as nat, old(buf)@.len()),
        pos + n <= u64::MAX,
        final(buf)@ == read_result(data@, pos as nat, old(buf)@.len()) + old(buf)@.subrange(
            n as int,
            old(buf)@.len() as int,
        ),
{
    let len: usize = data.len();
    if pos >= len as u64 {
        return 0;
    }
    let start: usize = pos as usize;
    let left: usize = len - start;
    let n: usize = if left < buf.len() {
        left
    } else {
        buf.len()
    };
    let mut i: usize = 0;
    while i < n
        invariant
            i <= n,
            n <= buf@.len(),
            buf@.len() == old(buf)@.len(),
            start + n <= data.len(),
            buf@ == data@.subrange(start as int, start + i) + old(buf)@.subrange(
                i as int,
                old(buf)@.len() as int,
            ),
        decreases n - i,
    {
        buf[i] = data[start + i];
        i += 1;
    }
    n
}

} // verus!
