//! The framing of arrays in asset files: an array is stored as its element
//! count, a little endian `u64`, followed by the elements' bytes.
use crate::bvh::{get_le64, le64, lemma_le64_roundtrip, push_bytes, push_le64, read_le64};
use vstd::prelude::*;

verus! {

/// Reading ran past the end of the data.
#[derive(Copy, Clone, Debug, PartialEq, Eq, Structural)]
pub enum ReadError {
    UnexpectedEof,
}

/// Appends an array of `count` elements whose bytes are `bytes`.
pub fn write_slice(out: &mut Vec<u8>, count: u64, bytes: &[u8])
    ensures
        final(out)@ == old(out)@ + le64(count) + bytes@,
{
    push_le64(out, count);
    push_bytes(out, bytes);
    assert(out@ =~= old(out)@ + le64(count) + bytes@);
}

/// Reads the `u64` at `pos`; returns it and the position after it.
pub fn read_u64(data: &[u8], pos: usize) -> (r: Result<(u64, usize), ReadError>)
    ensures
        pos + 8 <= data@.len() ==> r == Ok::<(u64, usize), ReadError>((read_le64(data@, pos as int), (pos + 8) as usize)),
        pos + 8 > data@.len() ==> r == Err::<(u64, usize), ReadError>(ReadError::UnexpectedEof),
{
    if pos > data.len() || data.len() - pos < 8 {
        return Err(ReadError::UnexpectedEof);
    }
    Ok((get_le64(data, pos), pos + 8))
}

/// Reads the bytes of `len` elements of `elem_size` bytes at `pos`;
/// returns them and the position after them.
pub fn read_len_slice(data: &[u8], pos: usize, len: usize, elem_size: usize) -> (r: Result<(Vec<u8>, usize), ReadError>)
    requires
        len * elem_size <= usize::MAX,
    ensures
        pos + len * elem_size <= data@.len() ==> (r matches Ok((bytes, next)) && bytes@ == data@.subrange(
            pos as int,
            pos + len * elem_size,
        ) && next == pos + len * elem_size),
        pos + len * elem_size > data@.len() ==> r == Err::<(Vec<u8>, usize), ReadError>(ReadError::UnexpectedEof),
{
    let size = len * elem_size;
    if pos > data.len() || data.len() - pos < size {
        return Err(ReadError::UnexpectedEof);
    }
    let mut bytes: Vec<u8> = Vec::new();
    let n = data.len();
    let mut i: usize = 0;
    while i < size
        invariant
            i <= size,
            n == data@.len(),
            pos + size <= data@.len(),
            bytes@ == data@.subrange(pos as int, pos + i),
        decreases size - i,
    {
        bytes.push(data[pos + i]);
        i = i + 1;
        assert(bytes@ =~= data@.subrange(pos as int, pos + i));
    }
    Ok((bytes, pos + size))
}

/// Reads an array of elements of `elem_size` bytes at `pos`: its count,
/// then its bytes.
pub fn read_slice(data: &[u8], pos: usize, elem_size: usize) -> (r: Result<(Vec<u8>, usize), ReadError>)
    requires
        pos + 8 <= data@.len() ==> (read_le64(data@, pos as int) as usize) * elem_size <= usize::MAX,
    ensures
        ({
            let len = read_le64(data@, pos as int) as usize;
            let start = pos + 8;
            let end = pos + 8 + len * elem_size;
            &&& (pos + 8 <= data@.len() && end <= data@.len()) ==> (r matches Ok((bytes, next)) && bytes@
                == data@.subrange(start, end) && next == end)
            &&& (pos + 8 > data@.len() || end > data@.len()) ==> r == Err::<(Vec<u8>, usize), ReadError>(
                ReadError::UnexpectedEof,
            )
        }),
{
    let n = data.len();
    proof {
        assert(n == data@.len());
    }
    let (len, next) = match read_u64(data, pos) {
        Ok(x) => x,
        Err(e) => {
            return Err(e);
        },
    };
    #[verifier::truncate]
    let len_us = len as usize;
    proof {
        assert(len == read_le64(data@, pos as int));
        assert(next == pos + 8);
    }
    let r = read_len_slice(data, next, len_us, elem_size);
    r
}

/// Reading an array back from where it was written gives the bytes that
/// were written and the position after them.
pub proof fn lemma_write_then_read(prefix: Seq<u8>, count: u64, bytes: Seq<u8>, elem_size: usize, rest: Seq<u8>)
    requires
        count as usize == count,
        bytes.len() == count * elem_size,
    ensures
        ({
            let data = prefix + le64(count) + bytes + rest;
            &&& read_le64(data, prefix.len() as int) == count
            &&& data.subrange(prefix.len() + 8int, prefix.len() + 8 + count * elem_size) == bytes
        }),
{
    let data = prefix + le64(count) + bytes + rest;
    lemma_le64_roundtrip(count);
    let p = prefix.len() as int;
    assert(forall|i: int| 0 <= i < 8 ==> #[trigger] data[p + i] == le64(count)[i]);
    assert(read_le64(data, p) == read_le64(le64(count), 0));
    assert(data.subrange(p + 8, p + 8 + count * elem_size) =~= bytes);
}

} // verus!
