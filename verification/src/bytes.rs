//! Moving bytes between buffers.

use crate::error::{CodecError, Error};
use crate::serialize::splice;
use vstd::prelude::*;

verus! {

/// Whether `len` bytes from position `at` on lie inside a buffer of `total`.
pub fn has_room(total: usize, at: usize, len: usize) -> (r: bool)
    ensures
        r == (at + len <= total),
{
    len <= total && at <= total - len
}

/// Fills `dst` with the bytes of `src` from position `at` on.
pub fn copy_from(dst: &mut [u8], src: &[u8], at: usize)
    requires
        at + old(dst)@.len() <= src@.len(),
    ensures
        final(dst)@ == src@.subrange(at as int, at + old(dst)@.len()),
{
    let n = dst.len();
    let total = src.len();
    let mut j: usize = 0;
    while j < n
        invariant
            j <= n,
            n == dst@.len(),
            n == old(dst)@.len(),
            total == src@.len(),
            at + n <= total,
            forall|k: int| 0 <= k < j ==> dst@[k] == src@[at + k],
        decreases n - j,
    {
        dst[j] = src[at + j];
        j += 1;
    }
    assert(dst@ =~= src@.subrange(at as int, at + n));
}

/// Writes `src` over `buffer` from position `at` on.
pub fn write_bytes(buffer: &mut [u8], at: usize, src: &[u8])
    requires
        at + src@.len() <= old(buffer)@.len(),
    ensures
        final(buffer)@ == splice(old(buffer)@, at as int, src@),
{
    let n = src.len();
    let total = buffer.len();
    let mut j: usize = 0;
    while j < n
        invariant
            j <= n,
            n == src@.len(),
            total == buffer@.len(),
            buffer@.len() == old(buffer)@.len(),
            at + n <= total,
            forall|k: int| 0 <= k < at ==> buffer@[k] == old(buffer)@[k],
            forall|k: int| 0 <= k < j ==> buffer@[at + k] == src@[k],
            forall|k: int| at + j <= k < buffer@.len() ==> buffer@[k] == old(buffer)@[k],
        decreases n - j,
    {
        buffer[at + j] = src[j];
        j += 1;
    }
    assert(buffer@ =~= splice(old(buffer)@, at as int, src@));
}

/// Whether two byte strings are the same.
pub fn bytes_equal(a: &[u8], b: &[u8]) -> (r: bool)
    ensures
        r == (a@ == b@),
{
    if a.len() != b.len() {
        return false;
    }
    let n = a.len();
    let mut j: usize = 0;
    while j < n
        invariant
            j <= n,
            n == a@.len(),
            n == b@.len(),
            forall|k: int| 0 <= k < j ==> a@[k] == b@[k],
        decreases n - j,
    {
        if a[j] != b[j] {
            return false;
        }
        j += 1;
    }
    assert(a@ =~= b@);
    true
}

/// Splicing over a prefix-splice extends it.
pub proof fn lemma_splice_append(buffer: Seq<u8>, at: int, first: Seq<u8>, second: Seq<u8>)
    requires
        0 <= at,
        at + first.len() + second.len() <= buffer.len(),
    ensures
        splice(splice(buffer, at, first), at + first.len(), second) == splice(
            buffer,
            at,
            first + second,
        ),
{
    assert(splice(splice(buffer, at, first), at + first.len(), second) =~= splice(
        buffer,
        at,
        first + second,
    ));
}

} // verus!

verus! {

/// Appends `src` to `out`.
pub fn append_bytes(out: &mut Vec<u8>, src: &[u8])
    ensures
        final(out)@ == old(out)@ + src@,
{
    let n = src.len();
    let mut j: usize = 0;
    while j < n
        invariant
            j <= n,
            n == src@.len(),
            out@ == old(out)@ + src@.subrange(0, j as int),
        decreases n - j,
    {
        out.push(src[j]);
        j += 1;
        assert(out@ =~= old(out)@ + src@.subrange(0, j as int));
    }
    assert(src@.subrange(0, n as int) =~= src@);
}

/// Writes `bytes` at `*i` and moves `*i` past them, where they fit.
pub fn place(buffer: &mut [u8], i: &mut usize, bytes: &[u8]) -> (r: Result<usize, Error>)
    ensures
        r is Ok <==> *old(i) + bytes@.len() <= old(buffer)@.len(),
        match r {
            Ok(n) => {
                &&& n == bytes@.len()
                &&& *final(i) == *old(i) + n
                &&& final(buffer)@ == splice(old(buffer)@, *old(i) as int, bytes@)
            },
            Err(e) => {
                &&& e == Error::Codec(CodecError::Truncated)
                &&& *final(i) == *old(i)
                &&& final(buffer)@ == old(buffer)@
            },
        },
{
    if !has_room(buffer.len(), *i, bytes.len()) {
        return Err(Error::Codec(CodecError::Truncated));
    }
    write_bytes(buffer, *i, bytes);
    *i += bytes.len();
    Ok(bytes.len())
}

} // verus!
