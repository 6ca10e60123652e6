//! The one capability every encodable entity has: an exact length, a writer
//! and a reader that move a cursor over a byte buffer.

use crate::error::{CodecError, Error};
use vstd::prelude::*;

verus! {

/// `buffer` with `bytes` written over it from position `at` on.
pub open spec fn splice(buffer: Seq<u8>, at: int, bytes: Seq<u8>) -> Seq<u8> {
    buffer.subrange(0, at) + bytes + buffer.subrange(at + bytes.len(), buffer.len() as int)
}

/// An entity with a canonical byte encoding.
///
/// `encoding` is the canonical byte string of a value and `decoding` reads one
/// value from the front of a byte string, giving its model and the number of
/// bytes it took, or the reason why there is none. `encodable` says which
/// values the writer accepts, `wf` which values are in the canonical form
/// that the reader hands back.
pub trait Serialize: Sized {
    /// What a value stands for.
    type Model;

    spec fn model(&self) -> Self::Model;

    spec fn wf(&self) -> bool;

    spec fn encodable(&self) -> bool;

    spec fn encoding(&self) -> Seq<u8>;

    spec fn decoding(data: Seq<u8>) -> Result<(Self::Model, nat), Error>;

    /// Reading back what was written gives the value that was written, and
    /// takes exactly the bytes that were written, whatever follows them.
    proof fn lemma_round_trip(&self, rest: Seq<u8>)
        requires
            self.wf(),
            self.encodable(),
        ensures
            Self::decoding(self.encoding() + rest) == Ok::<(Self::Model, nat), Error>(
                (self.model(), self.encoding().len()),
            ),
    ;

    /// The encoding of a value, and whether it has one, depend on nothing
    /// but what the value stands for.
    proof fn lemma_model_determines(&self, other: &Self)
        requires
            self.model() == other.model(),
        ensures
            self.encoding() == other.encoding(),
            self.encodable() == other.encodable(),
    ;

    /// Reads one value at `*i` and moves `*i` past it. On failure `*i` stays.
    fn from_serialized(data: &[u8], i: &mut usize) -> (r: Result<Self, Error>)
        ensures
            *old(i) > data@.len() ==> r == Err::<Self, Error>(
                Error::Codec(CodecError::Truncated),
            ),
            *old(i) <= data@.len() ==> match Self::decoding(data@.skip(*old(i) as int)) {
                Ok((m, n)) => r matches Ok(v) && v.model() == m && v.wf(),
                Err(e) => r == Err::<Self, Error>(e),
            },
            match r {
                Ok(_) => {
                    &&& *old(i) <= *final(i) <= data@.len()
                    &&& Self::decoding(data@.skip(*old(i) as int)) matches Ok((_, n))
                    &&& *final(i) == *old(i) + Self::decoding(
                        data@.skip(*old(i) as int),
                    ).unwrap().1
                },
                Err(_) => *final(i) == *old(i),
            },
    ;

    /// Writes the encoding at `*i` and moves `*i` past it, returning the
    /// number of bytes written. On failure neither `*i` nor the buffer change.
    fn serialize_into(&self, buffer: &mut [u8], i: &mut usize) -> (r: Result<usize, Error>)
        ensures
            r is Ok <==> self.encodable() && *old(i) + self.encoding().len() <= old(buffer)@.len(),
            match r {
                Ok(n) => {
                    &&& n == self.encoding().len()
                    &&& *final(i) == *old(i) + n
                    &&& final(buffer)@ == splice(old(buffer)@, *old(i) as int, self.encoding())
                },
                Err(_) => *final(i) == *old(i) && final(buffer)@ == old(buffer)@,
            },
    ;

    /// The exact length of the encoding.
    fn serialized_len(&self) -> (n: usize)
        requires
            self.encoding().len() <= usize::MAX,
        ensures
            n == self.encoding().len(),
    ;
}

/// Writing a value at a cursor and reading at the same cursor gives the
/// value back, and moves the cursor by as much as the writing did.
pub proof fn lemma_cursor_round_trip<T: Serialize>(value: T, buffer: Seq<u8>, at: int)
    requires
        value.wf(),
        value.encodable(),
        0 <= at,
        at + value.encoding().len() <= buffer.len(),
    ensures
        T::decoding(splice(buffer, at, value.encoding()).skip(at)) == Ok::<(T::Model, nat), Error>(
            (value.model(), value.encoding().len()),
        ),
{
    let bytes = value.encoding();
    let rest = buffer.subrange(at + bytes.len(), buffer.len() as int);
    assert(splice(buffer, at, bytes).skip(at) =~= bytes + rest);
    value.lemma_round_trip(rest);
}

/// Writing what was read from the encoding of a value gives the encoding
/// of the value: the same bytes, once more.
pub proof fn lemma_reencode<T: Serialize>(value: T, read: T, rest: Seq<u8>)
    requires
        value.wf(),
        value.encodable(),
        T::decoding(value.encoding() + rest) matches Ok((m, _)) && read.model() == m,
    ensures
        read.encodable(),
        read.encoding() == value.encoding(),
{
    value.lemma_round_trip(rest);
    read.lemma_model_determines(&value);
}

} // verus!
