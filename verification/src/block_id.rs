//! The two-byte identifier of a block: two flags over a fourteen-bit value.

use crate::bytes::has_room;
use crate::error::{CodecError, Error};
use crate::serialize::{splice, Serialize};
use crate::text::{ascii_string, id_label, id_label_bytes};
use vstd::prelude::*;

verus! {

/// One more than the largest value that an identifier holds: six bits of
/// the first byte stand under the two flags, and the second byte.
pub const BLOCK_ID_LIMIT: u16 = 0x4000;

/// Two flags and a value, in two bytes.
#[derive(Clone, Copy, Debug, PartialEq, Eq, Structural)]
pub struct BlockId {
    is_continuation: bool,
    is_magic: bool,
    value: u16,
}

/// The first byte of an identifier: the high byte of the value under the
/// two flags.
pub open spec fn flagged_high(is_continuation: bool, is_magic: bool, value: u16) -> u8 {
    let high = (value >> 8) as u8;
    let continued = if is_continuation {
        high ^ 0x80
    } else {
        high
    };
    if is_magic {
        continued ^ 0x40
    } else {
        continued
    }
}

/// An fourteen-bit value and its flags are read back from the first byte.
pub proof fn lemma_flagged_high(is_continuation: bool, is_magic: bool, value: u16)
    by (bit_vector)
    requires
        value < 0x4000,
    ensures
        (flagged_high(is_continuation, is_magic, value) & 0x80 != 0) == is_continuation,
        (flagged_high(is_continuation, is_magic, value) & 0x40 != 0) == is_magic,
        (((flagged_high(is_continuation, is_magic, value) & 0x3f) as u16) << 8) + ((value
            & 0xff) as u8) as u16 == value,
{
}

/// What two bytes read as is an fourteen-bit value.
pub proof fn lemma_block_id_value(b0: u8, b1: u8)
    by (bit_vector)
    ensures
        (((b0 & 0x3f) as u16) << 8) + (b1 as u16) < 0x4000,
        ((((b0 & 0x3f) as u16) << 8) + (b1 as u16)) as u16 == (((b0 & 0x3f) as u16) << 8) + (
        b1 as u16),
{
}

/// The low fourteen bits of a value are its remainder by two to the
/// fourteenth.
pub proof fn lemma_magic_len(value: u16)
    by (bit_vector)
    ensures
        value & 0x3fff == value % 0x4000,
{
}

impl BlockId {
    /// An identifier with these flags and this value.
    pub fn new(is_continuation: bool, is_magic: bool, value: u16) -> (r: BlockId)
        ensures
            r.spec_is_continuation() == is_continuation,
            r.spec_is_magic() == is_magic,
            r.spec_value() == value,
    {
        BlockId { is_continuation, is_magic, value }
    }

    /// Whether another identifier follows.
    pub closed spec fn spec_is_continuation(&self) -> bool {
        self.is_continuation
    }

    /// Whether the identifier announces a magic.
    pub closed spec fn spec_is_magic(&self) -> bool {
        self.is_magic
    }

    /// The value under the flags.
    pub closed spec fn spec_value(&self) -> u16 {
        self.value
    }

    /// The identifier that two bytes read as.
    pub closed spec fn from_pair(b0: u8, b1: u8) -> BlockId {
        BlockId {
            is_continuation: b0 & 0x80 != 0,
            is_magic: b0 & 0x40 != 0,
            value: ((((b0 & 0x3f) as u16) << 8) + (b1 as u16)) as u16,
        }
    }

    /// What two bytes read as, field by field.
    pub proof fn lemma_from_pair(b0: u8, b1: u8)
        ensures
            BlockId::from_pair(b0, b1).spec_is_continuation() == (b0 & 0x80 != 0),
            BlockId::from_pair(b0, b1).spec_is_magic() == (b0 & 0x40 != 0),
            BlockId::from_pair(b0, b1).spec_value() == (((b0 & 0x3f) as u16) << 8) + (b1 as u16),
            BlockId::from_pair(b0, b1).spec_value() < BLOCK_ID_LIMIT,
    {
        lemma_block_id_value(b0, b1);
    }

    /// Whether another identifier follows.
    #[verifier::when_used_as_spec(spec_is_continuation)]
    pub fn is_continuation(&self) -> (r: bool)
        ensures
            r == self.spec_is_continuation(),
    {
        self.is_continuation
    }

    /// Whether the identifier announces a magic.
    #[verifier::when_used_as_spec(spec_is_magic)]
    pub fn is_magic(&self) -> (r: bool)
        ensures
            r == self.spec_is_magic(),
    {
        self.is_magic
    }

    /// The value under the flags.
    pub fn value(&self) -> (r: u16)
        ensures
            r == self.spec_value(),
    {
        self.value
    }

    /// The identifier as a reader sees it: `BID:` and its value in base
    /// ten.
    pub fn to_string(&self) -> (r: String)
        ensures
            r@.len() == id_label(self.spec_value()).len(),
            forall|k: int|
                0 <= k < r@.len() ==> r@[k] as u32 == id_label(self.spec_value())[k] as u32,
    {
        ascii_string(id_label_bytes(self.value))
    }

    /// The length of the magic that a magic identifier announces: the low
    /// fourteen bits of its value.
    pub fn get_magic_len(&self) -> (r: Result<u16, Error>)
        ensures
            r == if self.spec_is_magic() {
                Ok::<u16, Error>((self.spec_value() % 0x4000) as u16)
            } else {
                Err::<u16, Error>(Error::Codec(CodecError::Malformed))
            },
    {
        if !self.is_magic {
            return Err(Error::Codec(CodecError::Malformed));
        }
        proof {
            lemma_magic_len(self.value);
        }
        Ok(self.value & 0x3fff)
    }

    /// The two bytes of the encoding. A value of more than fourteen bits
    /// has none.
    pub fn serialize(&self) -> (r: Result<Vec<u8>, Error>)
        ensures
            match r {
                Ok(bytes) => self.spec_value() < BLOCK_ID_LIMIT && bytes@ == self.encoding(),
                Err(e) => self.spec_value() >= BLOCK_ID_LIMIT && e == Error::Codec(
                    CodecError::OutOfRange,
                ),
            },
    {
        if self.value >= BLOCK_ID_LIMIT {
            return Err(Error::Codec(CodecError::OutOfRange));
        }
        let mut first_byte = (self.value >> 8) as u8;
        if self.is_continuation {
            first_byte ^= 0x80;
        }
        if self.is_magic {
            first_byte ^= 0x40;
        }
        let mut out: Vec<u8> = Vec::new();
        out.push(first_byte);
        out.push((self.value & 0xff) as u8);
        assert(out@ =~= self.encoding());
        Ok(out)
    }
}

impl Serialize for BlockId {
    type Model = BlockId;

    open spec fn model(&self) -> BlockId {
        *self
    }

    /// The reader hands back fourteen-bit values.
    open spec fn wf(&self) -> bool {
        self.spec_value() < BLOCK_ID_LIMIT
    }

    /// The writer takes fourteen-bit values.
    open spec fn encodable(&self) -> bool {
        self.spec_value() < BLOCK_ID_LIMIT
    }

    open spec fn encoding(&self) -> Seq<u8> {
        seq![
            flagged_high(self.spec_is_continuation(), self.spec_is_magic(), self.spec_value()),
            (self.spec_value() & 0xff) as u8,
        ]
    }

    open spec fn decoding(data: Seq<u8>) -> Result<(BlockId, nat), Error> {
        if data.len() < 2 {
            Err(Error::Codec(CodecError::Truncated))
        } else {
            Ok((BlockId::from_pair(data[0], data[1]), 2))
        }
    }

    proof fn lemma_round_trip(&self, rest: Seq<u8>) {
        let bytes = self.encoding() + rest;
        lemma_flagged_high(self.is_continuation, self.is_magic, self.value);
        assert(bytes[0] == self.encoding()[0]);
        assert(bytes[1] == self.encoding()[1]);
    }

    proof fn lemma_model_determines(&self, other: &Self) {
    }

    fn from_serialized(data: &[u8], i: &mut usize) -> (r: Result<BlockId, Error>) {
        let ghost expected = BlockId::decoding(data@.skip(*i as int));
        if !has_room(data.len(), *i, 2) {
            return Err(Error::Codec(CodecError::Truncated));
        }
        let b0 = data[*i];
        let b1 = data[*i + 1];
        proof {
            lemma_block_id_value(b0, b1);
        }
        let id = BlockId {
            is_continuation: b0 & 0x80 != 0,
            is_magic: b0 & 0x40 != 0,
            value: (((b0 & 0x3f) as u16) << 8) + (b1 as u16),
        };
        *i += 2;
        assert(id.wf() && expected == Ok::<(BlockId, nat), Error>((id.model(), 2)));
        Ok(id)
    }

    fn serialize_into(&self, buffer: &mut [u8], i: &mut usize) -> (r: Result<usize, Error>)
        ensures
            r matches Err(e) ==> e == if self.spec_value() >= BLOCK_ID_LIMIT {
                Error::Codec(CodecError::OutOfRange)
            } else {
                Error::Codec(CodecError::Truncated)
            },
    {
        let bytes = self.serialize()?;
        if !has_room(buffer.len(), *i, 2) {
            return Err(Error::Codec(CodecError::Truncated));
        }
        buffer[*i] = bytes[0];
        buffer[*i + 1] = bytes[1];
        assert(self.encodable());
        assert(buffer@ =~= splice(old(buffer)@, *i as int, self.encoding()));
        *i += 2;
        Ok(2)
    }

    fn serialized_len(&self) -> (n: usize) {
        assert(self.encoding().len() == 2);
        2
    }
}

} // verus!
