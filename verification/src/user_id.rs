//! The two-byte identifier that opens every transaction, and whose reserved
//! value marks the end of a block's transactions.

use crate::error::{CodecError, Error};
use crate::serialize::{splice, Serialize};
use crate::text::{ascii_string, id_label, id_label_bytes};
use vstd::prelude::*;

verus! {

/// First byte of the reserved marker.
pub const MAGIC_HIGH: u8 = 0xef;

/// Second byte of the reserved marker.
pub const MAGIC_LOW: u8 = 0xff;

/// The value that the reserved marker reads as.
pub const MAGIC_VALUE: u16 = 0x6fff;

/// A continuation flag over a fifteen-bit value, or the reserved marker.
#[derive(Clone, Copy, Debug, PartialEq, Eq, Structural)]
pub struct UserId {
    is_continuation: bool,
    is_magic: bool,
    value: u16,
}

/// The first byte of a plain identifier: the high seven bits of a fifteen-bit
/// value under the continuation flag.
pub open spec fn plain_high(is_continuation: bool, value: u16) -> u8 {
    let high = (value >> 8) as u8;
    if is_continuation {
        high ^ 0x80
    } else {
        high
    }
}

/// A fifteen-bit value and its flag are read back from the two bytes they
/// are written to.
pub proof fn lemma_plain_high(is_continuation: bool, value: u16)
    by (bit_vector)
    requires
        value < 0x8000,
    ensures
        (plain_high(is_continuation, value) & 0x80 != 0) == is_continuation,
        (((plain_high(is_continuation, value) & 0x7f) as u16) << 8) + ((value & 0xff) as u8) as u16
            == value,
        (plain_high(is_continuation, value) == 0xef && (value & 0xff) as u8 == 0xff) == (
        is_continuation && value == 0x6fff),
{
}

/// What two bytes read as is a fifteen-bit value, and is written as the
/// same two bytes.
pub proof fn lemma_decoded_value(b0: u8, b1: u8)
    by (bit_vector)
    ensures
        (((b0 & 0x7f) as u16) << 8) + (b1 as u16) < 0x8000,
        ((((b0 & 0x7f) as u16) << 8) + (b1 as u16)) as u16 == (((b0 & 0x7f) as u16) << 8) + (
        b1 as u16),
        (b0 == 0xef && b1 == 0xff) ==> (b0 & 0x80 != 0) && (((b0 & 0x7f) as u16) << 8) + (
        b1 as u16) == 0x6fff,
        (b0 & 0x80 != 0) && (((b0 & 0x7f) as u16) << 8) + (b1 as u16) == 0x6fff ==> (b0 == 0xef
            && b1 == 0xff),
        plain_high(b0 & 0x80 != 0, ((((b0 & 0x7f) as u16) << 8) + (b1 as u16)) as u16) == b0,
        ((((((b0 & 0x7f) as u16) << 8) + (b1 as u16)) as u16) & 0xff) as u8 == b1,
{
}

impl UserId {
    /// An identifier with these flags and this value.
    pub fn new(is_continuation: bool, is_magic: bool, value: u16) -> (r: UserId)
        ensures
            r.spec_is_continuation() == is_continuation,
            r.spec_is_magic() == is_magic,
            r.spec_value() == value,
    {
        UserId { is_continuation, is_magic, value }
    }

    /// The reserved marker, in the form it is read in.
    pub fn marker() -> (r: UserId)
        ensures
            r == UserId::from_pair(MAGIC_HIGH, MAGIC_LOW),
            r.spec_is_magic(),
    {
        proof {
            lemma_decoded_value(MAGIC_HIGH, MAGIC_LOW);
        }
        UserId { is_continuation: true, is_magic: true, value: MAGIC_VALUE }
    }

    /// Why an identifier has no encoding, if it has none: it is not flagged
    /// as the marker and its value has more than fifteen bits. An identifier
    /// flagged as the marker is written as the marker whatever else it
    /// holds.
    pub open spec fn fault(&self) -> Option<Error> {
        if !self.spec_is_magic() && self.spec_value() >= 0x8000 {
            Some(Error::Codec(CodecError::OutOfRange))
        } else {
            None
        }
    }

    /// Why this identifier has no encoding, if it has none.
    pub fn check(&self) -> (r: Option<Error>)
        ensures
            r == self.fault(),
    {
        if !self.is_magic && self.value >= 0x8000 {
            Some(Error::Codec(CodecError::OutOfRange))
        } else {
            None
        }
    }

    /// Whether another transfer of the same group follows.
    pub closed spec fn spec_is_continuation(&self) -> bool {
        self.is_continuation
    }

    /// Whether this is the reserved marker.
    pub closed spec fn spec_is_magic(&self) -> bool {
        self.is_magic
    }

    /// The value under the flag.
    pub closed spec fn spec_value(&self) -> u16 {
        self.value
    }

    /// The identifier that two bytes read as.
    pub closed spec fn from_pair(b0: u8, b1: u8) -> UserId {
        UserId {
            is_continuation: b0 & 0x80 != 0,
            is_magic: b0 == MAGIC_HIGH && b1 == MAGIC_LOW,
            value: ((((b0 & 0x7f) as u16) << 8) + (b1 as u16)) as u16,
        }
    }

    /// What two bytes read as, field by field.
    pub proof fn lemma_from_pair(b0: u8, b1: u8)
        ensures
            UserId::from_pair(b0, b1).spec_is_magic() == (b0 == MAGIC_HIGH && b1 == MAGIC_LOW),
            UserId::from_pair(b0, b1).spec_is_continuation() == (b0 & 0x80 != 0),
            UserId::from_pair(b0, b1).spec_value() == (((b0 & 0x7f) as u16) << 8) + (b1 as u16),
    {
        lemma_decoded_value(b0, b1);
    }

    /// Whether another transfer of the same group follows.
    #[verifier::when_used_as_spec(spec_is_continuation)]
    pub fn is_continuation(&self) -> (r: bool)
        ensures
            r == self.spec_is_continuation(),
    {
        self.is_continuation
    }

    /// Whether this is the reserved marker.
    #[verifier::when_used_as_spec(spec_is_magic)]
    pub fn is_magic(&self) -> (r: bool)
        ensures
            r == self.spec_is_magic(),
    {
        self.is_magic
    }

    /// The value under the flag.
    pub fn value(&self) -> (r: u16)
        ensures
            r == self.spec_value(),
    {
        self.value
    }

    /// The identifier as a reader sees it: `BID:` and its value in base
    /// ten.
    pub fn to_string(&self) -> (r: String)
        ensures
            r@.len() == id_label(self.spec_value()).len(),
            forall|k: int|
                0 <= k < r@.len() ==> r@[k] as u32 == id_label(self.spec_value())[k] as u32,
    {
        ascii_string(id_label_bytes(self.value))
    }
}

impl Serialize for UserId {
    type Model = UserId;

    open spec fn model(&self) -> UserId {
        *self
    }

    /// The reader hands back fifteen-bit values, and the marker only in the
    /// one form that its two bytes read as.
    open spec fn wf(&self) -> bool {
        &&& self.spec_value() < 0x8000
        &&& self.spec_is_magic() <==> (self.spec_is_continuation() && self.spec_value()
            == MAGIC_VALUE)
    }

    /// The writer takes every identifier flagged as the marker, and every
    /// other whose value has fifteen bits. That is more than the reader
    /// hands back: an identifier flagged as the marker, and the plain one
    /// whose two bytes are the marker's, are read back as the marker.
    open spec fn encodable(&self) -> bool {
        self.fault() is None
    }

    /// The marker for an identifier flagged as such; for any other the flag
    /// over its value.
    open spec fn encoding(&self) -> Seq<u8> {
        if self.spec_is_magic() {
            seq![MAGIC_HIGH, MAGIC_LOW]
        } else {
            seq![
                plain_high(self.spec_is_continuation(), self.spec_value()),
                (self.spec_value() & 0xff) as u8,
            ]
        }
    }

    open spec fn decoding(data: Seq<u8>) -> Result<(UserId, nat), Error> {
        if data.len() < 2 {
            Err(Error::Codec(CodecError::Truncated))
        } else {
            Ok((UserId::from_pair(data[0], data[1]), 2))
        }
    }

    proof fn lemma_round_trip(&self, rest: Seq<u8>) {
        let bytes = self.encoding() + rest;
        lemma_plain_high(self.is_continuation, self.value);
        lemma_decoded_value(MAGIC_HIGH, MAGIC_LOW);
        assert(bytes[0] == self.encoding()[0]);
        assert(bytes[1] == self.encoding()[1]);
    }

    proof fn lemma_model_determines(&self, other: &Self) {
    }

    fn from_serialized(data: &[u8], i: &mut usize) -> (r: Result<UserId, Error>) {
        let ghost expected = UserId::decoding(data@.skip(*i as int));
        if data.len() < 2 || *i > data.len() - 2 {
            return Err(Error::Codec(CodecError::Truncated));
        }
        let b0 = data[*i];
        let b1 = data[*i + 1];
        proof {
            lemma_decoded_value(b0, b1);
        }
        let uid = UserId {
            is_continuation: b0 & 0x80 != 0,
            is_magic: b0 == MAGIC_HIGH && b1 == MAGIC_LOW,
            value: (((b0 & 0x7f) as u16) << 8) + (b1 as u16),
        };
        *i += 2;
        assert(uid.wf() && expected == Ok::<(UserId, nat), Error>((uid.model(), 2)));
        Ok(uid)
    }

    fn serialize_into(&self, buffer: &mut [u8], i: &mut usize) -> (r: Result<usize, Error>)
        ensures
            r matches Err(e) ==> e == match self.fault() {
                Some(f) => f,
                None => Error::Codec(CodecError::Truncated),
            },
    {
        if let Some(e) = self.check() {
            return Err(e);
        }
        if buffer.len() < 2 || *i > buffer.len() - 2 {
            return Err(Error::Codec(CodecError::Truncated));
        }
        let (b0, b1) = if self.is_magic {
            (MAGIC_HIGH, MAGIC_LOW)
        } else {
            let high = (self.value >> 8) as u8;
            (if self.is_continuation { high ^ 0x80 } else { high }, (self.value & 0xff) as u8)
        };
        buffer[*i] = b0;
        buffer[*i + 1] = b1;
        assert(self.encodable());
        assert(buffer@ =~= splice(old(buffer)@, *i as int, self.encoding()));
        *i += 2;
        Ok(2)
    }

    fn serialized_len(&self) -> (n: usize) {
        assert(self.encoding().len() == 2);
        2
    }
}

/// Writing what was read gives the bytes that were read: every two bytes are
/// the encoding of the identifier they read as.
pub proof fn lemma_user_id_bytes_round_trip(b0: u8, b1: u8)
    ensures
        UserId::from_pair(b0, b1).wf(),
        UserId::from_pair(b0, b1).encoding() == seq![b0, b1],
{
    lemma_decoded_value(b0, b1);
}

} // verus!
