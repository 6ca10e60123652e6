//! The hash that names a block, and the work it must show.

use crate::bytes::{bytes_equal, copy_from, has_room, place};
use crate::crypto::{be_nat, sha3_256, sha3_256_digest};
use crate::error::{CodecError, Error};
use crate::serialize::Serialize;
use crate::text::{ascii_string, hash_label, hash_label_bytes, lemma_lower_hex_ascii};
use vstd::prelude::*;

verus! {

/// A SHA3-256 digest. The hash of 32 zero bytes stands before the first
/// block of a chain.
#[derive(Clone, Copy, Debug, PartialEq, Eq)]
pub struct BlockHash {
    value: [u8; 32],
}

/// The target that a hash must stay below by default: the largest there is,
/// which every hash but one meets. A chain that asks for work names a
/// smaller one.
pub open spec fn default_target() -> Seq<u8> {
    Seq::new(32, |k: int| 0xffu8)
}

/// Of two byte strings of one length, the one that has the smaller byte at
/// the first place where they differ stands for the smaller number.
pub proof fn lemma_be_nat_order(a: Seq<u8>, b: Seq<u8>, at: int)
    requires
        a.len() == b.len(),
        0 <= at < a.len(),
        a.subrange(0, at) == b.subrange(0, at),
        a[at] < b[at],
    ensures
        be_nat(a) < be_nat(b),
    decreases a.len(),
{
    if at == a.len() - 1 {
        assert(a.drop_last() =~= a.subrange(0, at));
        assert(b.drop_last() =~= b.subrange(0, at));
    } else {
        assert(a.drop_last().subrange(0, at) =~= a.subrange(0, at));
        assert(b.drop_last().subrange(0, at) =~= b.subrange(0, at));
        lemma_be_nat_order(a.drop_last(), b.drop_last(), at);
    }
}

/// The hash that the first block of a chain links to: 32 zero bytes.
pub open spec fn genesis_back() -> Seq<u8> {
    Seq::new(32, |k: int| 0u8)
}

/// The default target, as bytes.
pub fn default_target_bytes() -> (r: [u8; 32])
    ensures
        r@ == default_target(),
{
    filled(0xff)
}

/// 32 bytes, each `byte`.
fn filled(byte: u8) -> (r: [u8; 32])
    ensures
        r@ == Seq::new(32, |k: int| byte),
{
    let mut r = [0u8; 32];
    let mut j: usize = 0;
    while j < 32
        invariant
            j <= 32,
            forall|k: int| 0 <= k < j ==> r@[k] == byte,
        decreases 32 - j,
    {
        r[j] = byte;
        j += 1;
    }
    assert(r@ =~= Seq::new(32, |k: int| byte));
    r
}

impl BlockHash {
    /// The hash that the first block of a chain links to.
    pub fn genesis() -> (r: BlockHash)
        ensures
            r@ == genesis_back(),
    {
        BlockHash { value: filled(0) }
    }

    /// Whether two values have the same bytes.
    pub fn same(&self, other: &BlockHash) -> (r: bool)
        ensures
            r == (self@ == other@),
    {
        bytes_equal(&self.value, &other.value)
    }

    /// The hash with bytes `value`.
    pub fn new(value: [u8; 32]) -> (r: BlockHash)
        ensures
            r@ == value@,
    {
        BlockHash { value }
    }

    /// The 32 bytes of the hash.
    pub closed spec fn view(&self) -> Seq<u8> {
        self.value@
    }

    /// A hash is 32 bytes.
    pub proof fn lemma_view_len(&self)
        ensures
            self@.len() == 32,
    {
    }

    /// The hash of `data`.
    pub fn of(data: &[u8]) -> (r: BlockHash)
        ensures
            r@ == sha3_256(data@),
    {
        BlockHash { value: sha3_256_digest(data) }
    }

    /// The hash as a reader sees it: `0x` and its bytes in lower-case
    /// hexadecimal.
    pub fn to_string(&self) -> (r: String)
        ensures
            r@.len() == 66,
            forall|k: int| 0 <= k < 66 ==> r@[k] as u32 == hash_label(self@)[k] as u32,
    {
        proof {
            lemma_lower_hex_ascii(self@);
        }
        ascii_string(hash_label_bytes(&self.value))
    }

    /// The 32 bytes of the hash.
    pub fn hash(&self) -> (r: [u8; 32])
        ensures
            r@ == self@,
    {
        self.value
    }

    /// Whether the hash, read as a number with the most significant byte
    /// first, is strictly below `target`.
    pub fn meets_target(&self, target: &[u8; 32]) -> (r: bool)
        ensures
            r == (be_nat(self@) < be_nat(target@)),
    {
        let mut j: usize = 0;
        while j < 32
            invariant
                j <= 32,
                self.value@.subrange(0, j as int) == target@.subrange(0, j as int),
            decreases 32 - j,
        {
            if self.value[j] < target[j] {
                proof {
                    lemma_be_nat_order(self.value@, target@, j as int);
                }
                return true;
            }
            if self.value[j] > target[j] {
                proof {
                    lemma_be_nat_order(target@, self.value@, j as int);
                }
                return false;
            }
            assert(self.value@.subrange(0, j + 1) =~= self.value@.subrange(0, j as int).push(
                self.value@[j as int],
            ));
            assert(target@.subrange(0, j + 1) =~= target@.subrange(0, j as int).push(
                target@[j as int],
            ));
            j += 1;
        }
        assert(self.value@ =~= self.value@.subrange(0, 32));
        assert(target@ =~= target@.subrange(0, 32));
        false
    }

    /// Whether the hash meets the default target.
    pub fn contains_enough_work(&self) -> (r: bool)
        ensures
            r == (be_nat(self@) < be_nat(default_target())),
    {
        let target = default_target_bytes();
        self.meets_target(&target)
    }
}

impl Serialize for BlockHash {
    type Model = Seq<u8>;

    open spec fn model(&self) -> Seq<u8> {
        self@
    }

    open spec fn wf(&self) -> bool {
        self@.len() == 32
    }

    open spec fn encodable(&self) -> bool {
        true
    }

    open spec fn encoding(&self) -> Seq<u8> {
        self@
    }

    open spec fn decoding(data: Seq<u8>) -> Result<(Seq<u8>, nat), Error> {
        if data.len() < 32 {
            Err(Error::Codec(CodecError::Truncated))
        } else {
            Ok((data.subrange(0, 32), 32))
        }
    }

    proof fn lemma_round_trip(&self, rest: Seq<u8>) {
        assert((self@ + rest).subrange(0, 32) =~= self@);
    }

    proof fn lemma_model_determines(&self, other: &Self) {
    }

    fn from_serialized(data: &[u8], i: &mut usize) -> (r: Result<BlockHash, Error>) {
        let ghost expected = BlockHash::decoding(data@.skip(*i as int));
        if !has_room(data.len(), *i, 32) {
            return Err(Error::Codec(CodecError::Truncated));
        }
        let mut value = [0u8; 32];
        copy_from(&mut value, data, *i);
        assert(data@.skip(*i as int).subrange(0, 32) =~= value@);
        *i += 32;
        let hash = BlockHash { value };
        assert(hash.wf() && expected == Ok::<(Seq<u8>, nat), Error>((hash.model(), 32)));
        Ok(hash)
    }

    fn serialize_into(&self, buffer: &mut [u8], i: &mut usize) -> (r: Result<usize, Error>)
        ensures
            r matches Err(e) ==> e == Error::Codec(CodecError::Truncated),
    {
        assert(self.encodable() && self.encoding() == self@);
        place(buffer, i, &self.value)
    }

    fn serialized_len(&self) -> (n: usize) {
        assert(self.encoding().len() == 32);
        32
    }
}

} // verus!
