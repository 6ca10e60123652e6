//! A block: groups of signed transfers, closed by the reserved marker and
//! followed by the link to the block before, the finder and the magic that
//! the miner varies.

use crate::block_hash::BlockHash;
use crate::bytes::{append_bytes, has_room, place};
use crate::crypto::{public_key_valid, sha3_256};
use crate::error::{CodecError, CryptoError, Error};
use crate::keys::PublicKey;
use crate::ledger::all_fees;
use crate::serialize::Serialize;
use crate::transaction_block::{
    decode_signatures, decode_transactions, fees, first_booking_fault, lemma_fees_bound,
    lemma_prepend_twice, lemma_value_change_bound, prepend, senders, value_change,
    TransactionBlock, TransactionBlockModel,
};
use crate::user_id::{UserId, MAGIC_HIGH, MAGIC_LOW};
use crate::wide::{fitted, WideSum};
use vstd::prelude::*;

verus! {

/// The longest magic that the one byte of its length can announce.
pub const MAX_MAGIC_LEN: usize = 255;

/// Length of what stands between the groups and the magic: the marker, the
/// length of the magic, the back hash and the finder.
pub const BLOCK_TRAILER_SIZE: usize = 68;

/// Groups of signed transfers, the marker that closes them, the hash of the
/// block before, the key of the finder and the magic.
#[derive(Clone, Debug, PartialEq, Eq)]
pub struct Block {
    transaction_blocks: Vec<TransactionBlock>,
    uid: UserId,
    pub back_hash: BlockHash,
    pub finder: PublicKey,
    pub magic: Vec<u8>,
}

/// What a block stands for.
pub ghost struct BlockModel {
    pub transaction_blocks: Seq<TransactionBlockModel>,
    pub uid: UserId,
    pub back_hash: Seq<u8>,
    pub finder: Seq<u8>,
    pub magic: Seq<u8>,
}

/// What each group of a sequence stands for.
pub open spec fn group_models(groups: Seq<TransactionBlock>) -> Seq<TransactionBlockModel> {
    groups.map_values(|g: TransactionBlock| g.model())
}

/// The encodings of the groups, one after the other.
pub open spec fn groups_content(groups: Seq<TransactionBlock>) -> Seq<u8>
    decreases groups.len(),
{
    if groups.len() == 0 {
        Seq::empty()
    } else {
        groups_content(groups.drop_last()) + groups.last().encoding()
    }
}

/// Why the first group that has no encoding has none.
pub open spec fn first_group_fault(groups: Seq<TransactionBlock>) -> Option<Error>
    decreases groups.len(),
{
    if groups.len() == 0 {
        None
    } else {
        match first_group_fault(groups.drop_last()) {
            Some(e) => Some(e),
            None => groups.last().fault(),
        }
    }
}

/// A sum, where it stays in the range of 128 bits.
pub open spec fn checked_sum(a: int, b: int) -> Result<int, Error> {
    if i128::MIN <= a + b <= i128::MAX {
        Ok(a + b)
    } else {
        Err(Error::Codec(CodecError::OutOfRange))
    }
}

/// Why the first group that holds a transfer that cannot be booked cannot
/// be booked.
pub open spec fn groups_booking_fault(groups: Seq<TransactionBlock>) -> Option<Error>
    decreases groups.len(),
{
    if groups.len() == 0 {
        None
    } else {
        match groups_booking_fault(groups.drop_last()) {
            Some(e) => Some(e),
            None => first_booking_fault(groups.last().transactions@),
        }
    }
}

/// The sum of what each group changes in the balance of `key`.
pub open spec fn groups_sum(groups: Seq<TransactionBlock>, key: Seq<u8>) -> int
    decreases groups.len(),
{
    if groups.len() == 0 {
        0
    } else {
        groups_sum(groups.drop_last(), key) + value_change(groups.last().transactions@, key)
    }
}

/// What the groups change in the balance of `key`: the sum over the groups
/// where every transfer can be booked and 128 bits hold the sum, whatever
/// the sums on the way to it.
pub open spec fn groups_change(groups: Seq<TransactionBlock>, key: Seq<u8>) -> Result<int, Error> {
    match groups_booking_fault(groups) {
        Some(e) => Err(e),
        None => fitted(groups_sum(groups, key)),
    }
}

/// The fees that the groups pay: the sum over the groups where every
/// transfer can be booked and 128 bits hold the sum.
pub open spec fn groups_fees(groups: Seq<TransactionBlock>) -> Result<int, Error> {
    match groups_booking_fault(groups) {
        Some(e) => Err(e),
        None => fitted(all_fees(groups)),
    }
}

/// What a block changes in the balance of `key`: what its transfers change,
/// and for its finder the fees they pay and the subsidy on top.
pub open spec fn block_change(block: Block, key: Seq<u8>, subsidy: int) -> Result<int, Error> {
    match groups_change(block.groups(), key) {
        Err(e) => Err(e),
        Ok(change) => if block.spec_finder()@ == key {
            match groups_fees(block.groups()) {
                Err(e) => Err(e),
                Ok(paid) => match checked_sum(paid, subsidy) {
                    Err(e) => Err(e),
                    Ok(reward) => checked_sum(change, reward),
                },
            }
        } else {
            Ok(change)
        },
    }
}

/// A booking fault in a prefix is the fault of the whole.
pub proof fn lemma_groups_booking_fault_prefix(groups: Seq<TransactionBlock>, n: int)
    requires
        0 <= n <= groups.len(),
        groups_booking_fault(groups.take(n)) is Some,
    ensures
        groups_booking_fault(groups) == groups_booking_fault(groups.take(n)),
    decreases groups.len(),
{
    if n < groups.len() {
        assert(groups.drop_last().take(n) =~= groups.take(n));
        lemma_groups_booking_fault_prefix(groups.drop_last(), n);
    } else {
        assert(groups.take(n) =~= groups);
    }
}

/// Transfers that are read took bytes that were there.
pub proof fn lemma_transactions_take(data: Seq<u8>)
    ensures
        decode_transactions(data) matches Ok((_, n)) ==> 72 <= n <= data.len(),
    decreases data.len(),
{
    if data.len() >= 72 {
        lemma_transactions_take(data.skip(72));
    }
}

/// Signatures that are read took bytes that were there.
pub proof fn lemma_signatures_take(data: Seq<u8>, count: nat)
    ensures
        decode_signatures(data, count) matches Ok((_, n)) ==> n <= data.len(),
    decreases count,
{
    if count > 0 && data.len() >= 64 {
        lemma_signatures_take(data.skip(64), (count - 1) as nat);
    }
}

/// A group that is read took at least one transfer's worth of bytes, all of
/// which were there.
pub proof fn lemma_group_takes(data: Seq<u8>)
    ensures
        TransactionBlock::decoding(data) matches Ok((_, n)) ==> 72 <= n <= data.len(),
{
    lemma_transactions_take(data);
    if let Ok((txs, n)) = decode_transactions(data) {
        lemma_signatures_take(data.skip(n as int), senders(txs).len());
    }
}

/// Reads groups up to the reserved marker.
#[verifier::opaque]
pub open spec fn decode_groups(data: Seq<u8>) -> Result<(Seq<TransactionBlockModel>, nat), Error>
    decreases data.len(),
    via decode_groups_decreases
{
    match UserId::decoding(data) {
        Err(e) => Err(e),
        Ok((uid, _)) => if uid.spec_is_magic() {
            Ok((Seq::empty(), 0))
        } else {
            match TransactionBlock::decoding(data) {
                Err(e) => Err(e),
                Ok((group, n)) => prepend(seq![group], n, decode_groups(data.skip(n as int))),
            }
        },
    }
}

#[via_fn]
proof fn decode_groups_decreases(data: Seq<u8>) {
    lemma_group_takes(data);
}

/// What reading groups comes to, one step at a time.
pub proof fn lemma_groups_step(data: Seq<u8>)
    ensures
        decode_groups(data) == match UserId::decoding(data) {
            Err(e) => Err::<(Seq<TransactionBlockModel>, nat), Error>(e),
            Ok((uid, _)) => if uid.spec_is_magic() {
                Ok((Seq::empty(), 0))
            } else {
                match TransactionBlock::decoding(data) {
                    Err(e) => Err(e),
                    Ok((group, n)) => prepend(seq![group], n, decode_groups(data.skip(n as int))),
                }
            },
        },
{
    reveal(decode_groups);
}

/// Groups that are read took bytes that were there.
pub proof fn lemma_groups_take(data: Seq<u8>)
    ensures
        decode_groups(data) matches Ok((_, n)) ==> n <= data.len(),
    decreases data.len(),
{
    lemma_group_takes(data);
    lemma_groups_step(data);
    if let Ok((uid, _)) = UserId::decoding(data) {
        if !uid.spec_is_magic() {
            if let Ok((_, n)) = TransactionBlock::decoding(data) {
                lemma_groups_take(data.skip(n as int));
            }
        }
    }
}

/// Where groups were read, the marker follows them.
pub proof fn lemma_groups_end(data: Seq<u8>)
    ensures
        decode_groups(data) matches Ok((_, n)) ==> n + 2 <= data.len() && data[n as int]
            == MAGIC_HIGH && data[(n + 1) as int] == MAGIC_LOW,
    decreases data.len(),
{
    lemma_group_takes(data);
    lemma_groups_step(data);
    if let Ok((uid, _)) = UserId::decoding(data) {
        UserId::lemma_from_pair(data[0], data[1]);
        if !uid.spec_is_magic() {
            if let Ok((_, n)) = TransactionBlock::decoding(data) {
                lemma_groups_end(data.skip(n as int));
            }
        }
    }
}

/// The first transfer that is read opens with the identifier that the first
/// two bytes read as.
pub proof fn lemma_first_transfer(data: Seq<u8>)
    ensures
        decode_transactions(data) matches Ok((txs, _)) ==> txs.len() > 0 && txs[0].uid
            == UserId::from_pair(data[0], data[1]),
{
}

/// The encodings of the groups begin with that of the first.
pub proof fn lemma_groups_content_front(groups: Seq<TransactionBlock>)
    requires
        groups.len() > 0,
    ensures
        groups_content(groups) == groups[0].encoding() + groups_content(groups.skip(1)),
    decreases groups.len(),
{
    if groups.len() == 1 {
        assert(groups.drop_last() =~= Seq::empty());
        assert(groups.skip(1) =~= Seq::empty());
        assert(groups_content(groups) =~= groups[0].encoding() + groups_content(groups.skip(1)));
    } else {
        lemma_groups_content_front(groups.drop_last());
        assert(groups.drop_last().skip(1) =~= groups.skip(1).drop_last());
        assert(groups.skip(1).last() == groups.last());
        assert(groups_content(groups) =~= groups[0].encoding() + groups_content(groups.skip(1)));
    }
}

/// A fault in a prefix is the fault of the whole.
pub proof fn lemma_first_group_fault_prefix(groups: Seq<TransactionBlock>, n: int)
    requires
        0 <= n <= groups.len(),
        first_group_fault(groups.take(n)) is Some,
    ensures
        first_group_fault(groups) == first_group_fault(groups.take(n)),
    decreases groups.len(),
{
    if n < groups.len() {
        assert(groups.drop_last().take(n) =~= groups.take(n));
        lemma_first_group_fault_prefix(groups.drop_last(), n);
    } else {
        assert(groups.take(n) =~= groups);
    }
}

/// Where no group has a fault, none of them has.
pub proof fn lemma_no_group_fault(groups: Seq<TransactionBlock>, k: int)
    requires
        first_group_fault(groups) is None,
        0 <= k < groups.len(),
    ensures
        groups[k].fault() is None,
    decreases groups.len(),
{
    if k < groups.len() - 1 {
        lemma_no_group_fault(groups.drop_last(), k);
    }
}

/// Groups that stand for the same have the same encodings, and the same
/// fault if any.
pub proof fn lemma_group_models_determine(a: Seq<TransactionBlock>, b: Seq<TransactionBlock>)
    requires
        group_models(a) == group_models(b),
    ensures
        a.len() == b.len(),
        groups_content(a) == groups_content(b),
        first_group_fault(a) == first_group_fault(b),
    decreases a.len(),
{
    assert(group_models(a).len() == a.len());
    assert(group_models(b).len() == b.len());
    if a.len() > 0 {
        assert(group_models(a.drop_last()) =~= group_models(a).drop_last());
        assert(group_models(b.drop_last()) =~= group_models(b).drop_last());
        lemma_group_models_determine(a.drop_last(), b.drop_last());
        assert(a.last().model() == group_models(a).last());
        assert(b.last().model() == group_models(b).last());
        a.last().lemma_fault_of_model(&b.last());
    }
}

/// Groups that were read from bytes have those bytes as their encodings,
/// one after the other.
pub proof fn lemma_groups_exact(groups: Seq<TransactionBlock>, data: Seq<u8>)
    requires
        decode_groups(data) matches Ok((ms, _)) && group_models(groups) == ms,
    ensures
        decode_groups(data) matches Ok((_, n)) && n <= data.len() && groups_content(groups)
            == data.subrange(0, n as int),
    decreases data.len(),
{
    lemma_groups_step(data);
    lemma_group_takes(data);
    assert(group_models(groups).len() == groups.len());
    let uid = UserId::decoding(data).unwrap().0;
    if uid.spec_is_magic() {
        assert(groups =~= Seq::empty());
        assert(groups_content(groups) =~= data.subrange(0, 0));
    } else {
        let first = TransactionBlock::decoding(data).unwrap();
        let rest = decode_groups(data.skip(first.1 as int)).unwrap();
        assert(group_models(groups) == seq![first.0] + rest.0);
        let tail = groups.skip(1);
        assert(group_models(tail) =~= rest.0) by {
            assert forall|k: int| 0 <= k < tail.len() implies group_models(tail)[k]
                == rest.0[k] by {
                assert(group_models(tail)[k] == groups[k + 1].model());
                assert(group_models(groups)[k + 1] == groups[k + 1].model());
            }
        }
        lemma_groups_exact(tail, data.skip(first.1 as int));
        lemma_groups_content_front(groups);
        assert(groups[0].model() == group_models(groups)[0]);
        groups[0].lemma_exact(data);
        assert(data.subrange(0, first.1 as int) + data.skip(first.1 as int).subrange(
            0,
            rest.1 as int,
        ) =~= data.subrange(0, (first.1 + rest.1) as int));
    }
}

/// A group opens with a transfer, not with the reserved marker.
pub open spec fn opens_plainly(group: TransactionBlock) -> bool {
    group.transactions@.len() > 0 && !group.transactions@[0].spec_uid().spec_is_magic()
}

/// A well-formed group, whatever follows it, is read as a group and not
/// as the marker.
pub proof fn lemma_group_head(group: TransactionBlock, after: Seq<u8>)
    requires
        group.wf(),
        group.encodable(),
        opens_plainly(group),
    ensures
        UserId::decoding(group.encoding() + after) matches Ok((uid, _)) && !uid.spec_is_magic(),
        TransactionBlock::decoding(group.encoding() + after) == Ok::<
            (TransactionBlockModel, nat),
            Error,
        >((group.model(), group.encoding().len())),
        group.encoding().len() >= 72,
{
    let data = group.encoding() + after;
    group.lemma_round_trip(after);
    lemma_group_takes(data);
    lemma_first_transfer(data);
    assert(group.model().transactions[0].uid == group.transactions@[0].spec_uid());
}

/// Reading the encodings of well-formed groups, closed by the marker, gives
/// the groups.
pub proof fn lemma_decode_groups(groups: Seq<TransactionBlock>, rest: Seq<u8>)
    requires
        forall|k: int| 0 <= k < groups.len() ==> (#[trigger] groups[k]).wf(),
        forall|k: int| 0 <= k < groups.len() ==> (#[trigger] groups[k]).encodable(),
        forall|k: int| 0 <= k < groups.len() ==> opens_plainly(#[trigger] groups[k]),
        rest.len() >= 2,
        rest[0] == MAGIC_HIGH,
        rest[1] == MAGIC_LOW,
    ensures
        decode_groups(groups_content(groups) + rest) == Ok::<
            (Seq<TransactionBlockModel>, nat),
            Error,
        >((group_models(groups), groups_content(groups).len())),
    decreases groups.len(),
{
    let data = groups_content(groups) + rest;
    lemma_groups_step(data);
    if groups.len() == 0 {
        assert(data =~= rest);
        UserId::lemma_from_pair(rest[0], rest[1]);
        assert(group_models(groups) =~= Seq::empty());
    } else {
        let first = groups[0];
        let tail = groups.skip(1);
        let after = groups_content(tail) + rest;
        lemma_groups_content_front(groups);
        assert(data =~= first.encoding() + after);
        lemma_group_head(first, after);
        assert(data.skip(first.encoding().len() as int) =~= after);
        assert forall|k: int| 0 <= k < tail.len() implies (#[trigger] tail[k]).wf() by {
            assert(tail[k] == groups[k + 1]);
        }
        assert forall|k: int| 0 <= k < tail.len() implies (#[trigger] tail[k]).encodable() by {
            assert(tail[k] == groups[k + 1]);
        }
        assert forall|k: int| 0 <= k < tail.len() implies opens_plainly(#[trigger] tail[k]) by {
            assert(tail[k] == groups[k + 1]);
        }
        lemma_decode_groups(tail, rest);
        assert(group_models(groups) =~= seq![first.model()] + group_models(tail));
        assert(decode_groups(data) == prepend(
            seq![first.model()],
            first.encoding().len(),
            decode_groups(after),
        ));
    }
}

/// The encodings of `groups`, one after the other, where each has one.
pub fn groups_to_bytes(groups: &Vec<TransactionBlock>) -> (r: Result<Vec<u8>, Error>)
    ensures
        match first_group_fault(groups@) {
            Some(e) => r == Err::<Vec<u8>, Error>(e),
            None => r matches Ok(bytes) && bytes@ == groups_content(groups@),
        },
{
    let mut out: Vec<u8> = Vec::new();
    let mut j: usize = 0;
    assert(groups@.take(0) =~= Seq::empty());
    while j < groups.len()
        invariant
            j <= groups.len(),
            first_group_fault(groups@.take(j as int)) is None,
            out@ == groups_content(groups@.take(j as int)),
        decreases groups.len() - j,
    {
        let ghost prefix = groups@.take(j + 1);
        assert(prefix.drop_last() =~= groups@.take(j as int));
        let part = match groups[j].to_bytes() {
            Ok(part) => part,
            Err(e) => {
                proof {
                    lemma_first_group_fault_prefix(groups@, j + 1);
                }
                return Err(e);
            },
        };
        append_bytes(&mut out, part.as_slice());
        j += 1;
    }
    assert(groups@.take(j as int) =~= groups@);
    Ok(out)
}

/// Reads groups at `*i`, up to the reserved marker, and leaves `*i` at the
/// marker. On failure `*i` stays.
pub fn read_groups(data: &[u8], i: &mut usize) -> (r: Result<Vec<TransactionBlock>, Error>)
    ensures
        *old(i) > data@.len() ==> (r matches Err(e) && e == Error::Codec(CodecError::Truncated)),
        *old(i) <= data@.len() ==> match decode_groups(data@.skip(*old(i) as int)) {
            Ok((m, n)) => {
                &&& r matches Ok(groups)
                &&& group_models(groups@) == m
                &&& *final(i) == *old(i) + n
                &&& forall|k: int| 0 <= k < groups@.len() ==> (#[trigger] groups@[k]).wf()
                &&& forall|k: int| 0 <= k < groups@.len() ==> opens_plainly(#[trigger] groups@[k])
            },
            Err(e) => r matches Err(f) && f == e,
        },
        r is Ok ==> *final(i) + 2 <= data@.len() && data@[*final(i) as int] == MAGIC_HIGH
            && data@[*final(i) + 1] == MAGIC_LOW,
        r is Err ==> *final(i) == *old(i),
{
    let start = *i;
    if start > data.len() {
        return Err(Error::Codec(CodecError::Truncated));
    }
    let ghost s0 = data@.skip(start as int);
    let mut groups: Vec<TransactionBlock> = Vec::new();
    assert(group_models(groups@) =~= Seq::empty());
    loop
        invariant_except_break
            decode_groups(s0) == prepend(
                group_models(groups@),
                (*i - start) as nat,
                decode_groups(data@.skip(*i as int)),
            ),
        invariant
            start <= *i <= data@.len(),
            start == *old(i),
            s0 == data@.skip(start as int),
            forall|k: int| 0 <= k < groups@.len() ==> (#[trigger] groups@[k]).wf(),
            forall|k: int| 0 <= k < groups@.len() ==> opens_plainly(#[trigger] groups@[k]),
        ensures
            decode_groups(s0) == Ok::<(Seq<TransactionBlockModel>, nat), Error>(
                (group_models(groups@), (*i - start) as nat),
            ),
            *i + 2 <= data@.len(),
            data@[*i as int] == MAGIC_HIGH,
            data@[*i + 1] == MAGIC_LOW,
        decreases data@.len() - *i,
    {
        let ghost at = *i;
        let ghost before = groups@;
        let ghost here = data@.skip(at as int);
        proof {
            lemma_groups_step(here);
        }
        let mut peek = *i;
        let uid = match UserId::from_serialized(data, &mut peek) {
            Ok(uid) => uid,
            Err(e) => {
                *i = start;
                return Err(e);
            },
        };
        proof {
            UserId::lemma_from_pair(here[0], here[1]);
            lemma_group_takes(here);
            lemma_first_transfer(here);
        }
        if uid.is_magic() {
            proof {
                assert(group_models(groups@) + Seq::empty() =~= group_models(groups@));
            }
            break ;
        }
        let group = match TransactionBlock::from_serialized(data, i) {
            Ok(group) => group,
            Err(e) => {
                *i = start;
                return Err(e);
            },
        };
        groups.push(group);
        proof {
            assert(group.model().transactions[0].uid == group.transactions@[0].spec_uid());
            assert(group_models(groups@) =~= group_models(before) + seq![group.model()]);
            assert(here.skip(*i - at) =~= data@.skip(*i as int));
            lemma_prepend_twice(
                group_models(before),
                (at - start) as nat,
                seq![group.model()],
                (*i - at) as nat,
                decode_groups(data@.skip(*i as int)),
            );
        }
    }
    Ok(groups)
}

impl Block {
    /// A block of `transactions` that links to `back_hash`.
    pub fn new(
        transactions: Vec<TransactionBlock>,
        uid: UserId,
        back_hash: BlockHash,
        finder: PublicKey,
        magic: Vec<u8>,
    ) -> (r: Block)
        ensures
            r.groups() == transactions@,
            r.spec_uid() == uid,
            r.spec_back_hash() == back_hash,
            r.spec_finder() == finder,
            r.spec_magic() == magic@,
    {
        Block { transaction_blocks: transactions, uid, back_hash, finder, magic }
    }

    /// The groups of transfers.
    pub closed spec fn groups(&self) -> Seq<TransactionBlock> {
        self.transaction_blocks@
    }

    /// The marker that the block holds.
    pub closed spec fn spec_uid(&self) -> UserId {
        self.uid
    }

    /// The hash of the block before.
    pub closed spec fn spec_back_hash(&self) -> BlockHash {
        self.back_hash
    }

    /// The key that is credited with the block.
    pub closed spec fn spec_finder(&self) -> PublicKey {
        self.finder
    }

    /// The bytes that the miner varies.
    pub closed spec fn spec_magic(&self) -> Seq<u8> {
        self.magic@
    }

    /// What follows the groups: the marker, the length of the magic, the
    /// back hash, the finder and the magic.
    pub open spec fn trailer(&self) -> Seq<u8> {
        self.trailer_with(self.spec_magic())
    }

    /// What would follow the groups if the magic were `magic`.
    pub open spec fn trailer_with(&self, magic: Seq<u8>) -> Seq<u8> {
        seq![MAGIC_HIGH, MAGIC_LOW, magic.len() as u8] + self.spec_back_hash()@
            + self.spec_finder()@ + magic
    }

    /// The encoding that the block would have if its magic were `magic`.
    pub open spec fn encoding_with(&self, magic: Seq<u8>) -> Seq<u8> {
        groups_content(self.groups()) + self.trailer_with(magic)
    }

    /// Links the block to `back_hash`. Nothing else changes.
    pub fn set_back_hash(&mut self, back_hash: BlockHash)
        ensures
            final(self).spec_back_hash() == back_hash,
            final(self).spec_magic() == old(self).spec_magic(),
            final(self).groups() == old(self).groups(),
            final(self).spec_uid() == old(self).spec_uid(),
            final(self).spec_finder() == old(self).spec_finder(),
    {
        self.back_hash = back_hash;
    }

    /// Puts `magic` in the place of the block's magic and hands back the
    /// magic that was there. Nothing else changes.
    pub fn replace_magic(&mut self, magic: Vec<u8>) -> (r: Vec<u8>)
        ensures
            r@ == old(self).spec_magic(),
            final(self).spec_magic() == magic@,
            final(self).groups() == old(self).groups(),
            final(self).spec_uid() == old(self).spec_uid(),
            final(self).spec_back_hash() == old(self).spec_back_hash(),
            final(self).spec_finder() == old(self).spec_finder(),
    {
        let mut held = magic;
        core::mem::swap(&mut self.magic, &mut held);
        held
    }

    /// Why the block has no encoding, if it has none.
    pub open spec fn fault(&self) -> Option<Error> {
        if first_group_fault(self.groups()) is Some {
            first_group_fault(self.groups())
        } else if self.spec_magic().len() > MAX_MAGIC_LEN {
            Some(Error::Codec(CodecError::OutOfRange))
        } else {
            None
        }
    }

    /// The hash that names the block: the SHA3-256 digest of its encoding.
    pub open spec fn spec_hash(&self) -> Seq<u8> {
        sha3_256(self.encoding())
    }

    /// Every group is well-formed and opens with a transfer, the marker is
    /// held in the form it is read in, the finder is a key, and the magic is
    /// no longer than its length byte can say.
    #[verifier::opaque]
    pub open spec fn well_formed(&self) -> bool {
        &&& forall|k: int| 0 <= k < self.groups().len() ==> (#[trigger] self.groups()[k]).wf()
        &&& forall|k: int| 0 <= k < self.groups().len() ==> opens_plainly(#[trigger] self.groups()[k])
        &&& self.spec_uid() == UserId::from_pair(MAGIC_HIGH, MAGIC_LOW)
        &&& self.spec_finder().wf()
        &&& self.spec_magic().len() <= MAX_MAGIC_LEN
    }

    /// The block with the marker held in the form it is read in, and all
    /// else as it is.
    pub closed spec fn with_marker(&self) -> Block {
        Block {
            transaction_blocks: self.transaction_blocks,
            uid: UserId::from_pair(MAGIC_HIGH, MAGIC_LOW),
            back_hash: self.back_hash,
            finder: self.finder,
            magic: self.magic,
        }
    }

    /// The encoding of a block does not depend on the form in which the
    /// block holds the marker. So a block is read back from its encoding
    /// whatever identifier it was built with: with the marker in the form
    /// it is read in, and all else as it was.
    pub proof fn lemma_round_trip_any_marker(&self, rest: Seq<u8>)
        requires
            self.with_marker().wf(),
            self.encodable(),
        ensures
            self.with_marker().groups() == self.groups(),
            self.with_marker().spec_back_hash() == self.spec_back_hash(),
            self.with_marker().spec_finder() == self.spec_finder(),
            self.with_marker().spec_magic() == self.spec_magic(),
            self.with_marker().spec_uid() == UserId::from_pair(MAGIC_HIGH, MAGIC_LOW),
            self.with_marker().encoding() == self.encoding(),
            self.with_marker().spec_hash() == self.spec_hash(),
            Block::decoding(self.encoding() + rest) == Ok::<(BlockModel, nat), Error>(
                (self.with_marker().model(), self.encoding().len()),
            ),
    {
        self.with_marker().lemma_round_trip(rest);
    }

    /// The encoding of a block, its hash, and why it has no encoding,
    /// depend on nothing but what the block stands for.
    pub proof fn lemma_fault_of_model(&self, other: &Self)
        requires
            self.model() == other.model(),
        ensures
            self.encoding() == other.encoding(),
            self.spec_hash() == other.spec_hash(),
            self.fault() == other.fault(),
    {
        lemma_group_models_determine(self.groups(), other.groups());
    }

    /// A block that was read from bytes has those bytes as its encoding,
    /// and their hash as its hash.
    pub proof fn lemma_exact(&self, data: Seq<u8>)
        requires
            Block::decoding(data) matches Ok((m, _)) && self.model() == m,
        ensures
            Block::decoding(data) matches Ok((_, n)) && n <= data.len() && self.encoding()
                == data.subrange(0, n as int),
            self.spec_hash() == sha3_256(data.subrange(0, Block::decoding(data).unwrap().1 as int)),
    {
        let n = decode_groups(data).unwrap().1;
        lemma_groups_exact(self.groups(), data);
        lemma_groups_take(data);
        let rest = data.skip(n as int);
        UserId::lemma_from_pair(rest[0], rest[1]);
        lemma_groups_end(data);
        let m = 68 + rest[2];
        assert(self.trailer() =~= rest.subrange(0, m as int));
        assert(data.subrange(0, n as int) + rest.subrange(0, m as int) =~= data.subrange(
            0,
            (n + m) as int,
        ));
    }

    /// The hash of the block before.
    pub fn back_hash(&self) -> (r: BlockHash)
        ensures
            r == self.spec_back_hash(),
    {
        self.back_hash
    }

    /// The key that is credited with the block.
    pub fn finder(&self) -> (r: PublicKey)
        ensures
            r == self.spec_finder(),
            r.wf(),
    {
        proof {
            use_type_invariant(self.finder);
        }
        self.finder
    }

    /// The bytes that the miner varies.
    pub fn magic(&self) -> (r: &Vec<u8>)
        ensures
            r@ == self.spec_magic(),
    {
        &self.magic
    }

    /// The groups of transfers.
    pub fn transaction_blocks(&self) -> (r: &Vec<TransactionBlock>)
        ensures
            r@ == self.groups(),
    {
        &self.transaction_blocks
    }

    /// What the transfers of the block change in the balance of `pk`.
    pub fn get_user_value_change(&self, pk: &PublicKey) -> (r: Result<i128, Error>)
        ensures
            match groups_change(self.groups(), pk@) {
                Ok(v) => r == Ok::<i128, Error>(v as i128),
                Err(e) => r == Err::<i128, Error>(e),
            },
    {
        let mut sum = WideSum::new();
        let mut j: usize = 0;
        assert(self.transaction_blocks@.take(0) =~= Seq::empty());
        while j < self.transaction_blocks.len()
            invariant
                j <= self.transaction_blocks.len(),
                sum.wf(),
                sum.reach() <= j,
                groups_booking_fault(self.transaction_blocks@.take(j as int)) is None,
                sum@ == groups_sum(self.transaction_blocks@.take(j as int), pk@),
            decreases self.transaction_blocks.len() - j,
        {
            let ghost prefix = self.transaction_blocks@.take(j + 1);
            assert(prefix.drop_last() =~= self.transaction_blocks@.take(j as int));
            let transfers = self.transaction_blocks[j].transactions.len();
            proof {
                if first_booking_fault(self.transaction_blocks@[j as int].transactions@) is None {
                    lemma_value_change_bound(
                        self.transaction_blocks@[j as int].transactions@,
                        pk@,
                    );
                }
            }
            let change = match self.transaction_blocks[j].get_user_value_change(pk) {
                Ok(change) => change,
                Err(e) => {
                    proof {
                        lemma_groups_booking_fault_prefix(self.transaction_blocks@, j + 1);
                    }
                    return Err(e);
                },
            };
            sum.add_term(change);
            j += 1;
        }
        assert(self.transaction_blocks@.take(j as int) =~= self.transaction_blocks@);
        sum.total()
    }

    /// The fees that the transfers of the block pay.
    pub fn get_fees(&self) -> (r: Result<i128, Error>)
        ensures
            match groups_fees(self.groups()) {
                Ok(v) => r == Ok::<i128, Error>(v as i128),
                Err(e) => r == Err::<i128, Error>(e),
            },
    {
        let mut sum = WideSum::new();
        let mut j: usize = 0;
        assert(self.transaction_blocks@.take(0) =~= Seq::empty());
        while j < self.transaction_blocks.len()
            invariant
                j <= self.transaction_blocks.len(),
                sum.wf(),
                sum.reach() <= j,
                groups_booking_fault(self.transaction_blocks@.take(j as int)) is None,
                sum@ == all_fees(self.transaction_blocks@.take(j as int)),
            decreases self.transaction_blocks.len() - j,
        {
            let ghost prefix = self.transaction_blocks@.take(j + 1);
            assert(prefix.drop_last() =~= self.transaction_blocks@.take(j as int));
            let transfers = self.transaction_blocks[j].transactions.len();
            proof {
                lemma_fees_bound(self.transaction_blocks@[j as int].transactions@);
            }
            let part = match self.transaction_blocks[j].get_fees() {
                Ok(part) => part,
                Err(e) => {
                    proof {
                        lemma_groups_booking_fault_prefix(self.transaction_blocks@, j + 1);
                    }
                    return Err(e);
                },
            };
            sum.add_term(part);
            j += 1;
        }
        assert(self.transaction_blocks@.take(j as int) =~= self.transaction_blocks@);
        sum.total()
    }

    /// What the block changes in the balance of `pk`, the finder's reward
    /// of fees and `subsidy` included.
    pub fn get_user_balance_change(&self, pk: &PublicKey, subsidy: u32) -> (r: Result<i128, Error>)
        ensures
            match block_change(*self, pk@, subsidy as int) {
                Ok(v) => r == Ok::<i128, Error>(v as i128),
                Err(e) => r == Err::<i128, Error>(e),
            },
    {
        let change = self.get_user_value_change(pk)?;
        if !self.finder.same(pk) {
            return Ok(change);
        }
        let paid = self.get_fees()?;
        let reward = match paid.checked_add(subsidy as i128) {
            Some(reward) => reward,
            None => {
                return Err(Error::Codec(CodecError::OutOfRange));
            },
        };
        match change.checked_add(reward) {
            Some(total) => Ok(total),
            None => Err(Error::Codec(CodecError::OutOfRange)),
        }
    }

    /// The encoding, where the block has one.
    pub fn to_bytes(&self) -> (r: Result<Vec<u8>, Error>)
        ensures
            match self.fault() {
                Some(e) => r == Err::<Vec<u8>, Error>(e),
                None => r matches Ok(bytes) && bytes@ == self.encoding(),
            },
    {
        let mut out = groups_to_bytes(&self.transaction_blocks)?;
        if self.magic.len() > MAX_MAGIC_LEN {
            return Err(Error::Codec(CodecError::OutOfRange));
        }
        let ghost body = out@;
        out.push(MAGIC_HIGH);
        out.push(MAGIC_LOW);
        out.push(self.magic.len() as u8);
        let back = self.back_hash.hash();
        append_bytes(&mut out, &back);
        let finder = self.finder.serialize();
        append_bytes(&mut out, &finder);
        append_bytes(&mut out, self.magic.as_slice());
        assert(out@ =~= body + self.trailer());
        Ok(out)
    }

    /// The hash that names the block.
    pub fn hash(&self) -> (r: Result<BlockHash, Error>)
        ensures
            match self.fault() {
                Some(e) => r == Err::<BlockHash, Error>(e),
                None => r matches Ok(h) && h@ == self.spec_hash(),
            },
    {
        let bytes = self.to_bytes()?;
        Ok(BlockHash::of(bytes.as_slice()))
    }
}

impl Serialize for Block {
    type Model = BlockModel;

    open spec fn model(&self) -> BlockModel {
        BlockModel {
            transaction_blocks: group_models(self.groups()),
            uid: self.spec_uid(),
            back_hash: self.spec_back_hash()@,
            finder: self.spec_finder()@,
            magic: self.spec_magic(),
        }
    }

    /// Every group is well-formed and opens with a transfer, the marker is
    /// held in the form it is read in, the finder is a key, and the magic is
    /// no longer than its length byte can say.
    open spec fn wf(&self) -> bool {
        self.well_formed()
    }

    /// Every group has an encoding, and the magic is no longer than its
    /// length byte can say.
    open spec fn encodable(&self) -> bool {
        self.fault() is None
    }

    open spec fn encoding(&self) -> Seq<u8> {
        groups_content(self.groups()) + self.trailer()
    }

    open spec fn decoding(data: Seq<u8>) -> Result<(BlockModel, nat), Error> {
        match decode_groups(data) {
            Err(e) => Err(e),
            Ok((groups, n)) => {
                let rest = data.skip(n as int);
                if rest.len() < BLOCK_TRAILER_SIZE {
                    Err(Error::Codec(CodecError::Truncated))
                } else if !public_key_valid(rest.subrange(35, 68)) {
                    Err(Error::Crypto(CryptoError::BadKey))
                } else if rest.len() < BLOCK_TRAILER_SIZE + rest[2] {
                    Err(Error::Codec(CodecError::Truncated))
                } else {
                    Ok(
                        (
                            BlockModel {
                                transaction_blocks: groups,
                                uid: UserId::from_pair(rest[0], rest[1]),
                                back_hash: rest.subrange(3, 35),
                                finder: rest.subrange(35, 68),
                                magic: rest.subrange(68, 68 + rest[2]),
                            },
                            n + BLOCK_TRAILER_SIZE as nat + rest[2] as nat,
                        ),
                    )
                }
            },
        }
    }

    proof fn lemma_round_trip(&self, rest: Seq<u8>) {
        reveal(Block::well_formed);
        let groups = self.groups();
        let body = groups_content(groups);
        let trailer = self.trailer();
        let data = self.encoding() + rest;
        self.back_hash.lemma_view_len();
        self.finder.lemma_view_len();
        assert(data =~= body + (trailer + rest));
        assert forall|k: int| 0 <= k < groups.len() implies (#[trigger] groups[k]).encodable() by {
            lemma_no_group_fault(groups, k);
        }
        lemma_decode_groups(groups, trailer + rest);
        let tail = data.skip(body.len() as int);
        assert(tail =~= trailer + rest);
        assert(tail.subrange(3, 35) =~= self.back_hash@);
        assert(tail.subrange(35, 68) =~= self.finder@);
        assert(tail[2] == self.magic@.len() as u8);
        assert(tail.subrange(68, 68 + tail[2]) =~= self.magic@);
    }

    proof fn lemma_model_determines(&self, other: &Self) {
        self.lemma_fault_of_model(other);
    }

    fn from_serialized(data: &[u8], i: &mut usize) -> (r: Result<Block, Error>) {
        let start = *i;
        let ghost s0 = data@.skip(start as int);
        let groups = read_groups(data, i)?;
        let ghost taken = *i - start;
        let ghost rest = data@.skip(*i as int);
        assert(s0.skip(taken) =~= rest);
        if !has_room(data.len(), *i, BLOCK_TRAILER_SIZE) {
            *i = start;
            return Err(Error::Codec(CodecError::Truncated));
        }
        let uid = match UserId::from_serialized(data, i) {
            Ok(uid) => uid,
            Err(e) => {
                *i = start;
                return Err(e);
            },
        };
        let magic_len = data[*i] as usize;
        *i += 1;
        assert(magic_len == rest[2]);
        let back_hash = match BlockHash::from_serialized(data, i) {
            Ok(back_hash) => back_hash,
            Err(e) => {
                *i = start;
                return Err(e);
            },
        };
        assert(data@.skip(start + taken + 3).subrange(0, 32) =~= rest.subrange(3, 35));
        assert(data@.skip(start + taken + 35).subrange(0, 33) =~= rest.subrange(35, 68));
        let finder = match PublicKey::from_serialized(data, i) {
            Ok(finder) => finder,
            Err(e) => {
                *i = start;
                return Err(e);
            },
        };
        if !has_room(data.len(), *i, magic_len) {
            *i = start;
            return Err(Error::Codec(CodecError::Truncated));
        }
        let mut magic: Vec<u8> = Vec::new();
        let from = *i;
        while magic.len() < magic_len
            invariant
                magic@.len() <= magic_len,
                from + magic_len <= data@.len(),
                *i == from + magic@.len(),
                magic@ == data@.subrange(from as int, from + magic@.len()),
            decreases magic_len - magic@.len(),
        {
            magic.push(data[*i]);
            *i += 1;
            assert(magic@ =~= data@.subrange(from as int, from + magic@.len()));
        }
        assert(magic@ =~= rest.subrange(68, 68 + magic_len));
        let block = Block { transaction_blocks: groups, uid, back_hash, finder, magic };
        proof {
            reveal(Block::well_formed);
        }
        assert(block.wf() && Block::decoding(s0) == Ok::<(BlockModel, nat), Error>(
            (block.model(), (*i - start) as nat),
        ));
        Ok(block)
    }

    fn serialize_into(&self, buffer: &mut [u8], i: &mut usize) -> (r: Result<usize, Error>)
        ensures
            r matches Err(e) ==> e == match self.fault() {
                Some(f) => f,
                None => Error::Codec(CodecError::Truncated),
            },
    {
        assert(self.encodable() == (self.fault() is None));
        let bytes = self.to_bytes()?;
        assert(bytes@ == self.encoding());
        place(buffer, i, bytes.as_slice())
    }

    fn serialized_len(&self) -> (n: usize) {
        let mut total: usize = 0;
        let mut j: usize = 0;
        assert(self.transaction_blocks@.take(0) =~= Seq::empty());
        while j < self.transaction_blocks.len()
            invariant
                j <= self.transaction_blocks.len(),
                total == groups_content(self.transaction_blocks@.take(j as int)).len(),
                self.encoding().len() <= usize::MAX,
            decreases self.transaction_blocks.len() - j,
        {
            let ghost prefix = self.transaction_blocks@.take(j + 1);
            assert(prefix.drop_last() =~= self.transaction_blocks@.take(j as int));
            proof {
                lemma_groups_content_prefix(self.transaction_blocks@, j + 1);
            }
            total = total + self.transaction_blocks[j].serialized_len();
            j += 1;
        }
        assert(self.transaction_blocks@.take(j as int) =~= self.transaction_blocks@);
        proof {
            self.back_hash.lemma_view_len();
            self.finder.lemma_view_len();
        }
        total + BLOCK_TRAILER_SIZE + self.magic.len()
    }
}

/// The encodings of the first groups are no longer than those of all.
pub proof fn lemma_groups_content_prefix(groups: Seq<TransactionBlock>, n: int)
    requires
        0 <= n <= groups.len(),
    ensures
        groups_content(groups.take(n)).len() <= groups_content(groups).len(),
    decreases groups.len(),
{
    if n < groups.len() {
        assert(groups.drop_last().take(n) =~= groups.take(n));
        lemma_groups_content_prefix(groups.drop_last(), n);
    } else {
        assert(groups.take(n) =~= groups);
    }
}

} // verus!
