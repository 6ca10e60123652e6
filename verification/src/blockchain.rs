//! A chain of blocks, each linked to the hash of the one before and each
//! showing its work, and its framing as a stream of bytes.

use crate::block::{
    block_change, checked_sum, groups_change, groups_fees, Block, BlockModel,
};
use crate::block_hash::{default_target, default_target_bytes, genesis_back, BlockHash};
use crate::bytes::{append_bytes, has_room, place};
use crate::crypto::{be_nat, sha3_256};
use crate::error::{CodecError, ConsensusError, Error};
use crate::keys::PublicKey;
use crate::serialize::Serialize;
use crate::transaction_block::{lemma_prepend_twice, prepend};
use crate::ledger::{
    all_fees, book_block, book_block_model, book_groups, bounded, lemma_all_fees,
    lemma_book_all_change, lemma_book_block_model, lemma_replay_is_from, no_holdings, replay,
    replay_from, total, Holdings, Ledger,
};
use crate::user_id::{MAGIC_HIGH, MAGIC_LOW};
use crate::wallet::DEFAULT_BLOCK_SUBSIDY;
use crate::transaction_block::TransactionBlock;
use vstd::prelude::*;
use vstd::slice::slice_subrange;

verus! {

/// The byte that, four times over, ends a stream of blocks.
pub const END_MARKER_BYTE: u8 = 0x41;

/// Length of the marker that ends a stream of blocks.
pub const END_MARKER_SIZE: usize = 4;

/// The blocks of a chain, in order, and the ledger that was last booked
/// from them.
#[derive(Clone, Debug, PartialEq, Eq)]
pub struct Blockchain {
    users: Ledger,
    blocks: Vec<Block>,
}

/// The marker that ends a stream of blocks.
pub open spec fn end_marker() -> Seq<u8> {
    seq![END_MARKER_BYTE, END_MARKER_BYTE, END_MARKER_BYTE, END_MARKER_BYTE]
}

/// Whether `data` opens with the end marker.
pub open spec fn at_end_marker(data: Seq<u8>) -> bool {
    data.len() >= 4 && data[0] == END_MARKER_BYTE && data[1] == END_MARKER_BYTE && data[2]
        == END_MARKER_BYTE && data[3] == END_MARKER_BYTE
}

/// What each block of a sequence stands for.
pub open spec fn block_models(blocks: Seq<Block>) -> Seq<BlockModel> {
    blocks.map_values(|b: Block| b.model())
}

/// The encodings of the blocks, one after the other.
pub open spec fn blocks_content(blocks: Seq<Block>) -> Seq<u8>
    decreases blocks.len(),
{
    if blocks.len() == 0 {
        Seq::empty()
    } else {
        blocks_content(blocks.drop_last()) + blocks.last().encoding()
    }
}

/// The hash that the next block must link to: that of the last block, or
/// the zero hash where there is none.
pub open spec fn head(blocks: Seq<Block>) -> Seq<u8> {
    if blocks.len() == 0 {
        genesis_back()
    } else {
        blocks.last().spec_hash()
    }
}

/// Why a block cannot follow a block with hash `expected`, if it cannot:
/// it does not link to it, has no encoding, or does not show the work that
/// `target` asks for.
#[verifier::opaque]
pub open spec fn link_fault(block: Block, expected: Seq<u8>, target: Seq<u8>) -> Option<Error> {
    if block.spec_back_hash()@ != expected {
        Some(Error::Consensus(ConsensusError::WrongBackHash))
    } else if block.fault() is Some {
        block.fault()
    } else if !(be_nat(block.spec_hash()) < be_nat(target)) {
        Some(Error::Consensus(ConsensusError::InsufficientWork))
    } else {
        None
    }
}

/// Why a chain has no encoding, if it has none: the fault of the first
/// block that cannot follow the one before it.
pub open spec fn chain_fault(blocks: Seq<Block>, target: Seq<u8>) -> Option<Error>
    decreases blocks.len(),
{
    if blocks.len() == 0 {
        None
    } else {
        match chain_fault(blocks.drop_last(), target) {
            Some(e) => Some(e),
            None => link_fault(blocks.last(), head(blocks.drop_last()), target),
        }
    }
}

/// Why the first block that has no encoding has none.
pub open spec fn first_block_fault(blocks: Seq<Block>) -> Option<Error>
    decreases blocks.len(),
{
    if blocks.len() == 0 {
        None
    } else {
        match first_block_fault(blocks.drop_last()) {
            Some(e) => Some(e),
            None => blocks.last().fault(),
        }
    }
}

/// The transfers of a chain with the blocks that hold them, as bytes: for
/// each block in order its hash, its groups, and the marker that closes
/// them.
pub open spec fn on_chain_content(blocks: Seq<Block>) -> Seq<u8>
    decreases blocks.len(),
{
    if blocks.len() == 0 {
        Seq::empty()
    } else {
        on_chain_content(blocks.drop_last()) + blocks.last().spec_hash()
            + crate::block::groups_content(blocks.last().groups()) + seq![MAGIC_HIGH, MAGIC_LOW]
    }
}

/// A fault in a prefix is the fault of the whole.
pub proof fn lemma_first_block_fault_prefix(blocks: Seq<Block>, n: int)
    requires
        0 <= n <= blocks.len(),
        first_block_fault(blocks.take(n)) is Some,
    ensures
        first_block_fault(blocks) == first_block_fault(blocks.take(n)),
    decreases blocks.len(),
{
    if n < blocks.len() {
        assert(blocks.drop_last().take(n) =~= blocks.take(n));
        lemma_first_block_fault_prefix(blocks.drop_last(), n);
    } else {
        assert(blocks.take(n) =~= blocks);
    }
}

/// In a chain without fault every block has an encoding.
pub proof fn lemma_chain_blocks_encode(blocks: Seq<Block>, target: Seq<u8>)
    requires
        chain_fault(blocks, target) is None,
    ensures
        first_block_fault(blocks) is None,
    decreases blocks.len(),
{
    if blocks.len() > 0 {
        lemma_chain_blocks_encode(blocks.drop_last(), target);
        reveal(link_fault);
    }
}

/// The hash that block `k` of a chain must link to, where the first links
/// to `first`.
pub open spec fn expected_back(blocks: Seq<Block>, first: Seq<u8>, k: int) -> Seq<u8> {
    if k == 0 {
        first
    } else {
        blocks[k - 1].spec_hash()
    }
}

/// A block that is well-formed and can follow a block with hash `expected`.
#[verifier::opaque]
pub open spec fn sound(block: Block, expected: Seq<u8>, target: Seq<u8>) -> bool {
    block.wf() && link_fault(block, expected, target) is None
}

/// Every block is well-formed and can follow the one before it.
pub open spec fn all_sound(blocks: Seq<Block>, first: Seq<u8>, target: Seq<u8>) -> bool {
    forall|k: int|
        0 <= k < blocks.len() ==> sound(
            #[trigger] blocks[k],
            expected_back(blocks, first, k),
            target,
        )
}

/// The balance of `key` at the end of the chain: the sum of what each block
/// changes in it, an error where a transfer cannot be booked or a partial
/// sum leaves the range of 128 bits.
pub open spec fn chain_balance(blocks: Seq<Block>, key: Seq<u8>, subsidy: int) -> Result<int, Error>
    decreases blocks.len(),
{
    if blocks.len() == 0 {
        Ok(0)
    } else {
        match chain_balance(blocks.drop_last(), key, subsidy) {
            Err(e) => Err(e),
            Ok(before) => match block_change(blocks.last(), key, subsidy) {
                Err(e) => Err(e),
                Ok(change) => checked_sum(before, change),
            },
        }
    }
}

/// An error in a prefix is the error of the whole.
pub proof fn lemma_chain_balance_prefix(blocks: Seq<Block>, key: Seq<u8>, subsidy: int, n: int)
    requires
        0 <= n <= blocks.len(),
        chain_balance(blocks.take(n), key, subsidy) is Err,
    ensures
        chain_balance(blocks, key, subsidy) == chain_balance(blocks.take(n), key, subsidy),
    decreases blocks.len(),
{
    if n < blocks.len() {
        assert(blocks.drop_last().take(n) =~= blocks.take(n));
        lemma_chain_balance_prefix(blocks.drop_last(), key, subsidy, n);
    } else {
        assert(blocks.take(n) =~= blocks);
    }
}

/// A block that is read took bytes that were there, and at least those of
/// its trailer.
pub proof fn lemma_block_takes(data: Seq<u8>)
    ensures
        Block::decoding(data) matches Ok((_, n)) ==> 68 <= n <= data.len(),
{
    crate::block::lemma_groups_take(data);
}

/// Reads blocks up to the end of the data or the end marker. Each must
/// link to the one before it, show its work, and be booked on the holdings
/// that the blocks before it left: its signatures hold, what it spends is
/// held, and its finder is credited.
#[verifier::opaque]
pub open spec fn decode_chain(
    data: Seq<u8>,
    expected: Seq<u8>,
    target: Seq<u8>,
    h: Holdings,
    subsidy: int,
) -> Result<(Seq<BlockModel>, nat), Error>
    decreases data.len(),
    via decode_chain_decreases
{
    if data.len() == 0 {
        Ok((Seq::empty(), 0))
    } else if at_end_marker(data) {
        Ok((Seq::empty(), 4))
    } else {
        match Block::decoding(data) {
            Err(e) => Err(e),
            Ok((block, n)) => {
                let hash = sha3_256(data.subrange(0, n as int));
                if block.back_hash != expected {
                    Err(Error::Consensus(ConsensusError::WrongBackHash))
                } else if !(be_nat(hash) < be_nat(target)) {
                    Err(Error::Consensus(ConsensusError::InsufficientWork))
                } else {
                    match book_block_model(h, block, subsidy) {
                        Err(e) => Err(e),
                        Ok(after) => prepend(
                            seq![block],
                            n,
                            decode_chain(data.skip(n as int), hash, target, after, subsidy),
                        ),
                    }
                }
            },
        }
    }
}

#[via_fn]
proof fn decode_chain_decreases(
    data: Seq<u8>,
    expected: Seq<u8>,
    target: Seq<u8>,
    h: Holdings,
    subsidy: int,
) {
    lemma_block_takes(data);
}

/// The encodings of the blocks begin with that of the first.
pub proof fn lemma_blocks_content_front(blocks: Seq<Block>)
    requires
        blocks.len() > 0,
    ensures
        blocks_content(blocks) == blocks[0].encoding() + blocks_content(blocks.skip(1)),
    decreases blocks.len(),
{
    if blocks.len() == 1 {
        assert(blocks.drop_last() =~= Seq::empty());
        assert(blocks.skip(1) =~= Seq::empty());
        assert(blocks_content(blocks) =~= blocks[0].encoding() + blocks_content(blocks.skip(1)));
    } else {
        lemma_blocks_content_front(blocks.drop_last());
        assert(blocks.drop_last().skip(1) =~= blocks.skip(1).drop_last());
        assert(blocks.skip(1).last() == blocks.last());
        assert(blocks_content(blocks) =~= blocks[0].encoding() + blocks_content(blocks.skip(1)));
    }
}

/// The encodings of the first blocks are no longer than those of all.
pub proof fn lemma_blocks_content_prefix(blocks: Seq<Block>, n: int)
    requires
        0 <= n <= blocks.len(),
    ensures
        blocks_content(blocks.take(n)).len() <= blocks_content(blocks).len(),
    decreases blocks.len(),
{
    if n < blocks.len() {
        assert(blocks.drop_last().take(n) =~= blocks.take(n));
        lemma_blocks_content_prefix(blocks.drop_last(), n);
    } else {
        assert(blocks.take(n) =~= blocks);
    }
}

/// A fault in a prefix is the fault of the whole.
pub proof fn lemma_chain_fault_prefix(blocks: Seq<Block>, target: Seq<u8>, n: int)
    requires
        0 <= n <= blocks.len(),
        chain_fault(blocks.take(n), target) is Some,
    ensures
        chain_fault(blocks, target) == chain_fault(blocks.take(n), target),
    decreases blocks.len(),
{
    if n < blocks.len() {
        assert(blocks.drop_last().take(n) =~= blocks.take(n));
        lemma_chain_fault_prefix(blocks.drop_last(), target, n);
    } else {
        assert(blocks.take(n) =~= blocks);
    }
}

/// In a chain without fault every block can follow the one before it.
pub proof fn lemma_chain_without_fault(blocks: Seq<Block>, target: Seq<u8>, k: int)
    requires
        chain_fault(blocks, target) is None,
        0 <= k < blocks.len(),
    ensures
        link_fault(blocks[k], expected_back(blocks, genesis_back(), k), target) is None,
    decreases blocks.len(),
{
    let before = blocks.drop_last();
    if k < before.len() {
        lemma_chain_without_fault(before, target, k);
        assert(before[k] == blocks[k]);
        if k > 0 {
            assert(before[k - 1] == blocks[k - 1]);
        }
    } else if k > 0 {
        assert(before.last() == blocks[k - 1]);
    }
}

/// The encoding of a well-formed block does not open with the end marker:
/// it opens with the marker that closes its groups, or with a transfer,
/// whose spending key opens with the header byte of a compressed key.
pub proof fn lemma_block_opening(block: Block, rest: Seq<u8>)
    requires
        block.wf(),
    ensures
        !at_end_marker(block.encoding() + rest),
        block.encoding().len() >= 68,
{
    reveal(Block::well_formed);
    let groups = block.groups();
    let data = block.encoding() + rest;
    block.spec_back_hash().lemma_view_len();
    block.spec_finder().lemma_view_len();
    if groups.len() == 0 {
        assert(crate::block::groups_content(groups) =~= Seq::empty());
        assert(data[0] == block.trailer()[0]);
    } else {
        let first = groups[0];
        let txs = first.transactions@;
        crate::block::lemma_groups_content_front(groups);
        crate::transaction_block::lemma_content_front(txs);
        let tx = txs[0];
        tx.lemma_encoding_len();
        tx.spec_from_pk().lemma_view_len();
        assert(tx.wf());
        assert(tx.spec_uid().encoding().len() == 2);
        assert(tx.encoding()[2] == tx.spec_from_pk()@[0]);
        assert(first.encoding()[2] == tx.encoding()[2]);
        assert(data[2] == first.encoding()[2]);
    }
}

/// What reading a chain comes to, one step at a time.
pub proof fn lemma_chain_step(
    data: Seq<u8>,
    expected: Seq<u8>,
    target: Seq<u8>,
    h: Holdings,
    subsidy: int,
)
    ensures
        decode_chain(data, expected, target, h, subsidy) == if data.len() == 0 {
            Ok::<(Seq<BlockModel>, nat), Error>((Seq::empty(), 0))
        } else if at_end_marker(data) {
            Ok((Seq::empty(), 4))
        } else {
            match Block::decoding(data) {
                Err(e) => Err(e),
                Ok((block, n)) => {
                    let hash = sha3_256(data.subrange(0, n as int));
                    if block.back_hash != expected {
                        Err(Error::Consensus(ConsensusError::WrongBackHash))
                    } else if !(be_nat(hash) < be_nat(target)) {
                        Err(Error::Consensus(ConsensusError::InsufficientWork))
                    } else {
                        match book_block_model(h, block, subsidy) {
                            Err(e) => Err(e),
                            Ok(after) => prepend(
                                seq![block],
                                n,
                                decode_chain(data.skip(n as int), hash, target, after, subsidy),
                            ),
                        }
                    }
                },
            }
        },
{
    reveal(decode_chain);
}

/// What the reader makes of a well-formed block that has an encoding,
/// whatever follows it: the block is held to its link, to its work and to
/// the holdings, in this order, and the first that fails is the reader's
/// error. Its hash is that of its encoding.
pub proof fn lemma_chain_block(
    block: Block,
    expected: Seq<u8>,
    target: Seq<u8>,
    h: Holdings,
    subsidy: int,
    after: Seq<u8>,
)
    requires
        block.wf(),
        block.fault() is None,
    ensures
        decode_chain(block.encoding() + after, expected, target, h, subsidy) == match link_fault(
            block,
            expected,
            target,
        ) {
            Some(e) => Err::<(Seq<BlockModel>, nat), Error>(e),
            None => match book_block(h, block, subsidy) {
                Err(e) => Err(e),
                Ok(next) => prepend(
                    seq![block.model()],
                    block.encoding().len(),
                    decode_chain(after, block.spec_hash(), target, next, subsidy),
                ),
            },
        },
{
    reveal(link_fault);
    let data = block.encoding() + after;
    let n = block.encoding().len();
    lemma_block_opening(block, after);
    block.lemma_round_trip(after);
    lemma_book_block_model(h, block, subsidy);
    lemma_chain_step(data, expected, target, h, subsidy);
    assert(data.subrange(0, n as int) =~= block.encoding());
    assert(data.skip(n as int) =~= after);
}

/// A sound block that can be booked, whatever follows it, is read as a
/// block, and its hash is that of its encoding.
pub proof fn lemma_chain_head(
    block: Block,
    first: Seq<u8>,
    target: Seq<u8>,
    h: Holdings,
    subsidy: int,
    after: Seq<u8>,
)
    requires
        sound(block, first, target),
        book_block(h, block, subsidy) is Ok,
    ensures
        decode_chain(block.encoding() + after, first, target, h, subsidy) == prepend(
            seq![block.model()],
            block.encoding().len(),
            decode_chain(
                after,
                block.spec_hash(),
                target,
                book_block(h, block, subsidy).unwrap(),
                subsidy,
            ),
        ),
{
    reveal(sound);
    assert(block.fault() is None) by {
        reveal(link_fault);
    }
    lemma_chain_block(block, first, target, h, subsidy, after);
}

/// Reading past sound blocks that can be booked one after the other:
/// what the reader makes of their encodings and of what follows is the
/// blocks, and then what it makes of what follows, from the hash of the
/// last block and the holdings that the blocks leave.
pub proof fn lemma_decode_chain_past(
    blocks: Seq<Block>,
    first: Seq<u8>,
    target: Seq<u8>,
    h: Holdings,
    subsidy: int,
    after: Seq<u8>,
)
    requires
        all_sound(blocks, first, target),
        replay_from(h, blocks, subsidy) is Ok,
    ensures
        decode_chain(blocks_content(blocks) + after, first, target, h, subsidy) == prepend(
            block_models(blocks),
            blocks_content(blocks).len(),
            decode_chain(
                after,
                expected_back(blocks, first, blocks.len() as int),
                target,
                replay_from(h, blocks, subsidy).unwrap(),
                subsidy,
            ),
        ),
    decreases blocks.len(),
{
    let data = blocks_content(blocks) + after;
    if blocks.len() == 0 {
        assert(data =~= after);
        assert(block_models(blocks) =~= Seq::empty());
        if let Ok((items, n)) = decode_chain(after, first, target, h, subsidy) {
            assert(Seq::<BlockModel>::empty() + items =~= items);
        }
    } else {
        let block = blocks[0];
        let tail = blocks.skip(1);
        let next = blocks_content(tail) + after;
        let booked = book_block(h, block, subsidy).unwrap();
        lemma_blocks_content_front(blocks);
        assert(data =~= block.encoding() + next);
        assert(sound(block, expected_back(blocks, first, 0), target));
        lemma_chain_head(block, first, target, h, subsidy, next);
        assert forall|k: int| 0 <= k < tail.len() implies sound(
            #[trigger] tail[k],
            expected_back(tail, block.spec_hash(), k),
            target,
        ) by {
            assert(tail[k] == blocks[k + 1]);
            assert(sound(blocks[k + 1], expected_back(blocks, first, k + 1), target));
            if k > 0 {
                assert(tail[k - 1] == blocks[k]);
            }
        }
        lemma_decode_chain_past(tail, block.spec_hash(), target, booked, subsidy, after);
        if tail.len() > 0 {
            assert(tail[tail.len() - 1] == blocks[blocks.len() - 1]);
        }
        assert(expected_back(tail, block.spec_hash(), tail.len() as int) == expected_back(
            blocks,
            first,
            blocks.len() as int,
        ));
        lemma_prepend_twice(
            seq![block.model()],
            block.encoding().len(),
            block_models(tail),
            blocks_content(tail).len(),
            decode_chain(
                after,
                expected_back(blocks, first, blocks.len() as int),
                target,
                replay_from(h, blocks, subsidy).unwrap(),
                subsidy,
            ),
        );
        assert(block_models(blocks) =~= seq![block.model()] + block_models(tail));
    }
}

/// Reading the encodings of sound blocks that can be booked one after
/// the other, closed by the end marker, gives the blocks.
pub proof fn lemma_decode_chain(
    blocks: Seq<Block>,
    first: Seq<u8>,
    target: Seq<u8>,
    h: Holdings,
    subsidy: int,
    rest: Seq<u8>,
)
    requires
        all_sound(blocks, first, target),
        replay_from(h, blocks, subsidy) is Ok,
    ensures
        decode_chain(
            blocks_content(blocks) + end_marker() + rest,
            first,
            target,
            h,
            subsidy,
        ) == Ok::<(Seq<BlockModel>, nat), Error>(
            (block_models(blocks), blocks_content(blocks).len() + 4),
        ),
{
    let after = end_marker() + rest;
    assert(blocks_content(blocks) + end_marker() + rest =~= blocks_content(blocks) + after);
    assert(at_end_marker(after));
    lemma_decode_chain_past(blocks, first, target, h, subsidy, after);
    lemma_chain_step(
        after,
        expected_back(blocks, first, blocks.len() as int),
        target,
        replay_from(h, blocks, subsidy).unwrap(),
        subsidy,
    );
    assert(block_models(blocks) + Seq::<BlockModel>::empty() =~= block_models(blocks));
}

/// A block that does not link to the one before it stops the reader with
/// a wrong back hash, wherever in the stream it stands: the blocks before
/// it are not handed back.
pub proof fn lemma_chain_wrong_link(
    blocks: Seq<Block>,
    bad: Block,
    first: Seq<u8>,
    target: Seq<u8>,
    h: Holdings,
    subsidy: int,
    rest: Seq<u8>,
)
    requires
        all_sound(blocks, first, target),
        replay_from(h, blocks, subsidy) is Ok,
        bad.wf(),
        bad.fault() is None,
        bad.spec_back_hash()@ != expected_back(blocks, first, blocks.len() as int),
    ensures
        decode_chain(blocks_content(blocks) + bad.encoding() + rest, first, target, h, subsidy)
            == Err::<(Seq<BlockModel>, nat), Error>(
            Error::Consensus(ConsensusError::WrongBackHash),
        ),
{
    let after = bad.encoding() + rest;
    assert(blocks_content(blocks) + bad.encoding() + rest =~= blocks_content(blocks) + after);
    lemma_decode_chain_past(blocks, first, target, h, subsidy, after);
    lemma_chain_block(
        bad,
        expected_back(blocks, first, blocks.len() as int),
        target,
        replay_from(h, blocks, subsidy).unwrap(),
        subsidy,
        rest,
    );
    reveal(link_fault);
}

/// A block that links and shows its work, but cannot be booked on what
/// the blocks before it left, stops the reader with the error of the
/// booking, wherever in the stream it stands: a spend of what is not
/// held, a signature that does not hold.
pub proof fn lemma_chain_unbooked(
    blocks: Seq<Block>,
    bad: Block,
    first: Seq<u8>,
    target: Seq<u8>,
    h: Holdings,
    subsidy: int,
    rest: Seq<u8>,
)
    requires
        all_sound(blocks, first, target),
        replay_from(h, blocks, subsidy) is Ok,
        sound(bad, expected_back(blocks, first, blocks.len() as int), target),
        book_block(replay_from(h, blocks, subsidy).unwrap(), bad, subsidy) is Err,
    ensures
        decode_chain(blocks_content(blocks) + bad.encoding() + rest, first, target, h, subsidy)
            matches Err(e) && book_block(replay_from(h, blocks, subsidy).unwrap(), bad, subsidy)
            == Err::<Holdings, Error>(e),
{
    let after = bad.encoding() + rest;
    assert(blocks_content(blocks) + bad.encoding() + rest =~= blocks_content(blocks) + after);
    lemma_decode_chain_past(blocks, first, target, h, subsidy, after);
    reveal(sound);
    assert(bad.fault() is None) by {
        reveal(link_fault);
    }
    lemma_chain_block(
        bad,
        expected_back(blocks, first, blocks.len() as int),
        target,
        replay_from(h, blocks, subsidy).unwrap(),
        subsidy,
        rest,
    );
}

/// What holds of the blocks that a reader has read so far: each is
/// well-formed, links to the one before it and meets `target`.
#[verifier::opaque]
pub open spec fn read_so_far(blocks: Seq<Block>, target: Seq<u8>) -> bool {
    chain_well_formed(blocks, target) && chained(blocks, target)
}

/// Nothing read is read well.
pub proof fn lemma_read_none(target: Seq<u8>)
    ensures
        read_so_far(Seq::<Block>::empty(), target),
{
    reveal(read_so_far);
}

/// One more block that is well-formed, links to the last and meets
/// `target` is read well.
pub proof fn lemma_read_more(before: Seq<Block>, block: Block, target: Seq<u8>)
    requires
        read_so_far(before, target),
        block.wf(),
        block.spec_back_hash()@ == head(before),
        be_nat(block.spec_hash()) < be_nat(target),
    ensures
        read_so_far(before.push(block), target),
{
    reveal(read_so_far);
    let after = before.push(block);
    assert forall|k: int| 0 <= k < after.len() implies (#[trigger] after[k]).wf() by {
        if k < before.len() {
            assert(after[k] == before[k]);
        }
    }
    assert forall|k: int| 0 <= k < after.len() implies (
    #[trigger] after[k]).spec_back_hash()@ == expected_back(after, genesis_back(), k) && be_nat(
        after[k].spec_hash(),
    ) < be_nat(target) by {
        if k < before.len() {
            assert(after[k] == before[k]);
            if k > 0 {
                assert(after[k - 1] == before[k - 1]);
            }
        } else if k > 0 {
            assert(after[k - 1] == before.last());
        }
    }
}

/// What holds of the blocks that a scan has found so far: each is
/// well-formed, and is flagged where it meets `target`.
#[verifier::opaque]
pub open spec fn scanned_so_far(blocks: Seq<Block>, worked: Seq<bool>, target: Seq<u8>) -> bool {
    chain_well_formed(blocks, target) && work_shown(blocks, worked, target)
}

/// One more block that is well-formed and flagged where it meets `target`
/// is scanned well.
pub proof fn lemma_scanned_more(
    before: Seq<Block>,
    flags: Seq<bool>,
    block: Block,
    work: bool,
    target: Seq<u8>,
)
    requires
        scanned_so_far(before, flags, target),
        block.wf(),
        work == (be_nat(block.spec_hash()) < be_nat(target)),
    ensures
        scanned_so_far(before.push(block), flags.push(work), target),
{
    reveal(scanned_so_far);
    let after = before.push(block);
    let marks = flags.push(work);
    assert forall|k: int| 0 <= k < after.len() implies (#[trigger] after[k]).wf() by {
        if k < before.len() {
            assert(after[k] == before[k]);
        }
    }
    assert forall|k: int| 0 <= k < after.len() implies marks[k] == (be_nat(
        (#[trigger] after[k]).spec_hash(),
    ) < be_nat(target)) by {
        if k < before.len() {
            assert(after[k] == before[k]);
            assert(marks[k] == flags[k]);
        }
    }
}

/// Blocks that stand for the same have the same encodings and hashes, and
/// the same fault if any.
pub proof fn lemma_block_models_determine(a: Seq<Block>, b: Seq<Block>, target: Seq<u8>)
    requires
        block_models(a) == block_models(b),
    ensures
        a.len() == b.len(),
        blocks_content(a) == blocks_content(b),
        head(a) == head(b),
        chain_fault(a, target) == chain_fault(b, target),
    decreases a.len(),
{
    assert(block_models(a).len() == a.len());
    assert(block_models(b).len() == b.len());
    if a.len() > 0 {
        assert(block_models(a.drop_last()) =~= block_models(a).drop_last());
        assert(block_models(b.drop_last()) =~= block_models(b).drop_last());
        lemma_block_models_determine(a.drop_last(), b.drop_last(), target);
        assert(a.last().model() == block_models(a).last());
        assert(b.last().model() == block_models(b).last());
        a.last().lemma_fault_of_model(&b.last());
        reveal(link_fault);
    }
}

impl Blockchain {
    /// A chain of `blocks`, with no user booked yet.
    pub fn new(blocks: Vec<Block>) -> (r: Blockchain)
        ensures
            r.spec_blocks() == blocks@,
            r.spec_users().wf(),
            r.spec_users().users().len() == 0,
    {
        Blockchain { users: Ledger::new(), blocks }
    }

    /// The blocks of the chain, in order.
    pub closed spec fn spec_blocks(&self) -> Seq<Block> {
        self.blocks@
    }

    /// What the keys of the chain hold, as last booked.
    pub closed spec fn spec_users(&self) -> Ledger {
        self.users
    }

    /// The blocks of the chain.
    pub fn blocks(&self) -> (r: &Vec<Block>)
        ensures
            r@ == self.spec_blocks(),
    {
        &self.blocks
    }

    /// The number of blocks.
    pub fn count_blocks(&self) -> (r: usize)
        ensures
            r == self.spec_blocks().len(),
    {
        self.blocks.len()
    }

    /// What the keys of the chain hold, as last booked.
    pub fn users(&self) -> (r: &Ledger)
        ensures
            *r == self.spec_users(),
    {
        &self.users
    }

    /// Books the whole chain anew, from a ledger in which nobody holds
    /// anything. Where the chain cannot be booked, the ledger is as it was.
    pub fn reload_users(&mut self, subsidy: u32) -> (r: Result<(), Error>)
        ensures
            final(self).spec_blocks() == old(self).spec_blocks(),
            match replay(old(self).spec_blocks(), subsidy as int) {
                Err(e) => r == Err::<(), Error>(e) && final(self).spec_users() == old(
                    self,
                ).spec_users(),
                Ok(h) => {
                    &&& r is Ok
                    &&& final(self).spec_users().wf()
                    &&& final(self).spec_users()@ == h
                    &&& total(final(self).spec_users().users()) == old(self).spec_blocks().len()
                        * subsidy
                },
            },
    {
        let ledger = Ledger::replay(&self.blocks, subsidy)?;
        self.users = ledger;
        Ok(())
    }

    /// The hash that the next block must link to: that of the last block,
    /// or the zero hash where there is none.
    pub fn head_hash(&self) -> (r: Result<BlockHash, Error>)
        ensures
            match Blockchain::head_fault(self.spec_blocks()) {
                Some(e) => r == Err::<BlockHash, Error>(e),
                None => r matches Ok(h) && h@ == head(self.spec_blocks()),
            },
    {
        if self.blocks.len() == 0 {
            Ok(BlockHash::genesis())
        } else {
            self.blocks[self.blocks.len() - 1].hash()
        }
    }

    /// Why the last block of a chain cannot be hashed, if it cannot.
    pub open spec fn head_fault(blocks: Seq<Block>) -> Option<Error> {
        if blocks.len() > 0 {
            blocks.last().fault()
        } else {
            None
        }
    }

    /// Why `block` cannot be appended to a chain of `blocks`, if it cannot:
    /// the last block has no encoding to be hashed, or `block` cannot
    /// follow it.
    pub open spec fn append_fault(blocks: Seq<Block>, block: Block, target: Seq<u8>) -> Option<
        Error,
    > {
        if blocks.len() > 0 && blocks.last().fault() is Some {
            blocks.last().fault()
        } else {
            link_fault(block, head(blocks), target)
        }
    }

    /// Appends `block` where it links to the last block, has an encoding,
    /// meets `target` and can be booked on the ledger; its finder is
    /// credited with its fees and with `subsidy`. Where it cannot be
    /// appended, chain and ledger are as they were.
    pub fn add_block(&mut self, block: Block, subsidy: u32, target: &[u8; 32]) -> (r: Result<
        (),
        Error,
    >)
        requires
            old(self).spec_users().wf(),
        ensures
            final(self).spec_users().wf(),
            match Blockchain::append_fault(old(self).spec_blocks(), block, target@) {
                Some(e) => {
                    &&& r == Err::<(), Error>(e)
                    &&& final(self).spec_blocks() == old(self).spec_blocks()
                    &&& final(self).spec_users() == old(self).spec_users()
                },
                None => match book_block(old(self).spec_users()@, block, subsidy as int) {
                    Err(e) => {
                        &&& r == Err::<(), Error>(e)
                        &&& final(self).spec_blocks() == old(self).spec_blocks()
                        &&& final(self).spec_users().users() == old(self).spec_users().users()
                    },
                    Ok(h) => {
                        &&& r is Ok
                        &&& final(self).spec_blocks() == old(self).spec_blocks().push(block)
                        &&& final(self).spec_users()@ == h
                        &&& total(final(self).spec_users().users()) == total(
                            old(self).spec_users().users(),
                        ) + subsidy
                    },
                },
            },
    {
        proof {
            reveal(link_fault);
        }
        let expected = if self.blocks.len() == 0 {
            BlockHash::genesis()
        } else {
            self.blocks[self.blocks.len() - 1].hash()?
        };
        if !block.back_hash().same(&expected) {
            return Err(Error::Consensus(ConsensusError::WrongBackHash));
        }
        let hash = block.hash()?;
        if !hash.meets_target(target) {
            return Err(Error::Consensus(ConsensusError::InsufficientWork));
        }
        self.users.apply_block(&block, subsidy)?;
        self.blocks.push(block);
        Ok(())
    }

    /// The balance of `pk` at the end of the chain, where each block credits
    /// its finder with the fees of its transfers and with `subsidy`.
    pub fn get_user_value_change(&self, pk: &PublicKey, subsidy: u32) -> (r: Result<i128, Error>)
        ensures
            match chain_balance(self.spec_blocks(), pk@, subsidy as int) {
                Ok(v) => r == Ok::<i128, Error>(v as i128),
                Err(e) => r == Err::<i128, Error>(e),
            },
    {
        let mut total: i128 = 0;
        let mut j: usize = 0;
        assert(self.blocks@.take(0) =~= Seq::empty());
        while j < self.blocks.len()
            invariant
                j <= self.blocks.len(),
                chain_balance(self.blocks@.take(j as int), pk@, subsidy as int) == Ok::<
                    int,
                    Error,
                >(total as int),
            decreases self.blocks.len() - j,
        {
            let ghost prefix = self.blocks@.take(j + 1);
            assert(prefix.drop_last() =~= self.blocks@.take(j as int));
            let change = match self.blocks[j].get_user_balance_change(pk, subsidy) {
                Ok(change) => change,
                Err(e) => {
                    proof {
                        lemma_chain_balance_prefix(self.blocks@, pk@, subsidy as int, j + 1);
                    }
                    return Err(e);
                },
            };
            total = match total.checked_add(change) {
                Some(sum) => sum,
                None => {
                    proof {
                        lemma_chain_balance_prefix(self.blocks@, pk@, subsidy as int, j + 1);
                    }
                    return Err(Error::Codec(CodecError::OutOfRange));
                },
            };
            j += 1;
        }
        assert(self.blocks@.take(j as int) =~= self.blocks@);
        Ok(total)
    }

    /// The transfers of the chain with the blocks that hold them, as
    /// bytes, where every block has an encoding.
    pub fn on_chain_transactions_to_bytes(&self) -> (r: Result<Vec<u8>, Error>)
        ensures
            match first_block_fault(self.spec_blocks()) {
                Some(e) => r == Err::<Vec<u8>, Error>(e),
                None => r matches Ok(bytes) && bytes@ == on_chain_content(self.spec_blocks()),
            },
    {
        let mut out: Vec<u8> = Vec::new();
        let mut j: usize = 0;
        assert(self.blocks@.take(0) =~= Seq::empty());
        while j < self.blocks.len()
            invariant
                j <= self.blocks.len(),
                first_block_fault(self.blocks@.take(j as int)) is None,
                out@ == on_chain_content(self.blocks@.take(j as int)),
            decreases self.blocks.len() - j,
        {
            let ghost prefix = self.blocks@.take(j + 1);
            assert(prefix.drop_last() =~= self.blocks@.take(j as int));
            let hash = match self.blocks[j].hash() {
                Ok(hash) => hash,
                Err(e) => {
                    proof {
                        lemma_first_block_fault_prefix(self.blocks@, j + 1);
                    }
                    return Err(e);
                },
            };
            let groups = match crate::block::groups_to_bytes(self.blocks[j].transaction_blocks()) {
                Ok(groups) => groups,
                Err(e) => {
                    return Err(e);
                },
            };
            append_bytes(&mut out, &hash.hash());
            append_bytes(&mut out, groups.as_slice());
            out.push(MAGIC_HIGH);
            out.push(MAGIC_LOW);
            assert(out@ =~= on_chain_content(prefix));
            j += 1;
        }
        assert(self.blocks@.take(j as int) =~= self.blocks@);
        Ok(out)
    }

    /// The encodings of the blocks, closed by the end marker, where every
    /// block links to the one before, has an encoding and meets `target`.
    pub fn to_bytes_with_target(&self, target: &[u8; 32]) -> (r: Result<Vec<u8>, Error>)
        ensures
            match chain_fault(self.spec_blocks(), target@) {
                Some(e) => r == Err::<Vec<u8>, Error>(e),
                None => r matches Ok(bytes) && bytes@ == blocks_content(self.spec_blocks())
                    + end_marker(),
            },
    {
        let mut out: Vec<u8> = Vec::new();
        let mut expected = BlockHash::genesis();
        let mut j: usize = 0;
        assert(self.blocks@.take(0) =~= Seq::empty());
        while j < self.blocks.len()
            invariant
                j <= self.blocks.len(),
                chain_fault(self.blocks@.take(j as int), target@) is None,
                out@ == blocks_content(self.blocks@.take(j as int)),
                expected@ == head(self.blocks@.take(j as int)),
            decreases self.blocks.len() - j,
        {
            let ghost prefix = self.blocks@.take(j + 1);
            assert(prefix.drop_last() =~= self.blocks@.take(j as int));
            proof {
                reveal(link_fault);
            }
            let block = &self.blocks[j];
            if !block.back_hash().same(&expected) {
                proof {
                    lemma_chain_fault_prefix(self.blocks@, target@, j + 1);
                }
                return Err(Error::Consensus(ConsensusError::WrongBackHash));
            }
            let part = match block.to_bytes() {
                Ok(part) => part,
                Err(e) => {
                    proof {
                        lemma_chain_fault_prefix(self.blocks@, target@, j + 1);
                    }
                    return Err(e);
                },
            };
            let hash = BlockHash::of(part.as_slice());
            if !hash.meets_target(target) {
                proof {
                    lemma_chain_fault_prefix(self.blocks@, target@, j + 1);
                }
                return Err(Error::Consensus(ConsensusError::InsufficientWork));
            }
            expected = hash;
            append_bytes(&mut out, part.as_slice());
            j += 1;
        }
        assert(self.blocks@.take(j as int) =~= self.blocks@);
        let ghost body = out@;
        out.push(END_MARKER_BYTE);
        out.push(END_MARKER_BYTE);
        out.push(END_MARKER_BYTE);
        out.push(END_MARKER_BYTE);
        assert(out@ =~= body + end_marker());
        Ok(out)
    }

    /// The encoding, where the chain has one.
    pub fn to_bytes(&self) -> (r: Result<Vec<u8>, Error>)
        ensures
            match chain_fault(self.spec_blocks(), default_target()) {
                Some(e) => r == Err::<Vec<u8>, Error>(e),
                None => r matches Ok(bytes) && bytes@ == self.encoding(),
            },
    {
        let target = default_target_bytes();
        self.to_bytes_with_target(&target)
    }

    /// Reads a chain at `*i`, up to the end of the data or past the end
    /// marker. Each block must link to the one before it, meet `target`,
    /// and be booked on the ledger that the blocks before it left, with
    /// `subsidy` to its finder. The chain comes with that ledger. On
    /// failure `*i` stays.
    pub fn from_serialized_with_target(
        data: &[u8],
        i: &mut usize,
        target: &[u8; 32],
        subsidy: u32,
    ) -> (r: Result<Blockchain, Error>)
        ensures
            *old(i) > data@.len() ==> r == Err::<Blockchain, Error>(
                Error::Codec(CodecError::Truncated),
            ),
            *old(i) <= data@.len() ==> match decode_chain(
                data@.skip(*old(i) as int),
                genesis_back(),
                target@,
                no_holdings(),
                subsidy as int,
            ) {
                Ok((m, n)) => r matches Ok(v) && v.model() == m && *final(i) == *old(i) + n
                    && chain_well_formed(v.spec_blocks(), target@),
                Err(e) => r == Err::<Blockchain, Error>(e),
            },
            r is Ok ==> *old(i) <= *final(i) <= data@.len(),
            r is Err ==> *final(i) == *old(i),
            r matches Ok(v) ==> {
                &&& v.spec_users().wf()
                &&& replay(v.spec_blocks(), subsidy as int) == Ok::<Holdings, Error>(
                    v.spec_users()@,
                )
                &&& total(v.spec_users().users()) == v.spec_blocks().len() * subsidy
            },
            r matches Ok(v) ==> chained(v.spec_blocks(), target@),
    {
        let start = *i;
        if start > data.len() {
            return Err(Error::Codec(CodecError::Truncated));
        }
        let ghost s0 = data@.skip(start as int);
        let mut blocks: Vec<Block> = Vec::new();
        let mut users = Ledger::new();
        let mut expected = BlockHash::genesis();
        assert(block_models(blocks@) =~= Seq::empty());
        proof {
            lemma_read_none(target@);
            crate::ledger::lemma_no_users(users.users());
        }
        loop
            invariant_except_break
                decode_chain(s0, genesis_back(), target@, no_holdings(), subsidy as int)
                    == prepend(
                    block_models(blocks@),
                    (*i - start) as nat,
                    decode_chain(
                        data@.skip(*i as int),
                        expected@,
                        target@,
                        users@,
                        subsidy as int,
                    ),
                ),
            invariant
                start <= *i <= data@.len(),
                start == *old(i),
                s0 == data@.skip(start as int),
                read_so_far(blocks@, target@),
                expected@ == head(blocks@),
                users.wf(),
                replay(blocks@, subsidy as int) == Ok::<Holdings, Error>(users@),
                total(users.users()) == blocks@.len() * subsidy,
            ensures
                decode_chain(s0, genesis_back(), target@, no_holdings(), subsidy as int) == Ok::<
                    (Seq<BlockModel>, nat),
                    Error,
                >((block_models(blocks@), (*i - start) as nat)),
            decreases data@.len() - *i,
        {
            let at = *i;
            let ghost before = blocks@;
            let ghost held = users@;
            let ghost here = data@.skip(at as int);
            proof {
                lemma_chain_step(here, expected@, target@, held, subsidy as int);
            }
            if *i == data.len() {
                proof {
                    assert(block_models(blocks@) + Seq::empty() =~= block_models(blocks@));
                }
                break ;
            }
            if is_end_marker(data, *i) {
                *i += 4;
                proof {
                    assert(block_models(blocks@) + Seq::empty() =~= block_models(blocks@));
                }
                break ;
            }
            let block = match Block::from_serialized(data, i) {
                Ok(block) => block,
                Err(e) => {
                    *i = start;
                    return Err(e);
                },
            };
            proof {
                lemma_block_takes(here);
                block.lemma_exact(here);
                lemma_book_block_model(held, block, subsidy as int);
                assert(here.subrange(0, *i - at) =~= data@.subrange(at as int, *i as int));
                assert(here.skip(*i - at) =~= data@.skip(*i as int));
            }
            if !block.back_hash().same(&expected) {
                *i = start;
                return Err(Error::Consensus(ConsensusError::WrongBackHash));
            }
            let hash = BlockHash::of(slice_subrange(data, at, *i));
            if !hash.meets_target(target) {
                *i = start;
                return Err(Error::Consensus(ConsensusError::InsufficientWork));
            }
            match users.apply_block(&block, subsidy) {
                Ok(_) => {},
                Err(e) => {
                    *i = start;
                    return Err(e);
                },
            }
            expected = hash;
            blocks.push(block);
            proof {
                assert(block_models(blocks@) =~= block_models(before) + seq![block.model()]);
                assert(blocks@.drop_last() =~= before);
                lemma_prepend_twice(
                    block_models(before),
                    (at - start) as nat,
                    seq![block.model()],
                    (*i - at) as nat,
                    decode_chain(
                        data@.skip(*i as int),
                        expected@,
                        target@,
                        users@,
                        subsidy as int,
                    ),
                );
                lemma_read_more(before, block, target@);
                assert((before.len() + 1) * subsidy == before.len() * subsidy + subsidy)
                    by (nonlinear_arith);
            }
        }
        proof {
            reveal(read_so_far);
        }
        let chain = Blockchain { users, blocks };
        assert(chain.model() == block_models(blocks@));
        Ok(chain)
    }
}

/// Every block of a chain that was read is well-formed.
pub open spec fn chain_well_formed(blocks: Seq<Block>, target: Seq<u8>) -> bool {
    forall|k: int| 0 <= k < blocks.len() ==> (#[trigger] blocks[k]).wf()
}

/// Every block links to the hash of the one before it, the first to the
/// zero hash, and has a hash below `target`.
pub open spec fn chained(blocks: Seq<Block>, target: Seq<u8>) -> bool {
    forall|k: int|
        0 <= k < blocks.len() ==> (#[trigger] blocks[k]).spec_back_hash()@ == expected_back(
            blocks,
            genesis_back(),
            k,
        ) && be_nat(blocks[k].spec_hash()) < be_nat(target)
}

/// The blocks of a scan show their work where their hashes are below
/// `target`.
pub open spec fn work_shown(blocks: Seq<Block>, worked: Seq<bool>, target: Seq<u8>) -> bool {
    &&& worked.len() == blocks.len()
    &&& forall|k: int|
        0 <= k < blocks.len() ==> worked[k] == (be_nat((#[trigger] blocks[k]).spec_hash())
            < be_nat(target))
}

/// Whether the end marker stands at position `at` of `data`.
pub fn is_end_marker(data: &[u8], at: usize) -> (r: bool)
    requires
        at <= data@.len(),
    ensures
        r == at_end_marker(data@.skip(at as int)),
{
    has_room(data.len(), at, 4) && data[at] == END_MARKER_BYTE && data[at + 1] == END_MARKER_BYTE
        && data[at + 2] == END_MARKER_BYTE && data[at + 3] == END_MARKER_BYTE
}

impl Serialize for Blockchain {
    type Model = Seq<BlockModel>;

    open spec fn model(&self) -> Seq<BlockModel> {
        block_models(self.spec_blocks())
    }

    /// Every block is well-formed, and the chain can be booked from nothing
    /// with the default subsidy.
    open spec fn wf(&self) -> bool {
        chain_well_formed(self.spec_blocks(), default_target()) && replay(
            self.spec_blocks(),
            DEFAULT_BLOCK_SUBSIDY as int,
        ) is Ok
    }

    /// Every block has an encoding, links to the hash of the one before, the
    /// first to the zero hash, and meets the default target.
    open spec fn encodable(&self) -> bool {
        chain_fault(self.spec_blocks(), default_target()) is None
    }

    /// The encodings of the blocks, closed by the end marker.
    open spec fn encoding(&self) -> Seq<u8> {
        blocks_content(self.spec_blocks()) + end_marker()
    }

    /// Reads blocks from the zero hash on, against the default target, and
    /// books them from nothing with the default subsidy.
    open spec fn decoding(data: Seq<u8>) -> Result<(Seq<BlockModel>, nat), Error> {
        decode_chain(
            data,
            genesis_back(),
            default_target(),
            no_holdings(),
            DEFAULT_BLOCK_SUBSIDY as int,
        )
    }

    proof fn lemma_round_trip(&self, rest: Seq<u8>) {
        let blocks = self.spec_blocks();
        assert forall|k: int| 0 <= k < blocks.len() implies sound(
            #[trigger] blocks[k],
            expected_back(blocks, genesis_back(), k),
            default_target(),
        ) by {
            lemma_chain_without_fault(blocks, default_target(), k);
            reveal(sound);
        }
        lemma_replay_is_from(blocks, DEFAULT_BLOCK_SUBSIDY as int);
        lemma_decode_chain(
            blocks,
            genesis_back(),
            default_target(),
            no_holdings(),
            DEFAULT_BLOCK_SUBSIDY as int,
            rest,
        );
    }

    proof fn lemma_model_determines(&self, other: &Self) {
        lemma_block_models_determine(self.spec_blocks(), other.spec_blocks(), default_target());
    }

    fn from_serialized(data: &[u8], i: &mut usize) -> (r: Result<Blockchain, Error>)
        ensures
            r matches Ok(v) ==> {
                &&& v.spec_users().wf()
                &&& replay(v.spec_blocks(), DEFAULT_BLOCK_SUBSIDY as int) == Ok::<
                    Holdings,
                    Error,
                >(v.spec_users()@)
                &&& total(v.spec_users().users()) == v.spec_blocks().len()
                    * DEFAULT_BLOCK_SUBSIDY
            },
            r matches Ok(v) ==> chained(v.spec_blocks(), default_target()),
    {
        let target = default_target_bytes();
        let ghost expected = Blockchain::decoding(data@.skip(*i as int));
        let r = Blockchain::from_serialized_with_target(data, i, &target, DEFAULT_BLOCK_SUBSIDY);
        assert(r matches Ok(chain) ==> chain.wf() && expected is Ok);
        r
    }

    fn serialize_into(&self, buffer: &mut [u8], i: &mut usize) -> (r: Result<usize, Error>)
        ensures
            r matches Err(e) ==> e == match chain_fault(self.spec_blocks(), default_target()) {
                Some(f) => f,
                None => Error::Codec(CodecError::Truncated),
            },
    {
        assert(self.encodable() == (chain_fault(self.spec_blocks(), default_target()) is None));
        let bytes = self.to_bytes()?;
        assert(bytes@ == self.encoding());
        place(buffer, i, bytes.as_slice())
    }

    fn serialized_len(&self) -> (n: usize) {
        let mut total: usize = 0;
        let mut j: usize = 0;
        assert(self.blocks@.take(0) =~= Seq::empty());
        while j < self.blocks.len()
            invariant
                j <= self.blocks.len(),
                total == blocks_content(self.blocks@.take(j as int)).len(),
                self.encoding().len() <= usize::MAX,
            decreases self.blocks.len() - j,
        {
            let ghost prefix = self.blocks@.take(j + 1);
            assert(prefix.drop_last() =~= self.blocks@.take(j as int));
            proof {
                lemma_blocks_content_prefix(self.blocks@, j + 1);
            }
            total = total + self.blocks[j].serialized_len();
            j += 1;
        }
        assert(self.blocks@.take(j as int) =~= self.blocks@);
        total + END_MARKER_SIZE
    }
}

/// Makes a block of a stream ready to follow a block with hash `expected`:
/// a block that shows its work and links to `expected` stays as it is; any
/// other is linked to `expected` and must be mined again. Says whether it
/// must.
pub fn relink(block: &mut Block, worked: bool, expected: BlockHash) -> (mine: bool)
    ensures
        mine == !(worked && old(block).spec_back_hash()@ == expected@),
        final(block).spec_back_hash()@ == expected@,
        !mine ==> final(block).spec_back_hash() == old(block).spec_back_hash(),
        final(block).groups() == old(block).groups(),
        final(block).spec_uid() == old(block).spec_uid(),
        final(block).spec_finder() == old(block).spec_finder(),
        final(block).spec_magic() == old(block).spec_magic(),
{
    if worked && block.back_hash().same(&expected) {
        return false;
    }
    block.set_back_hash(expected);
    true
}

/// What a scan of a stream of blocks finds: the blocks up to the end
/// marker, the end of the data or the first bytes that are no block,
/// whether each shows its work, where the scan ended and why, if it ended
/// on bytes that are no block.
#[derive(Clone, Debug, PartialEq, Eq)]
pub struct StreamScan {
    pub blocks: Vec<Block>,
    pub worked: Vec<bool>,
    pub end: usize,
    pub fault: Option<Error>,
}

/// What a scan finds, as values.
pub ghost struct ScanModel {
    pub blocks: Seq<BlockModel>,
    pub worked: Seq<bool>,
    pub end: nat,
    pub fault: Option<Error>,
}

/// A scan that found `block`, `taken` bytes long and with or without its
/// work, and then what `tail` found.
pub open spec fn scan_after(block: BlockModel, taken: nat, work: bool, tail: ScanModel) -> ScanModel {
    ScanModel {
        blocks: seq![block] + tail.blocks,
        worked: seq![work] + tail.worked,
        end: taken + tail.end,
        fault: tail.fault,
    }
}

/// Scans blocks from the front of `data`: it stops before the end marker,
/// at the end of the data, or at the first bytes that are no block.
#[verifier::opaque]
pub open spec fn scan(data: Seq<u8>, target: Seq<u8>) -> ScanModel
    decreases data.len(),
    via scan_decreases
{
    if data.len() == 0 || at_end_marker(data) {
        ScanModel { blocks: Seq::empty(), worked: Seq::empty(), end: 0, fault: None }
    } else {
        match Block::decoding(data) {
            Err(e) => ScanModel {
                blocks: Seq::empty(),
                worked: Seq::empty(),
                end: 0,
                fault: Some(e),
            },
            Ok((block, n)) => scan_after(
                block,
                n,
                be_nat(sha3_256(data.subrange(0, n as int))) < be_nat(target),
                scan(data.skip(n as int), target),
            ),
        }
    }
}

#[via_fn]
proof fn scan_decreases(data: Seq<u8>, target: Seq<u8>) {
    lemma_block_takes(data);
}

/// What a scan comes to, one step at a time.
pub proof fn lemma_scan_step(data: Seq<u8>, target: Seq<u8>)
    ensures
        scan(data, target) == if data.len() == 0 || at_end_marker(data) {
            ScanModel { blocks: Seq::empty(), worked: Seq::empty(), end: 0, fault: None }
        } else {
            match Block::decoding(data) {
                Err(e) => ScanModel {
                    blocks: Seq::empty(),
                    worked: Seq::empty(),
                    end: 0,
                    fault: Some(e),
                },
                Ok((block, n)) => scan_after(
                    block,
                    n,
                    be_nat(sha3_256(data.subrange(0, n as int))) < be_nat(target),
                    scan(data.skip(n as int), target),
                ),
            }
        },
{
    reveal(scan);
}

/// The scan that found `blocks` and `worked` in `taken` bytes, and then
/// what `tail` found.
pub open spec fn scan_join(blocks: Seq<BlockModel>, worked: Seq<bool>, taken: nat, tail: ScanModel) -> ScanModel {
    ScanModel {
        blocks: blocks + tail.blocks,
        worked: worked + tail.worked,
        end: taken + tail.end,
        fault: tail.fault,
    }
}

/// Scans the blocks of `data`, holding the hash of each to `target`.
pub fn scan_stream(data: &[u8], target: &[u8; 32]) -> (r: StreamScan)
    ensures
        scan(data@, target@) == (ScanModel {
            blocks: block_models(r.blocks@),
            worked: r.worked@,
            end: r.end as nat,
            fault: r.fault,
        }),
        r.end <= data@.len(),
        chain_well_formed(r.blocks@, target@),
        work_shown(r.blocks@, r.worked@, target@),
{
    let mut blocks: Vec<Block> = Vec::new();
    let mut worked: Vec<bool> = Vec::new();
    let mut i: usize = 0;
    let mut fault: Option<Error> = None;
    assert(block_models(blocks@) =~= Seq::empty());
    assert(data@.skip(0) =~= data@);
    proof {
        reveal(scanned_so_far);
    }
    loop
        invariant_except_break
            scan(data@, target@) == scan_join(
                block_models(blocks@),
                worked@,
                i as nat,
                scan(data@.skip(i as int), target@),
            ),
            fault is None,
        invariant
            i <= data@.len(),
            scanned_so_far(blocks@, worked@, target@),
        ensures
            scan(data@, target@) == (ScanModel {
                blocks: block_models(blocks@),
                worked: worked@,
                end: i as nat,
                fault,
            }),
        decreases data@.len() - i,
    {
        let at = i;
        let ghost before = blocks@;
        let ghost flags = worked@;
        let ghost here = data@.skip(at as int);
        proof {
            lemma_scan_step(here, target@);
            lemma_block_takes(here);
            assert(block_models(blocks@) + Seq::empty() =~= block_models(blocks@));
            assert(worked@ + Seq::empty() =~= worked@);
        }
        if i == data.len() || is_end_marker(data, i) {
            break ;
        }
        let block = match Block::from_serialized(data, &mut i) {
            Ok(block) => block,
            Err(e) => {
                fault = Some(e);
                break ;
            },
        };
        proof {
            block.lemma_exact(here);
            assert(here.subrange(0, i - at) =~= data@.subrange(at as int, i as int));
            assert(here.skip(i - at) =~= data@.skip(i as int));
        }
        let work = BlockHash::of(slice_subrange(data, at, i)).meets_target(target);
        blocks.push(block);
        worked.push(work);
        proof {
            assert(block_models(blocks@) =~= block_models(before) + seq![block.model()]);
            assert(worked@ =~= flags + seq![work]);
            let tail = scan(data@.skip(i as int), target@);
            assert(block_models(before) + (seq![block.model()] + tail.blocks) =~= block_models(
                blocks@,
            ) + tail.blocks);
            assert(flags + (seq![work] + tail.worked) =~= worked@ + tail.worked);
            lemma_scanned_more(before, flags, block, work, target@);
        }
    }
    proof {
        reveal(scanned_so_far);
    }
    StreamScan { blocks, worked, end: i, fault }
}

/// Booked groups change each balance by the sum of what their transfers
/// change in it.
pub proof fn lemma_groups_change(h: Holdings, groups: Seq<TransactionBlock>, key: Seq<u8>)
    requires
        bounded(h),
        book_groups(h, groups) is Ok,
    ensures
        groups_change(groups, key) == Ok::<int, Error>(
            book_groups(h, groups).unwrap().dust[key] - h.dust[key],
        ),
        bounded(book_groups(h, groups).unwrap()),
    decreases groups.len(),
{
    if groups.len() > 0 {
        let before = book_groups(h, groups.drop_last()).unwrap();
        lemma_groups_change(h, groups.drop_last(), key);
        lemma_book_all_change(before, groups.last().transactions@, key);
        let after = book_groups(h, groups).unwrap();
        assert(h.dust[key] <= u32::MAX);
        assert(before.dust[key] <= u32::MAX);
        assert(after.dust[key] <= u32::MAX);
    }
}

/// The fees of booked groups, summed, are the fees of their transfers,
/// where 32 bits hold them.
pub proof fn lemma_groups_fees(h: Holdings, groups: Seq<TransactionBlock>)
    requires
        bounded(h),
        book_groups(h, groups) is Ok,
        all_fees(groups) <= u32::MAX,
    ensures
        groups_fees(groups) == Ok::<int, Error>(all_fees(groups)),
    decreases groups.len(),
{
    if groups.len() > 0 {
        let before = book_groups(h, groups.drop_last()).unwrap();
        lemma_all_fees(groups.drop_last());
        lemma_all_fees(groups);
        crate::transaction_block::lemma_fees_bound(groups.last().transactions@);
        lemma_groups_fees(h, groups.drop_last());
        lemma_groups_change(h, groups.drop_last(), Seq::empty());
        lemma_book_all_change(before, groups.last().transactions@, Seq::empty());
    }
}

/// A booked block changes each balance by what the block changes in it.
pub proof fn lemma_block_change(h: Holdings, block: Block, subsidy: int, key: Seq<u8>)
    requires
        bounded(h),
        0 <= subsidy,
        book_block(h, block, subsidy) is Ok,
    ensures
        block_change(block, key, subsidy) == Ok::<int, Error>(
            book_block(h, block, subsidy).unwrap().dust[key] - h.dust[key],
        ),
        bounded(book_block(h, block, subsidy).unwrap()),
{
    let groups = block.groups();
    let booked = book_groups(h, groups).unwrap();
    let after = book_block(h, block, subsidy).unwrap();
    let finder = block.spec_finder()@;
    lemma_groups_change(h, groups, key);
    lemma_all_fees(groups);
    assert(booked.dust[finder] <= u32::MAX);
    lemma_groups_fees(h, groups);
    assert(h.dust[key] <= u32::MAX);
    assert(booked.dust[key] <= u32::MAX);
    assert forall|other: Seq<u8>| #[trigger] after.dust[other] <= u32::MAX by {
        assert(booked.dust[other] <= u32::MAX);
    }
}

/// The balance that the transfers and rewards of a chain add up to is the
/// dust that the ledger holds for the key after it has booked the chain.
pub proof fn lemma_balance_is_booked(blocks: Seq<Block>, subsidy: int, key: Seq<u8>)
    requires
        0 <= subsidy,
        replay(blocks, subsidy) is Ok,
    ensures
        chain_balance(blocks, key, subsidy) == Ok::<int, Error>(
            replay(blocks, subsidy).unwrap().dust[key] as int,
        ),
        bounded(replay(blocks, subsidy).unwrap()),
    decreases blocks.len(),
{
    if blocks.len() > 0 {
        let before = replay(blocks.drop_last(), subsidy).unwrap();
        lemma_balance_is_booked(blocks.drop_last(), subsidy, key);
        lemma_block_change(before, blocks.last(), subsidy, key);
        let after = replay(blocks, subsidy).unwrap();
        assert(before.dust[key] <= u32::MAX);
        assert(after.dust[key] <= u32::MAX);
    }
}

} // verus!
