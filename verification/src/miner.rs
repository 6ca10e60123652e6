//! The search for a magic under which the hash of a block meets a target.
//! The candidates are numbered; a worker searches a range of numbers, and
//! the ranges of different workers and rounds do not meet.

use crate::block::{first_group_fault, Block};
use crate::block_hash::BlockHash;
use crate::crypto::{be_nat, sha3_256};
use crate::error::{Error, MinerError};
use crate::serialize::Serialize;
use vstd::prelude::*;

verus! {

/// Length of the magic that the miner writes.
pub const MAGIC_SIZE: usize = 8;

/// The candidate with number `n`: the eight bytes of `n`, most significant
/// first.
#[verifier::opaque]
pub open spec fn candidate(n: u64) -> Seq<u8> {
    seq![
        (n / 0x100_0000_0000_0000) as u8,
        (n / 0x1_0000_0000_0000 % 0x100) as u8,
        (n / 0x100_0000_0000 % 0x100) as u8,
        (n / 0x1_0000_0000 % 0x100) as u8,
        (n / 0x100_0000 % 0x100) as u8,
        (n / 0x1_0000 % 0x100) as u8,
        (n / 0x100 % 0x100) as u8,
        (n % 0x100) as u8,
    ]
}

/// A candidate is eight bytes.
pub proof fn lemma_candidate_len(n: u64)
    ensures
        candidate(n).len() == 8,
{
    reveal(candidate);
}

/// Whether the block, with candidate `n` as its magic, has a hash below
/// `target`.
pub open spec fn wins(block: Block, n: u64, target: Seq<u8>) -> bool {
    be_nat(sha3_256(block.encoding_with(candidate(n)))) < be_nat(target)
}

/// The first of the `count` candidates from `first` on that wins, if one
/// does. The numbers end with the largest that 64 bits hold.
pub open spec fn first_winner(block: Block, first: int, count: int, target: Seq<u8>) -> Option<u64>
    decreases count,
{
    if count <= 0 || first > u64::MAX {
        None
    } else if wins(block, first as u64, target) {
        Some(first as u64)
    } else {
        first_winner(block, first + 1, count - 1, target)
    }
}

/// The number of the first candidate of a worker's round: rounds follow
/// each other in blocks of `par_work` candidates for each of `workers`
/// workers. `None` where the numbers are used up.
pub open spec fn spec_round_start(worker: u64, workers: u64, round: u64, par_work: u64) -> Option<
    u64,
> {
    let start = (round * workers + worker) * par_work;
    if worker < workers && start + par_work <= u64::MAX {
        Some(start as u64)
    } else {
        None
    }
}

/// The number of the first candidate of a worker's round.
pub fn round_start(worker: u64, workers: u64, round: u64, par_work: u64) -> (r: Option<u64>)
    ensures
        r == spec_round_start(worker, workers, round, par_work),
{
    if worker >= workers {
        return None;
    }
    assert(round * workers <= 0xffff_ffff_ffff_ffff * 0xffff_ffff_ffff_ffff) by (nonlinear_arith)
        requires
            round <= 0xffff_ffff_ffff_ffff,
            workers <= 0xffff_ffff_ffff_ffff,
    ;
    let slot = round as u128 * workers as u128 + worker as u128;
    if par_work == 0 {
        assert(slot * par_work == 0) by (nonlinear_arith)
            requires
                par_work == 0,
        ;
        return Some(0);
    }
    if slot > u64::MAX as u128 {
        assert(slot * par_work + par_work > u64::MAX) by (nonlinear_arith)
            requires
                slot > u64::MAX,
                par_work >= 1,
        ;
        return None;
    }
    assert(slot * par_work <= 0xffff_ffff_ffff_ffff * 0xffff_ffff_ffff_ffff) by (nonlinear_arith)
        requires
            0 <= slot <= 0xffff_ffff_ffff_ffff,
            0 <= par_work <= 0xffff_ffff_ffff_ffff,
    ;
    let start = slot * par_work as u128;
    if start + par_work as u128 > u64::MAX as u128 {
        return None;
    }
    Some(start as u64)
}

/// The rounds of different workers, and different rounds of one worker, do
/// not meet: no candidate is searched twice.
pub proof fn lemma_rounds_disjoint(
    worker_a: u64,
    round_a: u64,
    worker_b: u64,
    round_b: u64,
    workers: u64,
    par_work: u64,
    n: u64,
)
    requires
        worker_a != worker_b || round_a != round_b,
        spec_round_start(worker_a, workers, round_a, par_work) matches Some(a) && a <= n < a
            + par_work,
    ensures
        !(spec_round_start(worker_b, workers, round_b, par_work) matches Some(b) && b <= n < b
            + par_work),
{
    let slot_a = round_a * workers + worker_a;
    let slot_b = round_b * workers + worker_b;
    if worker_b < workers {
        assert(slot_a != slot_b) by (nonlinear_arith)
            requires
                slot_a == round_a * workers + worker_a,
                slot_b == round_b * workers + worker_b,
                worker_a < workers,
                worker_b < workers,
                worker_a != worker_b || round_a != round_b,
        ;
        assert(slot_a * par_work + par_work <= slot_b * par_work || slot_b * par_work + par_work
            <= slot_a * par_work) by (nonlinear_arith)
            requires
                slot_a != slot_b,
                par_work >= 0,
        ;
    }
}

/// The eight bytes of candidate `n`.
pub fn candidate_magic(n: u64) -> (r: Vec<u8>)
    ensures
        r@ == candidate(n),
{
    let mut r: Vec<u8> = Vec::new();
    r.push((n / 0x100_0000_0000_0000) as u8);
    r.push((n / 0x1_0000_0000_0000 % 0x100) as u8);
    r.push((n / 0x100_0000_0000 % 0x100) as u8);
    r.push((n / 0x1_0000_0000 % 0x100) as u8);
    r.push((n / 0x100_0000 % 0x100) as u8);
    r.push((n / 0x1_0000 % 0x100) as u8);
    r.push((n / 0x100 % 0x100) as u8);
    r.push((n % 0x100) as u8);
    assert(r@ =~= candidate(n)) by {
        reveal(candidate);
    }
    r
}

/// With a magic of eight bytes the encoding of a block is the encoding
/// that it has with any other magic of eight bytes, but for the last eight
/// bytes.
pub proof fn lemma_encoding_tail(block: Block, held: Seq<u8>, magic: Seq<u8>)
    requires
        held.len() == 8,
        magic.len() == 8,
    ensures
        block.encoding_with(held).len() >= 8,
        block.encoding_with(magic) == block.encoding_with(held).subrange(
            0,
            block.encoding_with(held).len() - 8,
        ) + magic,
{
    block.spec_back_hash().lemma_view_len();
    block.spec_finder().lemma_view_len();
    assert(block.encoding_with(magic) =~= block.encoding_with(held).subrange(
        0,
        block.encoding_with(held).len() - 8,
    ) + magic);
}

/// Writes candidate `n` over the last eight bytes of `bytes` and says
/// whether the hash of the whole is below `target`.
pub fn try_candidate(bytes: &mut Vec<u8>, n: u64, target: &[u8; 32]) -> (r: bool)
    requires
        old(bytes)@.len() >= 8,
    ensures
        final(bytes)@ == old(bytes)@.subrange(0, old(bytes)@.len() - 8) + candidate(n),
        r == (be_nat(sha3_256(final(bytes)@)) < be_nat(target@)),
{
    let size = bytes.len();
    let magic = candidate_magic(n);
    proof {
        lemma_candidate_len(n);
    }
    let mut k: usize = 0;
    while k < 8
        invariant
            k <= 8,
            size == bytes@.len(),
            size == old(bytes)@.len(),
            size >= 8,
            magic@.len() == 8,
            bytes@.subrange(0, size - 8) == old(bytes)@.subrange(0, size - 8),
            forall|j: int| 0 <= j < k ==> bytes@[size - 8 + j] == magic@[j],
        decreases 8 - k,
    {
        let ghost before = bytes@;
        bytes.set(size - 8 + k, magic[k]);
        assert(bytes@.subrange(0, size - 8) =~= before.subrange(0, size - 8));
        k += 1;
    }
    assert(bytes@ =~= old(bytes)@.subrange(0, size - 8) + magic@);
    BlockHash::of(bytes.as_slice()).meets_target(target)
}

/// Tries the `count` candidates from `first` on, in order, and leaves the
/// first that wins in the block as its magic. Where none wins, or the block
/// has no encoding, the block is as it was.
pub fn mine_block(block: &mut Block, first: u64, count: u64, target: &[u8; 32]) -> (r: Result<
    u64,
    Error,
>)
    ensures
        final(block).groups() == old(block).groups(),
        final(block).spec_uid() == old(block).spec_uid(),
        final(block).spec_back_hash() == old(block).spec_back_hash(),
        final(block).spec_finder() == old(block).spec_finder(),
        match first_group_fault(old(block).groups()) {
            Some(e) => r == Err::<u64, Error>(e) && final(block).spec_magic()
                == old(block).spec_magic(),
            None => match first_winner(*old(block), first as int, count as int, target@) {
                Some(n) => {
                    &&& r == Ok::<u64, Error>(n)
                    &&& first <= n < first + count
                    &&& final(block).spec_magic() == candidate(n)
                    &&& final(block).spec_magic().len() == MAGIC_SIZE
                    &&& be_nat(final(block).spec_hash()) < be_nat(target@)
                },
                None => r == Err::<u64, Error>(Error::Miner(MinerError::Exhausted))
                    && final(block).spec_magic() == old(block).spec_magic(),
            },
        },
{
    let ghost base = *old(block);
    proof {
        lemma_candidate_len(first);
    }
    let kept = block.replace_magic(candidate_magic(first));
    let mut bytes = match block.to_bytes() {
        Ok(bytes) => bytes,
        Err(e) => {
            let _ = block.replace_magic(kept);
            return Err(e);
        },
    };
    assert(bytes@ == base.encoding_with(candidate(first)));
    proof {
        lemma_candidate_len(first);
        lemma_encoding_tail(base, candidate(first), candidate(first));
    }
    let mut n = first;
    let mut left = count;
    let ghost mut held = candidate(first);
    loop
        invariant
            base == *old(block),
            held.len() == 8,
            bytes@ == base.encoding_with(held),
            bytes@.len() >= 8,
            first_winner(base, first as int, count as int, target@) == first_winner(
                base,
                n as int,
                left as int,
                target@,
            ),
            first <= n,
            n + left <= first + count,
            block.groups() == base.groups(),
            block.spec_uid() == base.spec_uid(),
            block.spec_back_hash() == base.spec_back_hash(),
            block.spec_finder() == base.spec_finder(),
            kept@ == base.spec_magic(),
            first_group_fault(base.groups()) is None,
        decreases left,
    {
        if left == 0 {
            let _ = block.replace_magic(kept);
            return Err(Error::Miner(MinerError::Exhausted));
        }
        proof {
            lemma_candidate_len(n);
            lemma_encoding_tail(base, held, candidate(n));
            held = candidate(n);
        }
        let won = try_candidate(&mut bytes, n, target);
        assert(bytes@ == base.encoding_with(candidate(n)));
        assert(won == wins(base, n, target@));
        if won {
            let _ = block.replace_magic(candidate_magic(n));
            assert(block.encoding() == base.encoding_with(candidate(n)));
            return Ok(n);
        }
        assert(first_winner(base, n as int, left as int, target@) == first_winner(
            base,
            n + 1,
            left - 1,
            target@,
        ));
        if n == u64::MAX {
            left = 0;
        } else {
            n += 1;
            left -= 1;
        }
    }
}

/// How a search by several workers ends. Where a worker handed a result
/// in, that is the result. Where none did, the search was either called off
/// or has used up its candidates.
pub fn search_outcome<T>(winner: Option<Result<T, Error>>, called_off: bool) -> (r: Result<T, Error>)
    ensures
        r == match winner {
            Some(outcome) => outcome,
            None => if called_off {
                Err::<T, Error>(Error::Miner(MinerError::Cancelled))
            } else {
                Err::<T, Error>(Error::Miner(MinerError::Exhausted))
            },
        },
{
    match winner {
        Some(outcome) => outcome,
        None => if called_off {
            Err(Error::Miner(MinerError::Cancelled))
        } else {
            Err(Error::Miner(MinerError::Exhausted))
        },
    }
}

} // verus!
