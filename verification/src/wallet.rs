//! A chain together with the keys of the one who holds it.

use crate::block::{
    decode_groups, first_group_fault, group_models, groups_content, groups_to_bytes, read_groups,
    Block,
};
use crate::block_hash::{default_target, default_target_bytes};
use crate::blockchain::{
    chain_balance, chain_fault, chained, head, lemma_chain_blocks_encode, on_chain_content,
    Blockchain,
};
use crate::crypto::be_nat;
use crate::error::{CryptoError, Error, LedgerError, MinerError};
use crate::keys::{PublicKey, SecretKey};
use crate::ledger::{
    balances_content, book_block, book_group, book_groups, has_repeat, lemma_booked_groups_encode,
    lookups_content, repeated, Holdings,
};
use crate::miner::{candidate, first_winner, mine_block};
use crate::serialize::Serialize;
use crate::transaction_block::{TransactionBlock, TransactionBlockModel};
use crate::user_id::{UserId, MAGIC_HIGH, MAGIC_LOW};
use vstd::prelude::*;

verus! {

/// What each block credits its finder with on top of the fees, unless the
/// caller names another amount.
pub const DEFAULT_BLOCK_SUBSIDY: u32 = 1337;

/// A chain, the keys of its holder where there are any, and the groups of
/// transfers that wait to be put in a block.
#[derive(Clone, Debug, PartialEq, Eq)]
pub struct Wallet {
    pub blockchain: Blockchain,
    pub pk: Option<PublicKey>,
    pub sk: Option<SecretKey>,
    /// The groups of transfers that wait to be put in a block.
    pub off_chain_transactions: Vec<TransactionBlock>,
}

/// A wallet as bytes, in seven parts.
#[derive(Clone, Debug, PartialEq, Eq)]
pub struct BinaryWallet {
    /// The chain: its blocks and the end marker.
    pub blockchain_bin: Vec<u8>,
    /// The public key, empty where the wallet has none.
    pub pk_bin: Vec<u8>,
    /// The secret key, empty where the wallet has none.
    pub sk_bin: Vec<u8>,
    /// The transfers of the chain with the blocks that hold them: for each
    /// block its hash, its groups and the reserved marker.
    pub on_chain_transactions_bin: Vec<u8>,
    /// What each key holds in dust: for each key of the ledger the key and
    /// its balance in four bytes.
    pub unspent_outputs_bin: Vec<u8>,
    /// Where each identifier is held: for each the identifier in four
    /// bytes and the key that holds it.
    pub nft_lookups_bin: Vec<u8>,
    /// The groups that wait, closed by the reserved marker.
    pub off_chain_transactions_bin: Vec<u8>,
}

/// The bytes of a key that a wallet may lack: none where it lacks it.
pub open spec fn key_blob(key: Option<Seq<u8>>) -> Seq<u8> {
    match key {
        Some(bytes) => bytes,
        None => Seq::empty(),
    }
}

/// The groups that wait, as read from their bytes: none where they are
/// to be ignored or no bytes are there.
pub open spec fn waiting_groups(bytes: Seq<u8>, ignore: bool) -> Result<
    Seq<TransactionBlockModel>,
    Error,
> {
    if ignore || bytes.len() == 0 {
        Ok(Seq::empty())
    } else {
        match decode_groups(bytes) {
            Err(e) => Err(e),
            Ok((groups, _)) => Ok(groups),
        }
    }
}

/// What it comes to when a group joins those that wait: the ledger of the
/// chain books those that wait, each after its signatures were checked,
/// and then the group in the same way; and the group must not carry the
/// same transfers as one that waits.
pub open spec fn admission(
    h: Holdings,
    waiting: Seq<TransactionBlock>,
    group: TransactionBlock,
) -> Result<Holdings, Error> {
    match book_groups(h, waiting) {
        Err(e) => Err(e),
        Ok(after) => match book_group(after, group) {
            Err(e) => Err(e),
            Ok(booked) => if repeated(waiting.push(group)) {
                Err(Error::Ledger(LedgerError::DoubleSpend))
            } else {
                Ok(booked)
            },
        },
    }
}

/// What the bytes of a wallet read as: the key pair, where both keys are
/// given, and the chain. The keys are read first.
pub open spec fn wallet_reading(
    chain: Seq<u8>,
    public: Option<Seq<u8>>,
    secret: Option<Seq<u8>>,
) -> Result<(Option<Seq<u8>>, Option<Seq<u8>>), Error> {
    if public is Some && secret is Some {
        match PublicKey::decoding(public.unwrap()) {
            Err(e) => Err(e),
            Ok((pk, _)) => match SecretKey::decoding(secret.unwrap()) {
                Err(e) => Err(e),
                Ok((sk, _)) => match Blockchain::decoding(chain) {
                    Err(e) => Err(e),
                    Ok(_) => Ok((Some(pk), Some(sk))),
                },
            },
        }
    } else {
        match Blockchain::decoding(chain) {
            Err(e) => Err(e),
            Ok(_) => Ok((None, None)),
        }
    }
}

impl Wallet {
    /// A wallet from the bytes of its chain and of its keys. The keys are
    /// taken only where both are given. The chain is booked from nothing
    /// with the default subsidy as it is read, and comes with its ledger.
    pub fn from_binary(chain: &[u8], public: Option<&[u8]>, secret: Option<&[u8]>) -> (r: Result<
        Wallet,
        Error,
    >)
        ensures
            match wallet_reading(
                chain@,
                match public {
                    Some(b) => Some(b@),
                    None => None,
                },
                match secret {
                    Some(b) => Some(b@),
                    None => None,
                },
            ) {
                Err(e) => r == Err::<Wallet, Error>(e),
                Ok((pk, sk)) => {
                    &&& r matches Ok(w)
                    &&& Blockchain::decoding(chain@) matches Ok((m, _)) && w.blockchain.model()
                        == m
                    &&& w.blockchain.wf()
                    &&& chained(w.blockchain.spec_blocks(), default_target())
                    &&& w.blockchain.spec_users().wf()
                    &&& crate::ledger::replay(
                        w.blockchain.spec_blocks(),
                        DEFAULT_BLOCK_SUBSIDY as int,
                    ) == Ok::<Holdings, Error>(w.blockchain.spec_users()@)
                    &&& w.off_chain_transactions@.len() == 0
                    &&& match (w.pk, pk) {
                        (Some(a), Some(b)) => a@ == b,
                        (None, None) => true,
                        _ => false,
                    }
                    &&& match (w.sk, sk) {
                        (Some(a), Some(b)) => a@ == b,
                        (None, None) => true,
                        _ => false,
                    }
                },
            },
    {
        let mut pk: Option<PublicKey> = None;
        let mut sk: Option<SecretKey> = None;
        if let (Some(public), Some(secret)) = (public, secret) {
            pk = Some(Wallet::load_public_key(public)?);
            sk = Some(Wallet::load_secret_key(secret)?);
        }
        let mut at: usize = 0;
        assert(chain@.skip(0) =~= chain@);
        let blockchain = Blockchain::from_serialized(chain, &mut at)?;
        Ok(Wallet { blockchain, pk, sk, off_chain_transactions: Vec::new() })
    }

    /// The public key that opens `bytes`.
    pub fn load_public_key(bytes: &[u8]) -> (r: Result<PublicKey, Error>)
        ensures
            match PublicKey::decoding(bytes@) {
                Ok((m, _)) => r matches Ok(k) && k@ == m && k.wf(),
                Err(e) => r == Err::<PublicKey, Error>(e),
            },
    {
        let mut at: usize = 0;
        assert(bytes@.skip(0) =~= bytes@);
        PublicKey::from_serialized(bytes, &mut at)
    }

    /// The secret key that opens `bytes`.
    pub fn load_secret_key(bytes: &[u8]) -> (r: Result<SecretKey, Error>)
        ensures
            match SecretKey::decoding(bytes@) {
                Ok((m, _)) => r matches Ok(k) && k@ == m && k.wf(),
                Err(e) => r == Err::<SecretKey, Error>(e),
            },
    {
        let mut at: usize = 0;
        assert(bytes@.skip(0) =~= bytes@);
        SecretKey::from_serialized(bytes, &mut at)
    }

    /// Tries the `count` candidates from `first` on as magic of `block`, in
    /// order, against the default target, and leaves the first that wins in
    /// the block. Where none wins, or the block has no encoding, the block
    /// is as it was.
    pub fn mine_block(block: &mut Block, first: u64, count: u64) -> (r: Result<u64, Error>)
        ensures
            final(block).groups() == old(block).groups(),
            final(block).spec_uid() == old(block).spec_uid(),
            final(block).spec_back_hash() == old(block).spec_back_hash(),
            final(block).spec_finder() == old(block).spec_finder(),
            match first_group_fault(old(block).groups()) {
                Some(e) => r == Err::<u64, Error>(e) && final(block).spec_magic()
                    == old(block).spec_magic(),
                None => match first_winner(
                    *old(block),
                    first as int,
                    count as int,
                    default_target(),
                ) {
                    Some(n) => {
                        &&& r == Ok::<u64, Error>(n)
                        &&& first <= n < first + count
                        &&& final(block).spec_magic() == candidate(n)
                        &&& be_nat(final(block).spec_hash()) < be_nat(default_target())
                    },
                    None => r == Err::<u64, Error>(Error::Miner(MinerError::Exhausted))
                        && final(block).spec_magic() == old(block).spec_magic(),
                },
            },
    {
        let target = default_target_bytes();
        mine_block(block, first, count, &target)
    }

    /// Appends `block` to the wallet's chain against the default target:
    /// see [`Blockchain::add_block`].
    pub fn add_block(&mut self, block: Block, subsidy: u32) -> (r: Result<(), Error>)
        requires
            old(self).blockchain.spec_users().wf(),
        ensures
            final(self).blockchain.spec_users().wf(),
            final(self).pk == old(self).pk,
            final(self).sk == old(self).sk,
            final(self).off_chain_transactions@ == old(self).off_chain_transactions@,
            match Blockchain::append_fault(
                old(self).blockchain.spec_blocks(),
                block,
                default_target(),
            ) {
                Some(e) => {
                    &&& r == Err::<(), Error>(e)
                    &&& final(self).blockchain.spec_blocks() == old(
                        self,
                    ).blockchain.spec_blocks()
                    &&& final(self).blockchain.spec_users() == old(self).blockchain.spec_users()
                },
                None => match book_block(
                    old(self).blockchain.spec_users()@,
                    block,
                    subsidy as int,
                ) {
                    Err(e) => {
                        &&& r == Err::<(), Error>(e)
                        &&& final(self).blockchain.spec_blocks() == old(
                            self,
                        ).blockchain.spec_blocks()
                        &&& final(self).blockchain.spec_users().users() == old(
                            self,
                        ).blockchain.spec_users().users()
                    },
                    Ok(h) => {
                        &&& r is Ok
                        &&& final(self).blockchain.spec_blocks() == old(
                            self,
                        ).blockchain.spec_blocks().push(block)
                        &&& final(self).blockchain.spec_users()@ == h
                        &&& crate::ledger::total(final(self).blockchain.spec_users().users())
                            == crate::ledger::total(old(self).blockchain.spec_users().users())
                            + subsidy
                    },
                },
            },
    {
        let target = default_target_bytes();
        self.blockchain.add_block(block, subsidy, &target)
    }

    /// The balance of the wallet's own key at the end of its chain, where
    /// each block credits its finder with the fees and with `subsidy`. A
    /// wallet without a key has no balance.
    pub fn get_balance(&self, subsidy: u32) -> (r: Result<i128, Error>)
        ensures
            match self.pk {
                None => r == Err::<i128, Error>(Error::Crypto(CryptoError::BadKey)),
                Some(pk) => match chain_balance(
                    self.blockchain.spec_blocks(),
                    pk@,
                    subsidy as int,
                ) {
                    Ok(v) => r == Ok::<i128, Error>(v as i128),
                    Err(e) => r == Err::<i128, Error>(e),
                },
            },
    {
        match &self.pk {
            Some(pk) => self.blockchain.get_user_value_change(pk, subsidy),
            None => Err(Error::Crypto(CryptoError::BadKey)),
        }
    }
}

impl Wallet {
    /// The wallet as bytes, where its chain and the groups that wait have
    /// encodings. The transfers on the chain, the balances and the holders
    /// of identifiers follow from the chain and its ledger, and are written
    /// as the ledger holds them.
    pub fn to_binary(&self) -> (r: Result<BinaryWallet, Error>)
        ensures
            match chain_fault(self.blockchain.spec_blocks(), default_target()) {
                Some(e) => r == Err::<BinaryWallet, Error>(e),
                None => match first_group_fault(self.off_chain_transactions@) {
                    Some(e) => r == Err::<BinaryWallet, Error>(e),
                    None => {
                        &&& r matches Ok(b)
                        &&& b.blockchain_bin@ == self.blockchain.encoding()
                        &&& b.pk_bin@ == key_blob(
                            match self.pk {
                                Some(k) => Some(k@),
                                None => None,
                            },
                        )
                        &&& b.sk_bin@ == key_blob(
                            match self.sk {
                                Some(k) => Some(k@),
                                None => None,
                            },
                        )
                        &&& b.on_chain_transactions_bin@ == on_chain_content(
                            self.blockchain.spec_blocks(),
                        )
                        &&& b.unspent_outputs_bin@ == balances_content(
                            self.blockchain.spec_users().users(),
                        )
                        &&& b.nft_lookups_bin@ == lookups_content(
                            self.blockchain.spec_users().users(),
                        )
                        &&& b.off_chain_transactions_bin@ == groups_content(
                            self.off_chain_transactions@,
                        ) + seq![MAGIC_HIGH, MAGIC_LOW]
                    },
                },
            },
    {
        let blockchain_bin = self.blockchain.to_bytes()?;
        proof {
            lemma_chain_blocks_encode(self.blockchain.spec_blocks(), default_target());
        }
        let on_chain_transactions_bin = match self.blockchain.on_chain_transactions_to_bytes() {
            Ok(bytes) => bytes,
            Err(e) => {
                return Err(e);
            },
        };
        let unspent_outputs_bin = self.blockchain.users().balances_to_bytes();
        let nft_lookups_bin = self.blockchain.users().lookups_to_bytes();
        let mut off_chain_transactions_bin = groups_to_bytes(&self.off_chain_transactions)?;
        off_chain_transactions_bin.push(MAGIC_HIGH);
        off_chain_transactions_bin.push(MAGIC_LOW);
        assert(off_chain_transactions_bin@ =~= groups_content(self.off_chain_transactions@)
            + seq![MAGIC_HIGH, MAGIC_LOW]);
        let mut pk_bin: Vec<u8> = Vec::new();
        if let Some(pk) = &self.pk {
            crate::bytes::append_bytes(&mut pk_bin, &pk.serialize());
        }
        let mut sk_bin: Vec<u8> = Vec::new();
        if let Some(sk) = &self.sk {
            crate::bytes::append_bytes(&mut sk_bin, &sk.serialize());
        }
        Ok(
            BinaryWallet {
                blockchain_bin,
                pk_bin,
                sk_bin,
                on_chain_transactions_bin,
                unspent_outputs_bin,
                nft_lookups_bin,
                off_chain_transactions_bin,
            },
        )
    }

    /// A wallet from its bytes. The keys are taken where both are there,
    /// the chain is booked from nothing with the default subsidy as it is
    /// read, and the groups that wait are read unless they are to be
    /// ignored or are not there. What follows from the chain (its
    /// transfers, the balances, the holders of identifiers) is always
    /// built anew from the chain, and the bytes that hold it are not read.
    pub fn from_binary_wallet(binary: &BinaryWallet, ignore_off_chain_transactions: bool) -> (r:
        Result<Wallet, Error>)
        ensures
            match wallet_reading(
                binary.blockchain_bin@,
                if binary.pk_bin@.len() > 0 && binary.sk_bin@.len() > 0 {
                    Some(binary.pk_bin@)
                } else {
                    None
                },
                if binary.pk_bin@.len() > 0 && binary.sk_bin@.len() > 0 {
                    Some(binary.sk_bin@)
                } else {
                    None
                },
            ) {
                Err(e) => r matches Err(f) && f == e,
                Ok((pk, sk)) => match waiting_groups(
                    binary.off_chain_transactions_bin@,
                    ignore_off_chain_transactions,
                ) {
                    Err(e) => r matches Err(f) && f == e,
                    Ok(groups) => {
                        &&& r matches Ok(w)
                        &&& Blockchain::decoding(binary.blockchain_bin@) matches Ok((m, _))
                            && w.blockchain.model() == m
                        &&& chained(w.blockchain.spec_blocks(), default_target())
                        &&& w.blockchain.spec_users().wf()
                        &&& crate::ledger::replay(
                        w.blockchain.spec_blocks(),
                        DEFAULT_BLOCK_SUBSIDY as int,
                    ) == Ok::<Holdings, Error>(w.blockchain.spec_users()@)
                        &&& group_models(w.off_chain_transactions@) == groups
                        &&& match (w.pk, pk) {
                            (Some(a), Some(b)) => a@ == b,
                            (None, None) => true,
                            _ => false,
                        }
                        &&& match (w.sk, sk) {
                            (Some(a), Some(b)) => a@ == b,
                            (None, None) => true,
                            _ => false,
                        }
                    },
                },
            },
    {
        let keyed = binary.pk_bin.len() > 0 && binary.sk_bin.len() > 0;
        let mut wallet = if keyed {
            Wallet::from_binary(
                binary.blockchain_bin.as_slice(),
                Some(binary.pk_bin.as_slice()),
                Some(binary.sk_bin.as_slice()),
            )?
        } else {
            Wallet::from_binary(binary.blockchain_bin.as_slice(), None, None)?
        };
        if !ignore_off_chain_transactions && binary.off_chain_transactions_bin.len() > 0 {
            let mut at: usize = 0;
            assert(binary.off_chain_transactions_bin@.skip(0)
                =~= binary.off_chain_transactions_bin@);
            wallet.off_chain_transactions = read_groups(
                binary.off_chain_transactions_bin.as_slice(),
                &mut at,
            )?;
        } else {
            assert(group_models(wallet.off_chain_transactions@) =~= Seq::empty());
        }
        Ok(wallet)
    }

    /// Admits a group to those that wait, where it can be booked after
    /// them on the ledger of the chain and its signatures verify. Where it
    /// cannot, nothing changes.
    pub fn add_off_chain_transaction(&mut self, group: TransactionBlock) -> (r: Result<(), Error>)
        requires
            old(self).blockchain.spec_users().wf(),
        ensures
            final(self).blockchain == old(self).blockchain,
            final(self).pk == old(self).pk,
            final(self).sk == old(self).sk,
            match admission(
                old(self).blockchain.spec_users()@,
                old(self).off_chain_transactions@,
                group,
            ) {
                Err(e) => r == Err::<(), Error>(e) && final(self).off_chain_transactions@
                    == old(self).off_chain_transactions@,
                Ok(_) => r is Ok && final(self).off_chain_transactions@
                    == old(self).off_chain_transactions@.push(group),
            },
    {
        let mut work = self.blockchain.users().duplicate();
        let mut j: usize = 0;
        assert(self.off_chain_transactions@.take(0) =~= Seq::empty());
        while j < self.off_chain_transactions.len()
            invariant
                j <= self.off_chain_transactions.len(),
                work.wf(),
                *self == *old(self),
                book_groups(
                    self.blockchain.spec_users()@,
                    self.off_chain_transactions@.take(j as int),
                ) == Ok::<Holdings, Error>(work@),
            decreases self.off_chain_transactions.len() - j,
        {
            let ghost prefix = self.off_chain_transactions@.take(j + 1);
            assert(prefix.drop_last() =~= self.off_chain_transactions@.take(j as int));
            match work.apply_group(&self.off_chain_transactions[j]) {
                Ok(_) => {},
                Err(e) => {
                    proof {
                        crate::ledger::lemma_book_groups_prefix(
                            self.blockchain.spec_users()@,
                            self.off_chain_transactions@,
                            j + 1,
                        );
                    }
                    return Err(e);
                },
            }
            j += 1;
        }
        assert(self.off_chain_transactions@.take(j as int) =~= self.off_chain_transactions@);
        work.apply_group(&group)?;
        self.off_chain_transactions.push(group);
        proof {
            let all = self.off_chain_transactions@;
            assert(all.drop_last() =~= old(self).off_chain_transactions@);
            assert forall|k: int| 0 <= k < all.len() implies crate::transaction_block::first_fault(
                (#[trigger] all[k]).transactions@,
            ) is None by {
                lemma_booked_groups_encode(self.blockchain.spec_users()@, all, k);
            }
        }
        if has_repeat(&self.off_chain_transactions) {
            let _ = self.off_chain_transactions.pop();
            assert(self.off_chain_transactions@ =~= old(self).off_chain_transactions@);
            return Err(Error::Ledger(LedgerError::DoubleSpend));
        }
        Ok(())
    }

    /// Bundles the groups that wait into a block that links to the head of
    /// the chain and names the wallet's key as its finder. The groups wait
    /// no more. A wallet without a key, or whose last block cannot be
    /// hashed, bundles nothing.
    pub fn mining_data_from_off_chain_transactions(&mut self) -> (r: Result<Block, Error>)
        ensures
            final(self).blockchain == old(self).blockchain,
            final(self).pk == old(self).pk,
            final(self).sk == old(self).sk,
            match old(self).pk {
                None => r matches Err(e) && e == Error::Crypto(CryptoError::BadKey)
                    && final(self).off_chain_transactions@ == old(self).off_chain_transactions@,
                Some(pk) => match Blockchain::head_fault(old(self).blockchain.spec_blocks()) {
                    Some(e) => r matches Err(f) && f == e && final(self).off_chain_transactions@
                        == old(self).off_chain_transactions@,
                    None => {
                        &&& r matches Ok(block)
                        &&& block.groups() == old(self).off_chain_transactions@
                        &&& block.spec_back_hash()@ == head(old(self).blockchain.spec_blocks())
                        &&& block.spec_finder() == pk
                        &&& block.spec_magic().len() == 0
                        &&& block.spec_uid() == UserId::from_pair(MAGIC_HIGH, MAGIC_LOW)
                        &&& final(self).off_chain_transactions@.len() == 0
                    },
                },
            },
    {
        let finder = match &self.pk {
            Some(pk) => *pk,
            None => {
                return Err(Error::Crypto(CryptoError::BadKey));
            },
        };
        let back_hash = self.blockchain.head_hash()?;
        let mut groups: Vec<TransactionBlock> = Vec::new();
        core::mem::swap(&mut self.off_chain_transactions, &mut groups);
        Ok(Block::new(groups, UserId::marker(), back_hash, finder, Vec::new()))
    }
}

/// Reading the bytes that a wallet was written to gives the wallet: its
/// chain, its keys and the groups that wait. It holds of a wallet that has
/// both keys or none, whose chain is well-formed and has an encoding, and
/// whose waiting groups are well-formed, open with a transfer and have
/// encodings.
pub proof fn lemma_wallet_round_trip(wallet: Wallet)
    requires
        wallet.pk is Some <==> wallet.sk is Some,
        wallet.pk matches Some(k) ==> k.wf(),
        wallet.sk matches Some(k) ==> k.wf(),
        wallet.blockchain.wf(),
        wallet.blockchain.encodable(),
        forall|k: int|
            0 <= k < wallet.off_chain_transactions@.len() ==> {
                &&& (#[trigger] wallet.off_chain_transactions@[k]).wf()
                &&& wallet.off_chain_transactions@[k].encodable()
                &&& crate::block::opens_plainly(wallet.off_chain_transactions@[k])
            },
    ensures
        wallet_reading(
            wallet.blockchain.encoding(),
            if wallet.pk is Some {
                Some(wallet.pk.unwrap()@)
            } else {
                None
            },
            if wallet.sk is Some {
                Some(wallet.sk.unwrap()@)
            } else {
                None
            },
        ) == Ok::<(Option<Seq<u8>>, Option<Seq<u8>>), Error>(
            (
                if wallet.pk is Some {
                    Some(wallet.pk.unwrap()@)
                } else {
                    None
                },
                if wallet.sk is Some {
                    Some(wallet.sk.unwrap()@)
                } else {
                    None
                },
            ),
        ),
        Blockchain::decoding(wallet.blockchain.encoding()) matches Ok((m, _)) && m
            == wallet.blockchain.model(),
        waiting_groups(
            groups_content(wallet.off_chain_transactions@) + seq![MAGIC_HIGH, MAGIC_LOW],
            false,
        ) == Ok::<Seq<TransactionBlockModel>, Error>(group_models(wallet.off_chain_transactions@)),
{
    wallet.blockchain.lemma_round_trip(Seq::empty());
    assert(wallet.blockchain.encoding() + Seq::<u8>::empty() =~= wallet.blockchain.encoding());
    if let Some(pk) = wallet.pk {
        pk.lemma_round_trip(Seq::empty());
        assert(pk@ + Seq::<u8>::empty() =~= pk@);
    }
    if let Some(sk) = wallet.sk {
        sk.lemma_round_trip(Seq::empty());
        assert(sk@ + Seq::<u8>::empty() =~= sk@);
    }
    crate::block::lemma_decode_groups(
        wallet.off_chain_transactions@,
        seq![MAGIC_HIGH, MAGIC_LOW],
    );
}

} // verus!
