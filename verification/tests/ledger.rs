use celestium_core::block::Block;
use celestium_core::block_hash::BlockHash;
use celestium_core::blockchain::Blockchain;
use celestium_core::error::{CodecError, ConsensusError, CryptoError, Error, LedgerError};
use celestium_core::keys::{PublicKey, SecretKey};
use celestium_core::ledger::Ledger;
use celestium_core::serialize::Serialize;
use celestium_core::transaction::{Transaction, TransactionValue};
use celestium_core::transaction_block::TransactionBlock;
use celestium_core::user::User;
use celestium_core::user_id::UserId;
use celestium_core::wallet::{Wallet, DEFAULT_BLOCK_SUBSIDY};

fn secret(n: u8) -> SecretKey {
    let mut bytes = [0u8; 32];
    bytes[31] = n;
    Wallet::load_secret_key(&bytes).unwrap()
}

fn public(n: u8) -> PublicKey {
    PublicKey::from_secret_key(&secret(n))
}

fn marker() -> UserId {
    UserId::new(true, true, 0x6fff)
}

fn transfer(from: u8, to: u8, value: TransactionValue) -> Transaction {
    Transaction::new(UserId::new(false, false, 1), public(from), public(to), value)
}

fn group(from: u8, to: u8, value: TransactionValue) -> TransactionBlock {
    let mut group = TransactionBlock::new(vec![transfer(from, to, value)], 1);
    group.sign(&secret(from)).unwrap();
    group
}

fn block_after(chain: &Blockchain, groups: Vec<TransactionBlock>, finder: u8) -> Block {
    let back = match chain.blocks().last() {
        Some(last) => last.hash().unwrap(),
        None => BlockHash::new([0u8; 32]),
    };
    Block::new(groups, marker(), back, public(finder), vec![0, 1])
}

const TRIVIAL: [u8; 32] = [0xffu8; 32];

#[test]
fn user_give_and_take() {
    let mut user = User::new(public(1));
    assert_eq!(user.get_balance(), 0);
    assert_eq!(user.give(TransactionValue::new(605, Some(5))), Ok(true));
    assert_eq!(user.get_balance(), 600);
    assert_eq!(user.take(TransactionValue::new(205, Some(5))), Ok(true));
    assert_eq!(user.get_balance(), 395);
    assert_eq!(
        user.take(TransactionValue::new(396, Some(0))),
        Err(Error::Ledger(LedgerError::UnknownOutput))
    );
    assert_eq!(user.get_balance(), 395);
    assert_eq!(user.give(TransactionValue::new(-7, None)), Ok(true));
    assert!(user.owns(7));
    assert_eq!(
        user.give(TransactionValue::new(-7, None)),
        Err(Error::Ledger(LedgerError::DuplicateNft))
    );
    assert_eq!(user.take(TransactionValue::new(-7, None)), Ok(true));
    assert!(!user.owns(7));
    assert_eq!(
        user.take(TransactionValue::new(-7, None)),
        Err(Error::Ledger(LedgerError::UnknownOutput))
    );
    assert_eq!(user.give(TransactionValue::new(1, None)), Err(Error::Codec(CodecError::Malformed)));
    assert_eq!(user.pk(), public(1));
}

#[test]
fn user_balance_stays_in_range() {
    let mut user = User::new(public(1));
    assert!(user.add_dust(u32::MAX - 1));
    assert!(!user.add_dust(2));
    assert_eq!(user.get_balance(), u32::MAX - 1);
    assert_eq!(
        user.give(TransactionValue::new(2, Some(0))),
        Err(Error::Codec(CodecError::OutOfRange))
    );
    assert_eq!(user.give(TransactionValue::new(1, Some(0))), Ok(true));
    assert_eq!(user.get_balance(), u32::MAX);
}

#[test]
fn genesis_round_trip() {
    let mint = group(1, 1, TransactionValue::new(-77, None));
    let genesis = Block::new(vec![mint], marker(), BlockHash::new([0u8; 32]), public(1), vec![]);
    let bytes = genesis.to_bytes().unwrap();
    let mut at = 0;
    let back = Block::from_serialized(&bytes, &mut at).unwrap();
    assert_eq!(back.to_bytes().unwrap(), bytes);
    let mut chain = Blockchain::new(vec![]);
    assert_eq!(chain.add_block(back, 0, &TRIVIAL), Ok(()));
    assert_eq!(chain.count_blocks(), 1);
    assert_eq!(chain.blocks()[0].hash(), genesis.hash());
    assert!(chain.users().owns(&public(1), 77));
    let next = block_after(&chain, vec![], 2);
    assert_eq!(next.back_hash, genesis.hash().unwrap());
    assert_eq!(chain.add_block(next, 0, &TRIVIAL), Ok(()));
}

#[test]
fn coin_transfer() {
    let mut chain = Blockchain::new(vec![]);
    let funding = block_after(&chain, vec![], 1);
    chain.add_block(funding, 1000, &TRIVIAL).unwrap();
    assert_eq!(chain.users().get_balance(&public(1)), 1000);
    let spend = group(1, 2, TransactionValue::new(605, Some(5)));
    let mut buffer = vec![0u8; 200];
    let mut at = 0;
    assert_eq!(spend.serialize_into(&mut buffer, &mut at), Ok(136));
    let block = block_after(&chain, vec![spend], 3);
    assert_eq!(chain.add_block(block, 0, &TRIVIAL), Ok(()));
    assert_eq!(chain.users().get_balance(&public(1)), 395);
    assert_eq!(chain.users().get_balance(&public(2)), 600);
    assert_eq!(chain.users().get_balance(&public(3)), 5);
    assert_eq!(chain.users().total_dust(), 1000);
    assert_eq!(chain.get_user_value_change(&public(1), 0), Ok(-605));
    assert_eq!(chain.get_user_value_change(&public(2), 0), Ok(600));
    assert_eq!(chain.get_user_value_change(&public(3), 0), Ok(5));
}

#[test]
fn double_spend_rejected() {
    let mut ledger = Ledger::new();
    assert_eq!(ledger.apply(&transfer(1, 1, TransactionValue::new(-9, None))), Ok(()));
    assert_eq!(ledger.apply(&transfer(1, 2, TransactionValue::new(-9, None))), Ok(()));
    assert!(ledger.owns(&public(2), 9));
    assert!(!ledger.owns(&public(1), 9));
    assert_eq!(
        ledger.apply(&transfer(1, 3, TransactionValue::new(-9, None))),
        Err(Error::Ledger(LedgerError::UnknownOutput))
    );
    assert!(ledger.owns(&public(2), 9));
    assert!(!ledger.owns(&public(3), 9));
    assert!(ledger.is_minted(9));
}

#[test]
fn duplicate_mint_rejected() {
    let mut ledger = Ledger::new();
    assert_eq!(ledger.apply(&transfer(1, 1, TransactionValue::new(-9, None))), Ok(()));
    assert_eq!(
        ledger.apply(&transfer(2, 2, TransactionValue::new(-9, None))),
        Err(Error::Ledger(LedgerError::DuplicateNftMint))
    );
    assert_eq!(
        ledger.apply(&transfer(1, 1, TransactionValue::new(-9, None))),
        Err(Error::Ledger(LedgerError::DuplicateNftMint))
    );
    assert!(!ledger.owns(&public(2), 9));
    assert_eq!(ledger.apply(&transfer(2, 2, TransactionValue::new(-10, None))), Ok(()));
}

#[test]
fn overspending_rejected() {
    let mut ledger = Ledger::new();
    assert_eq!(
        ledger.apply(&transfer(1, 2, TransactionValue::new(1, Some(0)))),
        Err(Error::Ledger(LedgerError::UnknownOutput))
    );
    assert_eq!(ledger.apply(&transfer(1, 2, TransactionValue::new(0, Some(0)))), Ok(()));
    assert_eq!(
        ledger.apply(&transfer(1, 2, TransactionValue::new(3, Some(5)))),
        Err(Error::Ledger(LedgerError::ValueMismatch))
    );
    assert_eq!(
        ledger.apply(&transfer(1, 2, TransactionValue::new(3, None))),
        Err(Error::Codec(CodecError::Malformed))
    );
    assert_eq!(ledger.total_dust(), 0);
}

#[test]
fn bad_back_hash_leaves_ledger() {
    let mut chain = Blockchain::new(vec![]);
    chain.add_block(block_after(&chain, vec![], 1), 1000, &TRIVIAL).unwrap();
    let spend = group(1, 2, TransactionValue::new(605, Some(5)));
    let stray = Block::new(vec![spend], marker(), BlockHash::new([3u8; 32]), public(3), vec![]);
    assert_eq!(
        chain.add_block(stray, 1000, &TRIVIAL),
        Err(Error::Consensus(ConsensusError::WrongBackHash))
    );
    assert_eq!(chain.count_blocks(), 1);
    assert_eq!(chain.users().get_balance(&public(1)), 1000);
    assert_eq!(chain.users().get_balance(&public(2)), 0);
    assert_eq!(chain.users().get_balance(&public(3)), 0);
}

#[test]
fn unbookable_block_leaves_chain() {
    let mut chain = Blockchain::new(vec![]);
    chain.add_block(block_after(&chain, vec![], 1), 100, &TRIVIAL).unwrap();
    let first = group(1, 2, TransactionValue::new(60, Some(0)));
    let second = group(1, 3, TransactionValue::new(60, Some(0)));
    let block = block_after(&chain, vec![first, second], 4);
    assert_eq!(chain.add_block(block, 100, &TRIVIAL), Err(Error::Ledger(LedgerError::UnknownOutput)));
    assert_eq!(chain.count_blocks(), 1);
    assert_eq!(chain.users().get_balance(&public(1)), 100);
    assert_eq!(chain.users().get_balance(&public(2)), 0);
    assert_eq!(chain.users().total_dust(), 100);
}

#[test]
fn unsigned_block_rejected() {
    let mut chain = Blockchain::new(vec![]);
    chain.add_block(block_after(&chain, vec![], 1), 100, &TRIVIAL).unwrap();
    let unsigned = TransactionBlock::new(vec![transfer(1, 2, TransactionValue::new(60, Some(0)))], 1);
    let block = block_after(&chain, vec![unsigned], 4);
    assert_eq!(
        chain.add_block(block, 100, &TRIVIAL),
        Err(Error::Crypto(CryptoError::MissingSignature))
    );
    let by_other = {
        let mut g = TransactionBlock::new(vec![transfer(1, 2, TransactionValue::new(60, Some(0)))], 1);
        g.sign(&secret(2)).unwrap();
        g
    };
    let block = block_after(&chain, vec![by_other], 4);
    assert_eq!(chain.add_block(block, 100, &TRIVIAL), Err(Error::Crypto(CryptoError::BadSignature)));
    assert_eq!(chain.count_blocks(), 1);
}

#[test]
fn insufficient_work_rejected() {
    let mut chain = Blockchain::new(vec![]);
    let block = block_after(&chain, vec![], 1);
    assert_eq!(
        chain.add_block(block, 100, &[0u8; 32]),
        Err(Error::Consensus(ConsensusError::InsufficientWork))
    );
    assert_eq!(chain.count_blocks(), 0);
}

#[test]
fn replay_adds_one_subsidy_per_block() {
    let mut chain = Blockchain::new(vec![]);
    chain.add_block(block_after(&chain, vec![], 1), 1000, &TRIVIAL).unwrap();
    let spend = group(1, 2, TransactionValue::new(605, Some(5)));
    chain.add_block(block_after(&chain, vec![spend], 3), 1000, &TRIVIAL).unwrap();
    let nft = group(2, 2, TransactionValue::new(-5, None));
    chain.add_block(block_after(&chain, vec![nft], 1), 1000, &TRIVIAL).unwrap();
    assert_eq!(chain.users().total_dust(), 3000);
    let bytes = chain.to_bytes().unwrap();
    let mut at = 0;
    let mut read = Blockchain::from_serialized(&bytes, &mut at).unwrap();
    assert_eq!(read.users().total_dust(), 3 * 1337);
    assert_eq!(read.users().get_balance(&public(2)), 600);
    assert_eq!(read.reload_users(1000), Ok(()));
    assert_eq!(read.users().total_dust(), 3000);
    assert_eq!(read.users().get_balance(&public(1)), 1395);
    assert_eq!(read.users().get_balance(&public(2)), 600);
    assert_eq!(read.users().get_balance(&public(3)), 1005);
    assert!(read.users().owns(&public(2), 5));
    assert_eq!(read.get_user_value_change(&public(1), 1000), Ok(1395));
    assert_eq!(read.get_user_value_change(&public(3), 1000), Ok(1005));
    let ledger = Ledger::replay(read.blocks(), 1000).unwrap();
    assert_eq!(ledger.total_dust(), 3000);
    assert_eq!(ledger.get_balance(&public(2)), 600);
    let ledger = Ledger::replay(read.blocks(), 605).unwrap();
    assert_eq!(ledger.total_dust(), 3 * 605);
    assert_eq!(ledger.get_balance(&public(1)), 605);
    assert!(matches!(
        Ledger::replay(read.blocks(), 604),
        Err(Error::Ledger(LedgerError::UnknownOutput))
    ));
}

#[test]
fn replay_stops_at_first_fault() {
    let overdrawn = group(1, 2, TransactionValue::new(5, Some(0)));
    let first = Block::new(vec![overdrawn], marker(), BlockHash::new([0u8; 32]), public(1), vec![]);
    assert!(matches!(
        Ledger::replay(&vec![first], 3),
        Err(Error::Ledger(LedgerError::UnknownOutput))
    ));
}

#[test]
fn block_value_change_and_fees() {
    let a = group(1, 2, TransactionValue::new(605, Some(5)));
    let b = group(2, 1, TransactionValue::new(100, Some(1)));
    let c = group(1, 1, TransactionValue::new(-3, None));
    let block = Block::new(vec![a, b, c], marker(), BlockHash::new([0u8; 32]), public(2), vec![]);
    assert_eq!(block.get_user_value_change(&public(1)), Ok(-605 + 99));
    assert_eq!(block.get_user_value_change(&public(2)), Ok(600 - 100));
    assert_eq!(block.get_user_value_change(&public(9)), Ok(0));
    assert_eq!(block.get_fees(), Ok(6));
    assert_eq!(block.get_user_balance_change(&public(2), 1337), Ok(500 + 6 + 1337));
    assert_eq!(block.get_user_balance_change(&public(1), 1337), Ok(-506));
    let bad = TransactionBlock::new(vec![transfer(1, 2, TransactionValue::new(3, Some(5)))], 1);
    assert_eq!(bad.get_user_value_change(&public(1)), Err(Error::Ledger(LedgerError::ValueMismatch)));
    assert_eq!(bad.get_fees(), Err(Error::Ledger(LedgerError::ValueMismatch)));
    assert_eq!(bad.len(), 188);
}

#[test]
fn wallet_from_binary() {
    let mut chain = Blockchain::new(vec![]);
    chain.add_block(block_after(&chain, vec![], 1), 0, &TRIVIAL).unwrap();
    let spend = group(1, 2, TransactionValue::new(0, Some(0)));
    chain.add_block(block_after(&chain, vec![spend], 1), 0, &TRIVIAL).unwrap();
    let bytes = chain.to_bytes().unwrap();
    let pk = public(1).serialize();
    let sk = secret(1).serialize();
    let wallet = Wallet::from_binary(&bytes, Some(&pk), Some(&sk)).unwrap();
    assert_eq!(wallet.pk, Some(public(1)));
    assert_eq!(wallet.sk, Some(secret(1)));
    assert_eq!(wallet.blockchain.count_blocks(), 2);
    assert_eq!(wallet.get_balance(DEFAULT_BLOCK_SUBSIDY), Ok(2 * 1337));
    let keyless = Wallet::from_binary(&bytes, Some(&pk), None).unwrap();
    assert_eq!(keyless.pk, None);
    assert_eq!(keyless.sk, None);
    assert_eq!(keyless.get_balance(0), Err(Error::Crypto(CryptoError::BadKey)));
    assert!(matches!(
        Wallet::from_binary(&bytes, Some(&[0u8; 33]), Some(&sk)),
        Err(Error::Crypto(CryptoError::BadKey))
    ));
    assert!(matches!(
        Wallet::from_binary(&bytes, Some(&pk), Some(&[0u8; 32])),
        Err(Error::Crypto(CryptoError::BadKey))
    ));
    assert!(matches!(
        Wallet::from_binary(&bytes[..bytes.len() - 10], None, None),
        Err(Error::Codec(CodecError::Truncated))
    ));
}

#[test]
fn wallet_adds_blocks() {
    let mut wallet = Wallet::from_binary(&[], None, None).unwrap();
    let first = block_after(&wallet.blockchain, vec![], 1);
    assert_eq!(wallet.add_block(first, 10), Ok(()));
    let second = block_after(&wallet.blockchain, vec![], 1);
    let stale = Block::new(vec![], marker(), BlockHash::new([0u8; 32]), public(1), vec![]);
    assert_eq!(wallet.add_block(stale, 10), Err(Error::Consensus(ConsensusError::WrongBackHash)));
    assert_eq!(wallet.add_block(second, 10), Ok(()));
    assert_eq!(wallet.blockchain.count_blocks(), 2);
    assert_eq!(wallet.blockchain.users().get_balance(&public(1)), 20);
}

#[test]
fn public_key_from_hex() {
    let text = b"0279BE667ef9dcbbac55a06295ce870b07029bfcdb2dce28d959f2815b16f81798";
    assert_eq!(PublicKey::from_hex(text), Ok(public(1)));
    assert_eq!(PublicKey::from_hex(&text[..65]), Err(Error::Codec(CodecError::Malformed)));
    assert_eq!(PublicKey::from_hex(b"0g"), Err(Error::Codec(CodecError::Malformed)));
    assert_eq!(PublicKey::from_hex(&text[..64]), Err(Error::Codec(CodecError::Truncated)));
    let off_curve = b"0200000000000000000000000000000000000000000000000000000000000000ff";
    assert!(off_curve.len() == 66);
    let r = PublicKey::from_hex(off_curve);
    assert!(r == Err(Error::Crypto(CryptoError::BadKey)) || r.is_ok());
    assert_eq!(
        PublicKey::from_hex(b"0479be667ef9dcbbac55a06295ce870b07029bfcdb2dce28d959f2815b16f81798"),
        Err(Error::Crypto(CryptoError::BadKey))
    );
}

#[test]
fn wallet_round_trip_through_bytes() {
    let mut wallet = Wallet::from_binary(&[], Some(&public(1).serialize()), Some(&secret(1).serialize())).unwrap();
    wallet.add_block(block_after(&wallet.blockchain, vec![], 1), 1000).unwrap();
    wallet.add_off_chain_transaction(group(1, 2, TransactionValue::new(605, Some(5)))).unwrap();
    let binary = wallet.to_binary().unwrap();
    assert_eq!(binary.blockchain_bin, wallet.blockchain.to_bytes().unwrap());
    assert_eq!(binary.pk_bin, public(1).serialize().to_vec());
    assert_eq!(binary.sk_bin, secret(1).serialize().to_vec());
    assert_eq!(binary.off_chain_transactions_bin.len(), 136 + 2);
    assert_eq!(&binary.off_chain_transactions_bin[136..], &[0xef, 0xff]);
    let mut back = Wallet::from_binary_wallet(&binary, false).unwrap();
    assert_eq!(back.pk, wallet.pk);
    assert_eq!(back.sk, wallet.sk);
    assert_eq!(back.off_chain_transactions, wallet.off_chain_transactions);
    assert_eq!(back.blockchain.blocks(), wallet.blockchain.blocks());
    assert_eq!(back.blockchain.users().total_dust(), 1337);
    assert_eq!(back.blockchain.reload_users(1000), Ok(()));
    assert_eq!(back, wallet);
    assert_eq!(back.to_binary(), Ok(binary.clone()));
    let ignoring = Wallet::from_binary_wallet(&binary, true).unwrap();
    assert_eq!(ignoring.off_chain_transactions.len(), 0);
    let mut keyless = binary.clone();
    keyless.sk_bin = vec![];
    keyless.off_chain_transactions_bin = vec![];
    let read = Wallet::from_binary_wallet(&keyless, false).unwrap();
    assert_eq!((read.pk, read.sk), (None, None));
    assert_eq!(read.off_chain_transactions.len(), 0);
    let mut cut = binary.clone();
    cut.off_chain_transactions_bin.truncate(137);
    assert_eq!(Wallet::from_binary_wallet(&cut, false), Err(Error::Codec(CodecError::Truncated)));
    assert!(Wallet::from_binary_wallet(&cut, true).is_ok());
}

#[test]
fn off_chain_admission() {
    let mut wallet = Wallet::from_binary(&[], Some(&public(3).serialize()), Some(&secret(3).serialize())).unwrap();
    wallet.add_block(block_after(&wallet.blockchain, vec![], 1), 100).unwrap();
    assert_eq!(wallet.add_off_chain_transaction(group(1, 2, TransactionValue::new(60, Some(1)))), Ok(()));
    assert_eq!(
        wallet.add_off_chain_transaction(group(1, 3, TransactionValue::new(60, Some(1)))),
        Err(Error::Ledger(LedgerError::UnknownOutput))
    );
    assert_eq!(wallet.add_off_chain_transaction(group(2, 3, TransactionValue::new(59, Some(0)))), Ok(()));
    assert_eq!(
        wallet.add_off_chain_transaction(group(2, 3, TransactionValue::new(1, Some(0)))),
        Err(Error::Ledger(LedgerError::UnknownOutput))
    );
    let unsigned = TransactionBlock::new(vec![transfer(1, 2, TransactionValue::new(1, Some(0)))], 1);
    assert_eq!(
        wallet.add_off_chain_transaction(unsigned),
        Err(Error::Crypto(CryptoError::MissingSignature))
    );
    assert_eq!(wallet.off_chain_transactions.len(), 2);
    assert_eq!(wallet.blockchain.users().get_balance(&public(1)), 100);

    let head = wallet.blockchain.head_hash().unwrap();
    let mut block = wallet.mining_data_from_off_chain_transactions().unwrap();
    assert_eq!(wallet.off_chain_transactions.len(), 0);
    assert_eq!(block.transaction_blocks().len(), 2);
    assert_eq!(block.back_hash, head);
    assert_eq!(block.finder, public(3));
    assert_eq!(block.magic, Vec::<u8>::new());
    assert_eq!(Wallet::mine_block(&mut block, 0, 1), Ok(0));
    assert_eq!(wallet.add_block(block, 100), Ok(()));
    assert_eq!(wallet.blockchain.count_blocks(), 2);
    assert_eq!(wallet.blockchain.users().get_balance(&public(1)), 40);
    assert_eq!(wallet.blockchain.users().get_balance(&public(2)), 0);
    assert_eq!(wallet.blockchain.users().get_balance(&public(3)), 59 + 1 + 100);
    assert_eq!(wallet.get_balance(100), Ok(160));
    assert_eq!(wallet.blockchain.users().total_dust(), 200);
    let bytes = wallet.blockchain.to_bytes().unwrap();
    let mut at = 0;
    assert!(Blockchain::from_serialized(&bytes, &mut at).is_ok());

    let mut keyless = Wallet::from_binary(&[], None, None).unwrap();
    assert_eq!(
        keyless.mining_data_from_off_chain_transactions(),
        Err(Error::Crypto(CryptoError::BadKey))
    );
    assert_eq!(keyless.blockchain.head_hash(), Ok(BlockHash::new([0u8; 32])));
    assert_eq!(UserId::marker(), marker());
}

#[test]
fn replay_checks_signatures() {
    let mut chain = Blockchain::new(vec![]);
    chain.add_block(block_after(&chain, vec![], 1), 100, &TRIVIAL).unwrap();
    let forged = {
        let mut by_other = TransactionBlock::new(vec![transfer(1, 2, TransactionValue::new(60, Some(0)))], 1);
        by_other.sign(&secret(2)).unwrap();
        by_other
    };
    let mut bytes = chain.blocks()[0].to_bytes().unwrap();
    let link = chain.blocks()[0].hash().unwrap();
    let honest = Block::new(
        vec![group(1, 2, TransactionValue::new(60, Some(0)))],
        marker(),
        link,
        public(3),
        vec![],
    );
    let mut second = honest.to_bytes().unwrap();
    let mut forged_bytes = vec![0u8; 136];
    let mut at = 0;
    assert!(forged.serialize_into(&mut forged_bytes, &mut at).is_err());
    let signature = forged.signatures[0].serialize_compact();
    second[72..136].copy_from_slice(&signature);
    bytes.extend_from_slice(&second);
    let mut at = 0;
    assert_eq!(
        Blockchain::from_serialized(&bytes, &mut at),
        Err(Error::Crypto(CryptoError::BadSignature))
    );
    assert_eq!(at, 0);
    let scan = celestium_core::blockchain::scan_stream(&bytes, &TRIVIAL);
    assert_eq!(scan.blocks.len(), 2);
    assert_eq!(scan.fault, None);
    let mut read = Blockchain::new(scan.blocks);
    assert_eq!(read.reload_users(100), Err(Error::Crypto(CryptoError::BadSignature)));
    assert_eq!(read.users().total_dust(), 0);
    assert!(matches!(
        Ledger::replay(read.blocks(), 100),
        Err(Error::Crypto(CryptoError::BadSignature))
    ));
    assert_eq!(read.to_bytes(), Err(Error::Crypto(CryptoError::BadSignature)));
    let mut ledger = Ledger::new();
    assert_eq!(ledger.apply_group(&forged), Err(Error::Crypto(CryptoError::BadSignature)));
    assert_eq!(
        ledger.apply_group(&group(1, 2, TransactionValue::new(60, Some(0)))),
        Err(Error::Ledger(LedgerError::UnknownOutput))
    );
    assert_eq!(ledger.apply_group(&group(1, 2, TransactionValue::new(0, Some(0)))), Ok(()));
}

#[test]
fn repeated_transfers_rejected() {
    let mut chain = Blockchain::new(vec![]);
    chain.add_block(block_after(&chain, vec![], 1), 100, &TRIVIAL).unwrap();
    let pay = group(1, 2, TransactionValue::new(10, Some(1)));
    let twice = block_after(&chain, vec![pay.clone(), pay.clone()], 3);
    assert_eq!(chain.add_block(twice, 100, &TRIVIAL), Err(Error::Ledger(LedgerError::DoubleSpend)));
    assert_eq!(chain.count_blocks(), 1);
    assert_eq!(chain.users().get_balance(&public(1)), 100);
    let other = {
        let tx = Transaction::new(UserId::new(false, false, 2), public(1), public(2), TransactionValue::new(10, Some(1)));
        let mut g = TransactionBlock::new(vec![tx], 1);
        g.sign(&secret(1)).unwrap();
        g
    };
    let once_each = block_after(&chain, vec![pay.clone(), other.clone()], 3);
    assert_eq!(chain.add_block(once_each, 100, &TRIVIAL), Ok(()));
    assert_eq!(chain.users().get_balance(&public(1)), 80);
    assert_eq!(chain.users().get_balance(&public(2)), 18);
    assert_eq!(chain.users().get_balance(&public(3)), 102);

    let mut wallet = Wallet::from_binary(&[], Some(&public(3).serialize()), Some(&secret(3).serialize())).unwrap();
    wallet.add_block(block_after(&wallet.blockchain, vec![], 1), 100).unwrap();
    assert_eq!(wallet.add_off_chain_transaction(pay.clone()), Ok(()));
    assert_eq!(
        wallet.add_off_chain_transaction(pay.clone()),
        Err(Error::Ledger(LedgerError::DoubleSpend))
    );
    assert_eq!(wallet.off_chain_transactions.len(), 1);
    assert_eq!(wallet.add_off_chain_transaction(other), Ok(()));
    assert_eq!(wallet.off_chain_transactions.len(), 2);
    assert!(!celestium_core::ledger::has_repeat(&wallet.off_chain_transactions));
    assert!(celestium_core::ledger::has_repeat(&vec![pay.clone(), pay]));
}

#[test]
fn chain_reader_rejects_a_second_spend() {
    let mut chain = Blockchain::new(vec![]);
    chain.add_block(block_after(&chain, vec![group(1, 1, TransactionValue::new(-9, None))], 1), 0, &TRIVIAL).unwrap();
    chain.add_block(block_after(&chain, vec![group(1, 2, TransactionValue::new(-9, None))], 1), 0, &TRIVIAL).unwrap();
    let good = chain.to_bytes().unwrap();
    let again = block_after(&chain, vec![group(1, 3, TransactionValue::new(-9, None))], 1);
    let mut bytes = good[..good.len() - 4].to_vec();
    let cut = bytes.len();
    bytes.extend_from_slice(&again.to_bytes().unwrap());
    let mut at = 0;
    assert_eq!(
        Blockchain::from_serialized(&bytes, &mut at),
        Err(Error::Ledger(LedgerError::UnknownOutput))
    );
    assert_eq!(at, 0);
    let read = Blockchain::from_serialized(&bytes[..cut], &mut at).unwrap();
    assert_eq!((at, read.count_blocks()), (cut, 2));
    assert!(read.users().owns(&public(2), 9));
    assert!(!read.users().owns(&public(1), 9));
    assert!(matches!(
        Wallet::from_binary(&bytes, None, None),
        Err(Error::Ledger(LedgerError::UnknownOutput))
    ));
}

#[test]
fn block_change_sums_its_groups() {
    let block = Block::new(
        vec![
            group(1, 2, TransactionValue::new(605, Some(5))),
            group(2, 1, TransactionValue::new(100, Some(1))),
            group(3, 2, TransactionValue::new(40, Some(0))),
        ],
        marker(),
        BlockHash::new([0u8; 32]),
        public(3),
        vec![],
    );
    assert_eq!(block.get_user_value_change(&public(2)), Ok(600 - 100 + 40));
    assert_eq!(block.get_user_value_change(&public(1)), Ok(-605 + 99));
    assert_eq!(block.get_user_value_change(&public(3)), Ok(-40));
    assert_eq!(block.get_user_value_change(&public(4)), Ok(0));
    assert_eq!(block.get_fees(), Ok(6));
}

#[test]
fn wallet_archive_has_seven_parts() {
    let mut wallet = Wallet::from_binary(&[], Some(&public(1).serialize()), Some(&secret(1).serialize())).unwrap();
    let empty = wallet.to_binary().unwrap();
    assert_eq!(empty.blockchain_bin, vec![0x41u8; 4]);
    assert_eq!(empty.on_chain_transactions_bin, Vec::<u8>::new());
    assert_eq!(empty.unspent_outputs_bin, Vec::<u8>::new());
    assert_eq!(empty.nft_lookups_bin, Vec::<u8>::new());
    assert_eq!(empty.off_chain_transactions_bin, vec![0xef, 0xff]);
    let first = block_after(&wallet.blockchain, vec![], 1);
    wallet.add_block(first.clone(), 1000).unwrap();
    let mint = group(1, 1, TransactionValue::new(-7, None));
    let second = block_after(&wallet.blockchain, vec![mint.clone()], 1);
    wallet.add_block(second.clone(), 1000).unwrap();
    let binary = wallet.to_binary().unwrap();
    let key = public(1).serialize().to_vec();
    let mut balances = key.clone();
    balances.extend_from_slice(&[0x00, 0x00, 0x07, 0xd0]);
    assert_eq!(binary.unspent_outputs_bin, balances);
    let mut lookups = vec![0x00, 0x00, 0x00, 0x07];
    lookups.extend_from_slice(&key);
    assert_eq!(binary.nft_lookups_bin, lookups);
    let mut on_chain = first.hash().unwrap().hash().to_vec();
    on_chain.extend_from_slice(&[0xef, 0xff]);
    on_chain.extend_from_slice(&second.hash().unwrap().hash());
    on_chain.extend_from_slice(&mint.to_bytes().unwrap());
    on_chain.extend_from_slice(&[0xef, 0xff]);
    assert_eq!(binary.on_chain_transactions_bin, on_chain);
    assert_eq!(binary.on_chain_transactions_bin.len(), 34 + 32 + 136 + 2);
    wallet
        .add_block(block_after(&wallet.blockchain, vec![group(1, 2, TransactionValue::new(605, Some(5)))], 3), 0x0a0b0c0d)
        .unwrap();
    let binary = wallet.to_binary().unwrap();
    let records: Vec<&[u8]> = binary.unspent_outputs_bin.chunks(37).collect();
    assert_eq!(records.len(), 3);
    let balance_of = |n: u8| -> Vec<u8> {
        let key = public(n).serialize();
        records.iter().find(|r| r[..33] == key[..]).unwrap()[33..].to_vec()
    };
    assert_eq!(balance_of(1), vec![0x00, 0x00, 0x05, 0x73]);
    assert_eq!(balance_of(2), vec![0x00, 0x00, 0x02, 0x58]);
    assert_eq!(balance_of(3), vec![0x0a, 0x0b, 0x0c, 0x12]);
    assert_eq!(binary.nft_lookups_bin, lookups);
    let mut stale = binary.clone();
    stale.unspent_outputs_bin = vec![1, 2, 3];
    stale.nft_lookups_bin = vec![];
    stale.on_chain_transactions_bin = vec![9];
    let read = Wallet::from_binary_wallet(&stale, false).unwrap();
    assert_eq!(read.blockchain.blocks(), wallet.blockchain.blocks());
    assert_eq!(read.blockchain.users().get_balance(&public(2)), 600);
    assert!(read.blockchain.users().owns(&public(1), 7));
}
