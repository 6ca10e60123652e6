use celestium_core::block::Block;
use celestium_core::block_hash::BlockHash;
use celestium_core::blockchain::Blockchain;
use celestium_core::error::{CodecError, ConsensusError, CryptoError, Error};
use celestium_core::keys::{PublicKey, SecretKey, Signature};
use celestium_core::serialize::Serialize;
use celestium_core::transaction::{Transaction, TransactionValue};
use celestium_core::transaction_block::TransactionBlock;
use celestium_core::user_id::UserId;

fn secret(n: u8) -> SecretKey {
    let mut bytes = [0u8; 32];
    bytes[31] = n;
    let mut at = 0;
    SecretKey::from_serialized(&bytes, &mut at).unwrap()
}

fn public(n: u8) -> PublicKey {
    PublicKey::from_secret_key(&secret(n))
}

fn marker() -> UserId {
    UserId::new(true, true, 0x6fff)
}

fn signed_group(from: u8, to: u8, value: TransactionValue) -> TransactionBlock {
    let tx = Transaction::new(UserId::new(false, false, 7), public(from), public(to), value);
    let mut group = TransactionBlock::new(vec![tx], 1);
    group.sign(&secret(from)).unwrap();
    group
}

fn encode<T: Serialize>(value: &T, len: usize) -> Vec<u8> {
    let mut buffer = vec![0u8; len];
    let mut at = 0;
    let written = value.serialize_into(&mut buffer, &mut at).unwrap();
    assert_eq!(written, at);
    buffer.truncate(at);
    buffer
}

#[test]
fn user_id_bytes() {
    let uid = UserId::new(true, false, 0x1234);
    let bytes = encode(&uid, 8);
    assert_eq!(bytes, vec![0x92, 0x34]);
    let mut at = 0;
    let back = UserId::from_serialized(&bytes, &mut at).unwrap();
    assert_eq!(at, 2);
    assert_eq!(back, uid);
    assert_eq!(uid.serialized_len(), 2);
}

#[test]
fn user_id_marker_bytes() {
    let bytes = encode(&UserId::marker(), 2);
    assert_eq!(bytes, vec![0xef, 0xff]);
    let mut at = 0;
    let back = UserId::from_serialized(&bytes, &mut at).unwrap();
    assert!(back.is_magic());
    assert!(back.is_continuation());
    assert_eq!(back.value(), 0x6fff);
    assert_eq!(back, marker());
}

#[test]
fn user_id_truncated_keeps_cursor() {
    let mut at = 3;
    let r = UserId::from_serialized(&[1, 2, 3, 4], &mut at);
    assert_eq!(r, Err(Error::Codec(CodecError::Truncated)));
    assert_eq!(at, 3);
    let mut buffer = [0u8; 3];
    let mut at = 2;
    let r = UserId::new(false, false, 1).serialize_into(&mut buffer, &mut at);
    assert_eq!(r, Err(Error::Codec(CodecError::Truncated)));
    assert_eq!(at, 2);
    assert_eq!(buffer, [0u8; 3]);
}

#[test]
fn coin_value_bytes() {
    let value = TransactionValue::new(605, Some(5));
    assert_eq!(value.is_coin_transfer(), Ok(true));
    assert_eq!(value.get_value(), Ok(600));
    assert_eq!(value.get_fee(), Ok(5));
    assert_eq!(value.get_id(), Err(Error::Ledger(celestium_core::error::LedgerError::ValueMismatch)));
    let bytes = encode(&value, 4);
    assert_eq!(bytes, vec![0x00, 0x02, 0x5d, 0x05]);
    let mut at = 0;
    assert_eq!(TransactionValue::from_serialized(&bytes, &mut at), Ok(value));
    assert_eq!(at, 4);
}

#[test]
fn id_value_bytes() {
    let value = TransactionValue::new(-7, None);
    assert_eq!(value.is_coin_transfer(), Ok(false));
    assert_eq!(value.get_id(), Ok(7));
    let bytes = encode(&value, 4);
    assert_eq!(bytes, vec![0xff, 0xff, 0xff, 0xf9]);
    let mut at = 0;
    assert_eq!(TransactionValue::from_serialized(&bytes, &mut at), Ok(value));
    assert_eq!(TransactionValue::new(i32::MIN, None).get_id(), Ok(0x8000_0000));
}

#[test]
fn value_faults() {
    let malformed = Err(Error::Codec(CodecError::Malformed));
    assert_eq!(TransactionValue::new(5, None).is_coin_transfer(), malformed);
    assert_eq!(TransactionValue::new(-5, Some(1)).is_coin_transfer(), malformed);
    let mut buffer = [0u8; 4];
    let mut at = 0;
    assert_eq!(
        TransactionValue::new(5, None).serialize_into(&mut buffer, &mut at),
        Err(Error::Codec(CodecError::Malformed))
    );
    assert_eq!(
        TransactionValue::new(0x80_0000, Some(0)).serialize_into(&mut buffer, &mut at),
        Err(Error::Codec(CodecError::OutOfRange))
    );
    assert_eq!(TransactionValue::new(0x7f_ffff, Some(0xff)).serialize_into(&mut buffer, &mut at), Ok(4));
    assert_eq!(buffer, [0x7f, 0xff, 0xff, 0xff]);
    assert_eq!(
        TransactionValue::new(3, Some(5)).get_value(),
        Err(Error::Ledger(celestium_core::error::LedgerError::ValueMismatch))
    );
}

#[test]
fn keys_round_trip() {
    let pk = public(1);
    let bytes = pk.serialize();
    assert_eq!(
        bytes.to_vec(),
        hex::decode("0279be667ef9dcbbac55a06295ce870b07029bfcdb2dce28d959f2815b16f81798").unwrap()
    );
    let mut at = 0;
    assert_eq!(PublicKey::from_serialized(&bytes, &mut at), Ok(pk));
    assert_eq!(at, 33);
    assert_eq!(encode(&pk, 40), bytes.to_vec());
    let sk = secret(9);
    assert_eq!(encode(&sk, 32), sk.serialize().to_vec());
}

#[test]
fn bad_keys() {
    let mut at = 0;
    assert_eq!(PublicKey::from_serialized(&[2u8; 32], &mut at), Err(Error::Codec(CodecError::Truncated)));
    assert_eq!(PublicKey::from_serialized(&[0x41u8; 33], &mut at), Err(Error::Crypto(CryptoError::BadKey)));
    assert_eq!(SecretKey::from_serialized(&[0u8; 32], &mut at), Err(Error::Crypto(CryptoError::BadKey)));
    assert_eq!(SecretKey::from_serialized(&[0xffu8; 32], &mut at), Err(Error::Crypto(CryptoError::BadKey)));
    let order = hex::decode("fffffffffffffffffffffffffffffffebaaedce6af48a03bbfd25e8cd0364141").unwrap();
    assert_eq!(SecretKey::from_serialized(&order, &mut at), Err(Error::Crypto(CryptoError::BadKey)));
    let mut below = order.clone();
    below[31] = 0x40;
    assert!(SecretKey::from_serialized(&below, &mut at).is_ok());
    assert_eq!(at, 32);
    let mut sig = [0u8; 64];
    sig[..32].copy_from_slice(&order);
    let mut at = 0;
    assert_eq!(Signature::from_serialized(&sig, &mut at), Err(Error::Crypto(CryptoError::BadSignature)));
    assert!(Signature::from_serialized(&[0u8; 64], &mut at).is_ok());
}

#[test]
fn sign_and_verify() {
    let digest = [0xabu8; 32];
    let signature = Signature::sign(&digest, &secret(3));
    assert!(signature.verify(&digest, &public(3)));
    assert!(!signature.verify(&digest, &public(4)));
    assert!(!signature.verify(&[0xcdu8; 32], &public(3)));
    assert_eq!(signature, Signature::sign(&digest, &secret(3)));
}

#[test]
fn transaction_round_trip() {
    let tx = Transaction::new(UserId::new(true, false, 300), public(1), public(2), TransactionValue::new(605, Some(5)));
    let bytes = encode(&tx, 100);
    assert_eq!(bytes.len(), 72);
    assert_eq!(tx.serialized_len(), 72);
    assert_eq!(&bytes[..2], &[0x81, 0x2c]);
    assert_eq!(&bytes[2..35], &public(1).serialize()[..]);
    assert_eq!(&bytes[35..68], &public(2).serialize()[..]);
    assert_eq!(&bytes[68..], &[0x00, 0x02, 0x5d, 0x05]);
    let mut at = 0;
    assert_eq!(Transaction::from_serialized(&bytes, &mut at), Ok(tx));
    assert_eq!(at, 72);
}

#[test]
fn group_round_trip() {
    let a = Transaction::new(UserId::new(true, false, 1), public(1), public(2), TransactionValue::new(10, Some(1)));
    let b = Transaction::new(UserId::new(true, false, 2), public(2), public(1), TransactionValue::new(-9, None));
    let c = Transaction::new(UserId::new(false, false, 3), public(1), public(3), TransactionValue::new(20, Some(0)));
    let mut group = TransactionBlock::new(vec![a, b, c], 2);
    group.sign(&secret(1)).unwrap();
    group.sign(&secret(2)).unwrap();
    let bytes = encode(&group, 400);
    assert_eq!(bytes.len(), 3 * 72 + 2 * 64);
    assert_eq!(group.serialized_len(), bytes.len());
    let mut data = vec![9u8; 5];
    data.extend_from_slice(&bytes);
    data.extend_from_slice(&[1, 2, 3]);
    let mut at = 5;
    let back = TransactionBlock::from_serialized(&data, &mut at).unwrap();
    assert_eq!(at, 5 + bytes.len());
    assert_eq!(back.transactions, group.transactions);
    assert_eq!(back.signatures, group.signatures);
    assert_eq!(back.expected_signatures, 2);
    assert_eq!(encode(&back, 400), bytes);
}

#[test]
fn group_signature_faults() {
    let tx = Transaction::new(UserId::new(false, false, 1), public(1), public(2), TransactionValue::new(10, Some(1)));
    let mut buffer = vec![0u8; 200];
    let mut at = 0;
    let unsigned = TransactionBlock::new(vec![tx], 1);
    assert_eq!(unsigned.serialize_into(&mut buffer, &mut at), Err(Error::Crypto(CryptoError::MissingSignature)));
    let mut wrong = TransactionBlock::new(vec![tx], 1);
    wrong.sign(&secret(2)).unwrap();
    assert_eq!(wrong.serialize_into(&mut buffer, &mut at), Err(Error::Crypto(CryptoError::BadSignature)));
    let mut twice = TransactionBlock::new(vec![tx], 2);
    twice.sign(&secret(1)).unwrap();
    twice.sign(&secret(1)).unwrap();
    assert_eq!(twice.serialize_into(&mut buffer, &mut at), Err(Error::Crypto(CryptoError::MissingSignature)));
    assert_eq!(at, 0);
    assert_eq!(buffer, vec![0u8; 200]);
    let mut good = TransactionBlock::new(vec![tx], 1);
    good.sign(&secret(1)).unwrap();
    let mut small = vec![0u8; 135];
    assert_eq!(good.serialize_into(&mut small, &mut at), Err(Error::Codec(CodecError::Truncated)));
    assert_eq!(good.serialize_into(&mut buffer, &mut at), Ok(136));
}

#[test]
fn block_round_trip() {
    let group = signed_group(1, 2, TransactionValue::new(605, Some(5)));
    let block = Block::new(vec![group], marker(), BlockHash::new([0u8; 32]), public(1), vec![1, 2, 3]);
    let bytes = encode(&block, 400);
    assert_eq!(bytes.len(), 136 + 68 + 3);
    assert_eq!(block.serialized_len(), bytes.len());
    assert_eq!(&bytes[136..139], &[0xef, 0xff, 3]);
    assert_eq!(&bytes[139..171], &[0u8; 32]);
    assert_eq!(&bytes[171..204], &public(1).serialize()[..]);
    assert_eq!(&bytes[204..], &[1, 2, 3]);
    let mut at = 0;
    let back = Block::from_serialized(&bytes, &mut at).unwrap();
    assert_eq!(at, bytes.len());
    assert_eq!(back.magic, vec![1, 2, 3]);
    assert_eq!(back.finder, public(1));
    assert_eq!(back.back_hash, BlockHash::new([0u8; 32]));
    assert_eq!(encode(&back, 400), bytes);
    assert_eq!(back.hash(), block.hash());
}

#[test]
fn block_magic_too_long() {
    let block = Block::new(vec![], marker(), BlockHash::new([0u8; 32]), public(1), vec![0u8; 256]);
    assert_eq!(block.to_bytes(), Err(Error::Codec(CodecError::OutOfRange)));
    let block = Block::new(vec![], marker(), BlockHash::new([0u8; 32]), public(1), vec![7u8; 255]);
    assert_eq!(block.to_bytes().unwrap().len(), 68 + 255);
}

#[test]
fn chain_round_trip() {
    let first = Block::new(vec![], marker(), BlockHash::new([0u8; 32]), public(1), vec![1]);
    let link = first.hash().unwrap();
    let second = Block::new(
        vec![signed_group(1, 2, TransactionValue::new(605, Some(5)))],
        marker(),
        link,
        public(2),
        vec![],
    );
    let chain = Blockchain::new(vec![first, second]);
    let bytes = chain.to_bytes().unwrap();
    assert_eq!(&bytes[bytes.len() - 4..], &[0x41u8; 4]);
    assert_eq!(chain.serialized_len(), bytes.len());
    let mut at = 0;
    let back = Blockchain::from_serialized(&bytes, &mut at).unwrap();
    assert_eq!(at, bytes.len());
    assert_eq!(back.count_blocks(), 2);
    assert_eq!(back.blocks(), chain.blocks());
    assert_eq!(back.to_bytes().unwrap(), bytes);
    assert_eq!(back.users().get_balance(&public(1)), 1337 - 605);
    assert_eq!(back.users().get_balance(&public(2)), 600 + 5 + 1337);
    assert_eq!(back.users().total_dust(), 2 * 1337);
    let mut at = 0;
    let open = Blockchain::from_serialized(&bytes[..bytes.len() - 4], &mut at).unwrap();
    assert_eq!(at, bytes.len() - 4);
    assert_eq!(open.count_blocks(), 2);
}

#[test]
fn chain_reader_books_what_it_reads() {
    let first = Block::new(vec![], marker(), BlockHash::new([0u8; 32]), public(1), vec![1]);
    let second = Block::new(
        vec![signed_group(1, 2, TransactionValue::new(605, Some(5)))],
        marker(),
        first.hash().unwrap(),
        public(2),
        vec![],
    );
    let mut bytes = first.to_bytes().unwrap();
    let one = bytes.len();
    bytes.extend_from_slice(&second.to_bytes().unwrap());
    let mut at = 0;
    let poor = Blockchain::from_serialized_with_target(&bytes, &mut at, &[0xffu8; 32], 604);
    assert!(matches!(
        poor,
        Err(Error::Ledger(celestium_core::error::LedgerError::UnknownOutput))
    ));
    assert_eq!(at, 0);
    let cut = Blockchain::from_serialized_with_target(&bytes[..one], &mut at, &[0xffu8; 32], 604).unwrap();
    assert_eq!((at, cut.count_blocks()), (one, 1));
    assert_eq!(cut.users().get_balance(&public(1)), 604);
    let mut at = 0;
    let rich = Blockchain::from_serialized_with_target(&bytes, &mut at, &[0xffu8; 32], 605).unwrap();
    assert_eq!(rich.users().get_balance(&public(1)), 0);
    assert_eq!(rich.users().get_balance(&public(2)), 600 + 5 + 605);
}

#[test]
fn chain_wrong_back_hash() {
    let first = Block::new(vec![], marker(), BlockHash::new([0u8; 32]), public(1), vec![1]);
    let second = Block::new(vec![], marker(), BlockHash::new([5u8; 32]), public(2), vec![]);
    let mut bytes = first.to_bytes().unwrap();
    bytes.extend_from_slice(&second.to_bytes().unwrap());
    let mut at = 0;
    let r = Blockchain::from_serialized(&bytes, &mut at);
    assert!(matches!(r, Err(Error::Consensus(ConsensusError::WrongBackHash))));
    assert_eq!(at, 0);
    let chain = Blockchain::new(vec![first, second]);
    assert_eq!(chain.to_bytes(), Err(Error::Consensus(ConsensusError::WrongBackHash)));
}

#[test]
fn chain_insufficient_work() {
    let first = Block::new(vec![], marker(), BlockHash::new([0u8; 32]), public(1), vec![1]);
    let bytes = first.to_bytes().unwrap();
    let mut at = 0;
    let r = Blockchain::from_serialized_with_target(&bytes, &mut at, &[0u8; 32], 0);
    assert!(matches!(r, Err(Error::Consensus(ConsensusError::InsufficientWork))));
    assert_eq!(at, 0);
    assert!(Blockchain::from_serialized_with_target(&bytes, &mut at, &[0xffu8; 32], 0).is_ok());
}

#[test]
fn signatures_are_ecdsa_over_sha256_of_the_transfers() {
    let tx = Transaction::new(UserId::new(false, false, 7), public(5), public(6), TransactionValue::new(9, Some(2)));
    let mut group = TransactionBlock::new(vec![tx], 1);
    group.sign(&secret(5)).unwrap();
    let content = group.serialize_content().unwrap();
    assert_eq!(content, encode(&tx, 72));
    let digest = <sha2::Sha256 as sha2::Digest>::digest(&content);
    let message = secp256k1::Message::from_slice(&digest).unwrap();
    let signature = secp256k1::Signature::from_compact(&group.signatures[0].serialize_compact()).unwrap();
    let key = secp256k1::PublicKey::from_slice(&public(5).serialize()).unwrap();
    let secp = secp256k1::Secp256k1::new();
    assert!(secp.verify(&message, &signature, &key).is_ok());
    let sk = secp256k1::SecretKey::from_slice(&secret(5).serialize()).unwrap();
    assert_eq!(secp.sign(&message, &sk).serialize_compact(), group.signatures[0].serialize_compact());
    assert_eq!(
        secp256k1::PublicKey::from_secret_key(&secp, &sk).serialize(),
        public(5).serialize()
    );
    let mut digest_bytes = [0u8; 32];
    digest_bytes.copy_from_slice(&digest);
    assert!(group.signatures[0].verify(&digest_bytes, &public(5)));
    assert!(group.signatures_verify(&digest_bytes, &vec![public(5)]));
    assert!(!group.signatures_verify(&digest_bytes, &vec![public(6)]));
}

#[test]
fn block_hash_is_sha3_256_of_the_encoding() {
    let block = Block::new(vec![], marker(), BlockHash::new([4u8; 32]), public(2), vec![8, 8]);
    let bytes = block.to_bytes().unwrap();
    let digest = <sha3::Sha3_256 as sha3::Digest>::digest(&bytes);
    assert_eq!(&block.hash().unwrap().hash()[..], &digest[..]);
}

#[test]
fn cursor_moves_by_the_length_written() {
    let hash = BlockHash::new([3u8; 32]);
    let mut buffer = vec![0u8; 40];
    let mut at = 5;
    assert_eq!(hash.serialize_into(&mut buffer, &mut at), Ok(32));
    assert_eq!(at, 37);
    assert_eq!(hash.serialized_len(), 32);
    let mut back = 5;
    assert_eq!(BlockHash::from_serialized(&buffer, &mut back), Ok(hash));
    assert_eq!(back, 37);
    let mut late = 9;
    assert_eq!(
        BlockHash::from_serialized(&buffer, &mut late),
        Err(Error::Codec(CodecError::Truncated))
    );
    assert_eq!(late, 9);
    let mut beyond = 41;
    assert_eq!(
        UserId::from_serialized(&buffer, &mut beyond),
        Err(Error::Codec(CodecError::Truncated))
    );
    assert_eq!(beyond, 41);
}

#[test]
fn block_with_bad_finder_or_short_magic() {
    let block = Block::new(vec![], marker(), BlockHash::new([0u8; 32]), public(1), vec![1, 2, 3]);
    let bytes = block.to_bytes().unwrap();
    let mut at = 0;
    assert!(matches!(
        Block::from_serialized(&bytes[..bytes.len() - 1], &mut at),
        Err(Error::Codec(CodecError::Truncated))
    ));
    assert!(matches!(
        Block::from_serialized(&bytes[..60], &mut at),
        Err(Error::Codec(CodecError::Truncated))
    ));
    let mut broken = bytes.clone();
    broken[35] = 0x41;
    assert!(matches!(
        Block::from_serialized(&broken, &mut at),
        Err(Error::Crypto(CryptoError::BadKey))
    ));
    assert_eq!(at, 0);
    let mut no_marker = bytes.clone();
    no_marker[1] = 0xfe;
    assert!(Block::from_serialized(&no_marker, &mut at).is_err());
    assert_eq!(at, 0);
}

fn order_minus(s: &[u8]) -> [u8; 32] {
    let order = hex::decode("fffffffffffffffffffffffffffffffebaaedce6af48a03bbfd25e8cd0364141").unwrap();
    let mut out = [0u8; 32];
    let mut borrow = 0i32;
    for k in (0..32).rev() {
        let mut d = order[k] as i32 - s[k] as i32 - borrow;
        if d < 0 {
            d += 256;
            borrow = 1;
        } else {
            borrow = 0;
        }
        out[k] = d as u8;
    }
    out
}

#[test]
fn high_s_signatures_do_not_verify() {
    let digest = [0x5au8; 32];
    let signature = Signature::sign(&digest, &secret(7));
    assert!(signature.verify(&digest, &public(7)));
    let low = signature.serialize_compact();
    let mut high = low;
    high[32..].copy_from_slice(&order_minus(&low[32..]));
    assert_ne!(high, low);
    let mut at = 0;
    let flipped = Signature::from_serialized(&high, &mut at).unwrap();
    assert!(!flipped.verify(&digest, &public(7)));
    let mut relaxed = secp256k1::Signature::from_compact(&high).unwrap();
    relaxed.normalize_s();
    assert_eq!(relaxed.serialize_compact(), low);
}

#[test]
fn user_id_flagged_as_marker_is_written_as_marker() {
    let plain = UserId::new(true, false, 0x0102);
    let flagged = UserId::new(false, true, 7);
    let mut buffer = [0u8; 4];
    let mut at = 0;
    assert_eq!(plain.serialize_into(&mut buffer, &mut at), Ok(2));
    assert_eq!(flagged.serialize_into(&mut buffer, &mut at), Ok(2));
    assert_eq!(at, 4);
    assert_eq!(buffer, [0x81, 0x02, 0xef, 0xff]);
    assert_eq!(flagged.check(), None);
    let wide = UserId::new(true, true, 0xffff);
    assert_eq!(wide.check(), None);
    let mut pair = [0u8; 2];
    let mut at = 0;
    assert_eq!(wide.serialize_into(&mut pair, &mut at), Ok(2));
    assert_eq!(pair, [0xef, 0xff]);
    let mut at = 0;
    assert_eq!(UserId::from_serialized(&pair, &mut at), Ok(UserId::marker()));
    let unflagged = UserId::new(true, false, 0x6fff);
    let mut pair = [0u8; 2];
    let mut at = 0;
    assert_eq!(unflagged.serialize_into(&mut pair, &mut at), Ok(2));
    assert_eq!(pair, [0xef, 0xff]);
    let mut at = 0;
    assert_eq!(UserId::from_serialized(&pair, &mut at), Ok(UserId::marker()));
    let mut short = [0u8; 1];
    let mut at = 0;
    assert_eq!(flagged.serialize_into(&mut short, &mut at), Err(Error::Codec(CodecError::Truncated)));
    assert_eq!((at, short), (0, [0u8; 1]));
}

#[test]
fn user_id_writer_refuses_what_does_not_fit() {
    let mut buffer = [0u8; 2];
    let mut at = 0;
    let wide = UserId::new(false, false, 0x8001);
    assert_eq!(wide.check(), Some(Error::Codec(CodecError::OutOfRange)));
    assert_eq!(wide.serialize_into(&mut buffer, &mut at), Err(Error::Codec(CodecError::OutOfRange)));
    assert_eq!((at, buffer), (0, [0u8; 2]));
    let largest = UserId::new(true, false, 0x7fff);
    assert_eq!(largest.check(), None);
    assert_eq!(largest.serialize_into(&mut buffer, &mut at), Ok(2));
    assert_eq!(buffer, [0xff, 0xff]);
    let mut at = 0;
    assert_eq!(UserId::from_serialized(&buffer, &mut at), Ok(largest));
    let tx = Transaction::new(wide, public(1), public(2), TransactionValue::new(1, Some(0)));
    assert_eq!(tx.check(), Some(Error::Codec(CodecError::OutOfRange)));
    let mut long = [0u8; 72];
    let mut at = 0;
    assert_eq!(tx.serialize_into(&mut long, &mut at), Err(Error::Codec(CodecError::OutOfRange)));
    let mut group = TransactionBlock::new(vec![tx], 1);
    assert_eq!(group.sign(&secret(1)), Err(Error::Codec(CodecError::OutOfRange)));
    assert_eq!(group.signatures.len(), 0);
}

#[test]
fn block_built_with_another_marker_form_reads_back() {
    let mut signed = TransactionBlock::new(
        vec![Transaction::new(
            UserId::new(false, false, 1),
            public(1),
            public(2),
            TransactionValue::new(605, Some(5)),
        )],
        1,
    );
    signed.sign(&secret(1)).unwrap();
    let built = Block::new(
        vec![signed],
        UserId::new(false, true, 0),
        BlockHash::new([0u8; 32]),
        public(1),
        vec![1, 2, 3],
    );
    let n = built.serialized_len();
    let mut first = vec![0u8; n];
    let mut at = 0;
    assert_eq!(built.serialize_into(&mut first, &mut at), Ok(n));
    let mut at = 0;
    let read = Block::from_serialized(&first, &mut at).unwrap();
    assert_eq!(at, n);
    assert_eq!(read.magic, vec![1, 2, 3]);
    let mut second = vec![0u8; n];
    let mut at = 0;
    assert_eq!(read.serialize_into(&mut second, &mut at), Ok(n));
    assert_eq!(at, n);
    assert_eq!(second, first);
    assert_eq!(read.hash(), built.hash());
}
