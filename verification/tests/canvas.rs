use celestium_core::block::Block;
use celestium_core::block_hash::BlockHash;
use celestium_core::block_id::BlockId;
use celestium_core::blockchain::{is_end_marker, scan_stream};
use celestium_core::dust::{split, DUST_PER_CEL};
use celestium_core::error::{CodecError, CryptoError, Error, MinerError};
use celestium_core::history::PixelHistory;
use celestium_core::keys::{PublicKey, SecretKey};
use celestium_core::miner::{candidate_magic, mine_block, round_start, try_candidate};
use celestium_core::noise::{diff, seed_words, total_diff};
use celestium_core::pixel::{
    base_message, calc_pixel_hash, initial_hash, message_id, read_message, Pixel, COLOR_MAP,
};
use celestium_core::protocol::{
    after_challenge, after_color, challenge_request, pixel_query, read_challenge,
    read_pixel_color, submission, ColorStep,
};
use celestium_core::serialize::Serialize;
use celestium_core::transaction::{Transaction, TransactionValue};
use celestium_core::transaction_block::TransactionBlock;
use celestium_core::user_id::UserId;
use celestium_core::wallet::Wallet;
use sha3::{Digest, Sha3_224, Sha3_256};

fn secret(n: u8) -> SecretKey {
    let mut bytes = [0u8; 32];
    bytes[31] = n;
    Wallet::load_secret_key(&bytes).unwrap()
}

fn public(n: u8) -> PublicKey {
    PublicKey::from_secret_key(&secret(n))
}

fn empty_block(back: BlockHash, magic: Vec<u8>) -> Block {
    Block::new(vec![], UserId::new(true, true, 0x6fff), back, public(1), magic)
}

#[test]
fn block_id_bytes() {
    let id = BlockId::new(true, true, 0x0123);
    assert!(id.is_continuation());
    assert!(id.is_magic());
    assert_eq!(id.get_magic_len(), Ok(0x0123));
    assert_eq!(id.serialize(), Ok(vec![0xc1, 0x23]));
    let mut buffer = [0u8; 4];
    let mut at = 1;
    assert_eq!(id.serialize_into(&mut buffer, &mut at), Ok(2));
    assert_eq!(buffer, [0, 0xc1, 0x23, 0]);
    let mut at = 1;
    assert_eq!(BlockId::from_serialized(&buffer, &mut at), Ok(id));
    assert_eq!(at, 3);
    assert_eq!(id.serialized_len(), 2);
    let plain = BlockId::new(false, false, 0x3fff);
    assert_eq!(plain.get_magic_len(), Err(Error::Codec(CodecError::Malformed)));
    assert_eq!(plain.serialize(), Ok(vec![0x3f, 0xff]));
    assert_eq!(BlockId::new(false, true, 0xffff).get_magic_len(), Ok(0x3fff));
    let mut at = 0;
    assert_eq!(BlockId::from_serialized(&[1], &mut at), Err(Error::Codec(CodecError::Truncated)));
    let mut at = 0;
    let read = BlockId::from_serialized(&[0xff, 0x01], &mut at).unwrap();
    assert_eq!(read.value(), 0x3f01);
    assert!(read.is_continuation() && read.is_magic());
}

#[test]
fn block_id_keeps_fourteen_bits() {
    let id = BlockId::new(false, true, 0x1234);
    let bytes = id.serialize().unwrap();
    assert_eq!(bytes, vec![0x52, 0x34]);
    let mut at = 0;
    let back = BlockId::from_serialized(&bytes, &mut at).unwrap();
    assert!(!back.is_continuation());
    assert!(back.is_magic());
    assert_eq!(back.get_magic_len(), Ok(0x1234));
    assert_eq!(back, id);
    let wide = BlockId::new(false, false, 0x4000);
    assert_eq!(wide.serialize(), Err(Error::Codec(CodecError::OutOfRange)));
    let mut buffer = [0u8; 2];
    let mut at = 0;
    assert_eq!(wide.serialize_into(&mut buffer, &mut at), Err(Error::Codec(CodecError::OutOfRange)));
    assert_eq!((at, buffer), (0, [0u8; 2]));
}

#[test]
fn pixel_hash_is_sha3_224_of_message() {
    let back = [7u8; 28];
    let mut message = [0u8; 33];
    message[..28].copy_from_slice(&back);
    message[28..].copy_from_slice(&[0x03, 0xe7, 0x01, 0x02, 56]);
    let pixel = Pixel { x: 999, y: 258, color: 56 };
    assert_eq!(base_message(&back, pixel), message);
    assert_eq!(&calc_pixel_hash(999, 258, 56, back)[..], &Sha3_224::digest(&message)[..]);
    assert_eq!(&message_id(&message)[..], &Sha3_256::digest(&message)[..]);
    assert_eq!(read_message(&message), (back, pixel));
    assert!(pixel.is_on_canvas());
    assert!(!Pixel { x: 1000, y: 0, color: 0 }.is_on_canvas());
    assert!(!Pixel { x: 0, y: 1000, color: 0 }.is_on_canvas());
    assert!(!Pixel { x: 0, y: 0, color: 57 }.is_on_canvas());
    let mut first = [0u8; 33];
    first[28..].copy_from_slice(&[0, 5, 0, 6, 7]);
    assert_eq!(&initial_hash(5, 6)[..], &Sha3_224::digest(&first)[..]);
}

#[test]
fn palette() {
    assert_eq!(COLOR_MAP.len(), 57);
    assert_eq!(Pixel { x: 0, y: 0, color: 0 }.rgba(), Some([0x00, 0x00, 0x00, 0xff]));
    assert_eq!(Pixel { x: 0, y: 0, color: 7 }.rgba(), Some([0xff, 0xff, 0xff, 0xff]));
    assert_eq!(Pixel { x: 0, y: 0, color: 15 }.rgba(), Some([0x86, 0x5a, 0x48, 0xff]));
    assert_eq!(Pixel { x: 0, y: 0, color: 43 }.rgba(), Some([0xc6, 0x9a, 0x88, 0xff]));
    assert_eq!(Pixel { x: 0, y: 0, color: 56 }.rgba(), Some([0xee, 0xee, 0xee, 0xff]));
    assert_eq!(Pixel { x: 0, y: 0, color: 57 }.rgba(), None);
}

#[test]
fn protocol_frames() {
    assert_eq!(pixel_query(999, 258), vec![0x00, 0x03, 0xe7, 0x01, 0x02]);
    let request = challenge_request(1, 2, &public(1));
    assert_eq!(request.len(), 38);
    assert_eq!(&request[..5], &[0x07, 0, 1, 0, 2]);
    assert_eq!(&request[5..], &public(1).serialize()[..]);
    assert_eq!(submission(&[1, 2], &[3]), vec![0x06, 1, 2, 3]);
    assert_eq!(read_pixel_color(&[0x01, 9]), Some(9));
    assert_eq!(read_pixel_color(&[0x01]), None);
    assert_eq!(read_pixel_color(&[0x02, 9]), None);
    assert_eq!(read_pixel_color(&[]), None);
}

#[test]
fn protocol_steps() {
    let pixel = Pixel { x: 1, y: 2, color: 9 };
    assert_eq!(after_color(b"ERR: busy", pixel, &public(1)), ColorStep::Wait);
    assert_eq!(after_color(&[0x01, 9], pixel, &public(1)), ColorStep::Skip);
    assert_eq!(
        after_color(&[0x01, 8], pixel, &public(1)),
        ColorStep::Request(challenge_request(1, 2, &public(1)))
    );
    let mut frame = vec![0x08];
    frame.extend_from_slice(&[5u8; 28]);
    frame.extend_from_slice(&[6u8; 32]);
    frame.extend_from_slice(&[1, 2, 3]);
    let challenge = read_challenge(&frame).unwrap();
    assert_eq!(challenge.back_hash, [5u8; 28]);
    assert_eq!(challenge.block_head_hash, BlockHash::new([6u8; 32]));
    assert_eq!(challenge.transaction_at, 61);
    let work = after_challenge(&frame, pixel).unwrap();
    assert_eq!(work.message, base_message(&[5u8; 28], pixel));
    assert_eq!(work.id, message_id(&work.message));
    assert_eq!(work.block_head_hash, BlockHash::new([6u8; 32]));
    assert_eq!(&frame[work.transaction_at..], &[1, 2, 3]);
    assert_eq!(read_challenge(&frame[..60]), None);
    frame[0] = 0x01;
    assert_eq!(after_challenge(&frame, pixel), None);
}

#[test]
fn dust_in_cel() {
    assert_eq!(DUST_PER_CEL, 10u128.pow(31));
    assert_eq!(split(0), (0, 0));
    assert_eq!(split(DUST_PER_CEL - 1), (0, DUST_PER_CEL - 1));
    assert_eq!(split(3 * DUST_PER_CEL + 7), (3, 7));
    assert_eq!(split(u128::MAX), (u128::MAX / DUST_PER_CEL, u128::MAX % DUST_PER_CEL));
}

#[test]
fn noise_spread() {
    assert_eq!(diff((3, 10)), 7);
    assert_eq!(diff((10, 3)), 7);
    assert_eq!(diff((4, 4)), 0);
    assert_eq!(total_diff(&vec![]), Some(0));
    assert_eq!(total_diff(&vec![9]), Some(0));
    assert_eq!(total_diff(&vec![1, 4, 4]), Some(12));
    assert_eq!(total_diff(&vec![0, 255]), Some(510));
    let mut wide = vec![0u8; 3000];
    wide.extend_from_slice(&vec![255u8; 3000]);
    assert_eq!(total_diff(&wide), None);
    let mut fits = vec![0u8; 2900];
    fits.extend_from_slice(&vec![255u8; 2900]);
    assert_eq!(total_diff(&fits), Some(2 * 2900 * 2900 * 255));
    assert_eq!(seed_words((1, 2, 3, 4), 5, 6), [0x0102_0304, 0x0005_0006]);
}

#[test]
fn miner_rounds() {
    assert_eq!(round_start(0, 4, 0, 100), Some(0));
    assert_eq!(round_start(3, 4, 0, 100), Some(300));
    assert_eq!(round_start(1, 4, 2, 100), Some(900));
    assert_eq!(round_start(4, 4, 0, 100), None);
    assert_eq!(round_start(0, 1, u64::MAX, 2), None);
    assert_eq!(round_start(0, 1, u64::MAX / 2 - 1, 2), Some(u64::MAX - 3));
    assert_eq!(round_start(0, 1, u64::MAX / 2, 2), None);
    assert_eq!(round_start(5, 8, 7, 0), Some(0));
    assert_eq!(candidate_magic(0x0102_0304_0506_0708), vec![1, 2, 3, 4, 5, 6, 7, 8]);
}

#[test]
fn mining_boundary() {
    let mut block = empty_block(BlockHash::new([0u8; 32]), vec![9, 9, 9]);
    assert_eq!(mine_block(&mut block, 41, 10, &[0xffu8; 32]), Ok(41));
    assert_eq!(block.magic, candidate_magic(41));
    assert!(block.hash().unwrap().contains_enough_work());
    assert_eq!(block.back_hash, BlockHash::new([0u8; 32]));
    assert_eq!(block.finder, public(1));
    let mut block = empty_block(BlockHash::new([0u8; 32]), vec![9, 9, 9]);
    assert_eq!(mine_block(&mut block, 0, 50, &[0u8; 32]), Err(Error::Miner(MinerError::Exhausted)));
    assert_eq!(block.magic, vec![9, 9, 9]);
    assert_eq!(mine_block(&mut block, 0, 0, &[0xffu8; 32]), Err(Error::Miner(MinerError::Exhausted)));
    assert_eq!(mine_block(&mut block, u64::MAX, 5, &[0u8; 32]), Err(Error::Miner(MinerError::Exhausted)));
    assert_eq!(Wallet::mine_block(&mut block, 7, 1), Ok(7));
}

#[test]
fn mining_finds_first_winner() {
    let mut target = [0u8; 32];
    target[0] = 0x10;
    let mut block = empty_block(BlockHash::new([1u8; 32]), vec![]);
    let found = mine_block(&mut block, 0, 10_000, &target).unwrap();
    let hash = block.hash().unwrap();
    assert!(hash.meets_target(&target));
    assert!(hash.hash()[0] < 0x10);
    for n in 0..found {
        let mut other = empty_block(BlockHash::new([1u8; 32]), candidate_magic(n));
        assert!(!other.hash().unwrap().meets_target(&target));
        assert_eq!(mine_block(&mut other, n, 1, &target), Err(Error::Miner(MinerError::Exhausted)));
    }
    let mut bytes = block.to_bytes().unwrap();
    assert!(try_candidate(&mut bytes, found, &target));
    assert_eq!(bytes, block.to_bytes().unwrap());
}

#[test]
fn work_is_compared_as_a_number() {
    let hash = BlockHash::new([0x80; 32]);
    let mut above = [0x80u8; 32];
    above[31] = 0x81;
    let mut below = [0x80u8; 32];
    below[31] = 0x7f;
    assert!(hash.meets_target(&above));
    assert!(!hash.meets_target(&[0x80; 32]));
    assert!(!hash.meets_target(&below));
    let mut high = [0u8; 32];
    high[0] = 0x81;
    assert!(hash.meets_target(&high));
    assert!(hash.contains_enough_work());
    assert!(!BlockHash::new([0xff; 32]).contains_enough_work());
    assert_eq!(&BlockHash::of(b"abc").hash()[..], &Sha3_256::digest(b"abc")[..]);
    assert_eq!(BlockHash::genesis(), BlockHash::new([0u8; 32]));
}

#[test]
fn stream_scan() {
    let first = empty_block(BlockHash::new([0u8; 32]), vec![1]);
    let second = empty_block(BlockHash::new([9u8; 32]), vec![2, 3]);
    let mut data = first.to_bytes().unwrap();
    let one = data.len();
    data.extend_from_slice(&second.to_bytes().unwrap());
    let two = data.len();
    data.extend_from_slice(&[0x41; 4]);
    data.extend_from_slice(&[1, 2, 3]);
    let scan = scan_stream(&data, &[0xffu8; 32]);
    assert_eq!(scan.blocks.len(), 2);
    assert_eq!(scan.worked, vec![true, true]);
    assert_eq!(scan.end, two);
    assert_eq!(scan.fault, None);
    assert!(is_end_marker(&data, scan.end));
    assert!(!is_end_marker(&data, one));
    assert_eq!(scan.blocks[1].magic, vec![2, 3]);
    let scan = scan_stream(&data[..two], &[0u8; 32]);
    assert_eq!(scan.worked, vec![false, false]);
    assert_eq!(scan.end, two);
    let scan = scan_stream(&data[..two - 1], &[0xffu8; 32]);
    assert_eq!(scan.blocks.len(), 1);
    assert_eq!(scan.end, one);
    assert_eq!(scan.fault, Some(Error::Codec(CodecError::Truncated)));
    let scan = scan_stream(&[], &[0xffu8; 32]);
    assert_eq!((scan.blocks.len(), scan.end, scan.fault), (0, 0, None));
}

#[test]
fn relinked_block_is_mined_again() {
    let mut block = empty_block(BlockHash::new([0u8; 32]), vec![]);
    let before = block.hash().unwrap();
    block.set_back_hash(before);
    assert_eq!(block.back_hash, before);
    assert_ne!(block.hash().unwrap(), before);
    let old = block.replace_magic(vec![5]);
    assert_eq!(old, Vec::<u8>::new());
    assert_eq!(block.magic, vec![5]);
}

#[test]
fn labels() {
    assert_eq!(UserId::new(false, false, 0).to_string(), "BID:0");
    assert_eq!(UserId::new(true, false, 12345).to_string(), "BID:12345");
    assert_eq!(UserId::new(true, true, 0x6fff).to_string(), "BID:28671");
    assert_eq!(UserId::new(false, false, 65535).to_string(), "BID:65535");
    assert_eq!(BlockId::new(false, true, 907).to_string(), "BID:907");
    assert_eq!(BlockId::new(false, true, 10).to_string(), "BID:10");
    let mut bytes = [0u8; 32];
    bytes[0] = 0xab;
    bytes[31] = 0x0f;
    assert_eq!(
        BlockHash::new(bytes).to_string(),
        "0xab0000000000000000000000000000000000000000000000000000000000000f"
    );
}

#[test]
fn group_verify() {
    let tx = Transaction::new(
        UserId::new(false, false, 1),
        public(1),
        public(2),
        TransactionValue::new(10, Some(1)),
    );
    let mut group = TransactionBlock::new(vec![tx], 1);
    assert_eq!(group.verify(), Err(Error::Crypto(CryptoError::MissingSignature)));
    group.sign(&secret(1)).unwrap();
    assert_eq!(group.verify(), Ok(()));
    assert_eq!(group.to_bytes().unwrap().len(), 136);
    assert_eq!(group.serialize_content().unwrap().len(), 72);
    assert_eq!(group.spending_keys(), vec![public(1)]);
}

#[test]
fn pixel_history() {
    let start = initial_hash(3, 4);
    let mut history = PixelHistory::new();
    assert_eq!(history.longest_from_start(3, 4), 0);
    let red = Pixel { x: 3, y: 4, color: 1 };
    let blue = Pixel { x: 3, y: 4, color: 3 };
    let green = Pixel { x: 3, y: 4, color: 2 };
    let first = calc_pixel_hash(3, 4, 1, start);
    let second = calc_pixel_hash(3, 4, 3, first);
    history.insert(blue, first);
    assert_eq!(history.longest_from_start(3, 4), 0);
    history.insert(red, start);
    assert_eq!(history.len(), 2);
    assert_eq!(history.get(&first), Some(start));
    assert_eq!(history.get(&second), Some(first));
    assert_eq!(history.get(&start), None);
    assert_eq!(history.longest_from_start(3, 4), 2);
    assert_eq!(history.follow(second, 5), (2, start));
    assert_eq!(history.follow(second, 1), (1, first));
    assert_eq!(history.follow(first, 5), (1, start));
    assert_eq!(history.follow(start, 5), (0, start));
    assert_eq!(history.follow(second, 0), (0, second));
    history.insert(green, [9u8; 28]);
    assert_eq!(history.longest_from_start(3, 4), 2);
    assert_eq!(history.longest(&[9u8; 28]), 1);
    history.insert(red, start);
    assert_eq!(history.len(), 3);
    history.insert_hash(first, [8u8; 28]);
    assert_eq!(history.len(), 3);
    assert_eq!(history.get(&first), Some([8u8; 28]));
    assert_eq!(history.longest_from_start(3, 4), 0);
    assert_eq!(history.longest(&[8u8; 28]), 2);
    let mut ring = PixelHistory::new();
    ring.insert_hash([1u8; 28], [2u8; 28]);
    ring.insert_hash([2u8; 28], [1u8; 28]);
    assert_eq!(ring.longest(&[1u8; 28]), 2);
    assert_eq!(ring.longest(&[3u8; 28]), 0);
}

#[test]
fn ranking_and_ranges() {
    assert_eq!(celestium_core::noise::summed_spread((1, 2, 3, 4)), 10);
    assert_eq!(
        celestium_core::noise::summed_spread((u32::MAX, u32::MAX, u32::MAX, u32::MAX)),
        4 * (u32::MAX as u64)
    );
    assert!(celestium_core::noise::ranks_before((5, 0, 0, 0), (1, 1, 1, 1)));
    assert!(!celestium_core::noise::ranks_before((1, 1, 1, 1), (4, 0, 0, 0)));
    assert!(!celestium_core::noise::ranks_before((1, 1, 1, 1), (5, 0, 0, 0)));
    assert_eq!(celestium_core::noise::range_of(&vec![]), (u32::MAX, 0));
    assert_eq!(celestium_core::noise::range_of(&vec![7]), (7, 7));
    assert_eq!(celestium_core::noise::range_of(&vec![7, 3, 9, 3]), (3, 9));
}

#[test]
fn relinking_a_stream_block() {
    let zero = BlockHash::new([0u8; 32]);
    let mut block = empty_block(zero, vec![1]);
    assert!(!celestium_core::blockchain::relink(&mut block, true, zero));
    assert_eq!(block.back_hash, zero);
    assert!(celestium_core::blockchain::relink(&mut block, false, zero));
    assert_eq!(block.back_hash, zero);
    let other = BlockHash::new([3u8; 32]);
    assert!(celestium_core::blockchain::relink(&mut block, true, other));
    assert_eq!(block.back_hash, other);
    assert_eq!(block.magic, vec![1]);
}

#[test]
fn outcome_of_a_search() {
    let found: Option<Result<u64, Error>> = Some(Ok(7));
    assert_eq!(celestium_core::miner::search_outcome(found, false), Ok(7));
    assert_eq!(celestium_core::miner::search_outcome(found, true), Ok(7));
    let failed: Option<Result<u64, Error>> = Some(Err(Error::Codec(CodecError::OutOfRange)));
    assert_eq!(
        celestium_core::miner::search_outcome(failed, true),
        Err(Error::Codec(CodecError::OutOfRange))
    );
    let none: Option<Result<u64, Error>> = None;
    assert_eq!(
        celestium_core::miner::search_outcome(none, true),
        Err(Error::Miner(MinerError::Cancelled))
    );
    assert_eq!(
        celestium_core::miner::search_outcome(none, false),
        Err(Error::Miner(MinerError::Exhausted))
    );
}
