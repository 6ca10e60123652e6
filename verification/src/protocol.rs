//! The frames that wallet and relay exchange over the canvas socket, opcode
//! first, and what the wallet does on each frame it receives.

use crate::block_hash::BlockHash;
use crate::bytes::{append_bytes, copy_from};
use crate::crypto::sha3_256;
use crate::keys::PublicKey;
use crate::pixel::{base_message, message_id, pixel_message, Pixel};
use vstd::prelude::*;

verus! {

/// To the relay: which colour has the pixel at a position?
pub const OP_GET_PIXEL: u8 = 0x00;

/// From the relay: the colour of the pixel asked for.
pub const OP_PIXEL_COLOR: u8 = 0x01;

/// To the relay: a mined pixel transaction and the payment for it.
pub const OP_SUBMIT: u8 = 0x06;

/// To the relay: what must be mined to set the pixel at a position?
pub const OP_GET_CHALLENGE: u8 = 0x07;

/// From the relay: the pixel hash and block hash to build on, and the
/// payment to mine.
pub const OP_CHALLENGE: u8 = 0x08;

/// Length of a challenge up to the payment: the opcode, the pixel hash and
/// the block hash.
pub const CHALLENGE_HEAD_SIZE: usize = 61;

/// The two coordinates of a position, each most significant byte first.
pub open spec fn coordinates(x: u16, y: u16) -> Seq<u8> {
    seq![(x / 0x100) as u8, (x % 0x100) as u8, (y / 0x100) as u8, (y % 0x100) as u8]
}

/// What the relay asks the wallet to build on.
#[derive(Clone, Copy, Debug, PartialEq, Eq)]
pub struct Challenge {
    /// The pixel hash that the new pixel builds on.
    pub back_hash: [u8; 28],
    /// The hash of the block at the head of the chain.
    pub block_head_hash: BlockHash,
    /// Where in the frame the payment transaction begins.
    pub transaction_at: usize,
}

/// What the wallet does after a frame that may answer its question for a
/// colour.
#[derive(Debug, PartialEq, Eq)]
pub enum ColorStep {
    /// The frame is no answer: keep listening.
    Wait,
    /// The pixel has the wanted colour already: go on to the next.
    Skip,
    /// Send this request for a challenge.
    Request(Vec<u8>),
}

/// What is to be mined and sent for one pixel.
#[derive(Clone, Copy, Debug, PartialEq, Eq)]
pub struct PixelWork {
    /// The message of the pixel transaction.
    pub message: [u8; 33],
    /// The identifier that the pixel transaction mints.
    pub id: [u8; 32],
    /// The hash of the block at the head of the chain.
    pub block_head_hash: BlockHash,
    /// Where in the frame the payment transaction begins.
    pub transaction_at: usize,
}

/// The two coordinates of a position, each most significant byte first.
pub fn coordinate_bytes(x: u16, y: u16) -> (r: [u8; 4])
    ensures
        r@ == coordinates(x, y),
{
    let r = [(x / 0x100) as u8, (x % 0x100) as u8, (y / 0x100) as u8, (y % 0x100) as u8];
    assert(r@ =~= coordinates(x, y));
    r
}

/// The frame that asks for the colour at a position.
pub fn pixel_query(x: u16, y: u16) -> (r: Vec<u8>)
    ensures
        r@ == seq![OP_GET_PIXEL] + coordinates(x, y),
{
    let mut r: Vec<u8> = Vec::new();
    r.push(OP_GET_PIXEL);
    append_bytes(&mut r, &coordinate_bytes(x, y));
    r
}

/// The frame that asks for a challenge for a position, for `pk` to mine.
pub fn challenge_request(x: u16, y: u16, pk: &PublicKey) -> (r: Vec<u8>)
    ensures
        r@ == seq![OP_GET_CHALLENGE] + coordinates(x, y) + pk@,
{
    let mut r: Vec<u8> = Vec::new();
    r.push(OP_GET_CHALLENGE);
    append_bytes(&mut r, &coordinate_bytes(x, y));
    append_bytes(&mut r, &pk.serialize());
    r
}

/// The frame that hands in a mined pixel transaction with its payment.
pub fn submission(pixel_transaction: &[u8], payment_transaction: &[u8]) -> (r: Vec<u8>)
    ensures
        r@ == seq![OP_SUBMIT] + pixel_transaction@ + payment_transaction@,
{
    let mut r: Vec<u8> = Vec::new();
    r.push(OP_SUBMIT);
    append_bytes(&mut r, pixel_transaction);
    append_bytes(&mut r, payment_transaction);
    r
}

/// The colour that a frame reports, where it reports one.
pub fn read_pixel_color(frame: &[u8]) -> (r: Option<u8>)
    ensures
        r == if frame@.len() >= 2 && frame@[0] == OP_PIXEL_COLOR {
            Some(frame@[1])
        } else {
            None
        },
{
    if frame.len() >= 2 && frame[0] == OP_PIXEL_COLOR {
        Some(frame[1])
    } else {
        None
    }
}

/// The challenge that a frame holds, where it holds one.
pub fn read_challenge(frame: &[u8]) -> (r: Option<Challenge>)
    ensures
        match r {
            Some(c) => {
                &&& frame@.len() >= CHALLENGE_HEAD_SIZE
                &&& frame@[0] == OP_CHALLENGE
                &&& c.back_hash@ == frame@.subrange(1, 29)
                &&& c.block_head_hash@ == frame@.subrange(29, 61)
                &&& c.transaction_at == CHALLENGE_HEAD_SIZE
            },
            None => frame@.len() < CHALLENGE_HEAD_SIZE || frame@[0] != OP_CHALLENGE,
        },
{
    if frame.len() < CHALLENGE_HEAD_SIZE || frame[0] != OP_CHALLENGE {
        return None;
    }
    let mut back_hash = [0u8; 28];
    copy_from(&mut back_hash, frame, 1);
    let mut head = [0u8; 32];
    copy_from(&mut head, frame, 29);
    Some(
        Challenge {
            back_hash,
            block_head_hash: BlockHash::new(head),
            transaction_at: CHALLENGE_HEAD_SIZE,
        },
    )
}

/// What to do after `frame`, when the colour of `pixel`'s position was
/// asked for: wait where the frame is no answer, skip the pixel where it
/// has the wanted colour, else ask for a challenge.
pub fn after_color(frame: &[u8], pixel: Pixel, pk: &PublicKey) -> (r: ColorStep)
    ensures
        match r {
            ColorStep::Wait => frame@.len() < 2 || frame@[0] != OP_PIXEL_COLOR,
            ColorStep::Skip => frame@.len() >= 2 && frame@[0] == OP_PIXEL_COLOR && frame@[1]
                == pixel.color,
            ColorStep::Request(bytes) => {
                &&& frame@.len() >= 2 && frame@[0] == OP_PIXEL_COLOR && frame@[1] != pixel.color
                &&& bytes@ == seq![OP_GET_CHALLENGE] + coordinates(pixel.x, pixel.y) + pk@
            },
        },
{
    match read_pixel_color(frame) {
        None => ColorStep::Wait,
        Some(color) => if color == pixel.color {
            ColorStep::Skip
        } else {
            ColorStep::Request(challenge_request(pixel.x, pixel.y, pk))
        },
    }
}

/// What is to be mined after `frame`, when a challenge for `pixel` was
/// asked for: nothing yet where the frame is no challenge, else the message
/// that sets the pixel on top of the challenge's pixel hash, and the
/// identifier that it mints.
pub fn after_challenge(frame: &[u8], pixel: Pixel) -> (r: Option<PixelWork>)
    ensures
        match r {
            Some(w) => {
                &&& frame@.len() >= CHALLENGE_HEAD_SIZE
                &&& frame@[0] == OP_CHALLENGE
                &&& w.message@ == pixel_message(frame@.subrange(1, 29), pixel)
                &&& w.id@ == sha3_256(w.message@)
                &&& w.block_head_hash@ == frame@.subrange(29, 61)
                &&& w.transaction_at == CHALLENGE_HEAD_SIZE
            },
            None => frame@.len() < CHALLENGE_HEAD_SIZE || frame@[0] != OP_CHALLENGE,
        },
{
    match read_challenge(frame) {
        None => None,
        Some(challenge) => {
            let message = base_message(&challenge.back_hash, pixel);
            let id = message_id(&message);
            Some(
                PixelWork {
                    message,
                    id,
                    block_head_hash: challenge.block_head_hash,
                    transaction_at: challenge.transaction_at,
                },
            )
        },
    }
}

} // verus!
