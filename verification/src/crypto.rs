//! The cryptographic primitives: SHA-256 for what is signed, SHA3 for block
//! and pixel hashes, ECDSA over secp256k1. Each is a call into the crate that
//! implements it; what is stated of a call here is believed, not proved.

use secp256k1::{Message, Secp256k1};
use sha2::{Digest, Sha256};
use sha3::{Sha3_224, Sha3_256};
use vstd::prelude::*;

verus! {

/// Length of a SHA-256 or SHA3-256 digest.
pub const HASH_SIZE: usize = 32;

/// Length of a SHA3-224 digest.
pub const PIXEL_HASH_SIZE: usize = 28;

/// Length of a compressed public key.
pub const PUBLIC_KEY_SIZE: usize = 33;

/// Length of a secret key.
pub const SECRET_KEY_SIZE: usize = 32;

/// Length of a signature in compact form.
pub const SIGNATURE_SIZE: usize = 64;

/// The number that a byte string stands for, most significant byte first.
pub open spec fn be_nat(bytes: Seq<u8>) -> nat
    decreases bytes.len(),
{
    if bytes.len() == 0 {
        0
    } else {
        be_nat(bytes.drop_last()) * 256 + bytes.last() as nat
    }
}

/// The order of the secp256k1 group.
pub open spec fn curve_order() -> nat {
    0xFFFFFFFFFFFFFFFFFFFFFFFFFFFFFFFEBAAEDCE6AF48A03BBFD25E8CD0364141nat
}

/// The SHA-256 digest of `data`.
pub uninterp spec fn sha256(data: Seq<u8>) -> Seq<u8>;

/// The SHA3-256 digest of `data`.
pub uninterp spec fn sha3_256(data: Seq<u8>) -> Seq<u8>;

/// The SHA3-224 digest of `data`.
pub uninterp spec fn sha3_224(data: Seq<u8>) -> Seq<u8>;

/// Whether 33 bytes are the compressed form of a point on the curve.
pub uninterp spec fn public_key_valid(bytes: Seq<u8>) -> bool;

/// The compressed public key that belongs to a secret key.
pub uninterp spec fn public_key_of(secret: Seq<u8>) -> Seq<u8>;

/// The deterministic signature of a 32-byte digest under a secret key.
pub uninterp spec fn ecdsa_signature(digest: Seq<u8>, secret: Seq<u8>) -> Seq<u8>;

/// Whether a signature is a correct low-S signature of a digest under a
/// public key.
pub uninterp spec fn ecdsa_verifies(digest: Seq<u8>, signature: Seq<u8>, key: Seq<u8>) -> bool;

/// A secret key is 32 bytes that stand for a number from 1 to the group
/// order less 1.
pub open spec fn secret_key_valid(bytes: Seq<u8>) -> bool {
    bytes.len() == 32 && 0 < be_nat(bytes) < curve_order()
}

/// A compact signature is two 32-byte numbers, each below the group order.
pub open spec fn signature_valid(bytes: Seq<u8>) -> bool {
    &&& bytes.len() == 64
    &&& be_nat(bytes.subrange(0, 32)) < curve_order()
    &&& be_nat(bytes.subrange(32, 64)) < curve_order()
}

/// The number that a hexadecimal digit stands for, in either case.
pub open spec fn hex_value(digit: u8) -> Option<u8> {
    if 0x30 <= digit <= 0x39 {
        Some((digit - 0x30) as u8)
    } else if 0x61 <= digit <= 0x66 {
        Some((digit - 0x61 + 10) as u8)
    } else if 0x41 <= digit <= 0x46 {
        Some((digit - 0x41 + 10) as u8)
    } else {
        None
    }
}

/// The bytes that a text of hexadecimal digits stands for, two digits to a
/// byte: none where the digits are odd in number or one is no digit.
pub open spec fn hex_decoding(text: Seq<u8>) -> Option<Seq<u8>>
    decreases text.len(),
{
    if text.len() % 2 != 0 {
        None
    } else if text.len() == 0 {
        Some(Seq::empty())
    } else {
        match (hex_value(text[0]), hex_value(text[1]), hex_decoding(text.skip(2))) {
            (Some(high), Some(low), Some(rest)) => Some(seq![(high * 16 + low) as u8] + rest),
            _ => None,
        }
    }
}

/// `hex::decode`: two digits to a byte, in either case; it fails where the
/// digits are odd in number or one is no digit.
#[verifier::external_body]
pub(crate) fn hex_decode(text: &[u8]) -> (r: Option<Vec<u8>>)
    ensures
        match hex_decoding(text@) {
            Some(bytes) => r matches Some(v) && v@ == bytes,
            None => r is None,
        },
{
    hex::decode(text).ok()
}

/// `sha2::Sha256::digest`: the digest is a function of the input alone.
#[verifier::external_body]
pub(crate) fn sha256_digest(data: &[u8]) -> (r: [u8; 32])
    ensures
        r@ == sha256(data@),
{
    let mut out = [0u8; 32];
    out.copy_from_slice(&Sha256::digest(data));
    out
}

/// `sha3::Sha3_256::digest`: the digest is a function of the input alone.
#[verifier::external_body]
pub(crate) fn sha3_256_digest(data: &[u8]) -> (r: [u8; 32])
    ensures
        r@ == sha3_256(data@),
{
    let mut out = [0u8; 32];
    out.copy_from_slice(&Sha3_256::digest(data));
    out
}

/// `sha3::Sha3_224::digest`: the digest is a function of the input alone.
#[verifier::external_body]
pub(crate) fn sha3_224_digest(data: &[u8]) -> (r: [u8; 28])
    ensures
        r@ == sha3_224(data@),
{
    let mut out = [0u8; 28];
    out.copy_from_slice(&Sha3_224::digest(data));
    out
}

/// `secp256k1::PublicKey::from_slice` on 33 bytes: whether it accepts them
/// is a function of the bytes alone, and what it accepts opens with the
/// header byte of the compressed form.
#[verifier::external_body]
pub(crate) fn secp_public_key_parses(bytes: &[u8; 33]) -> (r: bool)
    ensures
        r == public_key_valid(bytes@),
        r ==> bytes@[0] == 2 || bytes@[0] == 3,
{
    secp256k1::PublicKey::from_slice(bytes).is_ok()
}

/// `secp256k1::SecretKey::from_slice`: it accepts exactly the 32-byte
/// strings that stand for a number from 1 to the group order less 1.
#[verifier::external_body]
pub(crate) fn secp_secret_key_parses(bytes: &[u8]) -> (r: bool)
    ensures
        r == secret_key_valid(bytes@),
{
    secp256k1::SecretKey::from_slice(bytes).is_ok()
}

/// `secp256k1::Signature::from_compact`: it accepts exactly the 64-byte
/// strings whose two halves each stand for a number below the group order.
#[verifier::external_body]
pub(crate) fn secp_signature_parses(bytes: &[u8]) -> (r: bool)
    ensures
        r == signature_valid(bytes@),
{
    secp256k1::Signature::from_compact(bytes).is_ok()
}

/// `secp256k1::PublicKey::from_secret_key`, serialized in compressed form:
/// a function of the secret key alone, and itself a valid public key under
/// the header byte of the compressed form.
#[verifier::external_body]
pub(crate) fn secp_public_key_from_secret(secret: &[u8; 32]) -> (r: [u8; 33])
    requires
        secret_key_valid(secret@),
    ensures
        r@ == public_key_of(secret@),
        public_key_valid(r@),
        r@[0] == 2 || r@[0] == 3,
{
    let sk = secp256k1::SecretKey::from_slice(secret).unwrap();
    secp256k1::PublicKey::from_secret_key(&Secp256k1::new(), &sk).serialize()
}

/// `secp256k1::Secp256k1::sign` with the RFC 6979 nonce, serialized in
/// compact form: a function of digest and secret key alone, itself a valid
/// compact signature, and one that `verify` accepts for the same digest
/// under the public key of the secret key.
#[verifier::external_body]
pub(crate) fn secp_sign(digest: &[u8; 32], secret: &[u8; 32]) -> (r: [u8; 64])
    requires
        secret_key_valid(secret@),
    ensures
        r@ == ecdsa_signature(digest@, secret@),
        signature_valid(r@),
        ecdsa_verifies(digest@, r@, public_key_of(secret@)),
{
    let msg = Message::from_slice(digest).unwrap();
    let sk = secp256k1::SecretKey::from_slice(secret).unwrap();
    Secp256k1::new().sign(&msg, &sk).serialize_compact()
}

/// `secp256k1::Secp256k1::verify`: the verdict is a function of digest,
/// signature and public key alone.
#[verifier::external_body]
pub(crate) fn secp_verify(digest: &[u8; 32], signature: &[u8; 64], key: &[u8; 33]) -> (r: bool)
    requires
        signature_valid(signature@),
        public_key_valid(key@),
    ensures
        r == ecdsa_verifies(digest@, signature@, key@),
{
    let msg = Message::from_slice(digest).unwrap();
    let sig = secp256k1::Signature::from_compact(signature).unwrap();
    let pk = secp256k1::PublicKey::from_slice(key).unwrap();
    Secp256k1::new().verify(&msg, &sig, &pk).is_ok()
}

} // verus!
