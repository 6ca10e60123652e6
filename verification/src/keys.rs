//! Keys and signatures, held as the bytes of their canonical encodings.

use crate::bytes::{bytes_equal, copy_from, has_room, write_bytes};
use crate::crypto::{
    hex_decode, hex_decoding, ecdsa_signature, ecdsa_verifies, public_key_of, public_key_valid, secp_public_key_from_secret,
    secp_public_key_parses, secp_secret_key_parses, secp_sign, secp_signature_parses, secp_verify,
    secret_key_valid, signature_valid,
};
use crate::error::{CodecError, CryptoError, Error};
use crate::serialize::Serialize;
use vstd::prelude::*;

verus! {

/// A point on the curve, in compressed form.
#[derive(Clone, Copy, Debug, PartialEq, Eq)]
pub struct PublicKey {
    bytes: [u8; 33],
}

/// A number from 1 to the group order less 1, as 32 bytes.
#[derive(Clone, Copy, Debug, PartialEq, Eq)]
pub struct SecretKey {
    bytes: [u8; 32],
}

/// An ECDSA signature in compact form.
#[derive(Clone, Copy, Debug, PartialEq, Eq)]
pub struct Signature {
    bytes: [u8; 64],
}

impl PublicKey {
    /// Whether two values have the same bytes.
    pub fn same(&self, other: &PublicKey) -> (r: bool)
        ensures
            r == (self@ == other@),
    {
        bytes_equal(&self.bytes, &other.bytes)
    }

    /// Every public key is a point on the curve.
    #[verifier::type_invariant]
    pub open spec fn inv(self) -> bool {
        self@.len() == 33 && public_key_valid(self@) && (self@[0] == 2 || self@[0] == 3)
    }

    /// The 33 bytes of the compressed form.
    pub closed spec fn view(&self) -> Seq<u8> {
        self.bytes@
    }

    /// A public key is 33 bytes.
    pub proof fn lemma_view_len(&self)
        ensures
            self@.len() == 33,
    {
    }

    /// The public key that a text of 66 hexadecimal digits names.
    pub fn from_hex(text: &[u8]) -> (r: Result<PublicKey, Error>)
        ensures
            match hex_decoding(text@) {
                None => r == Err::<PublicKey, Error>(Error::Codec(CodecError::Malformed)),
                Some(bytes) => match PublicKey::decoding(bytes) {
                    Ok((m, _)) => r matches Ok(k) && k@ == m && k.wf(),
                    Err(e) => r == Err::<PublicKey, Error>(e),
                },
            },
    {
        let bytes = match hex_decode(text) {
            Some(bytes) => bytes,
            None => {
                return Err(Error::Codec(CodecError::Malformed));
            },
        };
        let mut at: usize = 0;
        assert(bytes@.skip(0) =~= bytes@);
        PublicKey::from_serialized(bytes.as_slice(), &mut at)
    }

    /// The public key that belongs to `secret`.
    pub fn from_secret_key(secret: &SecretKey) -> (r: PublicKey)
        ensures
            r@ == public_key_of(secret@),
            r.wf(),
    {
        proof {
            use_type_invariant(secret);
        }
        PublicKey { bytes: secp_public_key_from_secret(&secret.bytes) }
    }

    /// The compressed form.
    pub fn serialize(&self) -> (r: [u8; 33])
        ensures
            r@ == self@,
    {
        self.bytes
    }
}

impl SecretKey {
    /// Whether two values have the same bytes.
    pub fn same(&self, other: &SecretKey) -> (r: bool)
        ensures
            r == (self@ == other@),
    {
        bytes_equal(&self.bytes, &other.bytes)
    }

    /// Every secret key is a number that a key may be.
    #[verifier::type_invariant]
    pub open spec fn inv(self) -> bool {
        secret_key_valid(self@)
    }

    /// The 32 bytes of the key.
    pub closed spec fn view(&self) -> Seq<u8> {
        self.bytes@
    }

    /// The 32 bytes of the key.
    pub fn serialize(&self) -> (r: [u8; 32])
        ensures
            r@ == self@,
    {
        self.bytes
    }
}

impl Signature {
    /// Whether two values have the same bytes.
    pub fn same(&self, other: &Signature) -> (r: bool)
        ensures
            r == (self@ == other@),
    {
        bytes_equal(&self.bytes, &other.bytes)
    }

    /// Every signature is two numbers below the group order.
    #[verifier::type_invariant]
    pub open spec fn inv(self) -> bool {
        signature_valid(self@)
    }

    /// The 64 bytes of the compact form.
    pub closed spec fn view(&self) -> Seq<u8> {
        self.bytes@
    }

    /// A signature is 64 bytes.
    pub proof fn lemma_view_len(&self)
        ensures
            self@.len() == 64,
    {
    }

    /// The compact form.
    pub fn serialize_compact(&self) -> (r: [u8; 64])
        ensures
            r@ == self@,
    {
        self.bytes
    }

    /// The signature of `digest` under `secret`. It verifies under the
    /// public key of `secret`.
    pub fn sign(digest: &[u8; 32], secret: &SecretKey) -> (r: Signature)
        ensures
            r@ == ecdsa_signature(digest@, secret@),
            r.wf(),
            ecdsa_verifies(digest@, r@, public_key_of(secret@)),
    {
        proof {
            use_type_invariant(secret);
        }
        Signature { bytes: secp_sign(digest, &secret.bytes) }
    }

    /// Whether this is a correct signature of `digest` under `key`.
    pub fn verify(&self, digest: &[u8; 32], key: &PublicKey) -> (r: bool)
        ensures
            r == ecdsa_verifies(digest@, self@, key@),
    {
        proof {
            use_type_invariant(self);
            use_type_invariant(key);
        }
        secp_verify(digest, &self.bytes, &key.bytes)
    }
}

impl Serialize for PublicKey {
    type Model = Seq<u8>;

    open spec fn model(&self) -> Seq<u8> {
        self@
    }

    /// A point on the curve, under the header byte of the compressed form.
    open spec fn wf(&self) -> bool {
        self@.len() == 33 && public_key_valid(self@) && (self@[0] == 2 || self@[0] == 3)
    }

    open spec fn encodable(&self) -> bool {
        true
    }

    open spec fn encoding(&self) -> Seq<u8> {
        self@
    }

    open spec fn decoding(data: Seq<u8>) -> Result<(Seq<u8>, nat), Error> {
        if data.len() < 33 {
            Err(Error::Codec(CodecError::Truncated))
        } else if !public_key_valid(data.subrange(0, 33)) {
            Err(Error::Crypto(CryptoError::BadKey))
        } else {
            Ok((data.subrange(0, 33), 33))
        }
    }

    proof fn lemma_round_trip(&self, rest: Seq<u8>) {
        assert((self@ + rest).subrange(0, 33) =~= self@);
    }

    proof fn lemma_model_determines(&self, other: &Self) {
    }

    fn from_serialized(data: &[u8], i: &mut usize) -> (r: Result<PublicKey, Error>) {
        let ghost expected = PublicKey::decoding(data@.skip(*i as int));
        if !has_room(data.len(), *i, 33) {
            return Err(Error::Codec(CodecError::Truncated));
        }
        let mut bytes = [0u8; 33];
        copy_from(&mut bytes, data, *i);
        assert(data@.skip(*i as int).subrange(0, 33) =~= bytes@);
        if !secp_public_key_parses(&bytes) {
            return Err(Error::Crypto(CryptoError::BadKey));
        }
        *i += 33;
        let value = PublicKey { bytes };
        assert(value.wf() && expected == Ok::<(Seq<u8>, nat), Error>((value.model(), 33)));
        Ok(value)
    }

    fn serialize_into(&self, buffer: &mut [u8], i: &mut usize) -> (r: Result<usize, Error>)
        ensures
            r matches Err(e) ==> e == Error::Codec(CodecError::Truncated),
    {
        if !has_room(buffer.len(), *i, 33) {
            return Err(Error::Codec(CodecError::Truncated));
        }
        assert(self.encodable() && self.encoding() == self@);
        write_bytes(buffer, *i, &self.bytes);
        *i += 33;
        Ok(33)
    }

    fn serialized_len(&self) -> (n: usize) {
        assert(self.encoding().len() == 33);
        33
    }
}

impl Serialize for SecretKey {
    type Model = Seq<u8>;

    open spec fn model(&self) -> Seq<u8> {
        self@
    }

    open spec fn wf(&self) -> bool {
        secret_key_valid(self@)
    }

    open spec fn encodable(&self) -> bool {
        true
    }

    open spec fn encoding(&self) -> Seq<u8> {
        self@
    }

    open spec fn decoding(data: Seq<u8>) -> Result<(Seq<u8>, nat), Error> {
        if data.len() < 32 {
            Err(Error::Codec(CodecError::Truncated))
        } else if !secret_key_valid(data.subrange(0, 32)) {
            Err(Error::Crypto(CryptoError::BadKey))
        } else {
            Ok((data.subrange(0, 32), 32))
        }
    }

    proof fn lemma_round_trip(&self, rest: Seq<u8>) {
        assert((self@ + rest).subrange(0, 32) =~= self@);
    }

    proof fn lemma_model_determines(&self, other: &Self) {
    }

    fn from_serialized(data: &[u8], i: &mut usize) -> (r: Result<SecretKey, Error>) {
        let ghost expected = SecretKey::decoding(data@.skip(*i as int));
        if !has_room(data.len(), *i, 32) {
            return Err(Error::Codec(CodecError::Truncated));
        }
        let mut bytes = [0u8; 32];
        copy_from(&mut bytes, data, *i);
        assert(data@.skip(*i as int).subrange(0, 32) =~= bytes@);
        if !secp_secret_key_parses(&bytes) {
            return Err(Error::Crypto(CryptoError::BadKey));
        }
        *i += 32;
        let value = SecretKey { bytes };
        assert(value.wf() && expected == Ok::<(Seq<u8>, nat), Error>((value.model(), 32)));
        Ok(value)
    }

    fn serialize_into(&self, buffer: &mut [u8], i: &mut usize) -> (r: Result<usize, Error>)
        ensures
            r matches Err(e) ==> e == Error::Codec(CodecError::Truncated),
    {
        if !has_room(buffer.len(), *i, 32) {
            return Err(Error::Codec(CodecError::Truncated));
        }
        assert(self.encodable() && self.encoding() == self@);
        write_bytes(buffer, *i, &self.bytes);
        *i += 32;
        Ok(32)
    }

    fn serialized_len(&self) -> (n: usize) {
        assert(self.encoding().len() == 32);
        32
    }
}

impl Serialize for Signature {
    type Model = Seq<u8>;

    open spec fn model(&self) -> Seq<u8> {
        self@
    }

    open spec fn wf(&self) -> bool {
        signature_valid(self@)
    }

    open spec fn encodable(&self) -> bool {
        true
    }

    open spec fn encoding(&self) -> Seq<u8> {
        self@
    }

    open spec fn decoding(data: Seq<u8>) -> Result<(Seq<u8>, nat), Error> {
        if data.len() < 64 {
            Err(Error::Codec(CodecError::Truncated))
        } else if !signature_valid(data.subrange(0, 64)) {
            Err(Error::Crypto(CryptoError::BadSignature))
        } else {
            Ok((data.subrange(0, 64), 64))
        }
    }

    proof fn lemma_round_trip(&self, rest: Seq<u8>) {
        assert((self@ + rest).subrange(0, 64) =~= self@);
    }

    proof fn lemma_model_determines(&self, other: &Self) {
    }

    fn from_serialized(data: &[u8], i: &mut usize) -> (r: Result<Signature, Error>) {
        let ghost expected = Signature::decoding(data@.skip(*i as int));
        if !has_room(data.len(), *i, 64) {
            return Err(Error::Codec(CodecError::Truncated));
        }
        let mut bytes = [0u8; 64];
        copy_from(&mut bytes, data, *i);
        assert(data@.skip(*i as int).subrange(0, 64) =~= bytes@);
        if !secp_signature_parses(&bytes) {
            return Err(Error::Crypto(CryptoError::BadSignature));
        }
        *i += 64;
        let value = Signature { bytes };
        assert(value.wf() && expected == Ok::<(Seq<u8>, nat), Error>((value.model(), 64)));
        Ok(value)
    }

    fn serialize_into(&self, buffer: &mut [u8], i: &mut usize) -> (r: Result<usize, Error>)
        ensures
            r matches Err(e) ==> e == Error::Codec(CodecError::Truncated),
    {
        if !has_room(buffer.len(), *i, 64) {
            return Err(Error::Codec(CodecError::Truncated));
        }
        assert(self.encodable() && self.encoding() == self@);
        write_bytes(buffer, *i, &self.bytes);
        *i += 64;
        Ok(64)
    }

    fn serialized_len(&self) -> (n: usize) {
        assert(self.encoding().len() == 64);
        64
    }
}

} // verus!
