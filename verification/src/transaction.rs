//! What a transfer carries, the transfer itself, and the signed group of
//! transfers that a block holds.

use crate::bytes::{has_room, lemma_splice_append};
use crate::crypto::public_key_valid;
use crate::error::{CodecError, CryptoError, Error, LedgerError};
use crate::keys::PublicKey;
use crate::serialize::{splice, Serialize};
use crate::user_id::{lemma_user_id_bytes_round_trip, UserId};
use vstd::prelude::*;

verus! {

/// One more than the largest amount that a coin transfer can carry.
pub const COIN_LIMIT: i32 = 0x80_0000;

/// What a transfer carries: a non-negative amount of dust together with the
/// fee it pays, or the negative of an identifier.
#[derive(Clone, Copy, Debug, PartialEq, Eq, Structural)]
pub struct TransactionValue {
    value: i32,
    fee: Option<u8>,
}

/// The signed 32-bit number that four bytes stand for, most significant
/// byte first.
pub open spec fn be_i32(b0: u8, b1: u8, b2: u8, b3: u8) -> int {
    let raw = b0 * 0x100_0000 + b1 * 0x1_0000 + b2 * 0x100 + b3;
    if raw >= 0x8000_0000 {
        raw - 0x1_0000_0000
    } else {
        raw
    }
}

/// The four bytes that stand for a signed 32-bit number, most significant
/// byte first.
pub open spec fn i32_bytes(v: int) -> Seq<u8> {
    let raw = if v < 0 {
        v + 0x1_0000_0000
    } else {
        v
    };
    seq![
        (raw / 0x100_0000) as u8,
        (raw / 0x1_0000 % 0x100) as u8,
        (raw / 0x100 % 0x100) as u8,
        (raw % 0x100) as u8,
    ]
}

/// The four bytes taken from a 32-bit number put it together again.
pub proof fn lemma_quad_of_raw(raw: u32)
    by (bit_vector)
    ensures
        raw / 0x100_0000 < 0x100,
        (raw / 0x100_0000) * 0x100_0000 + (raw / 0x1_0000 % 0x100) * 0x1_0000 + (raw / 0x100
            % 0x100) * 0x100 + raw % 0x100 == raw,
{
}

/// The 32-bit number put together from four bytes gives them back.
pub proof fn lemma_raw_of_quad(b0: u8, b1: u8, b2: u8, b3: u8, raw: u32)
    by (bit_vector)
    requires
        raw == b0 * 0x100_0000 + b1 * 0x1_0000 + b2 * 0x100 + b3,
    ensures
        raw / 0x100_0000 == b0,
        raw / 0x1_0000 % 0x100 == b1,
        raw / 0x100 % 0x100 == b2,
        raw % 0x100 == b3,
{
}

impl TransactionValue {
    /// A value with this amount or negated identifier, and this fee.
    pub fn new(value: i32, fee: Option<u8>) -> (r: TransactionValue)
        ensures
            r.raw_value() == value,
            r.raw_fee() == fee,
    {
        TransactionValue { value, fee }
    }

    /// The amount with its fee, or the negative of the identifier.
    pub closed spec fn raw_value(&self) -> i32 {
        self.value
    }

    /// The fee, where there is one.
    pub closed spec fn raw_fee(&self) -> Option<u8> {
        self.fee
    }

    /// A coin transfer has an amount and a fee.
    pub open spec fn is_coin(&self) -> bool {
        self.raw_value() >= 0 && self.raw_fee() is Some
    }

    /// An identifier transfer has neither.
    pub open spec fn is_id(&self) -> bool {
        self.raw_value() < 0 && self.raw_fee() is None
    }

    /// The dust that reaches the receiver: the amount less the fee.
    pub open spec fn net(&self) -> int {
        self.raw_value() - self.raw_fee().unwrap()
    }

    /// The value that four bytes read as.
    pub open spec fn from_quad(b0: u8, b1: u8, b2: u8, b3: u8) -> TransactionValue {
        let raw = be_i32(b0, b1, b2, b3);
        if raw >= 0 {
            TransactionValue::make((raw / 0x100) as i32, Some((raw % 0x100) as u8))
        } else {
            TransactionValue::make(raw as i32, None)
        }
    }

    /// The value with these fields.
    pub closed spec fn make(value: i32, fee: Option<u8>) -> TransactionValue {
        TransactionValue { value, fee }
    }

    /// The value with given fields has those fields.
    pub proof fn lemma_make(value: i32, fee: Option<u8>)
        ensures
            #![trigger TransactionValue::make(value, fee)]
            TransactionValue::make(value, fee).raw_value() == value,
            TransactionValue::make(value, fee).raw_fee() == fee,
    {
    }

    /// Why a value has no encoding, if it has none.
    pub open spec fn fault(&self) -> Option<Error> {
        if !self.is_coin() && !self.is_id() {
            Some(Error::Codec(CodecError::Malformed))
        } else if self.is_coin() && self.raw_value() >= COIN_LIMIT {
            Some(Error::Codec(CodecError::OutOfRange))
        } else {
            None
        }
    }

    /// Why this value has no encoding, if it has none.
    pub fn check(&self) -> (r: Option<Error>)
        ensures
            r == self.fault(),
    {
        match self.is_coin_transfer() {
            Err(e) => Some(e),
            Ok(coin) => if coin && self.value >= COIN_LIMIT {
                Some(Error::Codec(CodecError::OutOfRange))
            } else {
                None
            },
        }
    }

    /// Whether this is a coin transfer, an error where amount and fee do not
    /// agree on it.
    pub fn is_coin_transfer(&self) -> (r: Result<bool, Error>)
        ensures
            r == if self.is_coin() {
                Ok::<bool, Error>(true)
            } else if self.is_id() {
                Ok::<bool, Error>(false)
            } else {
                Err::<bool, Error>(Error::Codec(CodecError::Malformed))
            },
    {
        if self.value >= 0 {
            match self.fee {
                Some(_) => Ok(true),
                None => Err(Error::Codec(CodecError::Malformed)),
            }
        } else {
            match self.fee {
                Some(_) => Err(Error::Codec(CodecError::Malformed)),
                None => Ok(false),
            }
        }
    }

    /// The dust that reaches the receiver.
    pub fn get_value(&self) -> (r: Result<u32, Error>)
        ensures
            r == if self.is_coin() && self.net() >= 0 {
                Ok::<u32, Error>(self.net() as u32)
            } else if self.is_coin() || self.is_id() {
                Err::<u32, Error>(Error::Ledger(LedgerError::ValueMismatch))
            } else {
                Err::<u32, Error>(Error::Codec(CodecError::Malformed))
            },
    {
        if self.is_coin_transfer()? {
            let fee = self.fee.unwrap() as u32;
            let value = self.value as u32;
            if fee <= value {
                return Ok(value - fee);
            }
        }
        Err(Error::Ledger(LedgerError::ValueMismatch))
    }

    /// The fee that a coin transfer pays.
    pub fn get_fee(&self) -> (r: Result<u32, Error>)
        ensures
            r == if self.is_coin() {
                Ok::<u32, Error>(self.raw_fee().unwrap() as u32)
            } else if self.is_id() {
                Err::<u32, Error>(Error::Ledger(LedgerError::ValueMismatch))
            } else {
                Err::<u32, Error>(Error::Codec(CodecError::Malformed))
            },
    {
        if self.is_coin_transfer()? {
            return Ok(self.fee.unwrap() as u32);
        }
        Err(Error::Ledger(LedgerError::ValueMismatch))
    }

    /// The identifier that an identifier transfer hands over.
    pub fn get_id(self) -> (r: Result<u32, Error>)
        ensures
            r == if self.is_id() {
                Ok::<u32, Error>((-self.raw_value()) as u32)
            } else if self.is_coin() {
                Err::<u32, Error>(Error::Ledger(LedgerError::ValueMismatch))
            } else {
                Err::<u32, Error>(Error::Codec(CodecError::Malformed))
            },
    {
        if !self.is_coin_transfer()? {
            return Ok((-(self.value as i64)) as u32);
        }
        Err(Error::Ledger(LedgerError::ValueMismatch))
    }
}

impl Serialize for TransactionValue {
    type Model = TransactionValue;

    open spec fn model(&self) -> TransactionValue {
        *self
    }

    open spec fn wf(&self) -> bool {
        self.encodable()
    }

    /// A coin amount has 23 bits beside the 8 of its fee; an identifier
    /// fills the 31 bits under the sign.
    open spec fn encodable(&self) -> bool {
        (self.is_coin() && self.raw_value() < COIN_LIMIT) || self.is_id()
    }

    open spec fn encoding(&self) -> Seq<u8> {
        if self.raw_value() >= 0 {
            i32_bytes(self.raw_value() * 0x100 + self.raw_fee().unwrap())
        } else {
            i32_bytes(self.raw_value() as int)
        }
    }

    open spec fn decoding(data: Seq<u8>) -> Result<(TransactionValue, nat), Error> {
        if data.len() < 4 {
            Err(Error::Codec(CodecError::Truncated))
        } else {
            Ok((TransactionValue::from_quad(data[0], data[1], data[2], data[3]), 4))
        }
    }

    proof fn lemma_round_trip(&self, rest: Seq<u8>) {
        let bytes = self.encoding() + rest;
        let enc = self.encoding();
        assert(bytes[0] == enc[0]);
        assert(bytes[1] == enc[1]);
        assert(bytes[2] == enc[2]);
        assert(bytes[3] == enc[3]);
        let raw: int = if self.value >= 0 {
            self.value * 0x100 + self.fee.unwrap()
        } else {
            self.value + 0x1_0000_0000
        };
        assert(0 <= raw < 0x1_0000_0000);
        lemma_quad_of_raw(raw as u32);
        assert(be_i32(enc[0], enc[1], enc[2], enc[3]) == if self.value >= 0 {
            raw
        } else {
            raw - 0x1_0000_0000
        });
        TransactionValue::lemma_make(self.value, self.fee);
    }

    proof fn lemma_model_determines(&self, other: &Self) {
    }

    fn from_serialized(data: &[u8], i: &mut usize) -> (r: Result<TransactionValue, Error>) {
        let ghost expected = TransactionValue::decoding(data@.skip(*i as int));
        if !has_room(data.len(), *i, 4) {
            return Err(Error::Codec(CodecError::Truncated));
        }
        let raw: u32 = (data[*i] as u32) * 0x100_0000 + (data[*i + 1] as u32) * 0x1_0000 + (data[*i
            + 2] as u32) * 0x100 + (data[*i + 3] as u32);
        let v = if raw < 0x8000_0000 {
            TransactionValue { value: (raw / 0x100) as i32, fee: Some((raw % 0x100) as u8) }
        } else {
            TransactionValue { value: (raw as i64 - 0x1_0000_0000) as i32, fee: None }
        };
        *i += 4;
        assert(v.wf() && expected == Ok::<(TransactionValue, nat), Error>((v.model(), 4)));
        Ok(v)
    }

    fn serialize_into(&self, buffer: &mut [u8], i: &mut usize) -> (r: Result<usize, Error>)
        ensures
            r matches Err(e) ==> e == match self.fault() {
                Some(f) => f,
                None => Error::Codec(CodecError::Truncated),
            },
    {
        if let Some(e) = self.check() {
            return Err(e);
        }
        let coin = self.value >= 0;
        if !has_room(buffer.len(), *i, 4) {
            return Err(Error::Codec(CodecError::Truncated));
        }
        let raw: u32 = if coin {
            (self.value as u32) * 0x100 + (self.fee.unwrap() as u32)
        } else {
            (self.value as i64 + 0x1_0000_0000) as u32
        };
        buffer[*i] = (raw / 0x100_0000) as u8;
        buffer[*i + 1] = (raw / 0x1_0000 % 0x100) as u8;
        buffer[*i + 2] = (raw / 0x100 % 0x100) as u8;
        buffer[*i + 3] = (raw % 0x100) as u8;
        assert(self.encodable());
        assert(buffer@ =~= splice(old(buffer)@, *i as int, self.encoding()));
        *i += 4;
        Ok(4)
    }

    fn serialized_len(&self) -> (n: usize) {
        assert(self.encoding().len() == 4);
        4
    }
}

/// Writing what was read gives the bytes that were read: every four bytes
/// are the encoding of the value they read as.
pub proof fn lemma_value_bytes_round_trip(b0: u8, b1: u8, b2: u8, b3: u8)
    ensures
        TransactionValue::from_quad(b0, b1, b2, b3).wf(),
        TransactionValue::from_quad(b0, b1, b2, b3).encoding() == seq![b0, b1, b2, b3],
{
    let raw: int = b0 * 0x100_0000 + b1 * 0x1_0000 + b2 * 0x100 + b3;
    lemma_raw_of_quad(b0, b1, b2, b3, raw as u32);
    let v = TransactionValue::from_quad(b0, b1, b2, b3);
    if raw < 0x8000_0000 {
        TransactionValue::lemma_make((raw / 0x100) as i32, Some((raw % 0x100) as u8));
        assert(v.raw_value() * 0x100 + v.raw_fee().unwrap() == raw);
    } else {
        TransactionValue::lemma_make((raw - 0x1_0000_0000) as i32, None);
    }
    assert(v.encoding() =~= seq![b0, b1, b2, b3]);
}

/// A transfer of a value from one key to another.
#[derive(Clone, Copy, Debug, PartialEq, Eq)]
pub struct Transaction {
    uid: UserId,
    from_pk: PublicKey,
    to_pk: PublicKey,
    value: TransactionValue,
}

/// What a transfer stands for, its keys as the bytes of their encodings.
pub ghost struct TransactionModel {
    pub uid: UserId,
    pub from_pk: Seq<u8>,
    pub to_pk: Seq<u8>,
    pub value: TransactionValue,
}

/// Length of an encoded transfer.
pub const TRANSACTION_SIZE: usize = 72;

impl Transaction {
    /// A transfer of `value` from `from_pk` to `to_pk`.
    pub fn new(uid: UserId, from_pk: PublicKey, to_pk: PublicKey, value: TransactionValue) -> (r:
        Transaction)
        ensures
            r.model() == (TransactionModel { uid, from_pk: from_pk@, to_pk: to_pk@, value }),
            from_pk.wf() && to_pk.wf() ==> r.keys_valid(),
    {
        Transaction { uid, from_pk, to_pk, value }
    }

    /// The identifier that opens the transfer.
    pub closed spec fn spec_uid(&self) -> UserId {
        self.uid
    }

    /// The key that spends.
    pub closed spec fn spec_from_pk(&self) -> PublicKey {
        self.from_pk
    }

    /// The key that receives.
    pub closed spec fn spec_to_pk(&self) -> PublicKey {
        self.to_pk
    }

    /// What the transfer carries.
    pub closed spec fn spec_value(&self) -> TransactionValue {
        self.value
    }

    /// Both keys are points on the curve.
    pub open spec fn keys_valid(&self) -> bool {
        self.spec_from_pk().wf() && self.spec_to_pk().wf()
    }

    /// A transfer that was read from bytes has those bytes as its encoding.
    pub proof fn lemma_exact(&self, data: Seq<u8>)
        requires
            Transaction::decoding(data) matches Ok((m, _)) && self.model() == m,
        ensures
            self.encodable(),
            self.encoding() == data.subrange(0, 72),
    {
        lemma_user_id_bytes_round_trip(data[0], data[1]);
        lemma_value_bytes_round_trip(data[68], data[69], data[70], data[71]);
        assert(self.encoding() =~= data.subrange(0, 72));
    }

    /// Why a transfer has no encoding, if it has none: the fault of its
    /// identifier, or else that of its value.
    pub open spec fn fault(&self) -> Option<Error> {
        match self.spec_uid().fault() {
            Some(e) => Some(e),
            None => self.spec_value().fault(),
        }
    }

    /// Why this transfer has no encoding, if it has none.
    pub fn check(&self) -> (r: Option<Error>)
        ensures
            r == self.fault(),
    {
        match self.uid.check() {
            Some(e) => Some(e),
            None => self.value.check(),
        }
    }

    /// An encoded transfer is 72 bytes.
    pub proof fn lemma_encoding_len(&self)
        ensures
            self.encoding().len() == 72,
    {
        self.from_pk.lemma_view_len();
        self.to_pk.lemma_view_len();
    }

    /// The identifier that opens the transfer.
    pub fn uid(&self) -> (r: UserId)
        ensures
            r == self.spec_uid(),
    {
        self.uid
    }

    /// The key that spends.
    pub fn from_pk(&self) -> (r: PublicKey)
        ensures
            r == self.spec_from_pk(),
            r.wf(),
    {
        proof {
            use_type_invariant(self.from_pk);
        }
        self.from_pk
    }

    /// The key that receives.
    pub fn to_pk(&self) -> (r: PublicKey)
        ensures
            r == self.spec_to_pk(),
            r.wf(),
    {
        proof {
            use_type_invariant(self.to_pk);
        }
        self.to_pk
    }

    /// What the transfer carries.
    pub fn value(&self) -> (r: TransactionValue)
        ensures
            r == self.spec_value(),
    {
        self.value
    }
}

impl Serialize for Transaction {
    type Model = TransactionModel;

    open spec fn model(&self) -> TransactionModel {
        TransactionModel {
            uid: self.spec_uid(),
            from_pk: self.spec_from_pk()@,
            to_pk: self.spec_to_pk()@,
            value: self.spec_value(),
        }
    }

    open spec fn wf(&self) -> bool {
        self.spec_uid().wf() && self.keys_valid() && self.spec_value().wf()
    }

    open spec fn encodable(&self) -> bool {
        self.fault() is None
    }

    open spec fn encoding(&self) -> Seq<u8> {
        self.spec_uid().encoding() + self.spec_from_pk()@ + self.spec_to_pk()@
            + self.spec_value().encoding()
    }

    open spec fn decoding(data: Seq<u8>) -> Result<(TransactionModel, nat), Error> {
        if data.len() < 72 {
            Err(Error::Codec(CodecError::Truncated))
        } else if !public_key_valid(data.subrange(2, 35)) || !public_key_valid(
            data.subrange(35, 68),
        ) {
            Err(Error::Crypto(CryptoError::BadKey))
        } else {
            Ok(
                (
                    TransactionModel {
                        uid: UserId::from_pair(data[0], data[1]),
                        from_pk: data.subrange(2, 35),
                        to_pk: data.subrange(35, 68),
                        value: TransactionValue::from_quad(data[68], data[69], data[70], data[71]),
                    },
                    72,
                ),
            )
        }
    }

    proof fn lemma_round_trip(&self, rest: Seq<u8>) {
        let data = self.encoding() + rest;
        let u = self.uid.encoding();
        let v = self.value.encoding();
        self.uid.lemma_round_trip(data.skip(2));
        self.value.lemma_round_trip(rest);
        assert(u.len() == 2);
        assert(v.len() == 4);
        assert(data.subrange(2, 35) =~= self.from_pk@);
        assert(data.subrange(35, 68) =~= self.to_pk@);
        assert(data =~= u + data.skip(2));
        assert(data.skip(68) =~= v + rest);
        assert(data[0] == (u + data.skip(2))[0]);
        assert(data[1] == (u + data.skip(2))[1]);
        assert(data[68] == (v + rest)[0]);
        assert(data[69] == (v + rest)[1]);
        assert(data[70] == (v + rest)[2]);
        assert(data[71] == (v + rest)[3]);
    }

    proof fn lemma_model_determines(&self, other: &Self) {
    }

    fn from_serialized(data: &[u8], i: &mut usize) -> (r: Result<Transaction, Error>) {
        let ghost expected = Transaction::decoding(data@.skip(*i as int));
        let start = *i;
        if !has_room(data.len(), start, 72) {
            return Err(Error::Codec(CodecError::Truncated));
        }
        let ghost s = data@.skip(start as int);
        assert(data@.skip(start + 2).subrange(0, 33) =~= s.subrange(2, 35));
        assert(data@.skip(start + 35).subrange(0, 33) =~= s.subrange(35, 68));
        let uid = match UserId::from_serialized(data, i) {
            Ok(uid) => uid,
            Err(e) => {
                return Err(e);
            },
        };
        let from_pk = match PublicKey::from_serialized(data, i) {
            Ok(key) => key,
            Err(e) => {
                *i = start;
                return Err(e);
            },
        };
        let to_pk = match PublicKey::from_serialized(data, i) {
            Ok(key) => key,
            Err(e) => {
                *i = start;
                return Err(e);
            },
        };
        let value = match TransactionValue::from_serialized(data, i) {
            Ok(value) => value,
            Err(e) => {
                *i = start;
                return Err(e);
            },
        };
        proof {
            assert(data@.skip(start + 68)[0] == s[68]);
            assert(data@.skip(start + 68)[1] == s[69]);
            assert(data@.skip(start + 68)[2] == s[70]);
            assert(data@.skip(start + 68)[3] == s[71]);
        }
        let tx = Transaction { uid, from_pk, to_pk, value };
        assert(tx.wf() && expected == Ok::<(TransactionModel, nat), Error>((tx.model(), 72)));
        Ok(tx)
    }

    fn serialize_into(&self, buffer: &mut [u8], i: &mut usize) -> (r: Result<usize, Error>)
        ensures
            r matches Err(e) ==> e == match self.fault() {
                Some(f) => f,
                None => Error::Codec(CodecError::Truncated),
            },
    {
        proof {
            use_type_invariant(self.from_pk);
            use_type_invariant(self.to_pk);
        }
        if let Some(e) = self.check() {
            return Err(e);
        }
        let start = *i;
        if !has_room(buffer.len(), start, 72) {
            return Err(Error::Codec(CodecError::Truncated));
        }
        proof {
            use_type_invariant(self.from_pk);
            use_type_invariant(self.to_pk);
        }
        let ghost b0 = buffer@;
        let ghost u = self.uid.encoding();
        let ghost f = self.from_pk@;
        let ghost t = self.to_pk@;
        let ghost v = self.value.encoding();
        let _ = self.uid.serialize_into(buffer, i);
        let _ = self.from_pk.serialize_into(buffer, i);
        let _ = self.to_pk.serialize_into(buffer, i);
        let _ = self.value.serialize_into(buffer, i);
        proof {
            lemma_splice_append(b0, start as int, u, f);
            lemma_splice_append(b0, start as int, u + f, t);
            lemma_splice_append(b0, start as int, u + f + t, v);
            assert(self.encodable() && self.encoding() == u + f + t + v);
        }
        Ok(72)
    }

    fn serialized_len(&self) -> (n: usize) {
        proof {
            self.lemma_encoding_len();
        }
        72
    }
}

} // verus!
