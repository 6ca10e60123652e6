//! A group of transfers under the signatures of the keys that spend in it.

use crate::bytes::{append_bytes, place};
use crate::crypto::{ecdsa_signature, ecdsa_verifies, public_key_of, sha256, sha256_digest};
use crate::error::{CodecError, CryptoError, Error, LedgerError};
use crate::keys::{PublicKey, SecretKey, Signature};
use crate::serialize::Serialize;
use crate::transaction::{Transaction, TransactionModel, TransactionValue};
use vstd::prelude::*;

verus! {

/// Transfers, each but the last flagged as continued, followed by one
/// signature for each distinct spending key, in the order in which the keys
/// first spend.
#[derive(Clone, Debug, PartialEq, Eq)]
pub struct TransactionBlock {
    pub transactions: Vec<Transaction>,
    pub expected_signatures: usize,
    pub signatures: Vec<Signature>,
}

/// What a group of transfers stands for.
pub ghost struct TransactionBlockModel {
    pub transactions: Seq<TransactionModel>,
    pub expected_signatures: nat,
    pub signatures: Seq<Seq<u8>>,
}

/// What each transfer of a sequence stands for.
pub open spec fn models(txs: Seq<Transaction>) -> Seq<TransactionModel> {
    txs.map_values(|t: Transaction| t.model())
}

/// The bytes of each signature of a sequence.
pub open spec fn signature_views(sigs: Seq<Signature>) -> Seq<Seq<u8>> {
    sigs.map_values(|s: Signature| s@)
}

/// The distinct spending keys, in the order in which they first spend.
pub open spec fn senders(txs: Seq<TransactionModel>) -> Seq<Seq<u8>>
    decreases txs.len(),
{
    if txs.len() == 0 {
        Seq::empty()
    } else {
        let before = senders(txs.drop_last());
        if before.contains(txs.last().from_pk) {
            before
        } else {
            before.push(txs.last().from_pk)
        }
    }
}

/// The encodings of the transfers, one after the other: what is signed.
pub open spec fn content(txs: Seq<Transaction>) -> Seq<u8>
    decreases txs.len(),
{
    if txs.len() == 0 {
        Seq::empty()
    } else {
        content(txs.drop_last()) + txs.last().encoding()
    }
}

/// The signatures, one after the other.
pub open spec fn signature_bytes(sigs: Seq<Signature>) -> Seq<u8>
    decreases sigs.len(),
{
    if sigs.len() == 0 {
        Seq::empty()
    } else {
        signature_bytes(sigs.drop_last()) + sigs.last()@
    }
}

/// Why the first transfer that has no encoding has none.
pub open spec fn first_fault(txs: Seq<Transaction>) -> Option<Error>
    decreases txs.len(),
{
    if txs.len() == 0 {
        None
    } else {
        match first_fault(txs.drop_last()) {
            Some(e) => Some(e),
            None => txs.last().fault(),
        }
    }
}

/// Each signature is a correct signature of `digest` under the key at its
/// place.
pub open spec fn all_verify(digest: Seq<u8>, sigs: Seq<Seq<u8>>, keys: Seq<Seq<u8>>) -> bool {
    forall|j: int| 0 <= j < sigs.len() ==> #[trigger] ecdsa_verifies(digest, sigs[j], keys[j])
}

/// Why a transfer cannot be booked: its value is neither coin nor
/// identifier, or its fee is more than its amount.
pub open spec fn booking_fault(value: TransactionValue) -> Option<Error> {
    if !value.is_coin() && !value.is_id() {
        Some(Error::Codec(CodecError::Malformed))
    } else if value.is_coin() && value.net() < 0 {
        Some(Error::Ledger(LedgerError::ValueMismatch))
    } else {
        None
    }
}

/// Why the first transfer that cannot be booked cannot.
pub open spec fn first_booking_fault(txs: Seq<Transaction>) -> Option<Error>
    decreases txs.len(),
{
    if txs.len() == 0 {
        None
    } else {
        match first_booking_fault(txs.drop_last()) {
            Some(e) => Some(e),
            None => booking_fault(txs.last().spec_value()),
        }
    }
}

/// What one transfer changes in the balance of `key`: the receiver gains the
/// amount less the fee, the sender loses the amount.
pub open spec fn transfer_change(tx: Transaction, key: Seq<u8>) -> int {
    if tx.spec_value().is_coin() {
        (if tx.spec_to_pk()@ == key {
            tx.spec_value().net()
        } else {
            0
        }) - (if tx.spec_from_pk()@ == key {
            tx.spec_value().raw_value() as int
        } else {
            0
        })
    } else {
        0
    }
}

/// What a sequence of transfers changes in the balance of `key`.
pub open spec fn value_change(txs: Seq<Transaction>, key: Seq<u8>) -> int
    decreases txs.len(),
{
    if txs.len() == 0 {
        0
    } else {
        value_change(txs.drop_last(), key) + transfer_change(txs.last(), key)
    }
}

/// The fees that a sequence of transfers pays.
pub open spec fn fees(txs: Seq<Transaction>) -> int
    decreases txs.len(),
{
    if txs.len() == 0 {
        0
    } else {
        fees(txs.drop_last()) + if txs.last().spec_value().is_coin() {
            txs.last().spec_value().raw_fee().unwrap() as int
        } else {
            0
        }
    }
}

/// Each transfer adds 72 bytes to what is signed.
pub proof fn lemma_content_len(txs: Seq<Transaction>)
    ensures
        content(txs).len() == 72 * txs.len(),
    decreases txs.len(),
{
    if txs.len() > 0 {
        lemma_content_len(txs.drop_last());
        txs.last().lemma_encoding_len();
    }
}

/// Each signature is 64 bytes.
pub proof fn lemma_signature_bytes_len(sigs: Seq<Signature>)
    ensures
        signature_bytes(sigs).len() == 64 * sigs.len(),
    decreases sigs.len(),
{
    if sigs.len() > 0 {
        lemma_signature_bytes_len(sigs.drop_last());
        sigs.last().lemma_view_len();
    }
}

/// A balance change is bounded by the number of transfers.
pub proof fn lemma_value_change_bound(txs: Seq<Transaction>, key: Seq<u8>)
    requires
        first_booking_fault(txs) is None,
    ensures
        -0x8000_0000 * txs.len() <= value_change(txs, key) <= 0x8000_0000 * txs.len(),
    decreases txs.len(),
{
    if txs.len() > 0 {
        lemma_value_change_bound(txs.drop_last(), key);
    }
}

/// The fees are bounded by the number of transfers.
pub proof fn lemma_fees_bound(txs: Seq<Transaction>)
    ensures
        0 <= fees(txs) <= 0x100 * txs.len(),
    decreases txs.len(),
{
    if txs.len() > 0 {
        lemma_fees_bound(txs.drop_last());
    }
}

/// Whether `key` is among `keys`.
pub fn contains_key(keys: &Vec<PublicKey>, key: &PublicKey) -> (r: bool)
    ensures
        r == keys@.map_values(|k: PublicKey| k@).contains(key@),
{
    let ghost views = keys@.map_values(|k: PublicKey| k@);
    let mut j: usize = 0;
    while j < keys.len()
        invariant
            j <= keys.len(),
            views == keys@.map_values(|k: PublicKey| k@),
            forall|k: int| 0 <= k < j ==> views[k] != key@,
        decreases keys.len() - j,
    {
        if keys[j].same(key) {
            assert(views[j as int] == key@);
            return true;
        }
        j += 1;
    }
    false
}

impl TransactionBlock {
    /// A group of `transactions` that awaits `expected_signatures`
    /// signatures.
    pub fn new(transactions: Vec<Transaction>, expected_signatures: usize) -> (r: TransactionBlock)
        ensures
            r.transactions@ == transactions@,
            r.expected_signatures == expected_signatures,
            r.signatures@.len() == 0,
    {
        TransactionBlock { transactions, expected_signatures, signatures: Vec::new() }
    }

    /// The distinct spending keys, in the order in which they first spend.
    pub fn spending_keys(&self) -> (r: Vec<PublicKey>)
        ensures
            r@.map_values(|k: PublicKey| k@) == senders(models(self.transactions@)),
            forall|k: int| 0 <= k < r@.len() ==> (#[trigger] r@[k]).wf(),
    {
        let mut seen: Vec<PublicKey> = Vec::new();
        let mut j: usize = 0;
        assert(models(self.transactions@.take(0)) =~= Seq::empty());
        assert(seen@.map_values(|k: PublicKey| k@) =~= Seq::empty());
        while j < self.transactions.len()
            invariant
                j <= self.transactions.len(),
                seen@.map_values(|k: PublicKey| k@) == senders(
                    models(self.transactions@.take(j as int)),
                ),
                forall|k: int| 0 <= k < seen@.len() ==> (#[trigger] seen@[k]).wf(),
            decreases self.transactions.len() - j,
        {
            let key = self.transactions[j].from_pk();
            let ghost before = seen@.map_values(|k: PublicKey| k@);
            let ghost prefix = models(self.transactions@.take(j + 1));
            assert(prefix.drop_last() =~= models(self.transactions@.take(j as int)));
            assert(prefix.last().from_pk == key@);
            if !contains_key(&seen, &key) {
                seen.push(key);
                assert(seen@.map_values(|k: PublicKey| k@) =~= before.push(key@));
            }
            j += 1;
        }
        assert(self.transactions@.take(j as int) =~= self.transactions@);
        seen
    }

    /// The bytes that the signatures sign: the encodings of the transfers,
    /// one after the other.
    pub fn serialize_content(&self) -> (r: Result<Vec<u8>, Error>)
        ensures
            match first_fault(self.transactions@) {
                Some(e) => r == Err::<Vec<u8>, Error>(e),
                None => r matches Ok(bytes) && bytes@ == content(self.transactions@),
            },
    {
        let mut out: Vec<u8> = Vec::new();
        let mut j: usize = 0;
        while j < self.transactions.len()
            invariant
                j <= self.transactions.len(),
                first_fault(self.transactions@.take(j as int)) is None,
                out@ == content(self.transactions@.take(j as int)),
            decreases self.transactions.len() - j,
        {
            let ghost prefix = self.transactions@.take(j + 1);
            assert(prefix.drop_last() =~= self.transactions@.take(j as int));
            let mut chunk = [0u8; 72];
            let mut at: usize = 0;
            proof {
                self.transactions@[j as int].lemma_encoding_len();
            }
            match self.transactions[j].serialize_into(&mut chunk, &mut at) {
                Ok(_) => {},
                Err(e) => {
                    proof {
                        lemma_first_fault_prefix(self.transactions@, j + 1);
                    }
                    return Err(e);
                },
            }
            assert(chunk@ =~= self.transactions@[j as int].encoding());
            append_bytes(&mut out, &chunk);
            j += 1;
        }
        assert(self.transactions@.take(j as int) =~= self.transactions@);
        Ok(out)
    }

    /// Appends the signature of `secret` over the transfers. It verifies
    /// under the public key of `secret`; so a group that one key spends in
    /// and that awaits one signature has an encoding once that key has
    /// signed it.
    pub fn sign(&mut self, secret: &SecretKey) -> (r: Result<(), Error>)
        ensures
            final(self).transactions@ == old(self).transactions@,
            final(self).expected_signatures == old(self).expected_signatures,
            r is Ok ==> ecdsa_verifies(
                sha256(content(old(self).transactions@)),
                final(self).signatures@.last()@,
                public_key_of(secret@),
            ),
            r is Ok && old(self).signatures@.len() == 0 && old(self).expected_signatures == 1
                && senders(models(old(self).transactions@)) == seq![public_key_of(secret@)]
                ==> final(self).fault() is None,
            match first_fault(old(self).transactions@) {
                Some(e) => r == Err::<(), Error>(e) && final(self).signatures@
                    == old(self).signatures@,
                None => {
                    &&& r is Ok
                    &&& final(self).signatures@.len() == old(self).signatures@.len() + 1
                    &&& final(self).signatures@.drop_last() == old(self).signatures@
                    &&& final(self).signatures@.last()@ == ecdsa_signature(
                        sha256(content(old(self).transactions@)),
                        secret@,
                    )
                },
            },
    {
        let bytes = self.serialize_content()?;
        let digest = sha256_digest(bytes.as_slice());
        let signature = Signature::sign(&digest, secret);
        self.signatures.push(signature);
        assert(self.signatures@.drop_last() =~= old(self).signatures@);
        Ok(())
    }

    /// What the transfers change in the balance of `pk`.
    pub fn get_user_value_change(&self, pk: &PublicKey) -> (r: Result<i128, Error>)
        ensures
            match first_booking_fault(self.transactions@) {
                Some(e) => r == Err::<i128, Error>(e),
                None => r == Ok::<i128, Error>(value_change(self.transactions@, pk@) as i128),
            },
    {
        let mut total: i128 = 0;
        let mut j: usize = 0;
        while j < self.transactions.len()
            invariant
                j <= self.transactions.len(),
                first_booking_fault(self.transactions@.take(j as int)) is None,
                total == value_change(self.transactions@.take(j as int), pk@),
            decreases self.transactions.len() - j,
        {
            let ghost prefix = self.transactions@.take(j + 1);
            assert(prefix.drop_last() =~= self.transactions@.take(j as int));
            proof {
                lemma_value_change_bound(self.transactions@.take(j as int), pk@);
            }
            let tx = &self.transactions[j];
            let value = tx.value();
            let coin = match value.is_coin_transfer() {
                Ok(coin) => coin,
                Err(e) => {
                    proof {
                        lemma_first_booking_fault_prefix(self.transactions@, j + 1);
                    }
                    return Err(e);
                },
            };
            if coin {
                let net = match value.get_value() {
                    Ok(net) => net,
                    Err(e) => {
                        proof {
                            lemma_first_booking_fault_prefix(self.transactions@, j + 1);
                        }
                        return Err(e);
                    },
                };
                let fee = match value.get_fee() {
                    Ok(fee) => fee,
                    Err(e) => {
                        return Err(e);
                    },
                };
                if tx.from_pk().same(pk) {
                    total = total - (net as i128 + fee as i128);
                }
                if tx.to_pk().same(pk) {
                    total = total + net as i128;
                }
            }
            j += 1;
        }
        assert(self.transactions@.take(j as int) =~= self.transactions@);
        Ok(total)
    }

    /// The fees that the transfers pay.
    pub fn get_fees(&self) -> (r: Result<i128, Error>)
        ensures
            match first_booking_fault(self.transactions@) {
                Some(e) => r == Err::<i128, Error>(e),
                None => r == Ok::<i128, Error>(fees(self.transactions@) as i128),
            },
    {
        let mut total: i128 = 0;
        let mut j: usize = 0;
        while j < self.transactions.len()
            invariant
                j <= self.transactions.len(),
                first_booking_fault(self.transactions@.take(j as int)) is None,
                total == fees(self.transactions@.take(j as int)),
                0 <= total <= 0x100 * j,
            decreases self.transactions.len() - j,
        {
            let ghost prefix = self.transactions@.take(j + 1);
            assert(prefix.drop_last() =~= self.transactions@.take(j as int));
            let value = self.transactions[j].value();
            let coin = match value.is_coin_transfer() {
                Ok(coin) => coin,
                Err(e) => {
                    proof {
                        lemma_first_booking_fault_prefix(self.transactions@, j + 1);
                    }
                    return Err(e);
                },
            };
            if coin {
                match value.get_value() {
                    Ok(_) => {},
                    Err(e) => {
                        proof {
                            lemma_first_booking_fault_prefix(self.transactions@, j + 1);
                        }
                        return Err(e);
                    },
                }
                let fee = match value.get_fee() {
                    Ok(fee) => fee,
                    Err(e) => {
                        return Err(e);
                    },
                };
                total = total + fee as i128;
            }
            j += 1;
        }
        assert(self.transactions@.take(j as int) =~= self.transactions@);
        Ok(total)
    }

    /// The flat size that the block accounts for: 188 for each transfer and
    /// 72 for each signature.
    pub fn len(&self) -> (r: usize)
        requires
            self.transactions@.len() * 188 + self.signatures@.len() * 72 <= usize::MAX,
        ensures
            r == self.transactions@.len() * 188 + self.signatures@.len() * 72,
    {
        self.transactions.len() * 188 + self.signatures.len() * 72
    }
}

/// A fault in a prefix is the fault of the whole.
pub proof fn lemma_first_fault_prefix(txs: Seq<Transaction>, n: int)
    requires
        0 <= n <= txs.len(),
        first_fault(txs.take(n)) is Some,
    ensures
        first_fault(txs) == first_fault(txs.take(n)),
    decreases txs.len(),
{
    if n < txs.len() {
        assert(txs.drop_last().take(n) =~= txs.take(n));
        lemma_first_fault_prefix(txs.drop_last(), n);
    } else {
        assert(txs.take(n) =~= txs);
    }
}

/// A booking fault in a prefix is the fault of the whole.
pub proof fn lemma_first_booking_fault_prefix(txs: Seq<Transaction>, n: int)
    requires
        0 <= n <= txs.len(),
        first_booking_fault(txs.take(n)) is Some,
    ensures
        first_booking_fault(txs) == first_booking_fault(txs.take(n)),
    decreases txs.len(),
{
    if n < txs.len() {
        assert(txs.drop_last().take(n) =~= txs.take(n));
        lemma_first_booking_fault_prefix(txs.drop_last(), n);
    } else {
        assert(txs.take(n) =~= txs);
    }
}

/// The result of reading `head`, which took `taken` bytes, and then `tail`.
pub open spec fn prepend<T>(head: Seq<T>, taken: nat, tail: Result<(Seq<T>, nat), Error>) -> Result<
    (Seq<T>, nat),
    Error,
> {
    match tail {
        Ok((items, n)) => Ok((head + items, taken + n)),
        Err(e) => Err(e),
    }
}

/// Reading two heads and then a tail is reading both heads as one.
pub proof fn lemma_prepend_twice<T>(
    a: Seq<T>,
    x: nat,
    b: Seq<T>,
    y: nat,
    tail: Result<(Seq<T>, nat), Error>,
)
    ensures
        prepend(a, x, prepend(b, y, tail)) == prepend(a + b, x + y, tail),
{
    if let Ok((items, n)) = tail {
        assert(a + (b + items) =~= (a + b) + items);
    }
}

/// Reads transfers up to and including the first that is not continued.
pub open spec fn decode_transactions(data: Seq<u8>) -> Result<(Seq<TransactionModel>, nat), Error>
    decreases data.len(),
{
    match Transaction::decoding(data) {
        Err(e) => Err(e),
        Ok((tx, _)) => if tx.uid.spec_is_continuation() {
            prepend(seq![tx], 72, decode_transactions(data.skip(72)))
        } else {
            Ok((seq![tx], 72))
        },
    }
}

/// Reads `count` signatures.
pub open spec fn decode_signatures(data: Seq<u8>, count: nat) -> Result<(Seq<Seq<u8>>, nat), Error>
    decreases count,
{
    if count == 0 {
        Ok((Seq::empty(), 0))
    } else {
        match Signature::decoding(data) {
            Err(e) => Err(e),
            Ok((sig, _)) => prepend(seq![sig], 64, decode_signatures(data.skip(64), (count - 1) as nat)),
        }
    }
}

/// The encodings of the transfers begin with that of the first.
pub proof fn lemma_content_front(txs: Seq<Transaction>)
    requires
        txs.len() > 0,
    ensures
        content(txs) == txs[0].encoding() + content(txs.skip(1)),
    decreases txs.len(),
{
    if txs.len() == 1 {
        assert(txs.drop_last() =~= Seq::empty());
        assert(txs.skip(1) =~= Seq::empty());
        assert(content(txs) =~= txs[0].encoding() + content(txs.skip(1)));
    } else {
        lemma_content_front(txs.drop_last());
        assert(txs.drop_last().skip(1) =~= txs.skip(1).drop_last());
        assert(txs.skip(1).last() == txs.last());
        assert(content(txs) =~= txs[0].encoding() + content(txs.skip(1)));
    }
}

/// The signatures begin with the first.
pub proof fn lemma_signature_bytes_front(sigs: Seq<Signature>)
    requires
        sigs.len() > 0,
    ensures
        signature_bytes(sigs) == sigs[0]@ + signature_bytes(sigs.skip(1)),
    decreases sigs.len(),
{
    if sigs.len() == 1 {
        assert(sigs.drop_last() =~= Seq::empty());
        assert(sigs.skip(1) =~= Seq::empty());
        assert(signature_bytes(sigs) =~= sigs[0]@ + signature_bytes(sigs.skip(1)));
    } else {
        lemma_signature_bytes_front(sigs.drop_last());
        assert(sigs.drop_last().skip(1) =~= sigs.skip(1).drop_last());
        assert(sigs.skip(1).last() == sigs.last());
        assert(signature_bytes(sigs) =~= sigs[0]@ + signature_bytes(sigs.skip(1)));
    }
}

/// Transfers that stand for the same have the same encodings, and the same
/// fault if any.
pub proof fn lemma_models_determine(a: Seq<Transaction>, b: Seq<Transaction>)
    requires
        models(a) == models(b),
    ensures
        a.len() == b.len(),
        content(a) == content(b),
        first_fault(a) == first_fault(b),
    decreases a.len(),
{
    assert(models(a).len() == a.len());
    assert(models(b).len() == b.len());
    if a.len() > 0 {
        assert(models(a.drop_last()) =~= models(a).drop_last());
        assert(models(b.drop_last()) =~= models(b).drop_last());
        lemma_models_determine(a.drop_last(), b.drop_last());
        assert(a.last().model() == models(a).last());
        assert(b.last().model() == models(b).last());
        a.last().lemma_model_determines(&b.last());
    }
}

/// Signatures with the same bytes have the same encodings.
pub proof fn lemma_views_determine(a: Seq<Signature>, b: Seq<Signature>)
    requires
        signature_views(a) == signature_views(b),
    ensures
        a.len() == b.len(),
        signature_bytes(a) == signature_bytes(b),
    decreases a.len(),
{
    assert(signature_views(a).len() == a.len());
    assert(signature_views(b).len() == b.len());
    if a.len() > 0 {
        assert(signature_views(a.drop_last()) =~= signature_views(a).drop_last());
        assert(signature_views(b.drop_last()) =~= signature_views(b).drop_last());
        lemma_views_determine(a.drop_last(), b.drop_last());
        assert(a.last()@ == signature_views(a).last());
        assert(b.last()@ == signature_views(b).last());
    }
}

/// Transfers that were read from bytes have those bytes as their encodings,
/// one after the other.
pub proof fn lemma_transactions_exact(txs: Seq<Transaction>, data: Seq<u8>)
    requires
        decode_transactions(data) matches Ok((ms, _)) && models(txs) == ms,
    ensures
        decode_transactions(data) matches Ok((_, n)) && n == 72 * txs.len() && n <= data.len()
            && content(txs) == data.subrange(0, n as int),
        first_fault(txs) is None,
    decreases data.len(),
{
    let first = Transaction::decoding(data).unwrap().0;
    assert(models(txs).len() == txs.len());
    assert(txs.len() > 0);
    assert(txs[0].model() == models(txs)[0]);
    let tail = txs.skip(1);
    if first.uid.spec_is_continuation() {
        let rest = decode_transactions(data.skip(72)).unwrap().0;
        assert(models(txs) == seq![first] + rest);
        assert(models(tail) =~= rest) by {
            assert forall|k: int| 0 <= k < tail.len() implies models(tail)[k] == rest[k] by {
                assert(models(tail)[k] == txs[k + 1].model());
                assert(models(txs)[k + 1] == txs[k + 1].model());
            }
        }
        lemma_transactions_exact(tail, data.skip(72));
        let n = 72 * tail.len();
        lemma_content_front(txs);
        txs[0].lemma_exact(data);
        assert(data.subrange(0, 72) + data.skip(72).subrange(0, n as int) =~= data.subrange(
            0,
            (72 + n) as int,
        ));
        lemma_first_fault_front(txs);
    } else {
        assert(models(txs) == seq![first]);
        assert(tail =~= Seq::empty());
        lemma_content_front(txs);
        txs[0].lemma_exact(data);
        assert(content(tail) =~= Seq::empty());
        assert(data.subrange(0, 72) + Seq::<u8>::empty() =~= data.subrange(0, 72));
        lemma_first_fault_front(txs);
    }
}

/// The first fault of transfers is that of the first, or else that of the
/// rest.
pub proof fn lemma_first_fault_front(txs: Seq<Transaction>)
    requires
        txs.len() > 0,
    ensures
        first_fault(txs) == match txs[0].fault() {
            Some(e) => Some(e),
            None => first_fault(txs.skip(1)),
        },
    decreases txs.len(),
{
    if txs.len() == 1 {
        assert(txs.drop_last() =~= Seq::empty());
        assert(txs.skip(1) =~= Seq::empty());
    } else {
        lemma_first_fault_front(txs.drop_last());
        assert(txs.drop_last().skip(1) =~= txs.skip(1).drop_last());
        assert(txs.skip(1).last() == txs.last());
        assert(txs.drop_last()[0] == txs[0]);
    }
}

/// Signatures that were read from bytes have those bytes as their
/// encodings, one after the other.
pub proof fn lemma_signatures_exact(sigs: Seq<Signature>, data: Seq<u8>, count: nat)
    requires
        decode_signatures(data, count) matches Ok((views, _)) && signature_views(sigs) == views,
    ensures
        sigs.len() == count,
        decode_signatures(data, count) matches Ok((_, n)) && n == 64 * count && n <= data.len()
            && signature_bytes(sigs) == data.subrange(0, n as int),
    decreases count,
{
    assert(signature_views(sigs).len() == sigs.len());
    if count == 0 {
        assert(signature_bytes(sigs) =~= data.subrange(0, 0));
    } else {
        let first = Signature::decoding(data).unwrap().0;
        let rest = decode_signatures(data.skip(64), (count - 1) as nat).unwrap().0;
        assert(signature_views(sigs) == seq![first] + rest);
        let tail = sigs.skip(1);
        assert(signature_views(tail) =~= rest) by {
            assert forall|k: int| 0 <= k < tail.len() implies signature_views(tail)[k]
                == rest[k] by {
                assert(signature_views(tail)[k] == sigs[k + 1]@);
                assert(signature_views(sigs)[k + 1] == sigs[k + 1]@);
            }
        }
        lemma_signatures_exact(tail, data.skip(64), (count - 1) as nat);
        let n = 64 * tail.len();
        lemma_signature_bytes_front(sigs);
        assert(sigs[0]@ == signature_views(sigs)[0]);
        assert(data.subrange(0, 64) + data.skip(64).subrange(0, n as int) =~= data.subrange(
            0,
            (64 + n) as int,
        ));
    }
}

/// Each transfer but the last is flagged as continued.
pub open spec fn flags_canonical(txs: Seq<Transaction>) -> bool {
    forall|k: int|
        0 <= k < txs.len() ==> ((#[trigger] txs[k]).spec_uid().spec_is_continuation() <==> k
            < txs.len() - 1)
}

/// Reading the encodings of well-formed transfers gives the transfers.
pub proof fn lemma_decode_content(txs: Seq<Transaction>, rest: Seq<u8>)
    requires
        txs.len() > 0,
        flags_canonical(txs),
        forall|k: int| 0 <= k < txs.len() ==> (#[trigger] txs[k]).wf(),
    ensures
        decode_transactions(content(txs) + rest) == Ok::<(Seq<TransactionModel>, nat), Error>(
            (models(txs), (72 * txs.len()) as nat),
        ),
    decreases txs.len(),
{
    let first = txs[0];
    let tail = txs.skip(1);
    let data = content(txs) + rest;
    lemma_content_front(txs);
    assert(data =~= first.encoding() + (content(tail) + rest));
    first.lemma_round_trip(content(tail) + rest);
    assert(first.encoding().len() == 72);
    if txs.len() == 1 {
        assert(models(txs) =~= seq![first.model()]);
    } else {
        assert(data.skip(72) =~= content(tail) + rest);
        assert forall|k: int| 0 <= k < tail.len() implies (#[trigger] tail[k]).wf() by {
            assert(tail[k] == txs[k + 1]);
        }
        assert forall|k: int| 0 <= k < tail.len() implies ((
        #[trigger] tail[k]).spec_uid().spec_is_continuation() <==> k < tail.len() - 1) by {
            assert(tail[k] == txs[k + 1]);
        }
        lemma_decode_content(tail, rest);
        assert(models(txs) =~= seq![first.model()] + models(tail));
    }
}

/// Reading signatures one after the other gives the signatures.
pub proof fn lemma_decode_signature_bytes(sigs: Seq<Signature>, rest: Seq<u8>)
    requires
        forall|k: int| 0 <= k < sigs.len() ==> (#[trigger] sigs[k]).wf(),
    ensures
        decode_signatures(signature_bytes(sigs) + rest, sigs.len()) == Ok::<
            (Seq<Seq<u8>>, nat),
            Error,
        >((signature_views(sigs), (64 * sigs.len()) as nat)),
    decreases sigs.len(),
{
    if sigs.len() == 0 {
        assert(signature_views(sigs) =~= Seq::empty());
    } else {
        let first = sigs[0];
        let tail = sigs.skip(1);
        let data = signature_bytes(sigs) + rest;
        lemma_signature_bytes_front(sigs);
        assert(data =~= first@ + (signature_bytes(tail) + rest));
        first.lemma_round_trip(signature_bytes(tail) + rest);
        assert(first@.len() == 64);
        assert(data.skip(64) =~= signature_bytes(tail) + rest);
        assert forall|k: int| 0 <= k < tail.len() implies (#[trigger] tail[k]).wf() by {
            assert(tail[k] == sigs[k + 1]);
        }
        lemma_decode_signature_bytes(tail, rest);
        assert(signature_views(sigs) =~= seq![first@] + signature_views(tail));
    }
}

impl TransactionBlock {
    /// Why the block has no encoding, if it has none.
    pub open spec fn fault(&self) -> Option<Error> {
        let keys = senders(models(self.transactions@));
        if self.expected_signatures != self.signatures@.len() {
            Some(Error::Crypto(CryptoError::MissingSignature))
        } else if first_fault(self.transactions@) is Some {
            first_fault(self.transactions@)
        } else if keys.len() != self.signatures@.len() {
            Some(Error::Crypto(CryptoError::MissingSignature))
        } else if !all_verify(
            sha256(content(self.transactions@)),
            signature_views(self.signatures@),
            keys,
        ) {
            Some(Error::Crypto(CryptoError::BadSignature))
        } else {
            None
        }
    }

    /// The encoding of a group, and why it has none, depend on nothing but
    /// what the group stands for.
    pub proof fn lemma_fault_of_model(&self, other: &Self)
        requires
            self.model() == other.model(),
        ensures
            self.encoding() == other.encoding(),
            self.fault() == other.fault(),
    {
        lemma_models_determine(self.transactions@, other.transactions@);
        lemma_views_determine(self.signatures@, other.signatures@);
        assert(self.signatures@.len() == signature_views(self.signatures@).len());
        assert(other.signatures@.len() == signature_views(other.signatures@).len());
    }

    /// A group that was read from bytes has those bytes as its encoding.
    pub proof fn lemma_exact(&self, data: Seq<u8>)
        requires
            TransactionBlock::decoding(data) matches Ok((m, _)) && self.model() == m,
        ensures
            TransactionBlock::decoding(data) matches Ok((_, n)) && n <= data.len()
                && self.encoding() == data.subrange(0, n as int),
    {
        let n = decode_transactions(data).unwrap().1;
        let count = senders(models(self.transactions@)).len();
        lemma_transactions_exact(self.transactions@, data);
        lemma_signatures_exact(self.signatures@, data.skip(n as int), count);
        let m = 64 * count;
        assert(data.subrange(0, n as int) + data.skip(n as int).subrange(0, m as int)
            =~= data.subrange(0, (n + m) as int));
    }

    /// Whether each signature verifies under the spending key at its place.
    pub fn signatures_verify(&self, digest: &[u8; 32], keys: &Vec<PublicKey>) -> (r: bool)
        requires
            keys@.len() == self.signatures@.len(),
        ensures
            r == all_verify(
                digest@,
                signature_views(self.signatures@),
                keys@.map_values(|k: PublicKey| k@),
            ),
    {
        let ghost sigs = signature_views(self.signatures@);
        let ghost views = keys@.map_values(|k: PublicKey| k@);
        let mut j: usize = 0;
        while j < self.signatures.len()
            invariant
                j <= self.signatures.len(),
                keys@.len() == self.signatures@.len(),
                sigs == signature_views(self.signatures@),
                views == keys@.map_values(|k: PublicKey| k@),
                forall|k: int| 0 <= k < j ==> #[trigger] ecdsa_verifies(digest@, sigs[k], views[k]),
            decreases self.signatures.len() - j,
        {
            if !self.signatures[j].verify(digest, &keys[j]) {
                assert(!ecdsa_verifies(digest@, sigs[j as int], views[j as int]));
                return false;
            }
            j += 1;
        }
        true
    }
}

impl TransactionBlock {
    /// Checks the group: the signatures are as many as announced and as
    /// distinct spending keys, every transfer has an encoding, and every
    /// signature verifies over the SHA-256 digest of the transfers under
    /// the key at its place.
    pub fn verify(&self) -> (r: Result<(), Error>)
        ensures
            r == match self.fault() {
                Some(e) => Err::<(), Error>(e),
                None => Ok::<(), Error>(()),
            },
    {
        match self.to_bytes() {
            Ok(_) => Ok(()),
            Err(e) => Err(e),
        }
    }

    /// The encoding, where the block has one.
    pub fn to_bytes(&self) -> (r: Result<Vec<u8>, Error>)
        ensures
            match self.fault() {
                Some(e) => r == Err::<Vec<u8>, Error>(e),
                None => r matches Ok(bytes) && bytes@ == self.encoding(),
            },
    {
        if self.expected_signatures != self.signatures.len() {
            return Err(Error::Crypto(CryptoError::MissingSignature));
        }
        let mut bytes = self.serialize_content()?;
        let keys = self.spending_keys();
        if keys.len() != self.signatures.len() {
            return Err(Error::Crypto(CryptoError::MissingSignature));
        }
        let digest = sha256_digest(bytes.as_slice());
        if !self.signatures_verify(&digest, &keys) {
            return Err(Error::Crypto(CryptoError::BadSignature));
        }
        let ghost body = bytes@;
        let mut j: usize = 0;
        assert(self.signatures@.take(0) =~= Seq::empty());
        assert(body + signature_bytes(self.signatures@.take(0)) =~= body);
        while j < self.signatures.len()
            invariant
                j <= self.signatures.len(),
                bytes@ == body + signature_bytes(self.signatures@.take(j as int)),
            decreases self.signatures.len() - j,
        {
            let ghost done = signature_bytes(self.signatures@.take(j as int));
            let ghost prefix = self.signatures@.take(j + 1);
            assert(prefix.drop_last() =~= self.signatures@.take(j as int));
            let part = self.signatures[j].serialize_compact();
            append_bytes(&mut bytes, &part);
            assert(body + done + part@ =~= body + signature_bytes(prefix));
            j += 1;
        }
        assert(self.signatures@.take(j as int) =~= self.signatures@);
        Ok(bytes)
    }
}

impl Serialize for TransactionBlock {
    type Model = TransactionBlockModel;

    open spec fn model(&self) -> TransactionBlockModel {
        TransactionBlockModel {
            transactions: models(self.transactions@),
            expected_signatures: self.expected_signatures as nat,
            signatures: signature_views(self.signatures@),
        }
    }

    /// At least one transfer, each well-formed and each but the last flagged
    /// as continued, and as many signatures as distinct spending keys.
    open spec fn wf(&self) -> bool {
        &&& self.transactions@.len() > 0
        &&& forall|k: int|
            0 <= k < self.transactions@.len() ==> (#[trigger] self.transactions@[k]).wf()
        &&& flags_canonical(self.transactions@)
        &&& self.expected_signatures == self.signatures@.len()
        &&& senders(models(self.transactions@)).len() == self.signatures@.len()
        &&& forall|k: int| 0 <= k < self.signatures@.len() ==> (#[trigger] self.signatures@[k]).wf()
    }

    /// The signatures are as many as announced and as distinct spending
    /// keys, every transfer has an encoding, and every signature verifies over
    /// the SHA-256 digest of the transfers under the key at its place.
    open spec fn encodable(&self) -> bool {
        self.fault() is None
    }

    open spec fn encoding(&self) -> Seq<u8> {
        content(self.transactions@) + signature_bytes(self.signatures@)
    }

    open spec fn decoding(data: Seq<u8>) -> Result<(TransactionBlockModel, nat), Error> {
        match decode_transactions(data) {
            Err(e) => Err(e),
            Ok((txs, n)) => match decode_signatures(data.skip(n as int), senders(txs).len()) {
                Err(e) => Err(e),
                Ok((sigs, m)) => Ok(
                    (
                        TransactionBlockModel {
                            transactions: txs,
                            expected_signatures: sigs.len(),
                            signatures: sigs,
                        },
                        n + m,
                    ),
                ),
            },
        }
    }

    proof fn lemma_round_trip(&self, rest: Seq<u8>) {
        let txs = self.transactions@;
        let sigs = self.signatures@;
        let data = self.encoding() + rest;
        assert(data =~= content(txs) + (signature_bytes(sigs) + rest));
        lemma_decode_content(txs, signature_bytes(sigs) + rest);
        lemma_content_len(txs);
        lemma_signature_bytes_len(sigs);
        assert(data.skip(72 * txs.len() as int) =~= signature_bytes(sigs) + rest);
        lemma_decode_signature_bytes(sigs, rest);
    }

    proof fn lemma_model_determines(&self, other: &Self) {
        self.lemma_fault_of_model(other);
    }

    fn from_serialized(data: &[u8], i: &mut usize) -> (r: Result<TransactionBlock, Error>) {
        let start = *i;
        if start > data.len() {
            return Err(Error::Codec(CodecError::Truncated));
        }
        let ghost s0 = data@.skip(start as int);
        let mut transactions: Vec<Transaction> = Vec::new();
        let mut seen: Vec<PublicKey> = Vec::new();
        assert(models(transactions@) =~= Seq::empty());
        assert(seen@.map_values(|k: PublicKey| k@) =~= Seq::empty());
        loop
            invariant_except_break
                decode_transactions(s0) == prepend(
                    models(transactions@),
                    (72 * transactions@.len()) as nat,
                    decode_transactions(data@.skip(*i as int)),
                ),
                forall|k: int|
                    0 <= k < transactions@.len() ==> (
                    #[trigger] transactions@[k]).spec_uid().spec_is_continuation(),
            invariant
                start <= *i <= data@.len(),
                start == *old(i),
                s0 == data@.skip(start as int),
                *i == start + 72 * transactions@.len(),
                forall|k: int| 0 <= k < transactions@.len() ==> (#[trigger] transactions@[k]).wf(),
                seen@.map_values(|k: PublicKey| k@) == senders(models(transactions@)),
            ensures
                transactions@.len() > 0,
                flags_canonical(transactions@),
                decode_transactions(s0) == Ok::<(Seq<TransactionModel>, nat), Error>(
                    (models(transactions@), (72 * transactions@.len()) as nat),
                ),
            decreases data@.len() - *i,
        {
            let ghost at = *i;
            let ghost before = transactions@;
            let ghost keys_before = seen@.map_values(|k: PublicKey| k@);
            let tx = match Transaction::from_serialized(data, i) {
                Ok(tx) => tx,
                Err(e) => {
                    *i = start;
                    return Err(e);
                },
            };
            let continued = tx.uid().is_continuation();
            let key = tx.from_pk();
            if !contains_key(&seen, &key) {
                seen.push(key);
                assert(seen@.map_values(|k: PublicKey| k@) =~= keys_before.push(key@));
            }
            transactions.push(tx);
            proof {
                assert(models(transactions@) =~= models(before) + seq![tx.model()]);
                assert(models(transactions@).drop_last() =~= models(before));
                assert(data@.skip(at as int).skip(72) =~= data@.skip(*i as int));
                lemma_prepend_twice(
                    models(before),
                    (72 * before.len()) as nat,
                    seq![tx.model()],
                    72,
                    decode_transactions(data@.skip(*i as int)),
                );
                if !continued {
                    assert(models(before) + seq![tx.model()] + Seq::empty() =~= models(
                        transactions@,
                    ));
                }
            }
            if !continued {
                break ;
            }
        }
        let ghost s1 = data@.skip(*i as int);
        let count = seen.len();
        let mut signatures: Vec<Signature> = Vec::new();
        assert(signature_views(signatures@) =~= Seq::empty());
        while signatures.len() < count
            invariant
                start <= *i <= data@.len(),
                start == *old(i),
                s0 == data@.skip(start as int),
                s1 == data@.skip(start + 72 * transactions@.len()),
                count == senders(models(transactions@)).len(),
                transactions@.len() > 0,
                flags_canonical(transactions@),
                forall|k: int| 0 <= k < transactions@.len() ==> (#[trigger] transactions@[k]).wf(),
                decode_transactions(s0) == Ok::<(Seq<TransactionModel>, nat), Error>(
                    (models(transactions@), (72 * transactions@.len()) as nat),
                ),
                signatures@.len() <= count,
                decode_signatures(s1, count as nat) == prepend(
                    signature_views(signatures@),
                    (64 * signatures@.len()) as nat,
                    decode_signatures(data@.skip(*i as int), (count - signatures@.len()) as nat),
                ),
                forall|k: int| 0 <= k < signatures@.len() ==> (#[trigger] signatures@[k]).wf(),
                *i == start + 72 * transactions@.len() + 64 * signatures@.len(),
            decreases count - signatures@.len(),
        {
            let ghost at = *i;
            let ghost before = signatures@;
            let signature = match Signature::from_serialized(data, i) {
                Ok(signature) => signature,
                Err(e) => {
                    proof {
                        assert(s0.skip(72 * transactions@.len() as int) =~= s1);
                        assert(decode_signatures(
                            data@.skip(at as int),
                            (count - before.len()) as nat,
                        ) == Err::<(Seq<Seq<u8>>, nat), Error>(e));
                    }
                    *i = start;
                    return Err(e);
                },
            };
            signatures.push(signature);
            proof {
                assert(signature_views(signatures@) =~= signature_views(before) + seq![
                    signature@,
                ]);
                assert(data@.skip(at as int).skip(64) =~= data@.skip(*i as int));
                lemma_prepend_twice(
                    signature_views(before),
                    (64 * before.len()) as nat,
                    seq![signature@],
                    64,
                    decode_signatures(data@.skip(*i as int), (count - signatures@.len()) as nat),
                );
            }
        }
        proof {
            assert(signature_views(signatures@) + Seq::empty() =~= signature_views(signatures@));
            assert(s0.skip(72 * transactions@.len() as int) =~= s1);
        }
        let group = TransactionBlock { transactions, expected_signatures: count, signatures };
        assert(group.wf() && TransactionBlock::decoding(s0) == Ok::<
            (TransactionBlockModel, nat),
            Error,
        >((group.model(), (*i - start) as nat)));
        Ok(group)
    }

    fn serialize_into(&self, buffer: &mut [u8], i: &mut usize) -> (r: Result<usize, Error>)
        ensures
            r matches Err(e) ==> e == match self.fault() {
                Some(f) => f,
                None => Error::Codec(CodecError::Truncated),
            },
    {
        assert(self.encodable() == (self.fault() is None));
        let bytes = self.to_bytes()?;
        assert(bytes@ == self.encoding());
        place(buffer, i, bytes.as_slice())
    }

    fn serialized_len(&self) -> (n: usize) {
        proof {
            lemma_content_len(self.transactions@);
            lemma_signature_bytes_len(self.signatures@);
        }
        72 * self.transactions.len() + 64 * self.signatures.len()
    }
}

} // verus!
