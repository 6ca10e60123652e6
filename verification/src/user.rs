//! What one key holds: a balance of dust and a set of identifiers.

use crate::error::{CodecError, Error, LedgerError};
use crate::keys::PublicKey;
use crate::transaction::TransactionValue;
use vstd::prelude::*;

verus! {

/// A key, the dust it holds and the identifiers it holds.
#[derive(Clone, Debug, PartialEq, Eq)]
pub struct User {
    pk: PublicKey,
    current_balance: u32,
    ids: Vec<u32>,
}

/// Where `id` stands in `ids`, if it does.
pub fn position(ids: &Vec<u32>, id: u32) -> (r: Option<usize>)
    ensures
        match r {
            Some(k) => k < ids@.len() && ids@[k as int] == id,
            None => !ids@.contains(id),
        },
{
    let mut j: usize = 0;
    while j < ids.len()
        invariant
            j <= ids.len(),
            forall|k: int| 0 <= k < j ==> ids@[k] != id,
        decreases ids.len() - j,
    {
        if ids[j] == id {
            return Some(j);
        }
        j += 1;
    }
    None
}

impl User {
    /// No identifier is held twice.
    pub closed spec fn wf(&self) -> bool {
        self.ids@.no_duplicates()
    }

    /// The key that holds.
    pub closed spec fn key(&self) -> PublicKey {
        self.pk
    }

    /// The dust held.
    pub closed spec fn balance(&self) -> nat {
        self.current_balance as nat
    }

    /// The identifiers held.
    pub closed spec fn ids(&self) -> Set<u32> {
        self.ids@.to_set()
    }

    /// The identifiers held, in the order in which they came.
    pub closed spec fn id_list(&self) -> Seq<u32> {
        self.ids@
    }

    /// The identifiers held are those of the list, and each stands in it
    /// once.
    pub proof fn lemma_id_list(&self)
        ensures
            self.ids() == self.id_list().to_set(),
            self.wf() ==> self.id_list().no_duplicates(),
    {
    }

    /// What a value adds to a balance when it is given: the amount less the
    /// fee.
    pub open spec fn credit(value: TransactionValue) -> int {
        value.net()
    }

    /// What a value takes from a balance when it is taken: the amount, fee
    /// included.
    pub open spec fn debit(value: TransactionValue) -> int {
        value.raw_value() as int
    }

    /// The identifier that a value hands over.
    pub open spec fn id_of(value: TransactionValue) -> u32 {
        (-value.raw_value()) as u32
    }

    /// Why `value` cannot be given to this user, if it cannot.
    pub open spec fn give_fault(&self, value: TransactionValue) -> Option<Error> {
        if !value.is_coin() && !value.is_id() {
            Some(Error::Codec(CodecError::Malformed))
        } else if value.is_coin() {
            if value.net() < 0 {
                Some(Error::Ledger(LedgerError::ValueMismatch))
            } else if self.balance() + value.net() > u32::MAX {
                Some(Error::Codec(CodecError::OutOfRange))
            } else {
                None
            }
        } else if self.ids().contains(User::id_of(value)) {
            Some(Error::Ledger(LedgerError::DuplicateNft))
        } else {
            None
        }
    }

    /// Why `value` cannot be taken from this user, if it cannot.
    pub open spec fn take_fault(&self, value: TransactionValue) -> Option<Error> {
        if !value.is_coin() && !value.is_id() {
            Some(Error::Codec(CodecError::Malformed))
        } else if value.is_coin() {
            if value.net() < 0 {
                Some(Error::Ledger(LedgerError::ValueMismatch))
            } else if value.raw_value() > self.balance() {
                Some(Error::Ledger(LedgerError::UnknownOutput))
            } else {
                None
            }
        } else if !self.ids().contains(User::id_of(value)) {
            Some(Error::Ledger(LedgerError::UnknownOutput))
        } else {
            None
        }
    }

    /// A user with key `pk` who holds nothing.
    pub fn new(pk: PublicKey) -> (r: User)
        ensures
            r.wf(),
            r.key() == pk,
            r.balance() == 0,
            r.ids() == Set::<u32>::empty(),
    {
        let ids: Vec<u32> = Vec::new();
        assert(ids@.to_set() =~= Set::<u32>::empty());
        User { pk, current_balance: 0, ids }
    }

    /// A balance fits in 32 bits.
    pub proof fn lemma_balance_bound(&self)
        ensures
            self.balance() <= 0xffff_ffff,
    {
    }

    /// A second user who holds the same under the same key.
    pub fn duplicate(&self) -> (r: User)
        requires
            self.wf(),
        ensures
            r.wf(),
            r.key() == self.key(),
            r.balance() == self.balance(),
            r.ids() == self.ids(),
    {
        let mut ids: Vec<u32> = Vec::new();
        let mut j: usize = 0;
        while j < self.ids.len()
            invariant
                j <= self.ids.len(),
                ids@ == self.ids@.take(j as int),
            decreases self.ids.len() - j,
        {
            ids.push(self.ids[j]);
            assert(ids@ =~= self.ids@.take(j + 1));
            j += 1;
        }
        assert(ids@ =~= self.ids@);
        User { pk: self.pk, current_balance: self.current_balance, ids }
    }

    /// The key that holds.
    pub fn pk(&self) -> (r: PublicKey)
        ensures
            r == self.key(),
    {
        self.pk
    }

    /// The dust held.
    pub fn get_balance(&self) -> (r: u32)
        ensures
            r == self.balance(),
    {
        self.current_balance
    }

    /// The identifiers held, in the order in which they came.
    pub fn held(&self) -> (r: &Vec<u32>)
        ensures
            r@ == self.id_list(),
    {
        &self.ids
    }

    /// Whether the user holds `id`.
    pub fn owns(&self, id: u32) -> (r: bool)
        ensures
            r == self.ids().contains(id),
    {
        position(&self.ids, id).is_some()
    }

    /// Raises the balance by `amount`: `false`, and nothing changed, where
    /// the balance would leave the range of 32 bits.
    pub fn add_dust(&mut self, amount: u32) -> (r: bool)
        requires
            old(self).wf(),
        ensures
            final(self).wf(),
            final(self).key() == old(self).key(),
            final(self).ids() == old(self).ids(),
            r == (old(self).balance() + amount <= u32::MAX),
            r ==> final(self).balance() == old(self).balance() + amount,
            !r ==> final(self).balance() == old(self).balance(),
    {
        match self.current_balance.checked_add(amount) {
            Some(sum) => {
                self.current_balance = sum;
                true
            },
            None => false,
        }
    }

    /// Books a value that the user receives: dust raises the balance by the
    /// amount less the fee, an identifier joins those held. Nothing changes
    /// where the value cannot be given.
    pub fn give(&mut self, value: TransactionValue) -> (r: Result<bool, Error>)
        requires
            old(self).wf(),
        ensures
            final(self).wf(),
            final(self).key() == old(self).key(),
            match old(self).give_fault(value) {
                Some(e) => {
                    &&& r == Err::<bool, Error>(e)
                    &&& final(self).balance() == old(self).balance()
                    &&& final(self).ids() == old(self).ids()
                },
                None => {
                    &&& r == Ok::<bool, Error>(true)
                    &&& value.is_coin() ==> final(self).balance() == old(self).balance()
                        + User::credit(value) && final(self).ids() == old(self).ids()
                    &&& value.is_id() ==> final(self).balance() == old(self).balance()
                        && final(self).ids() == old(self).ids().insert(User::id_of(value))
                },
            },
    {
        if value.is_coin_transfer()? {
            let net = value.get_value()?;
            match self.current_balance.checked_add(net) {
                Some(sum) => {
                    self.current_balance = sum;
                },
                None => {
                    return Err(Error::Codec(CodecError::OutOfRange));
                },
            }
        } else {
            let id = value.get_id()?;
            if position(&self.ids, id).is_some() {
                return Err(Error::Ledger(LedgerError::DuplicateNft));
            }
            let ghost before = self.ids@;
            self.ids.push(id);
            proof {
                assert(self.ids@ =~= before.push(id));
                assert(self.ids@.to_set() =~= before.to_set().insert(id)) by {
                    assert forall|x: u32| self.ids@.to_set().contains(x) <==> before.to_set().insert(
                        id,
                    ).contains(x) by {
                        if self.ids@.contains(x) {
                            let k = choose|k: int| 0 <= k < self.ids@.len() && self.ids@[k] == x;
                            if k < before.len() {
                                assert(before[k] == x);
                            }
                        }
                        if before.contains(x) {
                            let k = choose|k: int| 0 <= k < before.len() && before[k] == x;
                            assert(self.ids@[k] == x);
                        }
                        if x == id {
                            assert(self.ids@[before.len() as int] == x);
                        }
                    }
                }
            }
        }
        Ok(true)
    }

    /// Books a value that the user spends: dust lowers the balance by the
    /// amount, fee included, an identifier leaves those held. Nothing
    /// changes where the value cannot be taken.
    pub fn take(&mut self, value: TransactionValue) -> (r: Result<bool, Error>)
        requires
            old(self).wf(),
        ensures
            final(self).wf(),
            final(self).key() == old(self).key(),
            match old(self).take_fault(value) {
                Some(e) => {
                    &&& r == Err::<bool, Error>(e)
                    &&& final(self).balance() == old(self).balance()
                    &&& final(self).ids() == old(self).ids()
                },
                None => {
                    &&& r == Ok::<bool, Error>(true)
                    &&& value.is_coin() ==> final(self).balance() == old(self).balance()
                        - User::debit(value) && final(self).ids() == old(self).ids()
                    &&& value.is_id() ==> final(self).balance() == old(self).balance()
                        && final(self).ids() == old(self).ids().remove(User::id_of(value))
                },
            },
    {
        if value.is_coin_transfer()? {
            let net = value.get_value()?;
            let fee = value.get_fee()?;
            let amount = net + fee;
            if amount > self.current_balance {
                return Err(Error::Ledger(LedgerError::UnknownOutput));
            }
            self.current_balance -= amount;
        } else {
            let id = value.get_id()?;
            let at = match position(&self.ids, id) {
                Some(at) => at,
                None => {
                    return Err(Error::Ledger(LedgerError::UnknownOutput));
                },
            };
            let ghost before = self.ids@;
            self.ids.remove(at);
            proof {
                assert(self.ids@ =~= before.remove(at as int));
                assert(self.ids@.no_duplicates()) by {
                    assert forall|a: int, b: int|
                        0 <= a < self.ids@.len() && 0 <= b < self.ids@.len() && a
                            != b implies self.ids@[a] != self.ids@[b] by {
                        let a0 = if a < at { a } else { a + 1 };
                        let b0 = if b < at { b } else { b + 1 };
                        assert(self.ids@[a] == before[a0]);
                        assert(self.ids@[b] == before[b0]);
                    }
                }
                assert(self.ids@.to_set() =~= before.to_set().remove(id)) by {
                    assert forall|x: u32| self.ids@.to_set().contains(x) <==> before.to_set().remove(
                        id,
                    ).contains(x) by {
                        if self.ids@.contains(x) {
                            let k = choose|k: int| 0 <= k < self.ids@.len() && self.ids@[k] == x;
                            let k0 = if k < at { k } else { k + 1 };
                            assert(before[k0] == x);
                            assert(k0 != at);
                        }
                        if before.contains(x) && x != id {
                            let k = choose|k: int| 0 <= k < before.len() && before[k] == x;
                            let k1 = if k < at { k } else { k - 1 };
                            assert(self.ids@[k1] == x);
                        }
                    }
                }
            }
        }
        Ok(true)
    }
}

} // verus!
