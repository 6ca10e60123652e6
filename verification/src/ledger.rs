//! The ledger that a chain builds up: for every key the dust and the
//! identifiers it holds.

use crate::block::{group_models, Block, BlockModel};
use crate::serialize::Serialize;
use crate::transaction_block::{lemma_models_determine, models};
use crate::error::{CodecError, Error, LedgerError};
use crate::keys::PublicKey;
use crate::transaction::Transaction;
use crate::bytes::{append_bytes, bytes_equal};
use crate::transaction_block::{content, fees, first_fault, transfer_change, TransactionBlock};
use crate::user::User;
use vstd::prelude::*;

verus! {

/// The users of a chain, one for each key that ever held anything.
#[derive(Clone, Debug, PartialEq, Eq)]
pub struct Ledger {
    users: Vec<User>,
}

/// Whether the user at place `k` has key `key`.
pub open spec fn is_at(users: Seq<User>, key: Seq<u8>, k: int) -> bool {
    0 <= k < users.len() && users[k].key()@ == key
}

/// The dust that `key` holds: none where no user has the key.
pub open spec fn balance_of(users: Seq<User>, key: Seq<u8>) -> nat {
    if exists|k: int| is_at(users, key, k) {
        users[choose|k: int| is_at(users, key, k)].balance()
    } else {
        0
    }
}

/// Whether `key` holds `id`.
pub open spec fn holds(users: Seq<User>, key: Seq<u8>, id: u32) -> bool {
    exists|k: int| is_at(users, key, k) && users[k].ids().contains(id)
}

/// Whether any key holds `id`.
pub open spec fn minted(users: Seq<User>, id: u32) -> bool {
    exists|k: int| 0 <= k < users.len() && (#[trigger] users[k]).ids().contains(id)
}

/// All the dust there is.
pub open spec fn total(users: Seq<User>) -> nat
    decreases users.len(),
{
    if users.len() == 0 {
        0
    } else {
        total(users.drop_last()) + users.last().balance()
    }
}

/// Every user is well-formed, no key has two users, and no identifier two
/// holders.
pub open spec fn users_wf(users: Seq<User>) -> bool {
    &&& forall|k: int| 0 <= k < users.len() ==> (#[trigger] users[k]).wf()
    &&& forall|i: int, j: int|
        0 <= i < users.len() && 0 <= j < users.len() && i != j ==> (#[trigger] users[i]).key()@
            != (#[trigger] users[j]).key()@
    &&& forall|i: int, j: int, id: u32|
        0 <= i < users.len() && 0 <= j < users.len() && i != j && #[trigger] users[i].ids().contains(
            id,
        ) ==> !#[trigger] users[j].ids().contains(id)
}

/// Where no key has two users, the user with a key is the one found.
pub proof fn lemma_found(users: Seq<User>, key: Seq<u8>, k: int)
    requires
        users_wf(users),
        is_at(users, key, k),
    ensures
        balance_of(users, key) == users[k].balance(),
        forall|id: u32| holds(users, key, id) == users[k].ids().contains(id),
{
    let c = choose|c: int| is_at(users, key, c);
    assert(c == k);
    assert forall|id: u32| holds(users, key, id) == users[k].ids().contains(id) by {
        if holds(users, key, id) {
            let h = choose|h: int| is_at(users, key, h) && users[h].ids().contains(id);
            assert(h == k);
        }
        if users[k].ids().contains(id) {
            assert(is_at(users, key, k) && users[k].ids().contains(id));
        }
    }
}

/// A key without a user holds nothing.
pub proof fn lemma_absent(users: Seq<User>, key: Seq<u8>)
    requires
        forall|k: int| 0 <= k < users.len() ==> (#[trigger] users[k]).key()@ != key,
    ensures
        balance_of(users, key) == 0,
        forall|id: u32| !holds(users, key, id),
{
}

/// Changing one user changes the dust there is by what the user's balance
/// changes.
pub proof fn lemma_total_update(users: Seq<User>, k: int, user: User)
    requires
        0 <= k < users.len(),
    ensures
        total(users.update(k, user)) == total(users) - users[k].balance() + user.balance(),
    decreases users.len(),
{
    let after = users.update(k, user);
    if k == users.len() - 1 {
        assert(after.drop_last() =~= users.drop_last());
    } else {
        assert(after.drop_last() =~= users.drop_last().update(k, user));
        lemma_total_update(users.drop_last(), k, user);
    }
}

/// A new user adds their balance to the dust there is.
pub proof fn lemma_total_push(users: Seq<User>, user: User)
    ensures
        total(users.push(user)) == total(users) + user.balance(),
{
    assert(users.push(user).drop_last() =~= users);
}

/// A number of 32 bits as four bytes, the most significant first.
pub open spec fn quad(n: u32) -> Seq<u8> {
    seq![
        (n / 0x100_0000) as u8,
        (n / 0x1_0000 % 0x100) as u8,
        (n / 0x100 % 0x100) as u8,
        (n % 0x100) as u8,
    ]
}

/// A number of 32 bits as four bytes, the most significant first.
pub fn quad_bytes(n: u32) -> (r: [u8; 4])
    ensures
        r@ == quad(n),
{
    let r = [
        (n / 0x100_0000) as u8,
        (n / 0x1_0000 % 0x100) as u8,
        (n / 0x100 % 0x100) as u8,
        (n % 0x100) as u8,
    ];
    assert(r@ =~= quad(n));
    r
}

/// The balances as bytes: for each user in order the key, in 33 bytes,
/// and the balance, in four.
pub open spec fn balances_content(users: Seq<User>) -> Seq<u8>
    decreases users.len(),
{
    if users.len() == 0 {
        Seq::empty()
    } else {
        balances_content(users.drop_last()) + users.last().key()@ + quad(
            users.last().balance() as u32,
        )
    }
}

/// The identifiers of one key as bytes: each identifier, in four bytes,
/// and then the key that holds it, in 33.
pub open spec fn held_content(key: Seq<u8>, ids: Seq<u32>) -> Seq<u8>
    decreases ids.len(),
{
    if ids.len() == 0 {
        Seq::empty()
    } else {
        held_content(key, ids.drop_last()) + quad(ids.last()) + key
    }
}

/// Where each identifier is held, as bytes: user by user, and for each
/// user identifier by identifier.
pub open spec fn lookups_content(users: Seq<User>) -> Seq<u8>
    decreases users.len(),
{
    if users.len() == 0 {
        Seq::empty()
    } else {
        lookups_content(users.drop_last()) + held_content(
            users.last().key()@,
            users.last().id_list(),
        )
    }
}

impl Ledger {
    /// The balances as bytes.
    pub fn balances_to_bytes(&self) -> (r: Vec<u8>)
        ensures
            r@ == balances_content(self.users()),
    {
        let mut out: Vec<u8> = Vec::new();
        let mut j: usize = 0;
        assert(self.users@.take(0) =~= Seq::empty());
        while j < self.users.len()
            invariant
                j <= self.users.len(),
                out@ == balances_content(self.users@.take(j as int)),
            decreases self.users.len() - j,
        {
            let ghost prefix = self.users@.take(j + 1);
            assert(prefix.drop_last() =~= self.users@.take(j as int));
            append_bytes(&mut out, &self.users[j].pk().serialize());
            append_bytes(&mut out, &quad_bytes(self.users[j].get_balance()));
            j += 1;
        }
        assert(self.users@.take(j as int) =~= self.users@);
        out
    }

    /// Where each identifier is held, as bytes.
    pub fn lookups_to_bytes(&self) -> (r: Vec<u8>)
        ensures
            r@ == lookups_content(self.users()),
    {
        let mut out: Vec<u8> = Vec::new();
        let mut j: usize = 0;
        assert(self.users@.take(0) =~= Seq::empty());
        while j < self.users.len()
            invariant
                j <= self.users.len(),
                out@ == lookups_content(self.users@.take(j as int)),
            decreases self.users.len() - j,
        {
            let ghost prefix = self.users@.take(j + 1);
            assert(prefix.drop_last() =~= self.users@.take(j as int));
            let ghost before = out@;
            let key = self.users[j].pk().serialize();
            let ids = self.users[j].held();
            let mut k: usize = 0;
            assert(ids@.take(0) =~= Seq::empty());
            while k < ids.len()
                invariant
                    k <= ids.len(),
                    out@ == before + held_content(key@, ids@.take(k as int)),
                decreases ids.len() - k,
            {
                let ghost some = ids@.take(k + 1);
                assert(some.drop_last() =~= ids@.take(k as int));
                append_bytes(&mut out, &quad_bytes(ids[k]));
                append_bytes(&mut out, &key);
                assert(out@ =~= before + held_content(key@, some));
                k += 1;
            }
            assert(ids@.take(k as int) =~= ids@);
            j += 1;
        }
        assert(self.users@.take(j as int) =~= self.users@);
        out
    }

    /// What the ledger holds, user by user.
    pub closed spec fn users(&self) -> Seq<User> {
        self.users@
    }

    /// What the ledger holds, as values.
    pub open spec fn view(&self) -> Holdings {
        holdings(self.users())
    }

    /// Every user is well-formed, no key has two users, and no identifier
    /// two holders.
    pub open spec fn wf(&self) -> bool {
        users_wf(self.users())
    }

    /// A ledger in which nobody holds anything.
    pub fn new() -> (r: Ledger)
        ensures
            r.wf(),
            r.users().len() == 0,
            total(r.users()) == 0,
    {
        Ledger { users: Vec::new() }
    }

    /// The place of the user with key `pk`, if there is one.
    pub fn find(&self, pk: &PublicKey) -> (r: Option<usize>)
        ensures
            match r {
                Some(k) => is_at(self.users(), pk@, k as int),
                None => forall|k: int|
                    0 <= k < self.users().len() ==> (#[trigger] self.users()[k]).key()@ != pk@,
            },
    {
        let mut j: usize = 0;
        while j < self.users.len()
            invariant
                j <= self.users.len(),
                forall|k: int| 0 <= k < j ==> (#[trigger] self.users@[k]).key()@ != pk@,
            decreases self.users.len() - j,
        {
            if self.users[j].pk().same(pk) {
                return Some(j);
            }
            j += 1;
        }
        None
    }

    /// The dust that `pk` holds.
    pub fn get_balance(&self, pk: &PublicKey) -> (r: u32)
        requires
            self.wf(),
        ensures
            r == balance_of(self.users(), pk@),
    {
        match self.find(pk) {
            Some(k) => {
                proof {
                    lemma_found(self.users@, pk@, k as int);
                }
                self.users[k].get_balance()
            },
            None => {
                proof {
                    lemma_absent(self.users@, pk@);
                }
                0
            },
        }
    }

    /// Whether `pk` holds `id`.
    pub fn owns(&self, pk: &PublicKey, id: u32) -> (r: bool)
        requires
            self.wf(),
        ensures
            r == holds(self.users(), pk@, id),
    {
        match self.find(pk) {
            Some(k) => {
                proof {
                    lemma_found(self.users@, pk@, k as int);
                }
                self.users[k].owns(id)
            },
            None => {
                proof {
                    lemma_absent(self.users@, pk@);
                }
                false
            },
        }
    }

    /// Whether any key holds `id`.
    pub fn is_minted(&self, id: u32) -> (r: bool)
        ensures
            r == minted(self.users(), id),
    {
        let mut j: usize = 0;
        while j < self.users.len()
            invariant
                j <= self.users.len(),
                forall|k: int| 0 <= k < j ==> !(#[trigger] self.users@[k]).ids().contains(id),
            decreases self.users.len() - j,
        {
            if self.users[j].owns(id) {
                return true;
            }
            j += 1;
        }
        false
    }

    /// All the dust there is, where 128 bits hold it.
    pub fn total_dust(&self) -> (r: u128)
        ensures
            r == total(self.users()),
    {
        let mut sum: u128 = 0;
        let mut j: usize = 0;
        assert(self.users@.take(0) =~= Seq::empty());
        while j < self.users.len()
            invariant
                j <= self.users.len(),
                sum == total(self.users@.take(j as int)),
                sum <= 0xffff_ffff * j,
            decreases self.users.len() - j,
        {
            let ghost prefix = self.users@.take(j + 1);
            assert(prefix.drop_last() =~= self.users@.take(j as int));
            sum = sum + self.users[j].get_balance() as u128;
            j += 1;
        }
        assert(self.users@.take(j as int) =~= self.users@);
        sum
    }
}

/// What a ledger holds, as values: the dust of every key, and the pairs of
/// a key and an identifier that it holds.
pub ghost struct Holdings {
    pub dust: Map<Seq<u8>, nat>,
    pub held: Set<(Seq<u8>, u32)>,
}

/// What the users of a ledger hold.
pub open spec fn holdings(users: Seq<User>) -> Holdings {
    Holdings {
        dust: Map::total(|key: Seq<u8>| balance_of(users, key)),
        held: Set::new(|pair: (Seq<u8>, u32)| holds(users, pair.0, pair.1)),
    }
}

/// Nobody holds anything.
pub open spec fn no_holdings() -> Holdings {
    Holdings { dust: Map::total(|key: Seq<u8>| 0nat), held: Set::empty() }
}

/// Whether any key holds `id`.
pub open spec fn id_minted(h: Holdings, id: u32) -> bool {
    exists|key: Seq<u8>| h.held.contains((key, id))
}

/// What a transfer makes of holdings: dust leaves the sender, fee
/// included, and reaches the receiver less the fee; an identifier goes from
/// the sender, who must hold it, to the receiver; an identifier that a key
/// hands to itself is minted, and must not be held by anyone. Dust is held
/// as one balance to a key, so to spend the same dust a second time is to
/// spend more than the balance: that is refused as an unknown output, as
/// is an identifier that its sender does not hold.
pub open spec fn book(h: Holdings, tx: Transaction) -> Result<Holdings, Error> {
    let value = tx.spec_value();
    let from = tx.spec_from_pk()@;
    let to = tx.spec_to_pk()@;
    let id = User::id_of(value);
    if !value.is_coin() && !value.is_id() {
        Err(Error::Codec(CodecError::Malformed))
    } else if value.is_coin() {
        if value.net() < 0 {
            Err(Error::Ledger(LedgerError::ValueMismatch))
        } else if value.raw_value() > h.dust[from] {
            Err(Error::Ledger(LedgerError::UnknownOutput))
        } else if from != to && h.dust[to] + value.net() > u32::MAX {
            Err(Error::Codec(CodecError::OutOfRange))
        } else {
            let taken = h.dust.insert(from, (h.dust[from] - value.raw_value()) as nat);
            Ok(Holdings { dust: taken.insert(to, (taken[to] + value.net()) as nat), held: h.held })
        }
    } else if from == to {
        if id_minted(h, id) {
            Err(Error::Ledger(LedgerError::DuplicateNftMint))
        } else {
            Ok(Holdings { dust: h.dust, held: h.held.insert((to, id)) })
        }
    } else if !h.held.contains((from, id)) {
        Err(Error::Ledger(LedgerError::UnknownOutput))
    } else {
        Ok(Holdings { dust: h.dust, held: h.held.remove((from, id)).insert((to, id)) })
    }
}

/// An identifier that a key has handed on is no longer that key's to hand
/// on: where the first transfer is booked, a second transfer of the same
/// identifier from the same key is refused as an unknown output.
pub proof fn lemma_second_spend_of_identifier(h: Holdings, first: Transaction, second: Transaction)
    requires
        first.spec_value().is_id(),
        second.spec_value().is_id(),
        User::id_of(second.spec_value()) == User::id_of(first.spec_value()),
        second.spec_from_pk()@ == first.spec_from_pk()@,
        first.spec_from_pk()@ != first.spec_to_pk()@,
        second.spec_from_pk()@ != second.spec_to_pk()@,
        book(h, first) is Ok,
    ensures
        book(book(h, first).unwrap(), second) == Err::<Holdings, Error>(
            Error::Ledger(LedgerError::UnknownOutput),
        ),
{
}

/// Dust that a key has spent is no longer that key's to spend: where the
/// first transfer is booked, and the balance of the key does not cover
/// both, a second transfer from the same key is refused as an unknown
/// output.
pub proof fn lemma_second_spend_of_dust(h: Holdings, first: Transaction, second: Transaction)
    requires
        first.spec_value().is_coin(),
        second.spec_value().is_coin(),
        second.spec_value().net() >= 0,
        second.spec_from_pk()@ == first.spec_from_pk()@,
        first.spec_from_pk()@ != first.spec_to_pk()@,
        first.spec_value().raw_value() + second.spec_value().raw_value()
            > h.dust[first.spec_from_pk()@],
        book(h, first) is Ok,
    ensures
        book(book(h, first).unwrap(), second) == Err::<Holdings, Error>(
            Error::Ledger(LedgerError::UnknownOutput),
        ),
{
}

/// The fee that a transfer pays.
pub open spec fn fee_of(tx: Transaction) -> int {
    if tx.spec_value().is_coin() {
        tx.spec_value().raw_fee().unwrap() as int
    } else {
        0
    }
}

/// Two ledgers in which every key holds the same.
pub open spec fn same_holdings(a: Seq<User>, b: Seq<User>) -> bool {
    &&& forall|key: Seq<u8>| balance_of(a, key) == balance_of(b, key)
    &&& forall|key: Seq<u8>, id: u32| holds(a, key, id) == holds(b, key, id)
    &&& forall|id: u32| minted(a, id) == minted(b, id)
    &&& total(a) == total(b)
}

/// Why a transfer cannot be booked on a ledger, if it cannot.
pub open spec fn transfer_fault(users: Seq<User>, tx: Transaction) -> Option<Error> {
    let value = tx.spec_value();
    let from = tx.spec_from_pk()@;
    let to = tx.spec_to_pk()@;
    if !value.is_coin() && !value.is_id() {
        Some(Error::Codec(CodecError::Malformed))
    } else if value.is_coin() {
        if value.net() < 0 {
            Some(Error::Ledger(LedgerError::ValueMismatch))
        } else if value.raw_value() > balance_of(users, from) {
            Some(Error::Ledger(LedgerError::UnknownOutput))
        } else if from != to && balance_of(users, to) + value.net() > u32::MAX {
            Some(Error::Codec(CodecError::OutOfRange))
        } else {
            None
        }
    } else if from == to {
        if minted(users, User::id_of(value)) {
            Some(Error::Ledger(LedgerError::DuplicateNftMint))
        } else {
            None
        }
    } else if !holds(users, from, User::id_of(value)) {
        Some(Error::Ledger(LedgerError::UnknownOutput))
    } else {
        None
    }
}

/// What a booked transfer leaves of a ledger: balances move by what the
/// transfer changes in them, its identifier goes to the receiver, and the
/// dust there is shrinks by the fee.
pub open spec fn booked(before: Seq<User>, after: Seq<User>, tx: Transaction) -> bool {
    let value = tx.spec_value();
    &&& forall|key: Seq<u8>|
        balance_of(after, key) == balance_of(before, key) + transfer_change(tx, key)
    &&& forall|key: Seq<u8>, id: u32|
        holds(after, key, id) == if value.is_id() && id == User::id_of(value) {
            key == tx.spec_to_pk()@
        } else {
            holds(before, key, id)
        }
    &&& total(after) == total(before) - if value.is_coin() {
        value.raw_fee().unwrap() as int
    } else {
        0
    }
}

impl Ledger {
    /// The place of the user with key `pk`, who is added with nothing to
    /// their name where there is none yet. Nobody holds more or less after.
    pub fn ensure(&mut self, pk: &PublicKey) -> (k: usize)
        requires
            old(self).wf(),
        ensures
            final(self).wf(),
            is_at(final(self).users(), pk@, k as int),
            same_holdings(old(self).users(), final(self).users()),
            old(self).users().len() <= final(self).users().len(),
            forall|j: int|
                0 <= j < old(self).users().len() ==> final(self).users()[j] == old(
                    self,
                ).users()[j],
    {
        match self.find(pk) {
            Some(k) => k,
            None => {
                let user = User::new(*pk);
                let ghost before = self.users@;
                self.users.push(user);
                proof {
                    let after = self.users@;
                    lemma_total_push(before, user);
                    assert forall|key: Seq<u8>| balance_of(before, key) == balance_of(
                        after,
                        key,
                    ) by {
                        lemma_push_empty(before, user, key);
                    }
                    assert forall|key: Seq<u8>, id: u32| holds(before, key, id) == holds(
                        after,
                        key,
                        id,
                    ) by {
                        lemma_push_empty(before, user, key);
                    }
                    assert forall|id: u32| minted(before, id) == minted(after, id) by {
                        if minted(after, id) {
                            let h = choose|h: int|
                                0 <= h < after.len() && (#[trigger] after[h]).ids().contains(id);
                            assert(before[h] == after[h]);
                        }
                        if minted(before, id) {
                            let h = choose|h: int|
                                0 <= h < before.len() && (#[trigger] before[h]).ids().contains(id);
                            assert(after[h] == before[h]);
                        }
                    }
                }
                self.users.len() - 1
            },
        }
    }
}

/// A new user with nothing to their name, under a key that had no user,
/// changes what nobody holds.
pub proof fn lemma_push_empty(users: Seq<User>, user: User, key: Seq<u8>)
    requires
        users_wf(users),
        user.wf(),
        user.balance() == 0,
        user.ids() == Set::<u32>::empty(),
        forall|k: int| 0 <= k < users.len() ==> (#[trigger] users[k]).key()@ != user.key()@,
    ensures
        users_wf(users.push(user)),
        balance_of(users.push(user), key) == balance_of(users, key),
        forall|id: u32| holds(users.push(user), key, id) == holds(users, key, id),
{
    let after = users.push(user);
    assert forall|k: int| 0 <= k < users.len() implies after[k] == users[k] by {}
    assert(users_wf(after));
    if exists|k: int| is_at(after, key, k) {
        let k = choose|k: int| is_at(after, key, k);
        if k < users.len() {
            assert(is_at(users, key, k));
            lemma_found(users, key, k);
            lemma_found(after, key, k);
        } else {
            lemma_found(after, key, k);
            assert(!exists|j: int| is_at(users, key, j));
        }
    } else {
        assert forall|j: int| !is_at(users, key, j) by {
            if is_at(users, key, j) {
                assert(is_at(after, key, j));
            }
        }
    }
    assert forall|id: u32| holds(after, key, id) == holds(users, key, id) by {
        if holds(after, key, id) {
            let h = choose|h: int| is_at(after, key, h) && after[h].ids().contains(id);
            assert(h < users.len());
            assert(is_at(users, key, h) && users[h].ids().contains(id));
        }
        if holds(users, key, id) {
            let h = choose|h: int| is_at(users, key, h) && users[h].ids().contains(id);
            assert(is_at(after, key, h) && after[h].ids().contains(id));
        }
    }
}

/// What a ledger holds after one user was changed, where the user keeps
/// their key and gains no identifier that somebody holds.
pub proof fn lemma_update(users: Seq<User>, k: int, user: User)
    requires
        users_wf(users),
        0 <= k < users.len(),
        user.wf(),
        user.key() == users[k].key(),
        forall|id: u32|
            user.ids().contains(id) && !users[k].ids().contains(id) ==> !minted(users, id),
    ensures
        users_wf(users.update(k, user)),
        forall|key: Seq<u8>|
            balance_of(users.update(k, user), key) == if key == user.key()@ {
                user.balance()
            } else {
                balance_of(users, key)
            },
        forall|key: Seq<u8>, id: u32|
            holds(users.update(k, user), key, id) == if key == user.key()@ {
                user.ids().contains(id)
            } else {
                holds(users, key, id)
            },
        forall|id: u32|
            minted(users.update(k, user), id) == (user.ids().contains(id) || exists|j: int|
                0 <= j < users.len() && j != k && (#[trigger] users[j]).ids().contains(id)),
        total(users.update(k, user)) == total(users) - users[k].balance() + user.balance(),
{
    let after = users.update(k, user);
    lemma_total_update(users, k, user);
    assert forall|i: int, j: int, id: u32|
        0 <= i < after.len() && 0 <= j < after.len() && i != j && #[trigger] after[i].ids().contains(
            id,
        ) implies !#[trigger] after[j].ids().contains(id) by {
        if i == k {
            if users[k].ids().contains(id) {
                assert(!users[j].ids().contains(id));
            } else {
                assert(!minted(users, id));
            }
        } else if j == k {
            assert(users[i].ids().contains(id));
            if !users[k].ids().contains(id) {
                assert(minted(users, id));
            }
        } else {
            assert(users[i].ids().contains(id));
        }
    }
    assert(users_wf(after));
    assert forall|key: Seq<u8>| balance_of(after, key) == if key == user.key()@ {
        user.balance()
    } else {
        balance_of(users, key)
    } by {
        if key == user.key()@ {
            assert(is_at(after, key, k));
            lemma_found(after, key, k);
        } else if exists|j: int| is_at(users, key, j) {
            let j = choose|j: int| is_at(users, key, j);
            assert(is_at(after, key, j));
            lemma_found(after, key, j);
            lemma_found(users, key, j);
        } else {
            assert forall|j: int| !is_at(after, key, j) by {
                if is_at(after, key, j) {
                    assert(is_at(users, key, j));
                }
            }
        }
    }
    assert forall|key: Seq<u8>, id: u32| holds(after, key, id) == if key == user.key()@ {
        user.ids().contains(id)
    } else {
        holds(users, key, id)
    } by {
        if key == user.key()@ {
            assert(is_at(after, key, k));
            lemma_found(after, key, k);
        } else {
            if holds(after, key, id) {
                let h = choose|h: int| is_at(after, key, h) && after[h].ids().contains(id);
                assert(is_at(users, key, h) && users[h].ids().contains(id));
            }
            if holds(users, key, id) {
                let h = choose|h: int| is_at(users, key, h) && users[h].ids().contains(id);
                assert(is_at(after, key, h) && after[h].ids().contains(id));
            }
        }
    }
    assert forall|id: u32|
        minted(after, id) == (user.ids().contains(id) || exists|j: int|
            0 <= j < users.len() && j != k && (#[trigger] users[j]).ids().contains(id)) by {
        if minted(after, id) {
            let h = choose|h: int| 0 <= h < after.len() && (#[trigger] after[h]).ids().contains(id);
            if h != k {
                assert(users[h].ids().contains(id));
            }
        }
        if user.ids().contains(id) {
            assert(after[k].ids().contains(id));
        }
        if exists|j: int| 0 <= j < users.len() && j != k && (#[trigger] users[j]).ids().contains(id) {
            let j = choose|j: int|
                0 <= j < users.len() && j != k && (#[trigger] users[j]).ids().contains(id);
            assert(after[j].ids().contains(id));
        }
    }
}

impl Ledger {
    /// Books a transfer: dust leaves the sender, fee included, and reaches
    /// the receiver less the fee; an identifier goes from the sender to the
    /// receiver; an identifier that a key hands to itself is minted. Where
    /// the transfer cannot be booked, nobody holds more or less after.
    pub fn apply(&mut self, tx: &Transaction) -> (r: Result<(), Error>)
        requires
            old(self).wf(),
        ensures
            final(self).wf(),
            match book(old(self)@, *tx) {
                Err(e) => {
                    &&& r == Err::<(), Error>(e)
                    &&& final(self)@ == old(self)@
                    &&& total(final(self).users()) == total(old(self).users())
                },
                Ok(h) => {
                    &&& r is Ok
                    &&& final(self)@ == h
                    &&& total(final(self).users()) == total(old(self).users()) - fee_of(*tx)
                },
            },
    {
        let r = self.apply_transfer(tx);
        proof {
            lemma_book(old(self).users@, self.users@, *tx);
        }
        r
    }

    fn apply_transfer(&mut self, tx: &Transaction) -> (r: Result<(), Error>)
        requires
            old(self).wf(),
        ensures
            final(self).wf(),
            match transfer_fault(old(self).users(), *tx) {
                Some(e) => r == Err::<(), Error>(e) && same_holdings(
                    old(self).users(),
                    final(self).users(),
                ),
                None => r is Ok && booked(old(self).users(), final(self).users(), *tx),
            },
    {
        let value = tx.value();
        let from = tx.from_pk();
        let to = tx.to_pk();
        let ghost u0 = self.users@;
        let coin = match value.is_coin_transfer() {
            Ok(coin) => coin,
            Err(e) => {
                return Err(e);
            },
        };
        let s = self.ensure(&from);
        let ghost ua = self.users@;
        let t = self.ensure(&to);
        let ghost u1 = self.users@;
        proof {
            assert(u1[s as int] == ua[s as int]);
            lemma_found(u1, from@, s as int);
            lemma_found(u1, to@, t as int);
            assert(same_holdings(u0, u1));
        }
        if coin {
            let net = match value.get_value() {
                Ok(net) => net,
                Err(e) => {
                    return Err(e);
                },
            };
            let fee = match value.get_fee() {
                Ok(fee) => fee,
                Err(e) => {
                    return Err(e);
                },
            };
            let gross = net + fee;
            if gross > self.users[s].get_balance() {
                return Err(Error::Ledger(LedgerError::UnknownOutput));
            }
            if s != t && net > u32::MAX - self.users[t].get_balance() {
                return Err(Error::Codec(CodecError::OutOfRange));
            }
            let _ = self.users[s].take(value);
            let ghost u2 = self.users@;
            proof {
                assert(u2 =~= u1.update(s as int, u2[s as int]));
                lemma_update(u1, s as int, u2[s as int]);
                lemma_found(u2, to@, t as int);
            }
            let _ = self.users[t].give(value);
            let ghost u3 = self.users@;
            proof {
                assert(u3 =~= u2.update(t as int, u3[t as int]));
                lemma_update(u2, t as int, u3[t as int]);
                assert forall|key: Seq<u8>| balance_of(u3, key) == balance_of(u0, key)
                    + transfer_change(*tx, key) by {
                    assert(balance_of(u0, key) == balance_of(u1, key));
                }
                assert forall|key: Seq<u8>, id: u32| holds(u3, key, id) == holds(u0, key, id) by {
                    assert(holds(u0, key, id) == holds(u1, key, id));
                }
            }
        } else {
            let id = match value.get_id() {
                Ok(id) => id,
                Err(e) => {
                    return Err(e);
                },
            };
            if s == t {
                if self.is_minted(id) {
                    return Err(Error::Ledger(LedgerError::DuplicateNftMint));
                }
                let _ = self.users[t].give(value);
                let ghost u3 = self.users@;
                proof {
                    assert(u3 =~= u1.update(t as int, u3[t as int]));
                    lemma_update(u1, t as int, u3[t as int]);
                    assert forall|key: Seq<u8>| balance_of(u3, key) == balance_of(u0, key)
                        + transfer_change(*tx, key) by {
                        assert(balance_of(u0, key) == balance_of(u1, key));
                    }
                    assert forall|key: Seq<u8>, other: u32| holds(u3, key, other) == if other
                        == id {
                        key == to@
                    } else {
                        holds(u0, key, other)
                    } by {
                        assert(holds(u0, key, other) == holds(u1, key, other));
                        if other == id && key != to@ && holds(u1, key, other) {
                            let h = choose|h: int|
                                is_at(u1, key, h) && u1[h].ids().contains(other);
                            assert(minted(u1, id));
                        }
                    }
                }
            } else {
                if !self.users[s].owns(id) {
                    return Err(Error::Ledger(LedgerError::UnknownOutput));
                }
                let _ = self.users[s].take(value);
                let ghost u2 = self.users@;
                proof {
                    assert(u2 =~= u1.update(s as int, u2[s as int]));
                    lemma_update(u1, s as int, u2[s as int]);
                    lemma_found(u2, to@, t as int);
                    assert(!minted(u2, id)) by {
                        if minted(u2, id) {
                            let j = choose|j: int|
                                0 <= j < u1.len() && j != s && (#[trigger] u1[j]).ids().contains(
                                    id,
                                );
                            assert(u1[s as int].ids().contains(id));
                        }
                    }
                }
                let _ = self.users[t].give(value);
                let ghost u3 = self.users@;
                proof {
                    assert(u3 =~= u2.update(t as int, u3[t as int]));
                    lemma_update(u2, t as int, u3[t as int]);
                    assert forall|key: Seq<u8>| balance_of(u3, key) == balance_of(u0, key)
                        + transfer_change(*tx, key) by {
                        assert(balance_of(u0, key) == balance_of(u1, key));
                    }
                    assert forall|key: Seq<u8>, other: u32| holds(u3, key, other) == if other
                        == id {
                        key == to@
                    } else {
                        holds(u0, key, other)
                    } by {
                        assert(holds(u0, key, other) == holds(u1, key, other));
                        if other == id && key != to@ && key != from@ && holds(u1, key, other) {
                            let h = choose|h: int|
                                is_at(u1, key, h) && u1[h].ids().contains(other);
                            assert(u1[s as int].ids().contains(id));
                            assert(h != s);
                        }
                    }
                }
            }
        }
        Ok(())
    }
}

/// Ledgers in which every key holds the same hold the same.
pub proof fn lemma_same(a: Seq<User>, b: Seq<User>)
    requires
        same_holdings(a, b),
    ensures
        holdings(a) == holdings(b),
{
    assert(holdings(a).dust =~= holdings(b).dust);
    assert(holdings(a).held =~= holdings(b).held);
}

/// An identifier is held by a user exactly where it is held under a key.
pub proof fn lemma_minted(users: Seq<User>, id: u32)
    ensures
        minted(users, id) == id_minted(holdings(users), id),
{
    if minted(users, id) {
        let k = choose|k: int| 0 <= k < users.len() && (#[trigger] users[k]).ids().contains(id);
        let key = users[k].key()@;
        assert(is_at(users, key, k) && users[k].ids().contains(id));
        assert(holdings(users).held.contains((key, id)));
    }
    if id_minted(holdings(users), id) {
        let key = choose|key: Seq<u8>| holdings(users).held.contains((key, id));
        let k = choose|k: int| is_at(users, key, k) && users[k].ids().contains(id);
        assert(users[k].ids().contains(id));
    }
}

/// What booking does to the users of a ledger is what it does to their
/// holdings.
pub proof fn lemma_book(before: Seq<User>, after: Seq<User>, tx: Transaction)
    requires
        users_wf(before),
        match transfer_fault(before, tx) {
            Some(e) => same_holdings(before, after),
            None => booked(before, after, tx),
        },
    ensures
        match book(holdings(before), tx) {
            Err(e) => {
                &&& transfer_fault(before, tx) == Some(e)
                &&& holdings(after) == holdings(before)
                &&& total(after) == total(before)
            },
            Ok(h) => {
                &&& transfer_fault(before, tx) is None
                &&& holdings(after) == h
                &&& total(after) == total(before) - fee_of(tx)
            },
        },
{
    let value = tx.spec_value();
    let from = tx.spec_from_pk()@;
    let to = tx.spec_to_pk()@;
    let id = User::id_of(value);
    let h = holdings(before);
    lemma_minted(before, id);
    if transfer_fault(before, tx) is Some {
        lemma_same(before, after);
    } else {
        let expected = book(h, tx).unwrap();
        assert(holdings(after).dust =~= expected.dust);
        assert(holdings(after).held =~= expected.held) by {
            assert forall|pair: (Seq<u8>, u32)| holdings(after).held.contains(pair)
                == expected.held.contains(pair) by {
                if value.is_id() && pair.1 == id && pair.0 != to && holds(before, pair.0, id) {
                    if from == to {
                        assert(h.held.contains((pair.0, id)));
                    } else {
                        lemma_one_holder(before, from, pair.0, id);
                    }
                }
            }
        }
    }
}

/// No identifier has two holders.
pub proof fn lemma_one_holder(users: Seq<User>, a: Seq<u8>, b: Seq<u8>, id: u32)
    requires
        users_wf(users),
        holds(users, a, id),
        holds(users, b, id),
    ensures
        a == b,
{
    let i = choose|i: int| is_at(users, a, i) && users[i].ids().contains(id);
    let j = choose|j: int| is_at(users, b, j) && users[j].ids().contains(id);
    assert(i == j);
}

/// What transfers, booked in order, make of holdings.
pub open spec fn book_all(h: Holdings, txs: Seq<Transaction>) -> Result<Holdings, Error>
    decreases txs.len(),
{
    if txs.len() == 0 {
        Ok(h)
    } else {
        match book_all(h, txs.drop_last()) {
            Err(e) => Err(e),
            Ok(before) => book(before, txs.last()),
        }
    }
}

/// What transfers make of holdings where they are booked in order up to
/// the first that cannot be booked.
pub open spec fn book_while(h: Holdings, txs: Seq<Transaction>) -> Holdings
    decreases txs.len(),
{
    if txs.len() == 0 {
        h
    } else {
        match book_all(h, txs.drop_last()) {
            Err(_) => book_while(h, txs.drop_last()),
            Ok(before) => match book(before, txs.last()) {
                Ok(after) => after,
                Err(_) => before,
            },
        }
    }
}

/// Where a transfer of a prefix cannot be booked, what is booked of the
/// whole is what is booked of the prefix.
pub proof fn lemma_book_while_prefix(h: Holdings, txs: Seq<Transaction>, n: int)
    requires
        0 <= n <= txs.len(),
        book_all(h, txs.take(n)) is Err,
    ensures
        book_while(h, txs) == book_while(h, txs.take(n)),
    decreases txs.len(),
{
    if n < txs.len() {
        assert(txs.drop_last().take(n) =~= txs.take(n));
        lemma_book_all_prefix(h, txs.drop_last(), n);
        lemma_book_while_prefix(h, txs.drop_last(), n);
    } else {
        assert(txs.take(n) =~= txs);
    }
}

/// A group makes of holdings what its transfers make of them, where its
/// signatures hold; else it leaves them.
pub open spec fn group_while(h: Holdings, group: TransactionBlock) -> Holdings {
    match group.fault() {
        Some(_) => h,
        None => book_while(h, group.transactions@),
    }
}

/// What a group makes of holdings: its signatures are checked, then its
/// transfers are booked in order.
pub open spec fn book_group(h: Holdings, group: TransactionBlock) -> Result<Holdings, Error> {
    match group.fault() {
        Some(e) => Err(e),
        None => book_all(h, group.transactions@),
    }
}

/// What groups, booked in order, make of holdings.
pub open spec fn book_groups(h: Holdings, groups: Seq<TransactionBlock>) -> Result<Holdings, Error>
    decreases groups.len(),
{
    if groups.len() == 0 {
        Ok(h)
    } else {
        match book_groups(h, groups.drop_last()) {
            Err(e) => Err(e),
            Ok(before) => book_group(before, groups.last()),
        }
    }
}

/// The fees that the transfers of groups pay.
pub open spec fn all_fees(groups: Seq<TransactionBlock>) -> int
    decreases groups.len(),
{
    if groups.len() == 0 {
        0
    } else {
        all_fees(groups.drop_last()) + fees(groups.last().transactions@)
    }
}

/// Fees are not negative.
pub proof fn lemma_all_fees(groups: Seq<TransactionBlock>)
    ensures
        all_fees(groups) >= 0,
    decreases groups.len(),
{
    if groups.len() > 0 {
        lemma_all_fees(groups.drop_last());
        crate::transaction_block::lemma_fees_bound(groups.last().transactions@);
    }
}

/// Holdings after `key` was credited with `amount`, where 32 bits hold the
/// balance it comes to.
pub open spec fn credited(h: Holdings, key: Seq<u8>, amount: int) -> Result<Holdings, Error> {
    if h.dust[key] + amount > u32::MAX {
        Err(Error::Codec(CodecError::OutOfRange))
    } else {
        Ok(Holdings { dust: h.dust.insert(key, (h.dust[key] + amount) as nat), held: h.held })
    }
}

/// Whether two of the groups carry the same transfers.
pub open spec fn repeated(groups: Seq<TransactionBlock>) -> bool {
    exists|i: int, j: int|
        0 <= i < j < groups.len() && content(#[trigger] groups[i].transactions@) == content(
            #[trigger] groups[j].transactions@,
        )
}

/// What a block makes of holdings: its groups are booked in order, each
/// after its signatures were checked; no two of them may carry the same
/// transfers; then its finder is credited with the fees they paid and with
/// the subsidy.
pub open spec fn book_block(h: Holdings, block: Block, subsidy: int) -> Result<Holdings, Error> {
    match book_groups(h, block.groups()) {
        Err(e) => Err(e),
        Ok(after) => if repeated(block.groups()) {
            Err(Error::Ledger(LedgerError::DoubleSpend))
        } else {
            credited(after, block.spec_finder()@, all_fees(block.groups()) + subsidy)
        },
    }
}

/// Groups that were booked have values that can be encoded.
pub proof fn lemma_booked_groups_encode(h: Holdings, groups: Seq<TransactionBlock>, k: int)
    requires
        book_groups(h, groups) is Ok,
        0 <= k < groups.len(),
    ensures
        first_fault(groups[k].transactions@) is None,
    decreases groups.len(),
{
    if k < groups.len() - 1 {
        assert(groups.drop_last()[k] == groups[k]);
        lemma_booked_groups_encode(h, groups.drop_last(), k);
    }
}

/// Whether two of the groups carry the same transfers.
pub fn has_repeat(groups: &Vec<TransactionBlock>) -> (r: bool)
    requires
        forall|k: int| 0 <= k < groups@.len() ==> first_fault(
            (#[trigger] groups@[k]).transactions@,
        ) is None,
    ensures
        r == repeated(groups@),
{
    let mut contents: Vec<Vec<u8>> = Vec::new();
    let mut k: usize = 0;
    while k < groups.len()
        invariant
            k <= groups.len(),
            contents@.len() == k,
            forall|n: int| 0 <= n < groups@.len() ==> first_fault(
                (#[trigger] groups@[n]).transactions@,
            ) is None,
            forall|n: int| 0 <= n < k ==> (#[trigger] contents@[n])@ == content(
                groups@[n].transactions@,
            ),
        decreases groups.len() - k,
    {
        // No transfer of the group has a fault, so the group has bytes.
        let bytes = match groups[k].serialize_content() {
            Ok(bytes) => bytes,
            Err(_) => Vec::new(),
        };
        contents.push(bytes);
        k += 1;
    }
    let mut j: usize = 0;
    while j < contents.len()
        invariant
            j <= contents@.len(),
            contents@.len() == groups@.len(),
            forall|n: int| 0 <= n < contents@.len() ==> (#[trigger] contents@[n])@ == content(
                groups@[n].transactions@,
            ),
            forall|a: int, b: int|
                0 <= a < b < j ==> content(#[trigger] groups@[a].transactions@) != content(
                    #[trigger] groups@[b].transactions@,
                ),
        decreases contents@.len() - j,
    {
        let mut i: usize = 0;
        while i < j
            invariant
                i <= j,
                j < contents@.len(),
                contents@.len() == groups@.len(),
                forall|n: int| 0 <= n < contents@.len() ==> (#[trigger] contents@[n])@ == content(
                    groups@[n].transactions@,
                ),
                forall|a: int|
                    0 <= a < i ==> content(#[trigger] groups@[a].transactions@) != content(
                        groups@[j as int].transactions@,
                    ),
            decreases j - i,
        {
            if bytes_equal(contents[i].as_slice(), contents[j].as_slice()) {
                assert(content(groups@[i as int].transactions@) == content(
                    groups@[j as int].transactions@,
                ));
                return true;
            }
            i += 1;
        }
        j += 1;
    }
    false
}

/// What a chain makes of a ledger in which nobody holds anything.
pub open spec fn replay(blocks: Seq<Block>, subsidy: int) -> Result<Holdings, Error>
    decreases blocks.len(),
{
    if blocks.len() == 0 {
        Ok(no_holdings())
    } else {
        match replay(blocks.drop_last(), subsidy) {
            Err(e) => Err(e),
            Ok(before) => book_block(before, blocks.last(), subsidy),
        }
    }
}

/// Users that hold the same under the same keys, place by place, make the
/// same ledger.
pub proof fn lemma_alike(a: Seq<User>, b: Seq<User>)
    requires
        users_wf(a),
        a.len() == b.len(),
        forall|k: int|
            0 <= k < a.len() ==> {
                &&& (#[trigger] b[k]).wf()
                &&& b[k].key() == a[k].key()
                &&& b[k].balance() == a[k].balance()
                &&& b[k].ids() == a[k].ids()
            },
    ensures
        users_wf(b),
        same_holdings(a, b),
    decreases a.len(),
{
    assert(users_wf(b)) by {
        assert forall|i: int, j: int|
            0 <= i < b.len() && 0 <= j < b.len() && i != j implies (#[trigger] b[i]).key()@ != (
            #[trigger] b[j]).key()@ by {
            assert(a[i].key()@ != a[j].key()@);
        }
        assert forall|i: int, j: int, id: u32|
            0 <= i < b.len() && 0 <= j < b.len() && i != j && #[trigger] b[i].ids().contains(
                id,
            ) implies !#[trigger] b[j].ids().contains(id) by {
            assert(a[i].ids().contains(id));
            assert(!a[j].ids().contains(id));
        }
    }
    assert forall|key: Seq<u8>| balance_of(a, key) == balance_of(b, key) by {
        if exists|k: int| is_at(a, key, k) {
            let k = choose|k: int| is_at(a, key, k);
            assert(is_at(b, key, k));
            lemma_found(a, key, k);
            lemma_found(b, key, k);
        } else {
            assert forall|k: int| !is_at(b, key, k) by {
                if is_at(b, key, k) {
                    assert(is_at(a, key, k));
                }
            }
        }
    }
    assert forall|key: Seq<u8>, id: u32| holds(a, key, id) == holds(b, key, id) by {
        if holds(a, key, id) {
            let k = choose|k: int| is_at(a, key, k) && a[k].ids().contains(id);
            assert(is_at(b, key, k) && b[k].ids().contains(id));
        }
        if holds(b, key, id) {
            let k = choose|k: int| is_at(b, key, k) && b[k].ids().contains(id);
            assert(is_at(a, key, k) && a[k].ids().contains(id));
        }
    }
    assert forall|id: u32| minted(a, id) == minted(b, id) by {
        if minted(a, id) {
            let k = choose|k: int| 0 <= k < a.len() && (#[trigger] a[k]).ids().contains(id);
            assert(b[k].ids().contains(id));
        }
        if minted(b, id) {
            let k = choose|k: int| 0 <= k < b.len() && (#[trigger] b[k]).ids().contains(id);
            assert(a[k].ids().contains(id));
        }
    }
    lemma_alike_total(a, b);
}

/// Users with the same balances, place by place, hold the same dust in
/// all.
pub proof fn lemma_alike_total(a: Seq<User>, b: Seq<User>)
    requires
        a.len() == b.len(),
        forall|k: int| 0 <= k < a.len() ==> (#[trigger] b[k]).balance() == a[k].balance(),
    ensures
        total(a) == total(b),
    decreases a.len(),
{
    if a.len() > 0 {
        assert forall|k: int| 0 <= k < a.drop_last().len() implies (
        #[trigger] b.drop_last()[k]).balance() == a.drop_last()[k].balance() by {
            assert(b.drop_last()[k] == b[k]);
        }
        lemma_alike_total(a.drop_last(), b.drop_last());
    }
}

/// The dust there is, is no more than 32 bits for each user.
pub proof fn lemma_total_bound(users: Seq<User>)
    ensures
        total(users) <= 0xffff_ffff * users.len(),
    decreases users.len(),
{
    if users.len() > 0 {
        lemma_total_bound(users.drop_last());
        users.last().lemma_balance_bound();
    }
}

/// In a ledger without users nobody holds anything.
pub proof fn lemma_no_users(users: Seq<User>)
    requires
        users.len() == 0,
    ensures
        holdings(users) == no_holdings(),
{
    assert(holdings(users).dust =~= no_holdings().dust);
    assert(holdings(users).held =~= no_holdings().held);
}

impl Ledger {
    /// A second ledger that holds the same.
    pub fn duplicate(&self) -> (r: Ledger)
        requires
            self.wf(),
        ensures
            r.wf(),
            r@ == self@,
            total(r.users()) == total(self.users()),
            r.users().len() == self.users().len(),
    {
        let mut users: Vec<User> = Vec::new();
        let mut j: usize = 0;
        while j < self.users.len()
            invariant
                j <= self.users.len(),
                users_wf(self.users@),
                users@.len() == j,
                forall|k: int|
                    0 <= k < j ==> {
                        &&& (#[trigger] users@[k]).wf()
                        &&& users@[k].key() == self.users@[k].key()
                        &&& users@[k].balance() == self.users@[k].balance()
                        &&& users@[k].ids() == self.users@[k].ids()
                    },
            decreases self.users.len() - j,
        {
            users.push(self.users[j].duplicate());
            j += 1;
        }
        proof {
            lemma_alike(self.users@, users@);
            lemma_same(self.users@, users@);
        }
        Ledger { users }
    }

    /// Books `txs` in order. Where one cannot be booked, those before it
    /// stay booked.
    pub fn apply_all(&mut self, txs: &Vec<Transaction>) -> (r: Result<(), Error>)
        requires
            old(self).wf(),
        ensures
            final(self).wf(),
            final(self)@ == book_while(old(self)@, txs@),
            match book_all(old(self)@, txs@) {
                Err(e) => r == Err::<(), Error>(e),
                Ok(h) => {
                    &&& r is Ok
                    &&& final(self)@ == h
                    &&& total(final(self).users()) == total(old(self).users()) - fees(txs@)
                },
            },
    {
        let mut j: usize = 0;
        assert(txs@.take(0) =~= Seq::empty());
        while j < txs.len()
            invariant
                j <= txs.len(),
                self.wf(),
                book_all(old(self)@, txs@.take(j as int)) == Ok::<Holdings, Error>(self@),
                book_while(old(self)@, txs@.take(j as int)) == self@,
                total(self.users()) == total(old(self).users()) - fees(txs@.take(j as int)),
            decreases txs.len() - j,
        {
            let ghost prefix = txs@.take(j + 1);
            assert(prefix.drop_last() =~= txs@.take(j as int));
            match self.apply(&txs[j]) {
                Ok(_) => {},
                Err(e) => {
                    proof {
                        lemma_book_all_prefix(old(self)@, txs@, j + 1);
                        lemma_book_while_prefix(old(self)@, txs@, j + 1);
                    }
                    return Err(e);
                },
            }
            j += 1;
        }
        assert(txs@.take(j as int) =~= txs@);
        Ok(())
    }

    /// Checks and books a group: the signatures are as many as announced
    /// and as distinct spending keys and verify, then the transfers are
    /// booked in order. Where one cannot be booked, those before it stay
    /// booked.
    pub fn apply_group(&mut self, group: &TransactionBlock) -> (r: Result<(), Error>)
        requires
            old(self).wf(),
        ensures
            final(self).wf(),
            final(self)@ == group_while(old(self)@, *group),
            group.fault() is Some ==> final(self).users() == old(self).users(),
            match book_group(old(self)@, *group) {
                Err(e) => r == Err::<(), Error>(e),
                Ok(h) => {
                    &&& r is Ok
                    &&& final(self)@ == h
                    &&& total(final(self).users()) == total(old(self).users()) - fees(
                        group.transactions@,
                    )
                },
            },
    {
        group.verify()?;
        self.apply_all(&group.transactions)
    }

    /// Books a block: its groups in order, each after its signatures were
    /// checked, then the fees they paid and `subsidy` to its finder. Where
    /// the block cannot be booked, the ledger is as it was.
    pub fn apply_block(&mut self, block: &Block, subsidy: u32) -> (r: Result<(), Error>)
        requires
            old(self).wf(),
        ensures
            final(self).wf(),
            match book_block(old(self)@, *block, subsidy as int) {
                Err(e) => {
                    &&& r == Err::<(), Error>(e)
                    &&& final(self).users() == old(self).users()
                },
                Ok(h) => {
                    &&& r is Ok
                    &&& final(self)@ == h
                    &&& total(final(self).users()) == total(old(self).users()) + subsidy
                },
            },
    {
        let mut work = self.duplicate();
        let groups = block.transaction_blocks();
        let mut j: usize = 0;
        assert(groups@.take(0) =~= Seq::empty());
        while j < groups.len()
            invariant
                j <= groups.len(),
                work.wf(),
                groups@ == block.groups(),
                book_groups(old(self)@, groups@.take(j as int)) == Ok::<Holdings, Error>(work@),
                total(work.users()) == total(old(self).users()) - all_fees(groups@.take(j as int)),
                self.users() == old(self).users(),
                self.wf(),
            decreases groups.len() - j,
        {
            let ghost prefix = groups@.take(j + 1);
            assert(prefix.drop_last() =~= groups@.take(j as int));
            match work.apply_group(&groups[j]) {
                Ok(_) => {},
                Err(e) => {
                    proof {
                        lemma_book_groups_prefix(old(self)@, groups@, j + 1);
                    }
                    return Err(e);
                },
            }
            j += 1;
        }
        assert(groups@.take(j as int) =~= groups@);
        proof {
            assert forall|k: int| 0 <= k < groups@.len() implies first_fault(
                (#[trigger] groups@[k]).transactions@,
            ) is None by {
                lemma_booked_groups_encode(old(self)@, groups@, k);
            }
        }
        if has_repeat(groups) {
            return Err(Error::Ledger(LedgerError::DoubleSpend));
        }
        let before = self.total_dust();
        let after = work.total_dust();
        let holders = self.users.len();
        proof {
            lemma_total_bound(self.users@);
            lemma_all_fees(groups@);
        }
        let reward = before - after + subsidy as u128;
        let finder = block.finder();
        let k = work.ensure(&finder);
        proof {
            lemma_found(work.users@, finder@, k as int);
        }
        if reward > (u32::MAX - work.users[k].get_balance()) as u128 {
            return Err(Error::Codec(CodecError::OutOfRange));
        }
        let ghost held = work.users@;
        let _ = work.users[k].add_dust(reward as u32);
        proof {
            let done = work.users@;
            assert(done =~= held.update(k as int, done[k as int]));
            lemma_update(held, k as int, done[k as int]);
            let expected = book_block(old(self)@, *block, subsidy as int).unwrap();
            assert(holdings(done).dust =~= expected.dust);
            assert(holdings(done).held =~= expected.held);
        }
        *self = work;
        Ok(())
    }

    /// The ledger that a chain builds up from nothing. Each block adds its
    /// subsidy to the dust there is, and nothing else does.
    pub fn replay(blocks: &Vec<Block>, subsidy: u32) -> (r: Result<Ledger, Error>)
        ensures
            match replay(blocks@, subsidy as int) {
                Err(e) => r matches Err(f) && f == e,
                Ok(h) => {
                    &&& r matches Ok(ledger)
                    &&& ledger.wf()
                    &&& ledger@ == h
                    &&& total(ledger.users()) == blocks@.len() * subsidy
                },
            },
    {
        let mut ledger = Ledger::new();
        proof {
            lemma_no_users(ledger.users@);
        }
        let mut j: usize = 0;
        assert(blocks@.take(0) =~= Seq::empty());
        while j < blocks.len()
            invariant
                j <= blocks.len(),
                ledger.wf(),
                replay(blocks@.take(j as int), subsidy as int) == Ok::<Holdings, Error>(ledger@),
                total(ledger.users()) == j * subsidy,
            decreases blocks.len() - j,
        {
            let ghost prefix = blocks@.take(j + 1);
            assert(prefix.drop_last() =~= blocks@.take(j as int));
            match ledger.apply_block(&blocks[j], subsidy) {
                Ok(_) => {},
                Err(e) => {
                    proof {
                        lemma_replay_prefix(blocks@, subsidy as int, j + 1);
                    }
                    return Err(e);
                },
            }
            assert((j + 1) * subsidy == j * subsidy + subsidy) by (nonlinear_arith);
            j += 1;
        }
        assert(blocks@.take(j as int) =~= blocks@);
        Ok(ledger)
    }
}

/// A transfer of a prefix that cannot be booked stops the whole.
pub proof fn lemma_book_all_prefix(h: Holdings, txs: Seq<Transaction>, n: int)
    requires
        0 <= n <= txs.len(),
        book_all(h, txs.take(n)) is Err,
    ensures
        book_all(h, txs) == book_all(h, txs.take(n)),
    decreases txs.len(),
{
    if n < txs.len() {
        assert(txs.drop_last().take(n) =~= txs.take(n));
        lemma_book_all_prefix(h, txs.drop_last(), n);
    } else {
        assert(txs.take(n) =~= txs);
    }
}

/// A group of a prefix that cannot be booked stops the whole.
pub proof fn lemma_book_groups_prefix(h: Holdings, groups: Seq<TransactionBlock>, n: int)
    requires
        0 <= n <= groups.len(),
        book_groups(h, groups.take(n)) is Err,
    ensures
        book_groups(h, groups) == book_groups(h, groups.take(n)),
    decreases groups.len(),
{
    if n < groups.len() {
        assert(groups.drop_last().take(n) =~= groups.take(n));
        lemma_book_groups_prefix(h, groups.drop_last(), n);
    } else {
        assert(groups.take(n) =~= groups);
    }
}

/// A block of a prefix that cannot be booked stops the whole.
pub proof fn lemma_replay_prefix(blocks: Seq<Block>, subsidy: int, n: int)
    requires
        0 <= n <= blocks.len(),
        replay(blocks.take(n), subsidy) is Err,
    ensures
        replay(blocks, subsidy) == replay(blocks.take(n), subsidy),
    decreases blocks.len(),
{
    if n < blocks.len() {
        assert(blocks.drop_last().take(n) =~= blocks.take(n));
        lemma_replay_prefix(blocks.drop_last(), subsidy, n);
    } else {
        assert(blocks.take(n) =~= blocks);
    }
}

/// No key holds more dust than 32 bits say.
pub open spec fn bounded(h: Holdings) -> bool {
    forall|key: Seq<u8>| #[trigger] h.dust[key] <= u32::MAX
}

/// A booked transfer changes each balance by what the transfer changes in
/// it, and leaves every balance within 32 bits.
pub proof fn lemma_book_change(h: Holdings, tx: Transaction, key: Seq<u8>)
    requires
        bounded(h),
        book(h, tx) is Ok,
    ensures
        book(h, tx).unwrap().dust[key] == h.dust[key] + transfer_change(tx, key),
        bounded(book(h, tx).unwrap()),
        crate::transaction_block::booking_fault(tx.spec_value()) is None,
{
    let after = book(h, tx).unwrap();
    assert forall|other: Seq<u8>| #[trigger] after.dust[other] <= u32::MAX by {
        assert(h.dust[other] <= u32::MAX);
        assert(h.dust[tx.spec_from_pk()@] <= u32::MAX);
        assert(h.dust[tx.spec_to_pk()@] <= u32::MAX);
    }
}

/// Booked transfers change each balance by what they change in it, one
/// after the other.
pub proof fn lemma_book_all_change(h: Holdings, txs: Seq<Transaction>, key: Seq<u8>)
    requires
        bounded(h),
        book_all(h, txs) is Ok,
    ensures
        book_all(h, txs).unwrap().dust[key] == h.dust[key]
            + crate::transaction_block::value_change(txs, key),
        bounded(book_all(h, txs).unwrap()),
        crate::transaction_block::first_booking_fault(txs) is None,
    decreases txs.len(),
{
    if txs.len() > 0 {
        lemma_book_all_change(h, txs.drop_last(), key);
        lemma_book_change(book_all(h, txs.drop_last()).unwrap(), txs.last(), key);
    }
}

/// Transfers that stand for the same make the same of holdings, and pay
/// the same fees.
pub proof fn lemma_book_all_of_models(h: Holdings, a: Seq<Transaction>, b: Seq<Transaction>)
    requires
        models(a) == models(b),
    ensures
        book_all(h, a) == book_all(h, b),
        fees(a) == fees(b),
    decreases a.len(),
{
    assert(models(a).len() == a.len());
    assert(models(b).len() == b.len());
    if a.len() > 0 {
        assert(models(a.drop_last()) =~= models(a).drop_last());
        assert(models(b.drop_last()) =~= models(b).drop_last());
        lemma_book_all_of_models(h, a.drop_last(), b.drop_last());
        assert(a.last().model() == models(a).last());
        assert(b.last().model() == models(b).last());
    }
}

/// Groups that stand for the same make the same of holdings, pay the same
/// fees and carry the same transfers.
pub proof fn lemma_book_group_of_model(h: Holdings, a: TransactionBlock, b: TransactionBlock)
    requires
        a.model() == b.model(),
    ensures
        book_group(h, a) == book_group(h, b),
        fees(a.transactions@) == fees(b.transactions@),
        content(a.transactions@) == content(b.transactions@),
{
    a.lemma_fault_of_model(&b);
    lemma_models_determine(a.transactions@, b.transactions@);
    lemma_book_all_of_models(h, a.transactions@, b.transactions@);
}

/// Groups that stand for the same, place by place, make the same of
/// holdings, pay the same fees and carry the same transfers.
pub proof fn lemma_book_groups_of_models(
    h: Holdings,
    a: Seq<TransactionBlock>,
    b: Seq<TransactionBlock>,
)
    requires
        group_models(a) == group_models(b),
    ensures
        a.len() == b.len(),
        book_groups(h, a) == book_groups(h, b),
        all_fees(a) == all_fees(b),
        forall|k: int|
            0 <= k < a.len() ==> content(#[trigger] a[k].transactions@) == content(
                b[k].transactions@,
            ),
    decreases a.len(),
{
    assert(group_models(a).len() == a.len());
    assert(group_models(b).len() == b.len());
    if a.len() > 0 {
        let a0 = a.drop_last();
        let b0 = b.drop_last();
        assert(group_models(a0) =~= group_models(a).drop_last());
        assert(group_models(b0) =~= group_models(b).drop_last());
        lemma_book_groups_of_models(h, a0, b0);
        assert(a.last().model() == group_models(a).last());
        assert(b.last().model() == group_models(b).last());
        match book_groups(h, a0) {
            Ok(before) => {
                lemma_book_group_of_model(before, a.last(), b.last());
            },
            Err(_) => {
                lemma_book_group_of_model(h, a.last(), b.last());
            },
        }
        assert forall|k: int| 0 <= k < a.len() implies content(#[trigger] a[k].transactions@)
            == content(b[k].transactions@) by {
            if k < a.len() - 1 {
                assert(a0[k] == a[k]);
                assert(b0[k] == b[k]);
                assert(content(a0[k].transactions@) == content(b0[k].transactions@));
            } else {
                assert(a[k] == a.last());
                assert(b[k] == b.last());
            }
        }
    }
}

/// Blocks that stand for the same make the same of holdings.
pub proof fn lemma_book_block_of_model(h: Holdings, a: Block, b: Block, subsidy: int)
    requires
        a.model() == b.model(),
    ensures
        book_block(h, a, subsidy) == book_block(h, b, subsidy),
{
    lemma_book_groups_of_models(h, a.groups(), b.groups());
    if repeated(a.groups()) {
        let (i, j) = choose|i: int, j: int|
            0 <= i < j < a.groups().len() && content(#[trigger] a.groups()[i].transactions@)
                == content(#[trigger] a.groups()[j].transactions@);
        assert(content(b.groups()[i].transactions@) == content(b.groups()[j].transactions@));
    }
    if repeated(b.groups()) {
        let (i, j) = choose|i: int, j: int|
            0 <= i < j < b.groups().len() && content(#[trigger] b.groups()[i].transactions@)
                == content(#[trigger] b.groups()[j].transactions@);
        assert(content(a.groups()[i].transactions@) == content(a.groups()[j].transactions@));
    }
}

/// What a block that stands for `model` makes of holdings: the same for
/// every such block.
pub open spec fn book_block_model(h: Holdings, model: BlockModel, subsidy: int) -> Result<
    Holdings,
    Error,
> {
    book_block(h, choose|b: Block| b.model() == model, subsidy)
}

/// What a block makes of holdings is what is made of them by what it
/// stands for.
pub proof fn lemma_book_block_model(h: Holdings, block: Block, subsidy: int)
    ensures
        book_block_model(h, block.model(), subsidy) == book_block(h, block, subsidy),
{
    let chosen = choose|b: Block| b.model() == block.model();
    assert(chosen.model() == block.model());
    lemma_book_block_of_model(h, chosen, block, subsidy);
}

/// What a chain makes of holdings `h`, block by block from the first.
pub open spec fn replay_from(h: Holdings, blocks: Seq<Block>, subsidy: int) -> Result<
    Holdings,
    Error,
>
    decreases blocks.len(),
{
    if blocks.len() == 0 {
        Ok(h)
    } else {
        match book_block(h, blocks[0], subsidy) {
            Err(e) => Err(e),
            Ok(after) => replay_from(after, blocks.skip(1), subsidy),
        }
    }
}

/// Booking a chain from its first block on ends with booking its last.
pub proof fn lemma_replay_from_back(h: Holdings, blocks: Seq<Block>, subsidy: int)
    requires
        blocks.len() > 0,
    ensures
        replay_from(h, blocks, subsidy) == match replay_from(h, blocks.drop_last(), subsidy) {
            Err(e) => Err::<Holdings, Error>(e),
            Ok(before) => book_block(before, blocks.last(), subsidy),
        },
    decreases blocks.len(),
{
    let first = book_block(h, blocks[0], subsidy);
    let front = blocks.drop_last();
    let tail = blocks.skip(1);
    if blocks.len() == 1 {
        assert(front =~= Seq::empty());
        assert(tail =~= Seq::empty());
        assert(blocks[0] == blocks.last());
        assert(replay_from(h, front, subsidy) == Ok::<Holdings, Error>(h));
        if let Ok(after) = first {
            assert(replay_from(after, tail, subsidy) == Ok::<Holdings, Error>(after));
        }
    } else {
        assert(front[0] == blocks[0]);
        assert(front.skip(1) =~= tail.drop_last());
        assert(tail.last() == blocks.last());
        assert(replay_from(h, front, subsidy) == match first {
            Err(e) => Err::<Holdings, Error>(e),
            Ok(after) => replay_from(after, front.skip(1), subsidy),
        });
        if let Ok(after) = first {
            lemma_replay_from_back(after, tail, subsidy);
        }
    }
}

/// Booking a chain from nothing is booking it block by block from the
/// first.
pub proof fn lemma_replay_is_from(blocks: Seq<Block>, subsidy: int)
    ensures
        replay(blocks, subsidy) == replay_from(no_holdings(), blocks, subsidy),
    decreases blocks.len(),
{
    if blocks.len() > 0 {
        lemma_replay_is_from(blocks.drop_last(), subsidy);
        lemma_replay_from_back(no_holdings(), blocks, subsidy);
    }
}

} // verus!
