//! The settings of one pixel, each named by its pixel hash and pointing
//! back to the hash it was set on top of, and the longest run of settings
//! that leads back to the first.

use crate::bytes::bytes_equal;
use crate::crypto::sha3_224;
use crate::pixel::{calc_pixel_hash, initial_hash, pixel_message, Pixel, INITIAL_COLOR};
use vstd::prelude::*;

verus! {

/// The settings of one pixel: the hash of each, and the hash it points
/// back to. They are held as a sequence of pairs in which no hash stands
/// twice, not as a hash map: vstd models hash maps for keys that are
/// integers, and a hash of 28 bytes fits none.
#[derive(Clone, Debug, PartialEq, Eq)]
pub struct PixelHistory {
    entries: Vec<([u8; 28], [u8; 28])>,
}

/// The settings as values: the hash of each, and the hash it points back
/// to.
pub open spec fn entry_views(entries: Seq<([u8; 28], [u8; 28])>) -> Seq<(Seq<u8>, Seq<u8>)> {
    entries.map_values(|e: ([u8; 28], [u8; 28])| (e.0@, e.1@))
}

/// What the setting with hash `key` points back to, if there is one.
pub open spec fn lookup(entries: Seq<(Seq<u8>, Seq<u8>)>, key: Seq<u8>) -> Option<Seq<u8>>
    decreases entries.len(),
{
    if entries.len() == 0 {
        None
    } else if entries[0].0 == key {
        Some(entries[0].1)
    } else {
        lookup(entries.skip(1), key)
    }
}

/// Follows the settings back from hash `back`, for `fuel` steps at most:
/// the number of settings passed, and the hash at which the walk ended.
pub open spec fn walk(entries: Seq<(Seq<u8>, Seq<u8>)>, back: Seq<u8>, fuel: nat) -> (nat, Seq<u8>)
    decreases fuel,
{
    if fuel == 0 {
        (0, back)
    } else {
        match lookup(entries, back) {
            None => (0, back),
            Some(next) => {
                let rest = walk(entries, next, (fuel - 1) as nat);
                (rest.0 + 1, rest.1)
            },
        }
    }
}

/// The longest run among the first `upto` settings that leads back to
/// `first`, a run that passes every other setting at most once.
pub open spec fn best(entries: Seq<(Seq<u8>, Seq<u8>)>, first: Seq<u8>, upto: int) -> nat
    decreases upto,
{
    if upto <= 0 {
        0
    } else {
        let before = best(entries, first, upto - 1);
        let run = walk(entries, entries[upto - 1].1, (entries.len() - 1) as nat);
        if run.1 == first && run.0 + 1 > before {
            run.0 + 1
        } else {
            before
        }
    }
}

/// The settings after one with hash `hash` was put that points back to
/// `back`: it takes the place of one with the same hash, or joins the rest.
pub open spec fn put(entries: Seq<(Seq<u8>, Seq<u8>)>, hash: Seq<u8>, back: Seq<u8>) -> Seq<
    (Seq<u8>, Seq<u8>),
>
    decreases entries.len(),
{
    if entries.len() == 0 {
        seq![(hash, back)]
    } else if entries[0].0 == hash {
        seq![(hash, back)] + entries.skip(1)
    } else {
        seq![entries[0]] + put(entries.skip(1), hash, back)
    }
}

/// No hash names two settings.
pub open spec fn distinct(entries: Seq<(Seq<u8>, Seq<u8>)>) -> bool
    decreases entries.len(),
{
    if entries.len() == 0 {
        true
    } else {
        lookup(entries.skip(1), entries[0].0) is None && distinct(entries.skip(1))
    }
}

/// Where no hash names two settings, none does after a setting was put.
pub proof fn lemma_put_distinct(entries: Seq<(Seq<u8>, Seq<u8>)>, hash: Seq<u8>, back: Seq<u8>)
    requires
        distinct(entries),
    ensures
        distinct(put(entries, hash, back)),
    decreases entries.len(),
{
    let after = put(entries, hash, back);
    if entries.len() == 0 {
        assert(after.skip(1) =~= Seq::empty());
        assert(after[0] == (hash, back));
        assert(lookup(after.skip(1), after[0].0) is None);
        assert(distinct(after.skip(1)));
    } else if entries[0].0 == hash {
        assert(after.skip(1) =~= entries.skip(1));
        assert(after[0] == (hash, back));
        assert(lookup(after.skip(1), after[0].0) is None);
        assert(distinct(after.skip(1)));
    } else {
        lemma_put_distinct(entries.skip(1), hash, back);
        lemma_put(entries.skip(1), hash, back, entries[0].0);
        assert(after.skip(1) =~= put(entries.skip(1), hash, back));
        assert(after[0] == entries[0]);
        assert(lookup(after.skip(1), after[0].0) is None);
        assert(distinct(after.skip(1)));
    }
    assert(after.len() > 0);
}

/// A walk passes no more settings than it has steps.
pub proof fn lemma_walk_bound(entries: Seq<(Seq<u8>, Seq<u8>)>, back: Seq<u8>, fuel: nat)
    ensures
        walk(entries, back, fuel).0 <= fuel,
    decreases fuel,
{
    if fuel > 0 {
        if let Some(next) = lookup(entries, back) {
            lemma_walk_bound(entries, next, (fuel - 1) as nat);
        }
    }
}

/// No run is longer than there are settings.
pub proof fn lemma_best_bound(entries: Seq<(Seq<u8>, Seq<u8>)>, first: Seq<u8>, upto: int)
    requires
        upto <= entries.len(),
    ensures
        best(entries, first, upto) <= entries.len(),
    decreases upto,
{
    if upto > 0 {
        lemma_best_bound(entries, first, upto - 1);
        lemma_walk_bound(entries, entries[upto - 1].1, (entries.len() - 1) as nat);
    }
}

/// After a setting was put, its hash points back to what it was put with,
/// and every other hash to what it pointed to before.
pub proof fn lemma_put(entries: Seq<(Seq<u8>, Seq<u8>)>, hash: Seq<u8>, back: Seq<u8>, key: Seq<u8>)
    ensures
        lookup(put(entries, hash, back), key) == if key == hash {
            Some(back)
        } else {
            lookup(entries, key)
        },
    decreases entries.len(),
{
    let after = put(entries, hash, back);
    if entries.len() == 0 {
        assert(after[0] == (hash, back));
        assert(after.skip(1) =~= Seq::empty());
        assert(lookup(after.skip(1), key) is None);
    } else if entries[0].0 == hash {
        assert(after[0] == (hash, back));
        assert(after.skip(1) =~= entries.skip(1));
    } else {
        lemma_put(entries.skip(1), hash, back, key);
        assert(after[0] == entries[0]);
        assert(after.skip(1) =~= put(entries.skip(1), hash, back));
    }
}

impl PixelHistory {
    /// The settings as values.
    pub closed spec fn view(&self) -> Seq<(Seq<u8>, Seq<u8>)> {
        entry_views(self.entries@)
    }

    /// No hash names two settings.
    pub open spec fn wf(&self) -> bool {
        distinct(self@)
    }

    /// No settings.
    pub fn new() -> (r: PixelHistory)
        ensures
            r@ == Seq::<(Seq<u8>, Seq<u8>)>::empty(),
            r.wf(),
    {
        let r = PixelHistory { entries: Vec::new() };
        assert(r@ =~= Seq::empty());
        r
    }

    /// The number of settings, each under a hash of its own where the
    /// history is well-formed.
    pub fn len(&self) -> (r: usize)
        ensures
            r == self@.len(),
    {
        self.entries.len()
    }

    /// What the setting with hash `hash` points back to, if there is one.
    pub fn get(&self, hash: &[u8; 28]) -> (r: Option<[u8; 28]>)
        ensures
            match lookup(self@, hash@) {
                Some(back) => r matches Some(b) && b@ == back,
                None => r is None,
            },
    {
        let ghost all = self@;
        let mut j: usize = 0;
        assert(all.skip(0) =~= all);
        while j < self.entries.len()
            invariant
                j <= self.entries.len(),
                all == entry_views(self.entries@),
                lookup(all, hash@) == lookup(all.skip(j as int), hash@),
            decreases self.entries.len() - j,
        {
            assert(all.skip(j as int).skip(1) =~= all.skip(j + 1));
            assert(all.skip(j as int)[0] == all[j as int]);
            if bytes_equal(&self.entries[j].0, hash) {
                return Some(self.entries[j].1);
            }
            j += 1;
        }
        None
    }

    /// Puts the setting of `pixel` on top of `back_hash`: it is named by
    /// the hash of its message, and takes the place of a setting of the
    /// same name.
    pub fn insert(&mut self, pixel: Pixel, back_hash: [u8; 28])
        ensures
            old(self).wf() ==> final(self).wf(),
            final(self)@ == put(
                old(self)@,
                sha3_224(pixel_message(back_hash@, pixel)),
                back_hash@,
            ),
    {
        let hash = calc_pixel_hash(pixel.x, pixel.y, pixel.color, back_hash);
        self.insert_hash(hash, back_hash);
    }

    /// Puts a setting with hash `hash` that points back to `back_hash`.
    pub fn insert_hash(&mut self, hash: [u8; 28], back_hash: [u8; 28])
        ensures
            old(self).wf() ==> final(self).wf(),
            final(self)@ == put(old(self)@, hash@, back_hash@),
    {
        let ghost all = self@;
        proof {
            if distinct(all) {
                lemma_put_distinct(all, hash@, back_hash@);
            }
        }
        let mut j: usize = 0;
        assert(all.take(0) + put(all.skip(0), hash@, back_hash@) =~= put(all, hash@, back_hash@))
            by {
            assert(all.skip(0) =~= all);
        }
        while j < self.entries.len()
            invariant
                j <= self.entries.len(),
                self.entries@ == old(self).entries@,
                all == entry_views(self.entries@),
                distinct(all) ==> distinct(put(all, hash@, back_hash@)),
                put(all, hash@, back_hash@) == all.take(j as int) + put(
                    all.skip(j as int),
                    hash@,
                    back_hash@,
                ),
            decreases self.entries.len() - j,
        {
            let ghost rest = all.skip(j as int);
            assert(rest.skip(1) =~= all.skip(j + 1));
            assert(rest[0] == all[j as int]);
            if bytes_equal(&self.entries[j].0, &hash) {
                self.entries[j] = (hash, back_hash);
                assert(self@ =~= all.take(j as int) + (seq![(hash@, back_hash@)] + rest.skip(1)));
                return ;
            }
            assert(all.take(j as int) + (seq![rest[0]] + put(rest.skip(1), hash@, back_hash@))
                =~= all.take(j + 1) + put(all.skip(j + 1), hash@, back_hash@));
            j += 1;
        }
        self.entries.push((hash, back_hash));
        assert(all.skip(all.len() as int) =~= Seq::empty());
        assert(self@ =~= all.take(all.len() as int) + seq![(hash@, back_hash@)]);
    }

    /// Follows the settings back from hash `back`, for `fuel` steps at
    /// most: the number of settings passed, and the hash at which the walk
    /// ended.
    pub fn follow(&self, back: [u8; 28], fuel: usize) -> (r: (usize, [u8; 28]))
        ensures
            r.0 == walk(self@, back@, fuel as nat).0,
            r.1@ == walk(self@, back@, fuel as nat).1,
    {
        let mut passed: usize = 0;
        let mut at = back;
        while passed < fuel
            invariant
                passed <= fuel,
                walk(self@, back@, fuel as nat).0 == passed + walk(
                    self@,
                    at@,
                    (fuel - passed) as nat,
                ).0,
                walk(self@, back@, fuel as nat).1 == walk(self@, at@, (fuel - passed) as nat).1,
            decreases fuel - passed,
        {
            match self.get(&at) {
                None => {
                    return (passed, at);
                },
                Some(next) => {
                    at = next;
                    passed += 1;
                },
            }
        }
        (passed, at)
    }

    /// The length of the longest run of settings that leads back to
    /// `first`: none where no run does.
    pub fn longest(&self, first: &[u8; 28]) -> (r: usize)
        ensures
            r == best(self@, first@, self@.len() as int),
    {
        let n = self.entries.len();
        let mut longest: usize = 0;
        let mut j: usize = 0;
        while j < n
            invariant
                j <= n,
                n == self.entries@.len(),
                n == self@.len(),
                longest == best(self@, first@, j as int),
            decreases n - j,
        {
            proof {
                lemma_walk_bound(self@, self@[j as int].1, (n - 1) as nat);
                lemma_best_bound(self@, first@, j as int);
            }
            let (passed, end) = self.follow(self.entries[j].1, n - 1);
            if bytes_equal(&end, first) && passed + 1 > longest {
                longest = passed + 1;
            }
            j += 1;
        }
        longest
    }

    /// The length of the longest run of settings that leads back to the
    /// first setting of the position: the initial colour on top of 28 zero
    /// bytes.
    pub fn longest_from_start(&self, x: u16, y: u16) -> (r: usize)
        ensures
            r == best(
                self@,
                sha3_224(
                    pixel_message(Seq::new(28, |k: int| 0u8), Pixel { x, y, color: INITIAL_COLOR }),
                ),
                self@.len() as int,
            ),
    {
        let first = initial_hash(x, y);
        self.longest(&first)
    }
}

} // verus!
