//! Dataset Partitioner: shuffle the record set, then split it into a
//! training prefix of `floor(0.8 * N)` records and a held-out suffix.

use vstd::prelude::*;
use vstd::multiset::Multiset;
use vstd::seq_lib::lemma_multiset_commutative;

use rand::SeedableRng;
use rand::seq::SliceRandom;

use crate::entry::{Entry, EntryV, entry_views};

verus! {

/// Size of the training prefix: `floor(0.8 * n)`.
pub open spec fn spec_train_count(n: int) -> int {
    (4 * n) / 5
}

/// Relies on rand's `SliceRandom::shuffle` with the thread-local
/// generator: an in-place Fisher-Yates permutation built from swaps, so
/// the records are rearranged and none is added, dropped or changed.
#[verifier::external_body]
fn shuffle_records(records: &mut Vec<Entry>)
    ensures
        final(records)@.len() == old(records)@.len(),
        entry_views(final(records)@).to_multiset() == entry_views(old(records)@).to_multiset(),
{
    records.shuffle(&mut rand::thread_rng());
}

/// Relies on rand's `SliceRandom::shuffle` with a `StdRng` seeded by
/// `SeedableRng::seed_from_u64`: the same in-place permutation, but
/// deterministic for a fixed seed.
#[verifier::external_body]
fn shuffle_records_seeded(records: &mut Vec<Entry>, seed: u64)
    ensures
        final(records)@.len() == old(records)@.len(),
        entry_views(final(records)@).to_multiset() == entry_views(old(records)@).to_multiset(),
{
    let mut rng = rand::rngs::StdRng::seed_from_u64(seed);
    records.shuffle(&mut rng);
}

/// `floor(0.8 * n)` without overflowing.
fn train_count(n: usize) -> (k: usize)
    ensures
        k as int == spec_train_count(n as int),
        k <= n,
{
    let q = n / 5;
    let r = n % 5;
    proof {
        assert(n as int == 5 * (n as int / 5) + n as int % 5) by (nonlinear_arith);
        assert((4 * (5 * (n as int / 5) + n as int % 5)) / 5 == 4 * (n as int / 5) + (4 * (n as int
            % 5)) / 5) by (nonlinear_arith);
        assert(q <= n) by (nonlinear_arith)
            requires
                q == n as int / 5,
        ;
        assert(4 * (n as int / 5) + (4 * (n as int % 5)) / 5 <= n as int) by (nonlinear_arith);
    }
    q * 4 + r * 4 / 5
}

/// Splits the record set for training: shuffles it uniformly (no fixed
/// seed), then takes the first `floor(0.8 * N)` records as the training
/// set and the rest as the held-out set.  Together the two halves hold
/// exactly the original records.
pub fn partition(records: Vec<Entry>) -> (r: (Vec<Entry>, Vec<Entry>))
    ensures
        r.0@.len() == spec_train_count(records@.len() as int),
        r.1@.len() == records@.len() - spec_train_count(records@.len() as int),
        entry_views(r.0@).to_multiset().add(entry_views(r.1@).to_multiset()) == entry_views(
            records@,
        ).to_multiset(),
{
    let mut train = records;
    shuffle_records(&mut train);
    split_after_shuffle(train, Ghost(entry_views(records@).to_multiset()))
}

/// Splits the record set for training as [`partition`] does, but with a
/// generator seeded from `seed`, so the split is reproducible.
pub fn partition_seeded(records: Vec<Entry>, seed: u64) -> (r: (Vec<Entry>, Vec<Entry>))
    ensures
        r.0@.len() == spec_train_count(records@.len() as int),
        r.1@.len() == records@.len() - spec_train_count(records@.len() as int),
        entry_views(r.0@).to_multiset().add(entry_views(r.1@).to_multiset()) == entry_views(
            records@,
        ).to_multiset(),
{
    let mut train = records;
    shuffle_records_seeded(&mut train, seed);
    split_after_shuffle(train, Ghost(entry_views(records@).to_multiset()))
}

/// Cuts the shuffled records at the training count.
fn split_after_shuffle(shuffled: Vec<Entry>, whole: Ghost<Multiset<EntryV>>) -> (r: (
    Vec<Entry>,
    Vec<Entry>,
))
    requires
        entry_views(shuffled@).to_multiset() == whole@,
    ensures
        r.0@.len() == spec_train_count(shuffled@.len() as int),
        r.1@.len() == shuffled@.len() - spec_train_count(shuffled@.len() as int),
        entry_views(r.0@).to_multiset().add(entry_views(r.1@).to_multiset()) == whole@,
{
    let ghost before = shuffled@;
    let mut train = shuffled;
    let k = train_count(train.len());
    let test = train.split_off(k);
    proof {
        assert(entry_views(train@) + entry_views(test@) =~= entry_views(before));
        lemma_multiset_commutative(entry_views(train@), entry_views(test@));
        assert(entry_views(train@).to_multiset().add(entry_views(test@).to_multiset())
            =~= entry_views(before).to_multiset());
    }
    (train, test)
}

} // verus!
