//! The training set: an append-only collection of (feature vector,
//! label vector) pairs, read by index.

use vstd::prelude::*;

use crate::catalog::{Catalog, idx_of, normalize_category, one_hot};
use crate::entry::{Entry, EntryV, entry_views};
use crate::feature::{Error, Feat, Rat, rats};
use crate::normalize::{entry_err, entry_ok, input_rats, normalize_input};

verus! {

/// The (feature vector, label vector) pair of one record, over a catalog.
pub open spec fn entry_pair(e: EntryV, c: Seq<Seq<char>>) -> (Seq<Rat>, Seq<Rat>) {
    (input_rats(e), one_hot(c.len() as int, idx_of(c, e.category)))
}

/// The record's fields parse and its category is in the catalog.
pub open spec fn encodable(e: EntryV, c: Seq<Seq<char>>) -> bool {
    entry_ok(e) && c.contains(e.category)
}

/// The error reported for a record that cannot be encoded.
pub open spec fn encode_err(e: EntryV, c: Seq<Seq<char>>) -> Error {
    if !entry_ok(e) {
        entry_err(e)
    } else {
        Error::UnknownCategory
    }
}

/// An ordered, append-only collection of encoded pairs.
pub struct Dataset {
    pairs: Vec<(Vec<Feat>, Vec<Feat>)>,
}

impl View for Dataset {
    type V = Seq<(Seq<Rat>, Seq<Rat>)>;

    closed spec fn view(&self) -> Seq<(Seq<Rat>, Seq<Rat>)> {
        self.pairs@.map_values(|p: (Vec<Feat>, Vec<Feat>)| (rats(p.0@), rats(p.1@)))
    }
}

impl Dataset {
    /// The empty dataset.
    pub fn new() -> (d: Dataset)
        ensures
            d@ == Seq::<(Seq<Rat>, Seq<Rat>)>::empty(),
    {
        let d = Dataset { pairs: Vec::new() };
        proof {
            assert(d@ =~= Seq::<(Seq<Rat>, Seq<Rat>)>::empty());
        }
        d
    }

    /// Number of pairs collected so far.
    pub fn size(&self) -> (n: usize)
        ensures
            n == self@.len(),
    {
        self.pairs.len()
    }

    /// The `i`-th pair, in append order.
    pub fn get(&self, i: usize) -> (p: &(Vec<Feat>, Vec<Feat>))
        requires
            i < self@.len(),
        ensures
            rats(p.0@) == self@[i as int].0,
            rats(p.1@) == self@[i as int].1,
    {
        &self.pairs[i]
    }

    /// Appends one pair.
    pub fn push(&mut self, input: Vec<Feat>, label: Vec<Feat>)
        ensures
            final(self)@ == old(self)@.push((rats(input@), rats(label@))),
    {
        let ghost iv = input@;
        let ghost lv = label@;
        self.pairs.push((input, label));
        proof {
            assert(self.pairs@.last().0@ == iv);
            assert(self.pairs@.last().1@ == lv);
            assert(self@ =~= old(self)@.push((rats(iv), rats(lv))));
        }
    }
}

/// Encodes one record and appends its pair to the dataset; on failure
/// the dataset is unchanged.
pub fn convert_entry_to_dataset(entry: &Entry, catalog: &Catalog, dataset: &mut Dataset) -> (r:
    Result<(), Error>)
    ensures
        r is Ok <==> encodable(entry@, catalog@),
        r is Ok ==> final(dataset)@ == old(dataset)@.push(entry_pair(entry@, catalog@)),
        r is Err ==> final(dataset)@ == old(dataset)@ && r->Err_0 == encode_err(entry@, catalog@),
{
    let input = match normalize_input(entry) {
        Ok(f) => f,
        Err(e) => {
            return Err(e);
        },
    };
    let labels = match normalize_category(entry.category.as_str(), catalog) {
        Ok(f) => f,
        Err(e) => {
            return Err(e);
        },
    };
    dataset.push(input, labels);
    Ok(())
}

/// Every record of the sequence can be encoded over the catalog.
pub open spec fn all_encodable(rs: Seq<EntryV>, c: Seq<Seq<char>>) -> bool {
    forall|i: int| 0 <= i < rs.len() ==> encodable(#[trigger] rs[i], c)
}

/// The dataset of a record sequence: each record's pair, in order.
pub open spec fn dataset_of(rs: Seq<EntryV>, c: Seq<Seq<char>>) -> Seq<(Seq<Rat>, Seq<Rat>)> {
    rs.map_values(|e: EntryV| entry_pair(e, c))
}

/// Index of the first record that cannot be encoded.
pub open spec fn first_bad(rs: Seq<EntryV>, c: Seq<Seq<char>>) -> int
    decreases rs.len(),
{
    if rs.len() == 0 {
        0
    } else if !encodable(rs[0], c) {
        0
    } else {
        1 + first_bad(rs.drop_first(), c)
    }
}

proof fn lemma_first_bad_at(rs: Seq<EntryV>, c: Seq<Seq<char>>, i: int)
    requires
        0 <= i < rs.len(),
        forall|k: int| 0 <= k < i ==> encodable(#[trigger] rs[k], c),
        !encodable(rs[i], c),
    ensures
        first_bad(rs, c) == i,
    decreases i,
{
    if i > 0 {
        assert(encodable(rs[0], c));
        assert forall|k: int| 0 <= k < i - 1 implies encodable(#[trigger] rs.drop_first()[k], c) by {
            assert(rs.drop_first()[k] == rs[k + 1]);
        }
        assert(rs.drop_first()[i - 1] == rs[i]);
        lemma_first_bad_at(rs.drop_first(), c, i - 1);
    }
}

/// Encodes every record of the training set, in encounter order, into
/// a fresh dataset.  A single unencodable record fails the whole run,
/// reporting the first offender's error.
pub fn build_dataset(train: &Vec<Entry>, catalog: &Catalog) -> (r: Result<Dataset, Error>)
    ensures
        r is Ok <==> all_encodable(entry_views(train@), catalog@),
        r is Ok ==> r->Ok_0@ == dataset_of(entry_views(train@), catalog@),
        r is Err ==> r->Err_0 == encode_err(
            entry_views(train@)[first_bad(entry_views(train@), catalog@)],
            catalog@,
        ),
{
    let ghost evs = entry_views(train@);
    let mut data = Dataset::new();
    let n = train.len();
    let mut i: usize = 0;
    while i < n
        invariant
            i <= n,
            n == train@.len(),
            evs == entry_views(train@),
            forall|k: int| 0 <= k < i ==> encodable(#[trigger] evs[k], catalog@),
            data@ == dataset_of(evs.subrange(0, i as int), catalog@),
        decreases n - i,
    {
        match convert_entry_to_dataset(&train[i], catalog, &mut data) {
            Ok(()) => {},
            Err(e) => {
                proof {
                    lemma_first_bad_at(evs, catalog@, i as int);
                }
                return Err(e);
            },
        }
        proof {
            assert(dataset_of(evs.subrange(0, i + 1), catalog@) =~= dataset_of(
                evs.subrange(0, i as int),
                catalog@,
            ).push(entry_pair(evs[i as int], catalog@)));
        }
        i = i + 1;
    }
    proof {
        assert(evs.subrange(0, n as int) =~= evs);
    }
    Ok(data)
}

} // verus!
