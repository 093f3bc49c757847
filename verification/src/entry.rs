//! One raw transaction row: six textual fields, read-only after construction.

use vstd::prelude::*;

verus! {

/// One raw transaction record as supplied by the record source.
#[derive(Debug, PartialEq, Eq)]
pub struct Entry {
    /// Movement date, `DD-MM-YYYY`.
    pub date_mov: String,
    /// Value date, `DD-MM-YYYY`.
    pub date_val: String,
    /// Free-text description, at most 21 characters.
    pub description: String,
    /// Debit amount: decimal-comma currency text, or empty for none.
    pub debit: String,
    /// Credit amount: decimal-comma currency text, or empty for none.
    pub credit: String,
    /// Free-text category label.
    pub category: String,
}

/// Abstract value of an [`Entry`]: the six fields as character sequences.
pub ghost struct EntryV {
    pub date_mov: Seq<char>,
    pub date_val: Seq<char>,
    pub description: Seq<char>,
    pub debit: Seq<char>,
    pub credit: Seq<char>,
    pub category: Seq<char>,
}

impl View for Entry {
    type V = EntryV;

    open spec fn view(&self) -> EntryV {
        EntryV {
            date_mov: self.date_mov@,
            date_val: self.date_val@,
            description: self.description@,
            debit: self.debit@,
            credit: self.credit@,
            category: self.category@,
        }
    }
}

/// The abstract values of a sequence of records.
pub open spec fn entry_views(s: Seq<Entry>) -> Seq<EntryV> {
    s.map_values(|e: Entry| e@)
}

impl Entry {
    /// Builds a record from its six fields, in source-column order.
    pub fn new(
        date_mov: String,
        date_val: String,
        description: String,
        debit: String,
        credit: String,
        category: String,
    ) -> (r: Entry)
        ensures
            r@ == (EntryV {
                date_mov: date_mov@,
                date_val: date_val@,
                description: description@,
                debit: debit@,
                credit: credit@,
                category: category@,
            }),
    {
        Entry { date_mov, date_val, description, debit, credit, category }
    }
}

} // verus!
