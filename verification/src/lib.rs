//! Encoding of tabular financial-transaction records into fixed-width
//! numeric feature vectors for a supervised trainer.
//!
//! A [`Entry`](entry::Entry) carries six textual fields.  The normalizers
//! turn each field into a fixed number of exact rational values; the
//! catalog assigns every category label a stable index; the encoder
//! composes the two into a 29-wide feature vector and a one-hot label
//! vector; the partitioner splits the record set into training and
//! held-out subsets.  All values are exact rationals ([`feature::Feat`]),
//! so the whole pipeline is free of floating point; callers divide
//! numerator by denominator when a binary float is finally needed.

pub mod catalog;
pub mod dataset;
pub mod entry;
pub mod feature;
pub mod normalize;
pub mod partition;
