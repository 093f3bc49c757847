//! Exact rational feature values and the error taxonomy of the pipeline.

use vstd::prelude::*;

verus! {

/// Mathematical value of one feature slot: the rational `num / den`.
///
/// Every normalizer emits values in a canonical, unreduced form (a fixed
/// denominator per slot), so two slots carry the same value exactly when
/// their `Rat`s are equal componentwise.
pub ghost struct Rat {
    pub num: int,
    pub den: int,
}

/// One feature slot as executable data: the exact rational `num / den`.
#[derive(Clone, Copy, Debug, PartialEq, Eq, Structural)]
pub struct Feat {
    pub num: i64,
    pub den: u64,
}

impl View for Feat {
    type V = Rat;

    open spec fn view(&self) -> Rat {
        Rat { num: self.num as int, den: self.den as int }
    }
}

impl Feat {
    /// A feature is meaningful only with a positive denominator.
    pub open spec fn wf(self) -> bool {
        self.den > 0
    }
}

/// The sentinel slot, `-1/1`: "absent or padding".
pub open spec fn sentinel() -> Rat {
    Rat { num: -1, den: 1 }
}

/// Range normalization: `value` against `[min, max]` is `(value - min) / (max - min)`.
pub open spec fn normalized(value: int, min: int, max: int) -> Rat {
    Rat { num: value - min, den: max - min }
}

/// The rational values carried by a vector of feature slots.
pub open spec fn rats(s: Seq<Feat>) -> Seq<Rat> {
    s.map_values(|f: Feat| f@)
}

/// All slots of a feature vector have positive denominators.
pub open spec fn feats_wf(s: Seq<Feat>) -> bool {
    forall|i: int| 0 <= i < s.len() ==> (#[trigger] s[i]).wf()
}

/// Why a record cannot be encoded.
#[derive(Clone, Copy, Debug, PartialEq, Eq, Structural)]
pub enum Error {
    /// Malformed date or currency text.
    ParseError,
    /// A fixed-width assumption was broken: the text is wider than its slot.
    InvariantViolation,
    /// The category label is absent from the catalog.
    UnknownCategory,
}

} // verus!
