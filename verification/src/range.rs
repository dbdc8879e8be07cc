//! What the library relies on of `RangeInclusive` beyond what vstd states.

use vstd::prelude::*;
use vstd::std_specs::cmp::{PartialOrdIs, PartialOrdSpec};

verus! {

/// `RangeInclusive::start`: the lower bound. Its documentation leaves the value unspecified once
/// the range has been iterated to exhaustion, so the contract says nothing of that case.
pub assume_specification<Idx>[ core::ops::RangeInclusive::<Idx>::start ](
    r: &core::ops::RangeInclusive<Idx>,
) -> (s: &Idx)
    ensures
        !r@.exhausted ==> *s == r@.start,
;

/// `RangeInclusive::end`: the upper bound. Its documentation leaves the value unspecified once
/// the range has been iterated to exhaustion, so the contract says nothing of that case.
pub assume_specification<Idx>[ core::ops::RangeInclusive::<Idx>::end ](
    r: &core::ops::RangeInclusive<Idx>,
) -> (e: &Idx)
    ensures
        !r@.exhausted ==> *e == r@.end,
;

/// `RangeInclusive::is_empty`: true when the range holds no item, that is when it has been
/// iterated to exhaustion or its start is not at most its end.
pub assume_specification<Idx: PartialOrd<Idx>>[ core::ops::RangeInclusive::<Idx>::is_empty ](
    r: &core::ops::RangeInclusive<Idx>,
) -> (b: bool) where Idx: PartialOrd<Idx>
    ensures
        Idx::obeys_partial_cmp_spec() ==> (b <==> (r@.exhausted || !r@.start.is_le(&r@.end))),
;

/// `Clone::clone` for `RangeInclusive`, whose `Clone` is derived: the copy's bounds are clones
/// of the bounds and its exhaustion state is the same.
pub assume_specification<Idx: Clone>[ <core::ops::RangeInclusive<Idx> as Clone>::clone ](
    r: &core::ops::RangeInclusive<Idx>,
) -> (c: core::ops::RangeInclusive<Idx>)
    ensures
        vstd::pervasive::cloned(r@.start, c@.start),
        vstd::pervasive::cloned(r@.end, c@.end),
        c@.exhausted == r@.exhausted,
;

} // verus!
