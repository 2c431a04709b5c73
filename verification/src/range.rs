//! Sets of versions: the ranges that relationships between packages denote.

use apt_edsp::scenario::{Relation, Version};
use resolvo::utils::Range;
use vstd::prelude::*;

use crate::version::{comparable, version_order};

verus! {

/// A set of versions made of intervals, as the solver's utilities provide it.
/// Opaque here: what it holds is spoken of through [`range_holds`].
#[verifier::external_type_specification]
#[verifier::external_body]
#[verifier::reject_recursive_types(V)]
pub struct ExRange<V>(resolvo::utils::Range<V>);

/// Whether the range holds the version: what `Range::contains` returns.
pub uninterp spec fn range_holds(range: Range<&Version>, v: Version) -> bool;

/// The versions that bound the intervals of the range. `Range::contains`
/// compares a version with these and with nothing else.
pub uninterp spec fn range_ends(range: Range<&Version>) -> Set<Version>;

/// Whether two ranges are equal to `Range::eq`: made of the same intervals,
/// with bounds that are equal version numbers.
pub uninterp spec fn range_same(a: Range<&Version>, b: Range<&Version>) -> bool;

/// What the range prints as: the result of its `Display`.
pub uninterp spec fn range_text(range: Range<&Version>) -> Seq<char>;

/// Every version that bounds the range can be compared.
pub open spec fn range_comparable(range: Range<&Version>) -> bool {
    forall|end: Version| #[trigger] range_ends(range).contains(end) ==> comparable(end)
}

/// Whether a version satisfies a constraint of a relationship. No constraint
/// admits every version; otherwise the version has to stand in the given
/// relation to the version of the constraint.
pub open spec fn admits(constraint: Option<(Relation, Version)>, v: Version) -> bool {
    match constraint {
        None => true,
        Some((Relation::Earlier, bound)) => version_order(v, bound) < 0,
        Some((Relation::EarlierEqual, bound)) => version_order(v, bound) <= 0,
        Some((Relation::Equal, bound)) => version_order(v, bound) == 0,
        Some((Relation::LaterEqual, bound)) => version_order(v, bound) >= 0,
        Some((Relation::Later, bound)) => version_order(v, bound) > 0,
    }
}

/// The versions that a constraint names.
pub open spec fn constraint_ends(constraint: Option<(Relation, Version)>) -> Set<Version> {
    match constraint {
        None => Set::empty(),
        Some((_, bound)) => set![bound],
    }
}

/// `Range::full`: the range of all versions, bounded by none.
#[verifier::external_body]
pub(crate) fn range_full<'s>() -> (range: Range<&'s Version>)
    ensures
        forall|v: Version| #[trigger] range_holds(range, v),
        range_ends(range) == Set::<Version>::empty(),
{
    Range::full()
}

/// `Range::empty`: the range of no version, bounded by none.
#[verifier::external_body]
pub(crate) fn range_empty<'s>() -> (range: Range<&'s Version>)
    ensures
        forall|v: Version| !#[trigger] range_holds(range, v),
        range_ends(range) == Set::<Version>::empty(),
{
    Range::empty()
}

/// `Range::singleton`: the versions that are neither earlier nor later than
/// `bound`.
#[verifier::external_body]
pub(crate) fn range_singleton<'s>(bound: &'s Version) -> (range: Range<&'s Version>)
    ensures
        forall|v: Version| #[trigger] range_holds(range, v) <==> version_order(v, *bound) == 0,
        range_ends(range) == set![*bound],
{
    Range::singleton(bound)
}

/// `Range::strictly_lower_than`: the versions earlier than `bound`.
#[verifier::external_body]
pub(crate) fn range_strictly_lower_than<'s>(bound: &'s Version) -> (range: Range<&'s Version>)
    ensures
        forall|v: Version| #[trigger] range_holds(range, v) <==> version_order(v, *bound) < 0,
        range_ends(range) == set![*bound],
{
    Range::strictly_lower_than(bound)
}

/// `Range::lower_than`: the versions not later than `bound`.
#[verifier::external_body]
pub(crate) fn range_lower_than<'s>(bound: &'s Version) -> (range: Range<&'s Version>)
    ensures
        forall|v: Version| #[trigger] range_holds(range, v) <==> version_order(v, *bound) <= 0,
        range_ends(range) == set![*bound],
{
    Range::lower_than(bound)
}

/// `Range::higher_than`: the versions not earlier than `bound`.
#[verifier::external_body]
pub(crate) fn range_higher_than<'s>(bound: &'s Version) -> (range: Range<&'s Version>)
    ensures
        forall|v: Version| #[trigger] range_holds(range, v) <==> version_order(v, *bound) >= 0,
        range_ends(range) == set![*bound],
{
    Range::higher_than(bound)
}

/// `Range::strictly_higher_than`: the versions later than `bound`.
#[verifier::external_body]
pub(crate) fn range_strictly_higher_than<'s>(bound: &'s Version) -> (range: Range<&'s Version>)
    ensures
        forall|v: Version| #[trigger] range_holds(range, v) <==> version_order(v, *bound) > 0,
        range_ends(range) == set![*bound],
{
    Range::strictly_higher_than(bound)
}

/// `Range::complement`: the range of exactly the versions that `range` does
/// not hold, bounded by the same versions.
#[verifier::external_body]
pub(crate) fn range_complement<'s>(range: &Range<&'s Version>) -> (rest: Range<&'s Version>)
    ensures
        forall|v: Version| #[trigger] range_holds(rest, v) <==> !range_holds(*range, v),
        range_ends(rest) == range_ends(*range),
{
    range.complement()
}

/// `Range::contains`: whether the range holds the version. It compares the
/// version with the bounds of the range, so all of them must be comparable.
#[verifier::external_body]
pub(crate) fn range_contains(range: &Range<&Version>, v: &Version) -> (held: bool)
    requires
        comparable(*v),
        range_comparable(*range),
    ensures
        held == range_holds(*range, *v),
{
    range.contains(&v)
}

/// The `Display` of a range, through `to_string`.
#[verifier::external_body]
pub(crate) fn range_to_string(range: &Range<&Version>) -> (text: String)
    ensures
        text@ == range_text(*range),
{
    range.to_string()
}

/// The range of versions that satisfy a constraint.
pub fn constraint_to_version_set<'s>(constraint: &'s Option<(Relation, Version)>) -> (range: Range<
    &'s Version,
>)
    ensures
        forall|v: Version| #[trigger] range_holds(range, v) <==> admits(*constraint, v),
        range_ends(range) == constraint_ends(*constraint),
{
    match constraint {
        None => range_full(),
        Some((relation, version)) => match relation {
            Relation::Earlier => range_strictly_lower_than(version),
            Relation::EarlierEqual => range_lower_than(version),
            Relation::Equal => range_singleton(version),
            Relation::LaterEqual => range_higher_than(version),
            Relation::Later => range_strictly_higher_than(version),
        },
    }
}

/// The range of versions that do not satisfy a constraint: what a conflict
/// with that constraint leaves to choose from.
pub fn constraint_to_excluded_set<'s>(constraint: &'s Option<(Relation, Version)>) -> (range:
    Range<&'s Version>)
    ensures
        forall|v: Version| #[trigger] range_holds(range, v) <==> !admits(*constraint, v),
        range_ends(range) == constraint_ends(*constraint),
{
    let admitted = constraint_to_version_set(constraint);
    range_complement(&admitted)
}

} // verus!
