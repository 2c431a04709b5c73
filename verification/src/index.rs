//! The two indexes of a provider: from a name to its solvables, and from a
//! solvable to the package it stands for.

use apt_edsp::scenario::Package;
use resolvo::{Mapping, NameId, SolvableId};
use vstd::prelude::*;

verus! {

/// The solver's map from ids to values, kept in chunks by the number of the
/// id. Opaque here: what it holds is spoken of through [`candidate_lists`] and
/// [`package_refs`].
#[verifier::external_type_specification]
#[verifier::external_body]
#[verifier::reject_recursive_types(TId)]
#[verifier::reject_recursive_types(TValue)]
pub struct ExMapping<TId, TValue>(resolvo::Mapping<TId, TValue>);

/// What an index of candidates holds: for each name that has an entry, the
/// list of its solvables.
pub uninterp spec fn candidate_lists(index: Mapping<NameId, Vec<SolvableId>>) -> Map<
    NameId,
    Seq<SolvableId>,
>;

/// What an index of packages holds: for each solvable that has an entry, the
/// package it refers to.
pub uninterp spec fn package_refs(index: Mapping<SolvableId, &Package>) -> Map<SolvableId, Package>;

/// `Mapping::default`: an index of candidates without entries.
#[verifier::external_body]
pub(crate) fn candidates_new() -> (index: Mapping<NameId, Vec<SolvableId>>)
    ensures
        candidate_lists(index).dom() == Set::<NameId>::empty(),
{
    Mapping::default()
}

/// `Mapping::insert`: the entry of `name` becomes `list`, whether or not there
/// was one; the other entries stay.
#[verifier::external_body]
pub(crate) fn candidates_insert(
    index: &mut Mapping<NameId, Vec<SolvableId>>,
    name: NameId,
    list: Vec<SolvableId>,
)
    ensures
        candidate_lists(*final(index)) == candidate_lists(*old(index)).insert(name, list@),
{
    index.insert(name, list)
}

/// `Mapping::get`: the list of `name`, if it has an entry.
#[verifier::external_body]
pub(crate) fn candidates_get(index: &Mapping<NameId, Vec<SolvableId>>, name: NameId) -> (found:
    Option<&Vec<SolvableId>>)
    ensures
        match found {
            Some(list) => candidate_lists(*index).dom().contains(name) && list@ == candidate_lists(
                *index,
            )[name],
            None => !candidate_lists(*index).dom().contains(name),
        },
{
    index.get(name)
}

/// `Mapping::get_mut`: the list of `name` to change in place, if it has an
/// entry. The index afterwards holds the list as it was left, and the other
/// entries as they were.
#[verifier::external_body]
pub(crate) fn candidates_get_mut(index: &mut Mapping<NameId, Vec<SolvableId>>, name: NameId) -> (found:
    Option<&mut Vec<SolvableId>>)
    ensures
        match found {
            Some(list) => candidate_lists(*old(index)).dom().contains(name) && list@
                == candidate_lists(*old(index))[name] && candidate_lists(*final(index))
                == candidate_lists(*old(index)).insert(name, final(list)@),
            None => !candidate_lists(*old(index)).dom().contains(name) && candidate_lists(
                *final(index),
            ) == candidate_lists(*old(index)),
        },
{
    index.get_mut(name)
}

/// `Mapping::default`: an index of packages without entries.
#[verifier::external_body]
pub(crate) fn packages_new<'s>() -> (index: Mapping<SolvableId, &'s Package>)
    ensures
        package_refs(index).dom() == Set::<SolvableId>::empty(),
{
    Mapping::default()
}

/// `Mapping::insert`: the entry of `id` becomes `package`, whether or not
/// there was one; the other entries stay.
#[verifier::external_body]
pub(crate) fn packages_insert<'s>(
    index: &mut Mapping<SolvableId, &'s Package>,
    id: SolvableId,
    package: &'s Package,
)
    ensures
        package_refs(*final(index)) == package_refs(*old(index)).insert(id, *package),
{
    index.insert(id, package)
}

/// `Mapping::get`: the package of `id`, if it has an entry.
#[verifier::external_body]
pub(crate) fn packages_get<'s>(index: &Mapping<SolvableId, &'s Package>, id: SolvableId) -> (found:
    Option<&'s Package>)
    ensures
        match found {
            Some(package) => package_refs(*index).dom().contains(id) && *package == package_refs(
                *index,
            )[id],
            None => !package_refs(*index).dom().contains(id),
        },
{
    index.get(id).copied()
}

} // verus!
