//! The interning pool: names, solvables, version sets, strings and unions of
//! version sets, each behind a small identifier.

use apt_edsp::scenario::Version;
use resolvo::utils::{Pool, Range};
use resolvo::{NameId, SolvableId, StringId, VersionSetId, VersionSetUnionId};
use vstd::prelude::*;

use crate::range::{range_holds, range_same};

verus! {

/// The solver's interning pool, with ranges of Debian versions as version
/// sets and borrowed strings as package names. It only ever grows: an
/// identifier, once handed out, resolves to the same entry for good.
///
/// The pool is held in a struct of this crate, and hidden in it, because the
/// pool's own type is bound by traits of the solver that the verifier cannot
/// be told of. What it holds is spoken of through [`pool_names`],
/// [`pool_solvables`], [`pool_version_sets`], [`pool_strings`] and
/// [`pool_unions`].
#[verifier::external_body]
pub struct DebPool<'s> {
    inner: Pool<Range<&'s Version>, &'s str>,
}

/// The package names in the pool, each at the index that is its `NameId`.
pub uninterp spec fn pool_names(pool: DebPool) -> Seq<Seq<char>>;

/// The solvables in the pool, each at the index that is its `SolvableId`: the
/// name it belongs to and its version.
pub uninterp spec fn pool_solvables(pool: DebPool) -> Seq<(NameId, Version)>;

/// The version sets in the pool, each at the index that is its
/// `VersionSetId`: the name it speaks of and its range.
pub uninterp spec fn pool_version_sets(pool: DebPool) -> Seq<(NameId, Range<&Version>)>;

/// The strings in the pool, each at the index that is its `StringId`.
pub uninterp spec fn pool_strings(pool: DebPool) -> Seq<Seq<char>>;

/// The unions of version sets in the pool, each at the index that is its
/// `VersionSetUnionId`: the members in the order they were given.
pub uninterp spec fn pool_unions(pool: DebPool) -> Seq<Seq<VersionSetId>>;

/// What interning `key` does to a list that holds each key once: `key` is
/// found where it was, or appended where it was not, and `at` is its index.
pub open spec fn interned<T>(before: Seq<T>, after: Seq<T>, key: T, at: int) -> bool {
    &&& 0 <= at < after.len()
    &&& after[at] == key
    &&& after.no_duplicates()
    &&& if before.contains(key) {
        after == before
    } else {
        after == before.push(key) && at == before.len()
    }
}

/// Whether two version sets are the same key to the pool: the same name and
/// ranges that `Range::eq` takes for equal.
pub open spec fn same_version_set(
    a: (NameId, Range<&Version>),
    b: (NameId, Range<&Version>),
) -> bool {
    a.0 == b.0 && range_same(a.1, b.1)
}

/// Whether the list holds a version set that is the same key as `key`.
pub open spec fn holds_version_set(
    sets: Seq<(NameId, Range<&Version>)>,
    key: (NameId, Range<&Version>),
) -> bool {
    exists|k: int| 0 <= k < sets.len() && same_version_set(#[trigger] sets[k], key)
}

/// What interning the version set `key` does to the list of version sets. The
/// entry at `at` is the same key as `key`, holds the same versions, and is
/// the only such entry; the list grew by `key` itself if and only if it held
/// no such entry before.
pub open spec fn interned_version_set(
    before: Seq<(NameId, Range<&Version>)>,
    after: Seq<(NameId, Range<&Version>)>,
    key: (NameId, Range<&Version>),
    at: int,
) -> bool {
    &&& 0 <= at < after.len()
    &&& same_version_set(after[at], key)
    &&& forall|v: Version|
        #![trigger range_holds(after[at].1, v)]
        #![trigger range_holds(key.1, v)]
        range_holds(after[at].1, v) == range_holds(key.1, v)
    &&& forall|k: int|
        0 <= k < after.len() && same_version_set(#[trigger] after[k], key) ==> k == at
    &&& if holds_version_set(before, key) {
        after == before
    } else {
        after == before.push(key) && at == before.len()
    }
}

/// `Pool::default`: a pool that holds nothing.
#[verifier::external_body]
pub(crate) fn pool_new<'s>() -> (pool: DebPool<'s>)
    ensures
        pool_names(pool).len() == 0,
        pool_solvables(pool).len() == 0,
        pool_version_sets(pool).len() == 0,
        pool_strings(pool).len() == 0,
        pool_unions(pool).len() == 0,
{
    DebPool { inner: Pool::default() }
}

/// `Pool::intern_package_name`: the id of the name, which is added to the
/// pool unless it is there already. Nothing else in the pool changes.
#[verifier::external_body]
pub(crate) fn pool_intern_name<'s>(pool: &mut DebPool<'s>, name: &'s str) -> (id: NameId)
    requires
        pool_names(*old(pool)).len() < u32::MAX,
    ensures
        interned(pool_names(*old(pool)), pool_names(*final(pool)), name@, id.0 as int),
        pool_solvables(*final(pool)) == pool_solvables(*old(pool)),
        pool_version_sets(*final(pool)) == pool_version_sets(*old(pool)),
        pool_strings(*final(pool)) == pool_strings(*old(pool)),
        pool_unions(*final(pool)) == pool_unions(*old(pool)),
{
    pool.inner.intern_package_name(name)
}

/// `Pool::intern_solvable`: a new solvable of the given name and version,
/// appended to the pool whether or not an equal one is there. Nothing else in
/// the pool changes.
#[verifier::external_body]
pub(crate) fn pool_intern_solvable<'s>(
    pool: &mut DebPool<'s>,
    name: NameId,
    version: &'s Version,
) -> (id: SolvableId)
    requires
        pool_solvables(*old(pool)).len() < u32::MAX,
    ensures
        pool_solvables(*final(pool)) == pool_solvables(*old(pool)).push((name, *version)),
        id.0 == pool_solvables(*old(pool)).len(),
        pool_names(*final(pool)) == pool_names(*old(pool)),
        pool_version_sets(*final(pool)) == pool_version_sets(*old(pool)),
        pool_strings(*final(pool)) == pool_strings(*old(pool)),
        pool_unions(*final(pool)) == pool_unions(*old(pool)),
{
    pool.inner.intern_solvable(name, version)
}

/// `Pool::intern_version_set`: the id of the version set, which is added to
/// the pool unless one that is the same key is there already. Nothing else in
/// the pool changes.
#[verifier::external_body]
pub(crate) fn pool_intern_version_set<'s>(
    pool: &mut DebPool<'s>,
    name: NameId,
    range: Range<&'s Version>,
) -> (id: VersionSetId)
    requires
        pool_version_sets(*old(pool)).len() < u32::MAX,
    ensures
        id.0 < pool_version_sets(*final(pool)).len(),
        pool_version_sets(*final(pool))[id.0 as int].0 == name,
        range_same(pool_version_sets(*final(pool))[id.0 as int].1, range),
        interned_version_set(
            pool_version_sets(*old(pool)),
            pool_version_sets(*final(pool)),
            (name, range),
            id.0 as int,
        ),
        pool_names(*final(pool)) == pool_names(*old(pool)),
        pool_solvables(*final(pool)) == pool_solvables(*old(pool)),
        pool_strings(*final(pool)) == pool_strings(*old(pool)),
        pool_unions(*final(pool)) == pool_unions(*old(pool)),
{
    pool.inner.intern_version_set(name, range)
}

/// `Pool::intern_string`: the id of the string, which is added to the pool
/// unless it is there already. Nothing else in the pool changes.
#[verifier::external_body]
pub(crate) fn pool_intern_string(pool: &mut DebPool, text: &str) -> (id: StringId)
    requires
        pool_strings(*old(pool)).len() < u32::MAX,
    ensures
        interned(pool_strings(*old(pool)), pool_strings(*final(pool)), text@, id.0 as int),
        pool_names(*final(pool)) == pool_names(*old(pool)),
        pool_solvables(*final(pool)) == pool_solvables(*old(pool)),
        pool_version_sets(*final(pool)) == pool_version_sets(*old(pool)),
        pool_unions(*final(pool)) == pool_unions(*old(pool)),
{
    pool.inner.intern_string(text)
}

/// `Pool::intern_version_set_union`: a new union of `first` and `others`, in
/// that order, appended to the pool whether or not an equal one is there.
/// Nothing else in the pool changes.
#[verifier::external_body]
pub(crate) fn pool_intern_union(
    pool: &mut DebPool,
    first: VersionSetId,
    others: Vec<VersionSetId>,
) -> (id: VersionSetUnionId)
    requires
        pool_unions(*old(pool)).len() < u32::MAX,
    ensures
        pool_unions(*final(pool)) == pool_unions(*old(pool)).push(seq![first] + others@),
        id.0 == pool_unions(*old(pool)).len(),
        pool_names(*final(pool)) == pool_names(*old(pool)),
        pool_solvables(*final(pool)) == pool_solvables(*old(pool)),
        pool_version_sets(*final(pool)) == pool_version_sets(*old(pool)),
        pool_strings(*final(pool)) == pool_strings(*old(pool)),
{
    pool.inner.intern_version_set_union(first, others.into_iter())
}

/// `Pool::resolve_package_name`: the name behind an id of the pool.
#[verifier::external_body]
pub(crate) fn pool_resolve_name<'s>(pool: &DebPool<'s>, id: NameId) -> (name: &'s str)
    requires
        id.0 < pool_names(*pool).len(),
    ensures
        name@ == pool_names(*pool)[id.0 as int],
{
    pool.inner.resolve_package_name(id)
}

/// `Pool::resolve_solvable`: the name and the version of a solvable of the
/// pool.
#[verifier::external_body]
pub(crate) fn pool_resolve_solvable<'s>(pool: &DebPool<'s>, id: SolvableId) -> (solvable: (
    NameId,
    &'s Version,
))
    requires
        id.0 < pool_solvables(*pool).len(),
    ensures
        (solvable.0, *solvable.1) == pool_solvables(*pool)[id.0 as int],
{
    let solvable = pool.inner.resolve_solvable(id);
    (solvable.name, solvable.record)
}

/// `Pool::resolve_version_set`: the range of a version set of the pool.
#[verifier::external_body]
pub(crate) fn pool_resolve_version_set<'a, 's>(pool: &'a DebPool<'s>, id: VersionSetId) -> (range:
    &'a Range<&'s Version>)
    requires
        id.0 < pool_version_sets(*pool).len(),
    ensures
        *range == pool_version_sets(*pool)[id.0 as int].1,
{
    pool.inner.resolve_version_set(id)
}

/// `Pool::resolve_version_set_package_name`: the name that a version set of
/// the pool speaks of.
#[verifier::external_body]
pub(crate) fn pool_resolve_version_set_name(pool: &DebPool, id: VersionSetId) -> (name: NameId)
    requires
        id.0 < pool_version_sets(*pool).len(),
    ensures
        name == pool_version_sets(*pool)[id.0 as int].0,
{
    pool.inner.resolve_version_set_package_name(id)
}

/// `Pool::resolve_string`: the string behind an id of the pool.
#[verifier::external_body]
pub(crate) fn pool_resolve_string<'a>(pool: &'a DebPool, id: StringId) -> (text: &'a str)
    requires
        id.0 < pool_strings(*pool).len(),
    ensures
        text@ == pool_strings(*pool)[id.0 as int],
{
    pool.inner.resolve_string(id)
}

/// `Pool::resolve_version_set_union`: the members of a union of the pool, in
/// the order they were given.
#[verifier::external_body]
pub(crate) fn pool_resolve_union(pool: &DebPool, id: VersionSetUnionId) -> (members: Vec<
    VersionSetId,
>)
    requires
        id.0 < pool_unions(*pool).len(),
    ensures
        members@ == pool_unions(*pool)[id.0 as int],
{
    pool.inner.resolve_version_set_union(id).collect()
}

} // verus!
