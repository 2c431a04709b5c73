//! The provider's view of the interning pool: what it holds, what keeps it
//! consistent, and the identifiers it hands out.

use apt_edsp::scenario::Version;
use resolvo::utils::Range;
use resolvo::{NameId, SolvableId, StringId, VersionSetId, VersionSetUnionId};
use vstd::prelude::*;

use crate::pool::{
    interned, interned_version_set, pool_intern_name, pool_intern_solvable, pool_intern_string,
    pool_intern_union, pool_intern_version_set, pool_names, pool_new, pool_resolve_name,
    pool_resolve_solvable, pool_resolve_string, pool_resolve_union, pool_resolve_version_set,
    pool_resolve_version_set_name, pool_solvables, pool_strings, pool_unions, pool_version_sets,
    same_version_set, DebPool,
};
use crate::range::{range_comparable, range_holds};
use crate::version::comparable;

verus! {

/// An interning pool together with the number of entries of each kind, so
/// that an identifier can be told from a number that is none.
pub struct Interner<'s> {
    pool: DebPool<'s>,
    names: u32,
    solvables: u32,
    version_sets: u32,
    strings: u32,
    unions: u32,
}

impl<'s> Interner<'s> {
    /// The package names, each at the index that is its id.
    pub closed spec fn names(&self) -> Seq<Seq<char>> {
        pool_names(self.pool)
    }

    /// The solvables, each at the index that is its id.
    pub closed spec fn solvables(&self) -> Seq<(NameId, Version)> {
        pool_solvables(self.pool)
    }

    /// The version sets, each at the index that is its id.
    pub closed spec fn version_sets(&self) -> Seq<(NameId, Range<&Version>)> {
        pool_version_sets(self.pool)
    }

    /// The strings, each at the index that is its id.
    pub closed spec fn strings(&self) -> Seq<Seq<char>> {
        pool_strings(self.pool)
    }

    /// The unions of version sets, each at the index that is its id.
    pub closed spec fn unions(&self) -> Seq<Seq<VersionSetId>> {
        pool_unions(self.pool)
    }

    /// The counts kept beside the pool are the lengths of its lists.
    pub closed spec fn counted(&self) -> bool {
        &&& self.names == self.names().len()
        &&& self.solvables == self.solvables().len()
        &&& self.version_sets == self.version_sets().len()
        &&& self.strings == self.strings().len()
        &&& self.unions == self.unions().len()
    }

    /// Every list is short enough for its indexes to be identifiers, every
    /// reference inside the pool leads to an entry of the pool, no name and no
    /// string occurs twice, and every version can be compared.
    pub open spec fn consistent(&self) -> bool {
        &&& self.names().len() <= u32::MAX
        &&& self.solvables().len() <= u32::MAX
        &&& self.version_sets().len() <= u32::MAX
        &&& self.strings().len() <= u32::MAX
        &&& self.unions().len() <= u32::MAX
        &&& self.names().no_duplicates()
        &&& self.strings().no_duplicates()
        &&& forall|i: int|
            0 <= i < self.solvables().len() ==> {
                &&& (#[trigger] self.solvables()[i]).0.0 < self.names().len()
                &&& comparable(self.solvables()[i].1)
            }
        &&& forall|i: int|
            0 <= i < self.version_sets().len() ==> {
                &&& (#[trigger] self.version_sets()[i]).0.0 < self.names().len()
                &&& range_comparable(self.version_sets()[i].1)
            }
        &&& forall|i: int|
            0 <= i < self.unions().len() ==> (#[trigger] self.unions()[i]).len() >= 1
        &&& forall|i: int, j: int|
            0 <= i < self.unions().len() && 0 <= j < self.unions()[i].len() ==> (
            #[trigger] self.unions()[i][j]).0 < self.version_sets().len()
    }

    /// The invariant of the interner.
    pub open spec fn wf(&self) -> bool {
        self.counted() && self.consistent()
    }

    /// Everything that `before` held is still there, under the same
    /// identifier.
    pub open spec fn extends(&self, before: &Self) -> bool {
        &&& before.names().is_prefix_of(self.names())
        &&& before.solvables().is_prefix_of(self.solvables())
        &&& before.version_sets().is_prefix_of(self.version_sets())
        &&& before.strings().is_prefix_of(self.strings())
        &&& before.unions().is_prefix_of(self.unions())
    }

    /// Whether the name id belongs to this pool.
    pub open spec fn knows_name(&self, id: NameId) -> bool {
        id.0 < self.names().len()
    }

    /// Whether the solvable id belongs to this pool.
    pub open spec fn knows_solvable(&self, id: SolvableId) -> bool {
        id.0 < self.solvables().len()
    }

    /// Whether the version set id belongs to this pool.
    pub open spec fn knows_version_set(&self, id: VersionSetId) -> bool {
        id.0 < self.version_sets().len()
    }

    /// Whether the string id belongs to this pool.
    pub open spec fn knows_string(&self, id: StringId) -> bool {
        id.0 < self.strings().len()
    }

    /// Whether the union id belongs to this pool.
    pub open spec fn knows_union(&self, id: VersionSetUnionId) -> bool {
        id.0 < self.unions().len()
    }

    /// An interner that holds nothing.
    pub fn new() -> (interner: Self)
        ensures
            interner.wf(),
            interner.names().len() == 0,
            interner.solvables().len() == 0,
            interner.version_sets().len() == 0,
            interner.strings().len() == 0,
            interner.unions().len() == 0,
    {
        Interner { pool: pool_new(), names: 0, solvables: 0, version_sets: 0, strings: 0, unions: 0 }
    }

    /// The id of a package name: the one it has, or a new one where it has
    /// none yet.
    pub fn intern_package_name(&mut self, name: &'s str) -> (id: NameId)
        requires
            old(self).wf(),
            old(self).names().len() < u32::MAX,
        ensures
            final(self).wf(),
            final(self).extends(old(self)),
            interned(old(self).names(), final(self).names(), name@, id.0 as int),
            final(self).solvables() == old(self).solvables(),
            final(self).version_sets() == old(self).version_sets(),
            final(self).strings() == old(self).strings(),
            final(self).unions() == old(self).unions(),
    {
        let id = pool_intern_name(&mut self.pool, name);
        if id.0 == self.names {
            self.names = self.names + 1;
        }
        id
    }

    /// A new solvable of the given name and version. Every call makes one:
    /// two packages of one name and version are two solvables.
    pub fn intern_solvable(&mut self, name: NameId, version: &'s Version) -> (id: SolvableId)
        requires
            old(self).wf(),
            old(self).knows_name(name),
            comparable(*version),
            old(self).solvables().len() < u32::MAX,
        ensures
            final(self).wf(),
            final(self).extends(old(self)),
            final(self).solvables() == old(self).solvables().push((name, *version)),
            id.0 == old(self).solvables().len(),
            final(self).names() == old(self).names(),
            final(self).version_sets() == old(self).version_sets(),
            final(self).strings() == old(self).strings(),
            final(self).unions() == old(self).unions(),
    {
        let id = pool_intern_solvable(&mut self.pool, name, version);
        self.solvables = self.solvables + 1;
        id
    }

    /// The id of a version set: the one that the same name and an equal range
    /// have, or a new one where they have none yet.
    pub fn intern_version_set(&mut self, name: NameId, range: Range<&'s Version>) -> (id:
        VersionSetId)
        requires
            old(self).wf(),
            old(self).knows_name(name),
            range_comparable(range),
            old(self).version_sets().len() < u32::MAX,
        ensures
            final(self).wf(),
            final(self).extends(old(self)),
            interned_version_set(
                old(self).version_sets(),
                final(self).version_sets(),
                (name, range),
                id.0 as int,
            ),
            final(self).knows_version_set(id),
            final(self).version_sets()[id.0 as int].0 == name,
            forall|v: Version|
                #![trigger range_holds(final(self).version_sets()[id.0 as int].1, v)]
                #![trigger range_holds(range, v)]
                range_holds(final(self).version_sets()[id.0 as int].1, v) == range_holds(range, v),
            final(self).names() == old(self).names(),
            final(self).solvables() == old(self).solvables(),
            final(self).strings() == old(self).strings(),
            final(self).unions() == old(self).unions(),
    {
        let id = pool_intern_version_set(&mut self.pool, name, range);
        if id.0 == self.version_sets {
            self.version_sets = self.version_sets + 1;
        }
        id
    }

    /// The id of a string: the one it has, or a new one where it has none yet.
    pub fn intern_string(&mut self, text: &str) -> (id: StringId)
        requires
            old(self).wf(),
            old(self).strings().len() < u32::MAX,
        ensures
            final(self).wf(),
            final(self).extends(old(self)),
            interned(old(self).strings(), final(self).strings(), text@, id.0 as int),
            final(self).names() == old(self).names(),
            final(self).solvables() == old(self).solvables(),
            final(self).version_sets() == old(self).version_sets(),
            final(self).unions() == old(self).unions(),
    {
        let id = pool_intern_string(&mut self.pool, text);
        if id.0 == self.strings {
            self.strings = self.strings + 1;
        }
        id
    }

    /// A new union of version sets: `first`, then `others` in their order.
    /// Every call makes one, whether or not an equal union is there.
    pub fn intern_version_set_union(&mut self, first: VersionSetId, others: Vec<VersionSetId>) -> (id:
        VersionSetUnionId)
        requires
            old(self).wf(),
            old(self).knows_version_set(first),
            forall|k: int| 0 <= k < others@.len() ==> old(self).knows_version_set(#[trigger] others@[k]),
            old(self).unions().len() < u32::MAX,
        ensures
            final(self).wf(),
            final(self).extends(old(self)),
            final(self).unions() == old(self).unions().push(seq![first] + others@),
            id.0 == old(self).unions().len(),
            final(self).names() == old(self).names(),
            final(self).solvables() == old(self).solvables(),
            final(self).version_sets() == old(self).version_sets(),
            final(self).strings() == old(self).strings(),
    {
        let ghost members = seq![first] + others@;
        let id = pool_intern_union(&mut self.pool, first, others);
        self.unions = self.unions + 1;
        proof {
            assert forall|i: int, j: int|
                0 <= i < self.unions().len() && 0 <= j < self.unions()[i].len() implies (
            #[trigger] self.unions()[i][j]).0 < self.version_sets().len() by {
                if i == old(self).unions().len() {
                    assert(self.unions()[i] == members);
                    if j > 0 {
                        assert(members[j] == others@[j - 1]);
                    }
                } else {
                    assert(self.unions()[i] == old(self).unions()[i]);
                }
            }
        }
        id
    }

    /// The name behind a name id.
    pub fn resolve_package_name(&self, id: NameId) -> (name: &'s str)
        requires
            self.wf(),
            self.knows_name(id),
        ensures
            name@ == self.names()[id.0 as int],
    {
        pool_resolve_name(&self.pool, id)
    }

    /// The name and the version of a solvable.
    pub fn resolve_solvable(&self, id: SolvableId) -> (solvable: (NameId, &'s Version))
        requires
            self.wf(),
            self.knows_solvable(id),
        ensures
            (solvable.0, *solvable.1) == self.solvables()[id.0 as int],
            self.knows_name(solvable.0),
            comparable(*solvable.1),
    {
        pool_resolve_solvable(&self.pool, id)
    }

    /// The range of a version set.
    pub fn resolve_version_set<'a>(&'a self, id: VersionSetId) -> (range: &'a Range<&'s Version>)
        requires
            self.wf(),
            self.knows_version_set(id),
        ensures
            *range == self.version_sets()[id.0 as int].1,
            range_comparable(*range),
    {
        pool_resolve_version_set(&self.pool, id)
    }

    /// The name that a version set speaks of.
    pub fn resolve_version_set_package_name(&self, id: VersionSetId) -> (name: NameId)
        requires
            self.wf(),
            self.knows_version_set(id),
        ensures
            name == self.version_sets()[id.0 as int].0,
            self.knows_name(name),
    {
        pool_resolve_version_set_name(&self.pool, id)
    }

    /// The string behind a string id.
    pub fn resolve_string<'a>(&'a self, id: StringId) -> (text: &'a str)
        requires
            self.wf(),
            self.knows_string(id),
        ensures
            text@ == self.strings()[id.0 as int],
    {
        pool_resolve_string(&self.pool, id)
    }

    /// The members of a union of version sets, in the order they were given.
    pub fn resolve_version_set_union(&self, id: VersionSetUnionId) -> (members: Vec<VersionSetId>)
        requires
            self.wf(),
            self.knows_union(id),
        ensures
            members@ == self.unions()[id.0 as int],
            members@.len() >= 1,
            forall|k: int| 0 <= k < members@.len() ==> self.knows_version_set(#[trigger] members@[k]),
    {
        pool_resolve_union(&self.pool, id)
    }

    /// Whether the name id belongs to this pool.
    pub fn has_name(&self, id: NameId) -> (known: bool)
        requires
            self.wf(),
        ensures
            known == self.knows_name(id),
    {
        id.0 < self.names
    }

    /// Whether the solvable id belongs to this pool.
    pub fn has_solvable(&self, id: SolvableId) -> (known: bool)
        requires
            self.wf(),
        ensures
            known == self.knows_solvable(id),
    {
        id.0 < self.solvables
    }

    /// Whether the version set id belongs to this pool.
    pub fn has_version_set(&self, id: VersionSetId) -> (known: bool)
        requires
            self.wf(),
        ensures
            known == self.knows_version_set(id),
    {
        id.0 < self.version_sets
    }

    /// Whether the string id belongs to this pool.
    pub fn has_string(&self, id: StringId) -> (known: bool)
        requires
            self.wf(),
        ensures
            known == self.knows_string(id),
    {
        id.0 < self.strings
    }

    /// Whether the union id belongs to this pool.
    pub fn has_union(&self, id: VersionSetUnionId) -> (known: bool)
        requires
            self.wf(),
        ensures
            known == self.knows_union(id),
    {
        id.0 < self.unions
    }
}

/// What a pool held two steps ago it still holds, under the same identifier.
pub proof fn lemma_extends_twice(first: Interner, second: Interner, third: Interner)
    requires
        second.extends(&first),
        third.extends(&second),
    ensures
        third.extends(&first),
{
    assert(first.names() =~= third.names().subrange(0, first.names().len() as int));
    assert(first.solvables() =~= third.solvables().subrange(0, first.solvables().len() as int));
    assert(first.version_sets() =~= third.version_sets().subrange(
        0,
        first.version_sets().len() as int,
    ));
    assert(first.strings() =~= third.strings().subrange(0, first.strings().len() as int));
    assert(first.unions() =~= third.unions().subrange(0, first.unions().len() as int));
}

/// Interning is a function of the key: a key interned again, after the list
/// may have grown by other keys, has the identifier it had.
pub proof fn lemma_interned_again<T>(
    first: Seq<T>,
    second: Seq<T>,
    third: Seq<T>,
    fourth: Seq<T>,
    key: T,
    once: int,
    again: int,
)
    requires
        interned(first, second, key, once),
        second.is_prefix_of(third),
        third.no_duplicates(),
        interned(third, fourth, key, again),
    ensures
        again == once,
        fourth == third,
{
    assert(third[once] == second[once]);
    assert(third.contains(key));
}

/// Interning a version set is a function of the key: a version set interned
/// again, after the pool may have grown by other version sets, has the
/// identifier it had, and the pool does not grow by it.
pub proof fn lemma_version_set_interned_again(
    first: Seq<(NameId, Range<&Version>)>,
    second: Seq<(NameId, Range<&Version>)>,
    third: Seq<(NameId, Range<&Version>)>,
    fourth: Seq<(NameId, Range<&Version>)>,
    key: (NameId, Range<&Version>),
    once: int,
    again: int,
)
    requires
        interned_version_set(first, second, key, once),
        second.is_prefix_of(third),
        interned_version_set(third, fourth, key, again),
    ensures
        again == once,
        fourth == third,
{
    assert(third[once] == second[once]);
    assert(same_version_set(third[once], key));
}

} // verus!
