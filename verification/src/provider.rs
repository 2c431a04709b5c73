//! The dependency provider: a scenario loaded into an interning pool and two
//! indexes, ready to answer the solver.

use apt_edsp::scenario::{Package, Scenario, Version, VersionSet};
use resolvo::utils::Range;
use resolvo::{
    KnownDependencies, Mapping, NameId, SolvableId, StringId, VersionSetId, VersionSetUnionId,
};
use vstd::prelude::*;

use crate::candidates::{lemma_solvables_named_prefix, solvables_named};
use crate::dependencies::{denotes, dependencies_match, lemma_dependencies_extend};
use crate::index::{
    candidate_lists, candidates_get, candidates_get_mut, candidates_insert, candidates_new,
    package_refs, packages_get, packages_insert, packages_new,
};
use crate::interner::{lemma_extends_twice, Interner};
use crate::pool::{interned, interned_version_set};
use crate::range::{
    constraint_to_excluded_set, constraint_to_version_set, range_comparable, range_holds,
};
use crate::scenario::{
    is_loadable, lemma_universe_relationships_rise, loadable, set_comparable,
    universe_relationships,
};
use crate::version::comparable;

verus! {

/// A scenario, loaded for the solver. It holds the interning pool, the index
/// from each name to its solvables, the index from each solvable to its
/// package, and the dependencies of each solvable.
pub struct DebProvider<'s> {
    pool: Interner<'s>,
    candidates: Mapping<NameId, Vec<SolvableId>>,
    packages: Mapping<SolvableId, &'s Package>,
    dependencies: Vec<KnownDependencies>,
    unknown: StringId,
}

impl<'s> DebProvider<'s> {
    /// The interning pool.
    pub closed spec fn pool(&self) -> Interner<'s> {
        self.pool
    }

    /// The index of candidates: for each name that has packages, the list of
    /// its solvables.
    pub closed spec fn candidates(&self) -> Map<NameId, Seq<SolvableId>> {
        candidate_lists(self.candidates)
    }

    /// The index of packages: for each solvable the package it stands for.
    pub closed spec fn packages(&self) -> Map<SolvableId, Package> {
        package_refs(self.packages)
    }

    /// The dependencies worked out so far, those of solvable `i` at index `i`.
    pub closed spec fn dependencies(&self) -> Seq<KnownDependencies> {
        self.dependencies@
    }

    /// The string that tells why a solvable without a package has no
    /// dependencies.
    pub closed spec fn unknown(&self) -> StringId {
        self.unknown
    }

    /// The packages that were loaded, that of solvable `i` at index `i`.
    pub open spec fn universe(&self) -> Seq<Package> {
        Seq::new(self.pool().solvables().len(), |i: int| self.packages()[SolvableId(i as u32)])
    }

    /// The pool and the two indexes agree. Each solvable has a package, and
    /// the name and version of the solvable are those of the package. Each
    /// name with solvables has an entry in the index of candidates, which
    /// lists all its solvables, in the order they were loaded and each once.
    /// The reason for unknown dependencies is in the pool.
    pub open spec fn indexed(&self) -> bool {
        &&& self.pool().wf()
        &&& forall|id: SolvableId| #[trigger]
            self.packages().dom().contains(id) <==> self.pool().knows_solvable(id)
        &&& forall|i: int|
            0 <= i < self.pool().solvables().len() ==> {
                &&& self.pool().names()[(#[trigger] self.pool().solvables()[i]).0.0 as int]
                    == self.universe()[i].package@
                &&& self.pool().solvables()[i].1 == self.universe()[i].version
            }
        &&& forall|name: NameId| #[trigger]
            self.candidates().dom().contains(name) <==> solvables_named(
                self.pool().solvables(),
                name,
                self.pool().solvables().len() as int,
            ).len() > 0
        &&& forall|name: NameId|
            self.candidates().dom().contains(name) ==> #[trigger] self.candidates()[name]
                == solvables_named(
                self.pool().solvables(),
                name,
                self.pool().solvables().len() as int,
            )
        &&& self.pool().knows_string(self.unknown())
        &&& self.pool().strings()[self.unknown().0 as int] == "Unknown package"@
    }

    /// The dependencies worked out so far are those of the packages.
    pub open spec fn described(&self) -> bool {
        &&& self.dependencies().len() <= self.universe().len()
        &&& forall|i: int|
            0 <= i < self.dependencies().len() ==> dependencies_match(
                self.pool(),
                self.universe()[i],
                #[trigger] self.dependencies()[i],
            )
    }

    /// The invariant of a provider: pool and indexes agree, and the
    /// dependencies of every solvable have been worked out.
    pub open spec fn wf(&self) -> bool {
        &&& self.indexed()
        &&& self.described()
        &&& self.dependencies().len() == self.universe().len()
    }

    /// What interning leaves of a provider: `self` holds what `before` held,
    /// its pool grown by at most so many names, version sets and unions, and
    /// nothing else changed.
    pub open spec fn grown_from(
        &self,
        before: &Self,
        names: int,
        version_sets: int,
        unions: int,
    ) -> bool {
        &&& self.pool().extends(&before.pool())
        &&& self.pool().solvables() == before.pool().solvables()
        &&& self.pool().strings() == before.pool().strings()
        &&& self.candidates() == before.candidates()
        &&& self.packages() == before.packages()
        &&& self.dependencies() == before.dependencies()
        &&& self.unknown() == before.unknown()
        &&& self.universe() == before.universe()
        &&& self.pool().names().len() <= before.pool().names().len() + names
        &&& self.pool().version_sets().len() <= before.pool().version_sets().len() + version_sets
        &&& self.pool().unions().len() <= before.pool().unions().len() + unions
    }

    /// A provider whose pool grew, and nothing else, is as sound as it was.
    pub proof fn lemma_pool_grew(&self, before: &Self)
        requires
            before.indexed(),
            before.described(),
            self.pool().wf(),
            self.pool().extends(&before.pool()),
            self.pool().solvables() == before.pool().solvables(),
            self.pool().strings() == before.pool().strings(),
            self.candidates() == before.candidates(),
            self.packages() == before.packages(),
            self.dependencies() == before.dependencies(),
            self.unknown() == before.unknown(),
        ensures
            self.indexed(),
            self.described(),
            self.universe() == before.universe(),
    {
        assert(self.universe() =~= before.universe());
        assert forall|i: int| 0 <= i < self.pool().solvables().len() implies {
            &&& self.pool().names()[(#[trigger] self.pool().solvables()[i]).0.0 as int]
                == self.universe()[i].package@
            &&& self.pool().solvables()[i].1 == self.universe()[i].version
        } by {
            let name = before.pool().solvables()[i].0;
            assert(self.pool().names()[name.0 as int] == before.pool().names()[name.0 as int]);
        }
        assert forall|i: int| 0 <= i < self.dependencies().len() implies dependencies_match(
            self.pool(),
            self.universe()[i],
            #[trigger] self.dependencies()[i],
        ) by {
            lemma_dependencies_extend(
                before.pool(),
                self.pool(),
                before.universe()[i],
                before.dependencies()[i],
            );
        }
    }

    /// Growing in two steps is growing by the sum of the steps.
    pub proof fn lemma_grown_twice(
        &self,
        middle: &Self,
        before: &Self,
        names: (int, int),
        version_sets: (int, int),
        unions: (int, int),
    )
        requires
            middle.grown_from(before, names.0, version_sets.0, unions.0),
            self.grown_from(middle, names.1, version_sets.1, unions.1),
        ensures
            self.grown_from(
                before,
                names.0 + names.1,
                version_sets.0 + version_sets.1,
                unions.0 + unions.1,
            ),
    {
        lemma_extends_twice(before.pool(), middle.pool(), self.pool());
    }

    /// A provider of no package.
    fn empty() -> (provider: Self)
        ensures
            provider.indexed(),
            provider.described(),
            provider.universe().len() == 0,
            provider.dependencies().len() == 0,
            provider.pool().names().len() == 0,
            provider.pool().version_sets().len() == 0,
            provider.pool().unions().len() == 0,
    {
        let mut pool = Interner::new();
        let unknown = pool.intern_string("Unknown package");
        DebProvider {
            pool,
            candidates: candidates_new(),
            packages: packages_new(),
            dependencies: Vec::new(),
            unknown,
        }
    }

    /// Loads one more package: interns its name, makes a solvable of its name
    /// and version, and enters the solvable in the two indexes.
    fn add_package(&mut self, package: &'s Package) -> (id: SolvableId)
        requires
            old(self).indexed(),
            old(self).dependencies().len() == 0,
            old(self).pool().names().len() < u32::MAX,
            old(self).pool().solvables().len() < u32::MAX,
            comparable(package.version),
        ensures
            final(self).indexed(),
            final(self).universe() == old(self).universe().push(*package),
            id.0 == old(self).universe().len(),
            final(self).dependencies().len() == 0,
            final(self).pool().names().len() <= old(self).pool().names().len() + 1,
            final(self).pool().version_sets() == old(self).pool().version_sets(),
            final(self).pool().unions() == old(self).pool().unions(),
    {
        let ghost before = *self;
        let ghost count = self.pool().solvables().len() as int;
        let name = self.pool.intern_package_name(package.package.as_str());
        let id = self.pool.intern_solvable(name, &package.version);
        let ghost earlier = solvables_named(before.pool().solvables(), name, count);
        match candidates_get_mut(&mut self.candidates, name) {
            None => {
                let list = vec![id];
                assert(!before.candidates().dom().contains(name));
                assert(earlier.len() == 0);
                assert(list@ =~= earlier.push(id));
                candidates_insert(&mut self.candidates, name, list);
            },
            Some(list) => {
                assert(list@ == before.candidates()[name]);
                list.push(id);
            },
        }
        assert(self.candidates() == before.candidates().insert(name, earlier.push(id)));
        packages_insert(&mut self.packages, id, package);
        proof {
            let solvables = self.pool().solvables();
            assert(solvables[count] == (name, package.version));
            assert forall|other: NameId| #[trigger]
                self.candidates().dom().contains(other) <==> solvables_named(
                    solvables,
                    other,
                    count + 1,
                ).len() > 0 by {
                lemma_solvables_named_prefix(before.pool().solvables(), solvables, other, count);
                assert(before.candidates().dom().contains(other) <==> solvables_named(
                    before.pool().solvables(),
                    other,
                    count,
                ).len() > 0);
            }
            assert forall|other: NameId|
                self.candidates().dom().contains(other) implies #[trigger] self.candidates()[other]
                == solvables_named(solvables, other, count + 1) by {
                lemma_solvables_named_prefix(before.pool().solvables(), solvables, other, count);
                if other != name {
                    assert(before.candidates().dom().contains(other));
                    assert(before.candidates()[other] == solvables_named(
                        before.pool().solvables(),
                        other,
                        count,
                    ));
                }
            }
            assert(self.universe() =~= before.universe().push(*package));
            assert forall|i: int| 0 <= i < solvables.len() implies {
                &&& self.pool().names()[(#[trigger] solvables[i]).0.0 as int]
                    == self.universe()[i].package@
                &&& solvables[i].1 == self.universe()[i].version
            } by {
                if i < count {
                    assert(solvables[i] == before.pool().solvables()[i]);
                    assert(self.universe()[i] == before.universe()[i]);
                }
            }
        }
        id
    }

    /// Loads a scenario. Every package of its universe becomes a solvable, in
    /// their order, and the dependencies of each are worked out at once, so
    /// that the provider can answer the solver without changing any more.
    pub fn new(scenario: &'s Scenario) -> (provider: Self)
        requires
            loadable(*scenario),
        ensures
            provider.wf(),
            provider.universe() == scenario.universe@,
            provider.pool().names().len() <= scenario.universe@.len() + universe_relationships(
                scenario.universe@,
                scenario.universe@.len() as int,
            ),
            provider.pool().version_sets().len() <= universe_relationships(
                scenario.universe@,
                scenario.universe@.len() as int,
            ),
    {
        let ghost universe = scenario.universe@;
        let mut provider = Self::empty();
        let mut i: usize = 0;
        while i < scenario.universe.len()
            invariant
                universe == scenario.universe@,
                loadable(*scenario),
                i <= universe.len(),
                provider.indexed(),
                provider.described(),
                provider.dependencies().len() == 0,
                provider.universe() == universe.take(i as int),
                provider.pool().names().len() <= i,
                provider.pool().version_sets().len() == 0,
                provider.pool().unions().len() == 0,
            decreases universe.len() - i,
        {
            let package = &scenario.universe[i];
            provider.add_package(package);
            proof {
                assert(universe.take(i as int).push(*package) =~= universe.take(i + 1));
            }
            i = i + 1;
        }
        proof {
            assert(universe.take(universe.len() as int) =~= universe);
        }
        let mut i: usize = 0;
        while i < scenario.universe.len()
            invariant
                universe == scenario.universe@,
                loadable(*scenario),
                i <= universe.len(),
                provider.indexed(),
                provider.described(),
                provider.dependencies().len() == i,
                provider.universe() == universe,
                provider.pool().names().len() <= universe.len() + universe_relationships(
                    universe,
                    i as int,
                ),
                provider.pool().version_sets().len() <= universe_relationships(universe, i as int),
                provider.pool().unions().len() <= universe_relationships(universe, i as int),
            decreases universe.len() - i,
        {
            let package = &scenario.universe[i];
            proof {
                lemma_universe_relationships_rise(universe, i + 1, universe.len() as int);
            }
            let known = provider.intern_dependencies(package);
            provider.dependencies.push(known);
            i = i + 1;
        }
        provider
    }

    /// Loads a scenario, if a provider can load it: if it is not too large
    /// for the pool and every version in it can be compared.
    pub fn try_new(scenario: &'s Scenario) -> (provider: Option<Self>)
        ensures
            provider is Some <==> loadable(*scenario),
            provider matches Some(loaded) ==> loaded.wf() && loaded.universe()
                == scenario.universe@,
    {
        if is_loadable(scenario) {
            Some(Self::new(scenario))
        } else {
            None
        }
    }

    /// The id of the version set of the package `name` with the versions of
    /// `range`: interns the name, then the version set. The same name with an
    /// equal range has the same id every time.
    pub fn intern_version_set(&mut self, name: &'s str, range: Range<&'s Version>) -> (id:
        VersionSetId)
        requires
            old(self).indexed(),
            old(self).described(),
            range_comparable(range),
            old(self).pool().names().len() < u32::MAX,
            old(self).pool().version_sets().len() < u32::MAX,
        ensures
            final(self).indexed(),
            final(self).described(),
            final(self).grown_from(old(self), 1, 1, 0),
            final(self).pool().knows_version_set(id),
            final(self).pool().knows_name(final(self).pool().version_sets()[id.0 as int].0),
            interned(
                old(self).pool().names(),
                final(self).pool().names(),
                name@,
                final(self).pool().version_sets()[id.0 as int].0.0 as int,
            ),
            interned_version_set(
                old(self).pool().version_sets(),
                final(self).pool().version_sets(),
                (final(self).pool().version_sets()[id.0 as int].0, range),
                id.0 as int,
            ),
            forall|v: Version|
                #![trigger range_holds(final(self).pool().version_sets()[id.0 as int].1, v)]
                #![trigger range_holds(range, v)]
                range_holds(final(self).pool().version_sets()[id.0 as int].1, v) == range_holds(
                    range,
                    v,
                ),
    {
        let ghost before = *self;
        let name_id = self.pool.intern_package_name(name);
        let ghost middle = self.pool();
        let id = self.pool.intern_version_set(name_id, range);
        proof {
            lemma_extends_twice(before.pool(), middle, self.pool());
            self.lemma_pool_grew(&before);
        }
        id
    }

    /// The id of the version set that a relationship stands for: the package
    /// it names, in the versions that its constraint admits.
    pub fn intern_edsp_version_set(&mut self, set: &'s VersionSet) -> (id: VersionSetId)
        requires
            old(self).indexed(),
            old(self).described(),
            set_comparable(*set),
            old(self).pool().names().len() < u32::MAX,
            old(self).pool().version_sets().len() < u32::MAX,
        ensures
            final(self).indexed(),
            final(self).described(),
            final(self).grown_from(old(self), 1, 1, 0),
            denotes(final(self).pool(), id, *set, true),
    {
        let range = constraint_to_version_set(&set.constraint);
        self.intern_version_set(set.package.as_str(), range)
    }

    /// The id of the version set that a conflict leaves: the package that the
    /// relationship names, in the versions that its constraint does not
    /// admit.
    pub fn intern_conflict(&mut self, set: &'s VersionSet) -> (id: VersionSetId)
        requires
            old(self).indexed(),
            old(self).described(),
            set_comparable(*set),
            old(self).pool().names().len() < u32::MAX,
            old(self).pool().version_sets().len() < u32::MAX,
        ensures
            final(self).indexed(),
            final(self).described(),
            final(self).grown_from(old(self), 1, 1, 0),
            denotes(final(self).pool(), id, *set, false),
    {
        let range = constraint_to_excluded_set(&set.constraint);
        self.intern_version_set(set.package.as_str(), range)
    }

    /// A new union of version sets: `first`, then `others` in their order.
    pub fn intern_version_set_union(&mut self, first: VersionSetId, others: Vec<VersionSetId>) -> (id:
        VersionSetUnionId)
        requires
            old(self).indexed(),
            old(self).described(),
            old(self).pool().knows_version_set(first),
            forall|k: int|
                0 <= k < others@.len() ==> old(self).pool().knows_version_set(#[trigger] others@[k]),
            old(self).pool().unions().len() < u32::MAX,
        ensures
            final(self).indexed(),
            final(self).described(),
            final(self).grown_from(old(self), 0, 0, 1),
            final(self).pool().version_sets() == old(self).pool().version_sets(),
            final(self).pool().names() == old(self).pool().names(),
            final(self).pool().knows_union(id),
            id.0 == old(self).pool().unions().len(),
            final(self).pool().unions()[id.0 as int] == seq![first] + others@,
    {
        let ghost before = *self;
        let id = self.pool.intern_version_set_union(first, others);
        proof {
            self.lemma_pool_grew(&before);
        }
        id
    }

    /// The interning pool.
    pub fn interner(&self) -> (pool: &Interner<'s>)
        ensures
            *pool == self.pool(),
    {
        &self.pool
    }

    /// The solvables of a name, if the name has packages.
    pub fn candidates_of(&self, name: NameId) -> (found: Option<&Vec<SolvableId>>)
        ensures
            match found {
                Some(list) => self.candidates().dom().contains(name) && list@
                    == self.candidates()[name],
                None => !self.candidates().dom().contains(name),
            },
    {
        candidates_get(&self.candidates, name)
    }

    /// The package that a solvable stands for, if the number is a solvable.
    pub fn package_of(&self, solvable: SolvableId) -> (found: Option<&'s Package>)
        ensures
            match found {
                Some(package) => self.packages().dom().contains(solvable) && *package
                    == self.packages()[solvable],
                None => !self.packages().dom().contains(solvable),
            },
    {
        packages_get(&self.packages, solvable)
    }

    /// The dependencies that were worked out for the solvable of the given
    /// number.
    pub fn dependencies_of(&self, index: usize) -> (known: &KnownDependencies)
        requires
            index < self.dependencies().len(),
        ensures
            *known == self.dependencies()[index as int],
    {
        &self.dependencies[index]
    }

    /// The string that tells why a solvable without a package has no
    /// dependencies.
    pub fn unknown_reason(&self) -> (reason: StringId)
        ensures
            reason == self.unknown(),
    {
        self.unknown
    }
}

} // verus!
