//! The dependencies of a solvable: what the dependencies and conflicts of its
//! package become for the solver.

use apt_edsp::scenario::{Dependency, Package, Version, VersionSet};
use resolvo::{Dependencies, KnownDependencies, Requirement, SolvableId, VersionSetId};
use vstd::prelude::*;

use crate::interner::Interner;
use crate::provider::DebProvider;
use crate::range::{admits, range_holds};
use crate::scenario::{
    alternatives, dependency_comparable, lemma_alternatives_rise, package_comparable,
    relationships,
};

verus! {

/// Whether the version set `id` of the pool stands for the relationship
/// `set`: it speaks of the package that `set` names and holds exactly the
/// versions that the constraint of `set` admits (where `admitted` is true) or
/// exactly those that it does not admit (where `admitted` is false).
pub open spec fn denotes(pool: Interner, id: VersionSetId, set: VersionSet, admitted: bool) -> bool {
    &&& pool.knows_version_set(id)
    &&& pool.knows_name(pool.version_sets()[id.0 as int].0)
    &&& pool.names()[pool.version_sets()[id.0 as int].0.0 as int] == set.package@
    &&& forall|v: Version| #[trigger]
        range_holds(pool.version_sets()[id.0 as int].1, v) <==> (admits(set.constraint, v)
            == admitted)
}

/// Whether a requirement stands for a dependency: a single version set for a
/// dependency without alternates, and otherwise a union whose members stand
/// for the first relationship and then for the alternates, in order.
pub open spec fn requirement_matches(
    pool: Interner,
    dependency: Dependency,
    requirement: Requirement,
) -> bool {
    match requirement {
        Requirement::Single(id) => {
            &&& dependency.alternates@.len() == 0
            &&& denotes(pool, id, dependency.first, true)
        },
        Requirement::Union(id) => {
            &&& dependency.alternates@.len() > 0
            &&& pool.knows_union(id)
            &&& pool.unions()[id.0 as int].len() == dependency.alternates@.len() + 1
            &&& denotes(pool, pool.unions()[id.0 as int][0], dependency.first, true)
            &&& forall|k: int|
                0 <= k < dependency.alternates@.len() ==> denotes(
                    pool,
                    #[trigger] pool.unions()[id.0 as int][k + 1],
                    dependency.alternates@[k],
                    true,
                )
        },
    }
}

/// Whether the dependencies given for a package are those of the package:
/// one requirement for each of its dependencies, in order, and one
/// constraint for each of its conflicts, in order, each constraint holding
/// the versions that the conflict leaves.
pub open spec fn dependencies_match(
    pool: Interner,
    package: Package,
    known: KnownDependencies,
) -> bool {
    &&& known.requirements@.len() == package.depends@.len()
    &&& forall|j: int|
        0 <= j < package.depends@.len() ==> requirement_matches(
            pool,
            package.depends@[j],
            #[trigger] known.requirements@[j],
        )
    &&& known.constrains@.len() == package.conflicts@.len()
    &&& forall|j: int|
        0 <= j < package.conflicts@.len() ==> denotes(
            pool,
            #[trigger] known.constrains@[j],
            package.conflicts@[j],
            false,
        )
}

/// A version set stays what it stood for when the pool grows.
pub proof fn lemma_denotes_extends(
    before: Interner,
    after: Interner,
    id: VersionSetId,
    set: VersionSet,
    admitted: bool,
)
    requires
        after.extends(&before),
        denotes(before, id, set, admitted),
    ensures
        denotes(after, id, set, admitted),
{
    let name = before.version_sets()[id.0 as int].0;
    assert(after.version_sets()[id.0 as int] == before.version_sets()[id.0 as int]);
    assert(after.names()[name.0 as int] == before.names()[name.0 as int]);
}

/// A requirement stays what it stood for when the pool grows.
pub proof fn lemma_requirement_extends(
    before: Interner,
    after: Interner,
    dependency: Dependency,
    requirement: Requirement,
)
    requires
        after.extends(&before),
        requirement_matches(before, dependency, requirement),
    ensures
        requirement_matches(after, dependency, requirement),
{
    match requirement {
        Requirement::Single(id) => {
            lemma_denotes_extends(before, after, id, dependency.first, true);
        },
        Requirement::Union(id) => {
            let members = before.unions()[id.0 as int];
            assert(after.unions()[id.0 as int] == members);
            lemma_denotes_extends(before, after, members[0], dependency.first, true);
            assert forall|k: int| 0 <= k < dependency.alternates@.len() implies denotes(
                after,
                #[trigger] after.unions()[id.0 as int][k + 1],
                dependency.alternates@[k],
                true,
            ) by {
                lemma_denotes_extends(
                    before,
                    after,
                    members[k + 1],
                    dependency.alternates@[k],
                    true,
                );
            }
        },
    }
}

/// The dependencies of a package stay what they stood for when the pool
/// grows.
pub proof fn lemma_dependencies_extend(
    before: Interner,
    after: Interner,
    package: Package,
    known: KnownDependencies,
)
    requires
        after.extends(&before),
        dependencies_match(before, package, known),
    ensures
        dependencies_match(after, package, known),
{
    assert forall|j: int| 0 <= j < package.depends@.len() implies requirement_matches(
        after,
        package.depends@[j],
        #[trigger] known.requirements@[j],
    ) by {
        lemma_requirement_extends(before, after, package.depends@[j], known.requirements@[j]);
    }
    assert forall|j: int| 0 <= j < package.conflicts@.len() implies denotes(
        after,
        #[trigger] known.constrains@[j],
        package.conflicts@[j],
        false,
    ) by {
        lemma_denotes_extends(before, after, known.constrains@[j], package.conflicts@[j], false);
    }
}

impl<'s> DebProvider<'s> {
    /// The requirement that a dependency makes: the version set of its only
    /// relationship, or the union of the version sets of its alternatives.
    /// Any solvable that one of the alternatives admits meets the union.
    pub fn intern_requirement(&mut self, dependency: &'s Dependency) -> (requirement: Requirement)
        requires
            old(self).indexed(),
            old(self).described(),
            dependency_comparable(*dependency),
            old(self).pool().names().len() + 1 + dependency.alternates@.len() < u32::MAX,
            old(self).pool().version_sets().len() + 1 + dependency.alternates@.len() < u32::MAX,
            old(self).pool().unions().len() < u32::MAX,
        ensures
            final(self).indexed(),
            final(self).described(),
            final(self).grown_from(
                old(self),
                1 + dependency.alternates@.len() as int,
                1 + dependency.alternates@.len() as int,
                1,
            ),
            requirement_matches(final(self).pool(), *dependency, requirement),
    {
        let ghost before = *self;
        let first = self.intern_edsp_version_set(&dependency.first);
        if dependency.alternates.len() == 0 {
            return Requirement::Single(first);
        }
        let mut others: Vec<VersionSetId> = Vec::new();
        let mut k: usize = 0;
        while k < dependency.alternates.len()
            invariant
                k <= dependency.alternates@.len(),
                self.indexed(),
                self.described(),
                self.grown_from(&before, 1 + k, 1 + k, 0),
                dependency_comparable(*dependency),
                before.pool().names().len() + 1 + dependency.alternates@.len() < u32::MAX,
                before.pool().version_sets().len() + 1 + dependency.alternates@.len() < u32::MAX,
                denotes(self.pool(), first, dependency.first, true),
                others@.len() == k,
                forall|j: int|
                    0 <= j < k ==> denotes(
                        self.pool(),
                        #[trigger] others@[j],
                        dependency.alternates@[j],
                        true,
                    ),
            decreases dependency.alternates@.len() - k,
        {
            let ghost middle = *self;
            let id = self.intern_edsp_version_set(&dependency.alternates[k]);
            proof {
                self.lemma_grown_twice(&middle, &before, (1 + k, 1), (1 + k, 1), (0, 0));
                lemma_denotes_extends(middle.pool(), self.pool(), first, dependency.first, true);
                assert forall|j: int| 0 <= j < k implies denotes(
                    self.pool(),
                    #[trigger] others@[j],
                    dependency.alternates@[j],
                    true,
                ) by {
                    lemma_denotes_extends(
                        middle.pool(),
                        self.pool(),
                        others@[j],
                        dependency.alternates@[j],
                        true,
                    );
                }
            }
            others.push(id);
            k = k + 1;
        }
        let ghost middle = *self;
        let ghost rest = others@;
        let union = self.intern_version_set_union(first, others);
        proof {
            let count = dependency.alternates@.len() as int;
            self.lemma_grown_twice(&middle, &before, (1 + count, 0), (1 + count, 0), (0, 1));
            lemma_denotes_extends(middle.pool(), self.pool(), first, dependency.first, true);
            assert forall|j: int| 0 <= j < count implies denotes(
                self.pool(),
                #[trigger] self.pool().unions()[union.0 as int][j + 1],
                dependency.alternates@[j],
                true,
            ) by {
                assert(self.pool().unions()[union.0 as int][j + 1] == rest[j]);
                lemma_denotes_extends(
                    middle.pool(),
                    self.pool(),
                    rest[j],
                    dependency.alternates@[j],
                    true,
                );
            }
        }
        Requirement::Union(union)
    }

    /// The dependencies of a package: a requirement for each of its
    /// dependencies and, for each of its conflicts, a constraint to the
    /// versions that the conflict leaves.
    pub fn intern_dependencies(&mut self, package: &'s Package) -> (known: KnownDependencies)
        requires
            old(self).indexed(),
            old(self).described(),
            package_comparable(*package),
            old(self).pool().names().len() + relationships(*package) < u32::MAX,
            old(self).pool().version_sets().len() + relationships(*package) < u32::MAX,
            old(self).pool().unions().len() + relationships(*package) < u32::MAX,
        ensures
            final(self).indexed(),
            final(self).described(),
            final(self).grown_from(
                old(self),
                relationships(*package) as int,
                relationships(*package) as int,
                relationships(*package) as int,
            ),
            dependencies_match(final(self).pool(), *package, known),
    {
        let ghost before = *self;
        let ghost depends = package.depends@;
        let ghost conflicts = package.conflicts@;
        let mut requirements: Vec<Requirement> = Vec::new();
        let mut j: usize = 0;
        while j < package.depends.len()
            invariant
                depends == package.depends@,
                j <= depends.len(),
                self.indexed(),
                self.described(),
                self.grown_from(
                    &before,
                    alternatives(depends, j as int) as int,
                    alternatives(depends, j as int) as int,
                    alternatives(depends, j as int) as int,
                ),
                package_comparable(*package),
                before.pool().names().len() + relationships(*package) < u32::MAX,
                before.pool().version_sets().len() + relationships(*package) < u32::MAX,
                before.pool().unions().len() + relationships(*package) < u32::MAX,
                requirements@.len() == j,
                forall|i: int|
                    0 <= i < j ==> requirement_matches(
                        self.pool(),
                        depends[i],
                        #[trigger] requirements@[i],
                    ),
            decreases depends.len() - j,
        {
            let ghost middle = *self;
            proof {
                lemma_alternatives_rise(depends, j + 1, depends.len() as int);
            }
            let requirement = self.intern_requirement(&package.depends[j]);
            proof {
                let step = 1 + depends[j as int].alternates@.len() as int;
                let done = alternatives(depends, j as int) as int;
                self.lemma_grown_twice(&middle, &before, (done, step), (done, step), (done, 1));
                assert forall|i: int| 0 <= i < j implies requirement_matches(
                    self.pool(),
                    depends[i],
                    #[trigger] requirements@[i],
                ) by {
                    lemma_requirement_extends(
                        middle.pool(),
                        self.pool(),
                        depends[i],
                        requirements@[i],
                    );
                }
            }
            requirements.push(requirement);
            j = j + 1;
        }
        let ghost all = alternatives(depends, depends.len() as int) as int;
        let mut constrains: Vec<VersionSetId> = Vec::new();
        let mut j: usize = 0;
        while j < package.conflicts.len()
            invariant
                depends == package.depends@,
                conflicts == package.conflicts@,
                all == alternatives(depends, depends.len() as int),
                j <= conflicts.len(),
                self.indexed(),
                self.described(),
                self.grown_from(&before, all + j, all + j, all),
                package_comparable(*package),
                before.pool().names().len() + relationships(*package) < u32::MAX,
                before.pool().version_sets().len() + relationships(*package) < u32::MAX,
                requirements@.len() == depends.len(),
                forall|i: int|
                    0 <= i < depends.len() ==> requirement_matches(
                        self.pool(),
                        depends[i],
                        #[trigger] requirements@[i],
                    ),
                constrains@.len() == j,
                forall|i: int|
                    0 <= i < j ==> denotes(self.pool(), #[trigger] constrains@[i], conflicts[i], false),
            decreases conflicts.len() - j,
        {
            let ghost middle = *self;
            let id = self.intern_conflict(&package.conflicts[j]);
            proof {
                self.lemma_grown_twice(&middle, &before, (all + j, 1), (all + j, 1), (all, 0));
                assert forall|i: int| 0 <= i < depends.len() implies requirement_matches(
                    self.pool(),
                    depends[i],
                    #[trigger] requirements@[i],
                ) by {
                    lemma_requirement_extends(
                        middle.pool(),
                        self.pool(),
                        depends[i],
                        requirements@[i],
                    );
                }
                assert forall|i: int| 0 <= i < j implies denotes(
                    self.pool(),
                    #[trigger] constrains@[i],
                    conflicts[i],
                    false,
                ) by {
                    lemma_denotes_extends(
                        middle.pool(),
                        self.pool(),
                        constrains@[i],
                        conflicts[i],
                        false,
                    );
                }
            }
            constrains.push(id);
            j = j + 1;
        }
        KnownDependencies { requirements, constrains }
    }

    /// The dependencies of a solvable: a requirement for each dependency of
    /// its package and a constraint for each conflict, as they were worked
    /// out when the package was loaded. A number that is no solvable has
    /// unknown dependencies, for the reason "Unknown package".
    pub fn get_dependencies(&self, solvable: SolvableId) -> (found: Dependencies)
        requires
            self.wf(),
        ensures
            match found {
                Dependencies::Known(known) => {
                    &&& self.pool().knows_solvable(solvable)
                    &&& known.requirements@ == self.dependencies()[solvable.0 as int].requirements@
                    &&& known.constrains@ == self.dependencies()[solvable.0 as int].constrains@
                    &&& dependencies_match(
                        self.pool(),
                        self.universe()[solvable.0 as int],
                        known,
                    )
                },
                Dependencies::Unknown(reason) => {
                    &&& !self.pool().knows_solvable(solvable)
                    &&& reason == self.unknown()
                    &&& self.pool().knows_string(reason)
                    &&& self.pool().strings()[reason.0 as int] == "Unknown package"@
                },
            },
    {
        if self.package_of(solvable).is_none() {
            return Dependencies::Unknown(self.unknown_reason());
        }
        let stored = self.dependencies_of(solvable.0 as usize);
        let mut requirements: Vec<Requirement> = Vec::new();
        let mut i: usize = 0;
        while i < stored.requirements.len()
            invariant
                i <= stored.requirements@.len(),
                requirements@ == stored.requirements@.take(i as int),
            decreases stored.requirements@.len() - i,
        {
            requirements.push(stored.requirements[i]);
            proof {
                assert(stored.requirements@.take(i + 1) =~= stored.requirements@.take(
                    i as int,
                ).push(stored.requirements@[i as int]));
            }
            i = i + 1;
        }
        let mut constrains: Vec<VersionSetId> = Vec::new();
        let mut i: usize = 0;
        while i < stored.constrains.len()
            invariant
                i <= stored.constrains@.len(),
                constrains@ == stored.constrains@.take(i as int),
            decreases stored.constrains@.len() - i,
        {
            constrains.push(stored.constrains[i]);
            proof {
                assert(stored.constrains@.take(i + 1) =~= stored.constrains@.take(i as int).push(
                    stored.constrains@[i as int],
                ));
            }
            i = i + 1;
        }
        proof {
            assert(stored.requirements@.take(stored.requirements@.len() as int)
                =~= stored.requirements@);
            assert(stored.constrains@.take(stored.constrains@.len() as int) =~= stored.constrains@);
        }
        Dependencies::Known(KnownDependencies { requirements, constrains })
    }
}

} // verus!
