//! What a scenario has to be like for a provider to load it.

use apt_edsp::scenario::{Dependency, Package, Scenario, VersionSet};
use vstd::prelude::*;

use crate::version::{comparable, is_comparable};

verus! {

/// The version that a relationship names, if it names one, can be compared.
pub open spec fn set_comparable(set: VersionSet) -> bool {
    match set.constraint {
        Some((_, bound)) => comparable(bound),
        None => true,
    }
}

/// Every version that the alternatives of a dependency name can be compared.
pub open spec fn dependency_comparable(dependency: Dependency) -> bool {
    &&& set_comparable(dependency.first)
    &&& forall|k: int|
        0 <= k < dependency.alternates@.len() ==> set_comparable(
            #[trigger] dependency.alternates@[k],
        )
}

/// The version of a package, and every version that its dependencies and
/// conflicts name, can be compared.
pub open spec fn package_comparable(package: Package) -> bool {
    &&& comparable(package.version)
    &&& forall|j: int|
        0 <= j < package.depends@.len() ==> dependency_comparable(#[trigger] package.depends@[j])
    &&& forall|j: int|
        0 <= j < package.conflicts@.len() ==> set_comparable(#[trigger] package.conflicts@[j])
}

/// The number of relationships in the first `n` dependencies: one for each
/// dependency and one for each of its alternates.
pub open spec fn alternatives(dependencies: Seq<Dependency>, n: int) -> nat
    decreases n,
{
    if n <= 0 {
        0
    } else {
        alternatives(dependencies, n - 1) + 1 + dependencies[n - 1].alternates@.len()
    }
}

/// The number of relationships that a package states: the alternatives of its
/// dependencies and its conflicts.
pub open spec fn relationships(package: Package) -> nat {
    alternatives(package.depends@, package.depends@.len() as int) + package.conflicts@.len()
}

/// The number of relationships that the first `n` packages state together.
pub open spec fn universe_relationships(universe: Seq<Package>, n: int) -> nat
    decreases n,
{
    if n <= 0 {
        0
    } else {
        universe_relationships(universe, n - 1) + relationships(universe[n - 1])
    }
}

/// Whether a provider can load the scenario: its packages and their
/// relationships together are few enough for each to get an identifier of 32
/// bits, and every version in it can be compared.
pub open spec fn loadable(scenario: Scenario) -> bool {
    &&& scenario.universe@.len() + universe_relationships(
        scenario.universe@,
        scenario.universe@.len() as int,
    ) < u32::MAX
    &&& forall|i: int|
        0 <= i < scenario.universe@.len() ==> package_comparable(#[trigger] scenario.universe@[i])
}

/// The relationships counted so far are among those counted in the end.
pub proof fn lemma_alternatives_rise(dependencies: Seq<Dependency>, m: int, n: int)
    requires
        m <= n,
    ensures
        alternatives(dependencies, m) <= alternatives(dependencies, n),
    decreases n - m,
{
    if m < n {
        lemma_alternatives_rise(dependencies, m, n - 1);
    }
}

/// The relationships counted so far are among those counted in the end.
pub proof fn lemma_universe_relationships_rise(universe: Seq<Package>, m: int, n: int)
    requires
        m <= n,
    ensures
        universe_relationships(universe, m) <= universe_relationships(universe, n),
    decreases n - m,
{
    if m < n {
        lemma_universe_relationships_rise(universe, m, n - 1);
    }
}

/// Whether the version that a relationship names, if any, can be compared.
pub fn set_is_comparable(set: &VersionSet) -> (ok: bool)
    ensures
        ok == set_comparable(*set),
{
    match &set.constraint {
        Some((_, bound)) => is_comparable(bound),
        None => true,
    }
}

/// The number of relationships that a package states, if it is less than
/// `limit` and every version in the package can be compared.
fn count_relationships(package: &Package, limit: u32) -> (count: Option<u32>)
    ensures
        match count {
            Some(n) => package_comparable(*package) && n == relationships(*package) && n < limit,
            None => !package_comparable(*package) || relationships(*package) >= limit,
        },
{
    if limit == 0 || !is_comparable(&package.version) {
        return None;
    }
    let mut count: u64 = 0;
    let mut j: usize = 0;
    while j < package.depends.len()
        invariant
            j <= package.depends@.len(),
            count == alternatives(package.depends@, j as int),
            count < limit,
            comparable(package.version),
            forall|i: int| 0 <= i < j ==> dependency_comparable(#[trigger] package.depends@[i]),
        decreases package.depends@.len() - j,
    {
        let dependency = &package.depends[j];
        proof {
            lemma_alternatives_rise(package.depends@, j + 1, package.depends@.len() as int);
        }
        if !set_is_comparable(&dependency.first) {
            assert(!dependency_comparable(package.depends@[j as int]));
            return None;
        }
        let mut k: usize = 0;
        while k < dependency.alternates.len()
            invariant
                j < package.depends@.len(),
                *dependency == package.depends@[j as int],
                k <= dependency.alternates@.len(),
                forall|i: int| 0 <= i < k ==> set_comparable(#[trigger] dependency.alternates@[i]),
            decreases dependency.alternates@.len() - k,
        {
            if !set_is_comparable(&dependency.alternates[k]) {
                assert(!set_comparable(dependency.alternates@[k as int]));
                assert(!dependency_comparable(package.depends@[j as int]));
                return None;
            }
            k = k + 1;
        }
        let more = dependency.alternates.len();
        if more >= limit as usize {
            return None;
        }
        let next = count + 1 + more as u64;
        if next >= limit as u64 {
            return None;
        }
        count = next;
        j = j + 1;
    }
    let mut j: usize = 0;
    while j < package.conflicts.len()
        invariant
            j <= package.conflicts@.len(),
            forall|i: int| 0 <= i < j ==> set_comparable(#[trigger] package.conflicts@[i]),
        decreases package.conflicts@.len() - j,
    {
        if !set_is_comparable(&package.conflicts[j]) {
            assert(!set_comparable(package.conflicts@[j as int]));
            return None;
        }
        j = j + 1;
    }
    let more = package.conflicts.len();
    if more >= limit as usize {
        return None;
    }
    let total = count + more as u64;
    if total >= limit as u64 {
        return None;
    }
    Some(total as u32)
}

/// The number of packages of a scenario and of the relationships they state,
/// if a provider can load the scenario.
pub fn load_size(scenario: &Scenario) -> (size: Option<u32>)
    ensures
        match size {
            Some(n) => loadable(*scenario) && n == scenario.universe@.len()
                + universe_relationships(scenario.universe@, scenario.universe@.len() as int),
            None => !loadable(*scenario),
        },
{
    let ghost universe = scenario.universe@;
    let mut size: u32 = 0;
    let mut i: usize = 0;
    while i < scenario.universe.len()
        invariant
            universe == scenario.universe@,
            i <= universe.len(),
            size == i + universe_relationships(universe, i as int),
            size < u32::MAX,
            forall|k: int| 0 <= k < i ==> package_comparable(#[trigger] universe[k]),
        decreases universe.len() - i,
    {
        proof {
            lemma_universe_relationships_rise(universe, i + 1, universe.len() as int);
        }
        let room = u32::MAX - size - 1;
        match count_relationships(&scenario.universe[i], room) {
            Some(n) => {
                size = size + 1 + n;
            },
            None => {
                return None;
            },
        }
        i = i + 1;
    }
    Some(size)
}

/// Whether a provider can load the scenario.
pub fn is_loadable(scenario: &Scenario) -> (ok: bool)
    ensures
        ok == loadable(*scenario),
{
    load_size(scenario).is_some()
}

} // verus!
