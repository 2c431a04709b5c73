//! What the provider tells the solver about the candidates of a name: which
//! there are, which of them a version set admits, and in what order to try
//! them.

use apt_edsp::scenario::{Package, Version, VersionSet};
use resolvo::{Candidates, NameId, SolvableId, VersionSetId};
use vstd::prelude::*;

use crate::dependencies::denotes;
use crate::lists::{
    lemma_filter_push, lemma_filter_splits, lemma_filter_within, lemma_swap_keeps_items,
};
use crate::provider::DebProvider;
use crate::range::{admits, range_comparable, range_contains, range_holds};
use crate::version::{compare_versions, version_order};

verus! {

/// The ids, in rising order, of those among the first `n` solvables that
/// belong to `name`.
pub open spec fn solvables_named(solvables: Seq<(NameId, Version)>, name: NameId, n: int) -> Seq<
    SolvableId,
>
    decreases n,
{
    if n <= 0 {
        Seq::empty()
    } else {
        let earlier = solvables_named(solvables, name, n - 1);
        if solvables[n - 1].0 == name {
            earlier.push(SolvableId((n - 1) as u32))
        } else {
            earlier
        }
    }
}

/// The solvables of a name among the first `n` do not depend on what comes
/// after the first `n`.
pub proof fn lemma_solvables_named_prefix(
    shorter: Seq<(NameId, Version)>,
    longer: Seq<(NameId, Version)>,
    name: NameId,
    n: int,
)
    requires
        shorter.is_prefix_of(longer),
        n <= shorter.len(),
    ensures
        solvables_named(longer, name, n) == solvables_named(shorter, name, n),
    decreases n,
{
    if n > 0 {
        lemma_solvables_named_prefix(shorter, longer, name, n - 1);
        assert(longer[n - 1] == shorter[n - 1]);
    }
}

/// The solvables listed for a name are solvables of that name, in rising
/// order, and every solvable of that name is among them.
pub proof fn lemma_solvables_named(solvables: Seq<(NameId, Version)>, name: NameId, n: int)
    requires
        0 <= n <= solvables.len() <= u32::MAX,
    ensures
        forall|k: int|
            0 <= k < solvables_named(solvables, name, n).len() ==> {
                &&& (#[trigger] solvables_named(solvables, name, n)[k]).0 < n
                &&& solvables[solvables_named(solvables, name, n)[k].0 as int].0 == name
            },
        forall|a: int, b: int|
            0 <= a < b < solvables_named(solvables, name, n).len() ==> (
            #[trigger] solvables_named(solvables, name, n)[a]).0 < (#[trigger] solvables_named(
                solvables,
                name,
                n,
            )[b]).0,
        forall|id: SolvableId|
            id.0 < n && solvables[id.0 as int].0 == name ==> #[trigger] solvables_named(
                solvables,
                name,
                n,
            ).contains(id),
    decreases n,
{
    if n > 0 {
        lemma_solvables_named(solvables, name, n - 1);
        let earlier = solvables_named(solvables, name, n - 1);
        let all = solvables_named(solvables, name, n);
        assert forall|k: int| 0 <= k < all.len() implies {
            &&& (#[trigger] all[k]).0 < n
            &&& solvables[all[k].0 as int].0 == name
        } by {
            if k < earlier.len() {
                assert(all[k] == earlier[k]);
            }
        }
        assert forall|a: int, b: int| 0 <= a < b < all.len() implies (#[trigger] all[a]).0 < (
        #[trigger] all[b]).0 by {
            assert(all[a] == earlier[a]);
            if b < earlier.len() {
                assert(all[b] == earlier[b]);
            }
        }
        assert forall|id: SolvableId|
            id.0 < n && solvables[id.0 as int].0 == name implies #[trigger] all.contains(id) by {
            if id.0 < n - 1 {
                assert(earlier.contains(id));
                let k = choose|k: int| 0 <= k < earlier.len() && earlier[k] == id;
                assert(all[k] == earlier[k]);
            } else {
                assert(all[all.len() - 1] == id);
            }
        }
    }
}

/// Whether the solvable stands for a package that is installed.
pub open spec fn installed(universe: Seq<Package>, solvable: SolvableId) -> bool {
    solvable.0 < universe.len() && universe[solvable.0 as int].installed.0
}

/// Whether `favored` is the solvable to favor among `list`: the first of them
/// that is installed, or none where none of them is.
pub open spec fn favors(universe: Seq<Package>, list: Seq<SolvableId>, favored: Option<SolvableId>) -> bool {
    match favored {
        Some(solvable) => exists|i: int|
            {
                &&& 0 <= i < list.len()
                &&& #[trigger] list[i] == solvable
                &&& installed(universe, solvable)
                &&& forall|j: int| 0 <= j < i ==> !installed(universe, #[trigger] list[j])
            },
        None => forall|i: int| 0 <= i < list.len() ==> !installed(universe, #[trigger] list[i]),
    }
}

impl<'s> DebProvider<'s> {
    /// The candidates are complete. The name of every package that was
    /// loaded is in the pool, the solvable of the package has that name and
    /// the version of the package, and the candidates of the name hold the
    /// solvable.
    pub proof fn lemma_candidates_complete(&self, i: int)
        requires
            self.indexed(),
            0 <= i < self.universe().len(),
        ensures
            self.pool().knows_name(self.pool().solvables()[i].0),
            self.pool().names()[self.pool().solvables()[i].0.0 as int] == self.universe()[i].package@,
            self.pool().solvables()[i].1 == self.universe()[i].version,
            self.packages()[SolvableId(i as u32)] == self.universe()[i],
            self.candidates().dom().contains(self.pool().solvables()[i].0),
            self.candidates()[self.pool().solvables()[i].0].contains(SolvableId(i as u32)),
    {
        let solvables = self.pool().solvables();
        lemma_solvables_named(solvables, solvables[i].0, solvables.len() as int);
        assert(solvables_named(solvables, solvables[i].0, solvables.len() as int).contains(
            SolvableId(i as u32),
        ));
    }

    /// The candidates of a name are exactly the solvables of that name, each
    /// once, in the order their packages were loaded.
    pub proof fn lemma_candidates_exact(&self, name: NameId)
        requires
            self.indexed(),
            self.candidates().dom().contains(name),
        ensures
            self.candidates()[name].no_duplicates(),
            self.candidates()[name].len() > 0,
            forall|k: int|
                0 <= k < self.candidates()[name].len() ==> {
                    &&& self.pool().knows_solvable(#[trigger] self.candidates()[name][k])
                    &&& self.pool().solvables()[self.candidates()[name][k].0 as int].0 == name
                },
            forall|a: int, b: int|
                0 <= a < b < self.candidates()[name].len() ==> (
                #[trigger] self.candidates()[name][a]).0 < (#[trigger] self.candidates()[name][b]).0,
            forall|id: SolvableId|
                self.pool().knows_solvable(id) && self.pool().solvables()[id.0 as int].0 == name
                    ==> #[trigger] self.candidates()[name].contains(id),
    {
        let solvables = self.pool().solvables();
        lemma_solvables_named(solvables, name, solvables.len() as int);
    }

    /// The version of a solvable.
    pub open spec fn version_of(&self, solvable: SolvableId) -> Version {
        self.pool().solvables()[solvable.0 as int].1
    }

    /// Which solvables a filter keeps: those whose version the version set
    /// holds, or, for the inverse filter, those whose version it does not
    /// hold.
    pub open spec fn keeps(&self, version_set: VersionSetId, inverse: bool) -> spec_fn(
        SolvableId,
    ) -> bool {
        |solvable: SolvableId|
            range_holds(
                self.pool().version_sets()[version_set.0 as int].1,
                self.version_of(solvable),
            ) != inverse
    }

    /// Every solvable of the list belongs to the pool.
    pub open spec fn knows_all(&self, solvables: Seq<SolvableId>) -> bool {
        forall|i: int| 0 <= i < solvables.len() ==> self.pool().knows_solvable(#[trigger] solvables[i])
    }

    /// The candidates of a name: all its solvables in the order they were
    /// loaded, the first installed one favored, none locked, hinted or
    /// excluded. A name without packages has no candidates.
    pub fn get_candidates(&self, name: NameId) -> (found: Option<Candidates>)
        requires
            self.wf(),
        ensures
            match found {
                Some(candidates) => {
                    &&& self.candidates().dom().contains(name)
                    &&& candidates.candidates@ == self.candidates()[name]
                    &&& favors(self.universe(), candidates.candidates@, candidates.favored)
                    &&& candidates.locked is None
                    &&& candidates.hint_dependencies_available@.len() == 0
                    &&& candidates.excluded@.len() == 0
                },
                None => !self.candidates().dom().contains(name),
            },
    {
        let list = match self.candidates_of(name) {
            Some(list) => list,
            None => {
                return None;
            },
        };
        let mut candidates: Vec<SolvableId> = Vec::new();
        let mut favored: Option<SolvableId> = None;
        let mut i: usize = 0;
        while i < list.len()
            invariant
                self.wf(),
                i <= list@.len(),
                candidates@ == list@.take(i as int),
                favors(self.universe(), list@.take(i as int), favored),
            decreases list@.len() - i,
        {
            let solvable = list[i];
            let here = match self.package_of(solvable) {
                Some(package) => package.installed.0,
                None => false,
            };
            proof {
                let so_far = list@.take(i as int);
                let next = list@.take(i + 1);
                assert(next =~= so_far.push(solvable));
                assert(here == installed(self.universe(), solvable)) by {
                    if self.pool().knows_solvable(solvable) {
                        assert(self.universe()[solvable.0 as int] == self.packages()[solvable]);
                    }
                }
                match favored {
                    Some(earlier) => {
                        let at = choose|at: int|
                            {
                                &&& 0 <= at < so_far.len()
                                &&& #[trigger] so_far[at] == earlier
                                &&& installed(self.universe(), earlier)
                                &&& forall|j: int|
                                    0 <= j < at ==> !installed(self.universe(), #[trigger] so_far[j])
                            };
                        assert(next[at] == earlier);
                        assert forall|j: int| 0 <= j < at implies !installed(
                            self.universe(),
                            #[trigger] next[j],
                        ) by {
                            assert(next[j] == so_far[j]);
                        }
                    },
                    None => {
                        assert forall|j: int| 0 <= j < i implies !installed(
                            self.universe(),
                            #[trigger] next[j],
                        ) by {
                            assert(next[j] == so_far[j]);
                        }
                        if here {
                            assert(next[i as int] == solvable);
                        }
                    },
                }
            }
            if here && favored.is_none() {
                favored = Some(solvable);
            }
            candidates.push(solvable);
            i = i + 1;
        }
        proof {
            assert(list@.take(list@.len() as int) =~= list@);
        }
        Some(
            Candidates {
                candidates,
                favored,
                locked: None,
                hint_dependencies_available: Vec::new(),
                excluded: Vec::new(),
            },
        )
    }

    /// The candidates that a version set admits, or, where `inverse` is set,
    /// those that it does not admit, in the order they were given.
    pub fn filter_candidates(
        &self,
        candidates: &[SolvableId],
        version_set: VersionSetId,
        inverse: bool,
    ) -> (kept: Vec<SolvableId>)
        requires
            self.wf(),
            self.pool().knows_version_set(version_set),
            self.knows_all(candidates@),
        ensures
            kept@ == candidates@.filter(self.keeps(version_set, inverse)),
    {
        let range = self.interner().resolve_version_set(version_set);
        let mut kept: Vec<SolvableId> = Vec::new();
        let mut i: usize = 0;
        while i < candidates.len()
            invariant
                self.wf(),
                self.pool().knows_version_set(version_set),
                self.knows_all(candidates@),
                *range == self.pool().version_sets()[version_set.0 as int].1,
                range_comparable(*range),
                i <= candidates@.len(),
                kept@ == candidates@.take(i as int).filter(self.keeps(version_set, inverse)),
            decreases candidates@.len() - i,
        {
            let solvable = candidates[i];
            let version = self.interner().resolve_solvable(solvable).1;
            proof {
                assert(candidates@.take(i + 1) =~= candidates@.take(i as int).push(solvable));
                lemma_filter_push(
                    candidates@.take(i as int),
                    solvable,
                    self.keeps(version_set, inverse),
                );
            }
            if range_contains(range, version) != inverse {
                kept.push(solvable);
            }
            i = i + 1;
        }
        proof {
            assert(candidates@.take(candidates@.len() as int) =~= candidates@);
        }
        kept
    }

    /// What filtering means for packages. Of the candidates of the package
    /// that a relationship names, the filter by the version set of the
    /// relationship keeps exactly the solvables whose package has that name
    /// and a version that the constraint admits; by the version set of a
    /// conflict with the relationship, exactly those whose version it does
    /// not admit.
    pub proof fn lemma_filter_meaning(
        &self,
        version_set: VersionSetId,
        set: VersionSet,
        admitted: bool,
        solvable: SolvableId,
    )
        requires
            self.wf(),
            denotes(self.pool(), version_set, set, admitted),
            self.candidates().dom().contains(self.pool().version_sets()[version_set.0 as int].0),
        ensures
            self.candidates()[self.pool().version_sets()[version_set.0 as int].0].filter(
                self.keeps(version_set, false),
            ).contains(solvable) <==> {
                &&& self.pool().knows_solvable(solvable)
                &&& self.universe()[solvable.0 as int].package@ == set.package@
                &&& admits(set.constraint, self.universe()[solvable.0 as int].version) == admitted
            },
    {
        let name = self.pool().version_sets()[version_set.0 as int].0;
        let list = self.candidates()[name];
        let keep = self.keeps(version_set, false);
        self.lemma_candidates_exact(name);
        if list.filter(keep).contains(solvable) {
            lemma_filter_within(list, keep, solvable);
            let k = choose|k: int| 0 <= k < list.len() && list[k] == solvable;
            assert(self.pool().knows_solvable(list[k]));
        }
        if self.pool().knows_solvable(solvable) && self.universe()[solvable.0 as int].package@
            == set.package@ && admits(set.constraint, self.universe()[solvable.0 as int].version)
            == admitted {
            let own = self.pool().solvables()[solvable.0 as int].0;
            assert(self.pool().names()[own.0 as int] == self.pool().names()[name.0 as int]);
            assert(own.0 == name.0);
            assert(list.contains(solvable));
            let k = choose|k: int| 0 <= k < list.len() && list[k] == solvable;
            list.lemma_filter_contains(keep, k);
        }
    }

    /// What the filter keeps and what the inverse filter keeps are, together,
    /// the candidates that were given, and no candidate is kept by both.
    pub proof fn lemma_filter_duality(&self, candidates: Seq<SolvableId>, version_set: VersionSetId)
        ensures
            candidates.filter(self.keeps(version_set, false)).to_set().union(
                candidates.filter(self.keeps(version_set, true)).to_set(),
            ) == candidates.to_set(),
            candidates.filter(self.keeps(version_set, false)).to_set().disjoint(
                candidates.filter(self.keeps(version_set, true)).to_set(),
            ),
    {
        lemma_filter_splits(
            candidates,
            self.keeps(version_set, false),
            self.keeps(version_set, true),
        );
    }
}

/// Whether `places` tells where in `given` each solvable of `sorted` stood:
/// the solvable at index `k` of `sorted` is the one at index `places[k]` of
/// `given`, and every index of `given` occurs once.
pub open spec fn rearranged(given: Seq<SolvableId>, sorted: Seq<SolvableId>, places: Seq<int>) -> bool {
    &&& given.len() == sorted.len()
    &&& places.len() == sorted.len()
    &&& places.no_duplicates()
    &&& forall|k: int|
        0 <= k < places.len() ==> 0 <= #[trigger] places[k] < given.len() && sorted[k]
            == given[places[k]]
}

impl<'s> DebProvider<'s> {
    /// Whether a solvable may stand right before another in the order to try
    /// them: its version is not earlier than that of the other.
    pub open spec fn precedes(&self, first: SolvableId, second: SolvableId) -> bool {
        version_order(self.version_of(first), self.version_of(second)) >= 0
    }

    /// The solvables stand newest first: none is followed directly by one of
    /// a later version.
    pub open spec fn newest_first(&self, solvables: Seq<SolvableId>) -> bool {
        forall|i: int, j: int|
            0 <= i && j == i + 1 && j < solvables.len() ==> self.precedes(
                #[trigger] solvables[i],
                #[trigger] solvables[j],
            )
    }

    /// Solvables of versions of which neither is earlier than the other stand
    /// in the order in which they stood before, `places` telling where each
    /// stood.
    pub open spec fn ties_kept(&self, sorted: Seq<SolvableId>, places: Seq<int>) -> bool {
        forall|a: int, b: int|
            0 <= a < b < sorted.len() && version_order(
                self.version_of(sorted[a]),
                self.version_of(sorted[b]),
            ) == 0 ==> #[trigger] places[a] < #[trigger] places[b]
    }

    /// Puts the solvables in the order to try them: newest version first.
    /// The solvables stay the same, each as often as it was there, and those
    /// of equal versions stay in the order they had.
    pub fn sort_candidates(&self, solvables: &mut [SolvableId])
        requires
            self.wf(),
            self.knows_all(old(solvables)@),
        ensures
            final(solvables)@.len() == old(solvables)@.len(),
            final(solvables)@.to_multiset() == old(solvables)@.to_multiset(),
            self.newest_first(final(solvables)@),
            exists|places: Seq<int>|
                rearranged(old(solvables)@, final(solvables)@, places) && self.ties_kept(
                    final(solvables)@,
                    places,
                ),
    {
        let count = solvables.len();
        let ghost given = solvables@;
        let ghost mut places = Seq::new(count as nat, |k: int| k);
        let mut i: usize = 1;
        while i < count
            invariant
                self.wf(),
                count == solvables@.len(),
                1 <= i,
                solvables@.to_multiset() == given.to_multiset(),
                self.knows_all(solvables@),
                rearranged(given, solvables@, places),
                self.ties_kept(solvables@, places),
                forall|a: int, b: int|
                    0 <= a && b == a + 1 && b < i && b < count ==> self.precedes(
                        #[trigger] solvables@[a],
                        #[trigger] solvables@[b],
                    ),
            decreases count - i,
        {
            let mut j: usize = i;
            let mut moving = true;
            while j > 0 && moving
                invariant
                    self.wf(),
                    count == solvables@.len(),
                    j <= i < count,
                    solvables@.to_multiset() == given.to_multiset(),
                    self.knows_all(solvables@),
                    rearranged(given, solvables@, places),
                    self.ties_kept(solvables@, places),
                    forall|a: int, b: int|
                        0 <= a && b == a + 1 && b <= i && b != j ==> self.precedes(
                            #[trigger] solvables@[a],
                            #[trigger] solvables@[b],
                        ),
                    0 < j < i ==> self.precedes(solvables@[j - 1], solvables@[j + 1]),
                    !moving ==> 0 < j && self.precedes(solvables@[j - 1], solvables@[j as int]),
                decreases j + (if moving { 1int } else { 0int }),
            {
                let before = solvables[j - 1];
                let moved = solvables[j];
                let ghost list = solvables@;
                let sign = compare_versions(
                    self.interner().resolve_solvable(before).1,
                    self.interner().resolve_solvable(moved).1,
                );
                if sign >= 0 {
                    moving = false;
                } else {
                    solvables[j - 1] = moved;
                    solvables[j] = before;
                    proof {
                        let swapped = list.update(j - 1, moved).update(j as int, before);
                        let stood = places;
                        places = stood.update(j - 1, stood[j as int]).update(j as int, stood[j - 1]);
                        assert(solvables@ == swapped);
                        lemma_swap_keeps_items(list, j - 1, j as int);
                        assert forall|k: int| 0 <= k < swapped.len() implies self.pool().knows_solvable(
                            #[trigger] swapped[k],
                        ) by {
                            if k == j - 1 {
                                assert(swapped[k] == list[j as int]);
                            } else if k == j {
                                assert(swapped[k] == list[j - 1]);
                            } else {
                                assert(swapped[k] == list[k]);
                            }
                        }
                        assert forall|a: int, b: int|
                            0 <= a && b == a + 1 && b <= i && b != j - 1 implies self.precedes(
                            #[trigger] swapped[a],
                            #[trigger] swapped[b],
                        ) by {
                            if b == j {
                                // the solvable that moved up, then the one it passed
                                assert(swapped[a] == moved && swapped[b] == before);
                            } else if b == j + 1 {
                                assert(swapped[a] == list[j - 1] && swapped[b] == list[j + 1]);
                            } else {
                                assert(swapped[a] == list[a] && swapped[b] == list[b]);
                            }
                        }
                        if 1 < j {
                            assert(swapped[j - 2] == list[j - 2] && swapped[j as int] == list[j - 1]);
                            assert(self.precedes(list[j - 2], list[j - 1]));
                        }
                        // where each solvable stood moves with the solvable
                        let back = |k: int|
                            if k == j - 1 {
                                j as int
                            } else if k == j {
                                j - 1
                            } else {
                                k
                            };
                        assert forall|k: int| 0 <= k < swapped.len() implies swapped[k]
                            == list[back(k)] && #[trigger] places[k] == stood[back(k)] by {}
                        assert forall|a: int, b: int|
                            0 <= a < places.len() && 0 <= b < places.len() && a != b implies places[a]
                            != places[b] by {
                            assert(places[a] == stood[back(a)] && places[b] == stood[back(b)]);
                        }
                        assert forall|a: int, b: int|
                            0 <= a < b < swapped.len() && version_order(
                                self.version_of(swapped[a]),
                                self.version_of(swapped[b]),
                            ) == 0 implies #[trigger] places[a] < #[trigger] places[b] by {
                            assert(places[a] == stood[back(a)] && places[b] == stood[back(b)]);
                            if a == j - 1 && b == j {
                                // the two that changed places are of different versions
                                assert(swapped[a] == moved && swapped[b] == before);
                            } else {
                                assert(back(a) < back(b));
                            }
                        }
                    }
                    j = j - 1;
                }
            }
            i = i + 1;
        }
    }
}

} // verus!
