//! From what the solver found to the answer for the package manager.

use std::collections::HashMap;
use std::collections::HashSet;

use apt_edsp::answer::{Action, Answer, Error, Install, Remove};
use apt_edsp::scenario::Package;
use resolvo::{NameId, SolvableId};
use vstd::prelude::*;
use vstd::string::*;

use crate::candidates::installed;
use crate::lists::{lemma_filter_push, lemma_filter_within};
use crate::provider::DebProvider;
use crate::request::{installed_solvables, lemma_installed_known};
use crate::version::version_clone;

verus! {

/// How a run of the solver ended.
pub enum Outcome {
    /// A solution: the solvables to have installed in the end.
    Solved(Vec<SolvableId>),
    /// No solution exists; the text explains why.
    Unsolvable(String),
    /// The run was cancelled; the text is the reason that was given.
    Cancelled(String),
}

/// Whether the action tells to install the package: it carries the record id
/// of the package, its name, version and architecture, and nothing more.
pub open spec fn is_install_of(action: Action, package: Package) -> bool {
    &&& action matches Action::Install(install)
    &&& install.install == package.id
    &&& install.package == Some(package.package)
    &&& install.version == Some(package.version)
    &&& install.architecture == Some(package.architecture)
    &&& install.extra@.dom() == Set::<String>::empty()
}

/// Whether the action tells to remove the package: it carries the record id
/// of the package, its name, version and architecture, and nothing more.
pub open spec fn is_remove_of(action: Action, package: Package) -> bool {
    &&& action matches Action::Remove(remove)
    &&& remove.remove == package.id
    &&& remove.package == Some(package.package)
    &&& remove.version == Some(package.version)
    &&& remove.architecture == Some(package.architecture)
    &&& remove.extra@.dom() == Set::<String>::empty()
}

impl<'s> DebProvider<'s> {
    /// The name that a solvable belongs to.
    pub open spec fn name_of(&self, solvable: SolvableId) -> NameId {
        self.pool().solvables()[solvable.0 as int].0
    }

    /// The names that the solvables belong to.
    pub open spec fn names_of(&self, solvables: Seq<SolvableId>) -> Set<NameId> {
        Set::new(
            |name: NameId|
                exists|i: int|
                    0 <= i < solvables.len() && self.name_of(#[trigger] solvables[i]) == name,
        )
    }

    /// Which of the chosen solvables to install: those whose package is not
    /// installed.
    pub open spec fn is_new(&self) -> spec_fn(SolvableId) -> bool {
        |solvable: SolvableId| !installed(self.universe(), solvable)
    }

    /// Which of the installed solvables to remove: those whose name none of
    /// the chosen solvables has.
    pub open spec fn is_gone(&self, chosen: Seq<SolvableId>) -> spec_fn(SolvableId) -> bool {
        |solvable: SolvableId| !self.names_of(chosen).contains(self.name_of(solvable))
    }

    /// Whether the actions are the plan that leads from the installed
    /// solvables to the chosen ones: first an install for each chosen
    /// solvable that is not installed, in the order they were chosen; then a
    /// remove for each installed solvable whose name was not chosen, in the
    /// order they were installed.
    pub open spec fn plans(
        &self,
        was_installed: Seq<SolvableId>,
        chosen: Seq<SolvableId>,
        actions: Seq<Action>,
    ) -> bool {
        let add = chosen.filter(self.is_new());
        let drop = was_installed.filter(self.is_gone(chosen));
        &&& actions.len() == add.len() + drop.len()
        &&& forall|k: int|
            0 <= k < add.len() ==> is_install_of(
                #[trigger] actions[k],
                self.universe()[add[k].0 as int],
            )
        &&& forall|k: int|
            0 <= k < drop.len() ==> is_remove_of(
                #[trigger] actions[add.len() + k],
                self.universe()[drop[k].0 as int],
            )
    }

    /// Whether the answer is the one to give for the outcome: the plan for a
    /// solution, or else an error of the kind that the outcome is, with the
    /// text of the outcome as its message.
    pub open spec fn answers(
        &self,
        was_installed: Seq<SolvableId>,
        outcome: Outcome,
        answer: Answer,
    ) -> bool {
        match outcome {
            Outcome::Solved(chosen) => {
                &&& answer matches Answer::Solution(actions)
                &&& self.plans(was_installed, chosen@, actions@)
            },
            Outcome::Unsolvable(message) => {
                &&& answer matches Answer::Error(error)
                &&& error.error@ == "resolvo-apt-solver-unsolvable"@
                &&& error.message == message
            },
            Outcome::Cancelled(reason) => {
                &&& answer matches Answer::Error(error)
                &&& error.error@ == "resolvo-apt-solver-cancelled"@
                &&& error.message == reason
            },
        }
    }

    /// The action that installs a package.
    fn install_action(package: &Package) -> (action: Action)
        ensures
            is_install_of(action, *package),
    {
        Action::Install(
            Install {
                install: package.id.clone(),
                package: Some(package.package.clone()),
                version: Some(version_clone(&package.version)),
                architecture: Some(package.architecture.clone()),
                extra: HashMap::new(),
            },
        )
    }

    /// The action that removes a package.
    fn remove_action(package: &Package) -> (action: Action)
        ensures
            is_remove_of(action, *package),
    {
        Action::Remove(
            Remove {
                remove: package.id.clone(),
                package: Some(package.package.clone()),
                version: Some(version_clone(&package.version)),
                architecture: Some(package.architecture.clone()),
                extra: HashMap::new(),
            },
        )
    }

    /// The plan that leads from the installed solvables to the chosen ones.
    fn plan(&self, was_installed: &Vec<SolvableId>, chosen: &Vec<SolvableId>) -> (actions: Vec<Action>)
        requires
            self.wf(),
            self.knows_all(was_installed@),
            self.knows_all(chosen@),
        ensures
            self.plans(was_installed@, chosen@, actions@),
    {
        broadcast use vstd::std_specs::hash::group_hash_axioms;

        let mut names: HashSet<u32> = HashSet::new();
        let mut i: usize = 0;
        while i < chosen.len()
            invariant
                self.wf(),
                self.knows_all(chosen@),
                i <= chosen@.len(),
                forall|name: u32| #[trigger]
                    names@.contains(name) <==> self.names_of(chosen@.take(i as int)).contains(
                        NameId(name),
                    ),
            decreases chosen@.len() - i,
        {
            let name = self.solvable_name(chosen[i]);
            names.insert(name.0);
            proof {
                let so_far = chosen@.take(i as int);
                let next = chosen@.take(i + 1);
                assert(next =~= so_far.push(chosen@[i as int]));
                assert forall|other: u32| #[trigger]
                    names@.contains(other) <==> self.names_of(next).contains(NameId(other)) by {
                    if self.names_of(so_far).contains(NameId(other)) {
                        let k = choose|k: int|
                            0 <= k < so_far.len() && self.name_of(#[trigger] so_far[k]) == NameId(
                                other,
                            );
                        assert(next[k] == so_far[k]);
                    }
                    if other == name.0 {
                        assert(next[i as int] == chosen@[i as int]);
                    }
                    if self.names_of(next).contains(NameId(other)) {
                        let k = choose|k: int|
                            0 <= k < next.len() && self.name_of(#[trigger] next[k]) == NameId(other);
                        if k < i {
                            assert(so_far[k] == next[k]);
                        }
                    }
                }
            }
            i = i + 1;
        }
        proof {
            assert(chosen@.take(chosen@.len() as int) =~= chosen@);
        }
        let mut actions: Vec<Action> = Vec::new();
        let mut i: usize = 0;
        while i < chosen.len()
            invariant
                self.wf(),
                self.knows_all(chosen@),
                i <= chosen@.len(),
                actions@.len() == chosen@.take(i as int).filter(self.is_new()).len(),
                forall|k: int|
                    0 <= k < actions@.len() ==> is_install_of(
                        #[trigger] actions@[k],
                        self.universe()[chosen@.take(i as int).filter(self.is_new())[k].0 as int],
                    ),
            decreases chosen@.len() - i,
        {
            let solvable = chosen[i];
            proof {
                assert(chosen@.take(i + 1) =~= chosen@.take(i as int).push(solvable));
                lemma_filter_push(chosen@.take(i as int), solvable, self.is_new());
            }
            match self.package_of(solvable) {
                Some(package) => {
                    assert(*package == self.universe()[solvable.0 as int]);
                    if !package.installed.0 {
                        actions.push(Self::install_action(package));
                    }
                },
                None => {},
            }
            i = i + 1;
        }
        proof {
            assert(chosen@.take(chosen@.len() as int) =~= chosen@);
        }
        let ghost add = chosen@.filter(self.is_new());
        let mut i: usize = 0;
        while i < was_installed.len()
            invariant
                self.wf(),
                self.knows_all(was_installed@),
                i <= was_installed@.len(),
                add == chosen@.filter(self.is_new()),
                forall|name: u32| #[trigger]
                    names@.contains(name) <==> self.names_of(chosen@).contains(NameId(name)),
                actions@.len() == add.len() + was_installed@.take(i as int).filter(
                    self.is_gone(chosen@),
                ).len(),
                forall|k: int|
                    0 <= k < add.len() ==> is_install_of(
                        #[trigger] actions@[k],
                        self.universe()[add[k].0 as int],
                    ),
                forall|k: int|
                    0 <= k < actions@.len() - add.len() ==> is_remove_of(
                        #[trigger] actions@[add.len() + k],
                        self.universe()[was_installed@.take(i as int).filter(
                            self.is_gone(chosen@),
                        )[k].0 as int],
                    ),
            decreases was_installed@.len() - i,
        {
            let solvable = was_installed[i];
            let name = self.solvable_name(solvable);
            proof {
                assert(was_installed@.take(i + 1) =~= was_installed@.take(i as int).push(solvable));
                lemma_filter_push(was_installed@.take(i as int), solvable, self.is_gone(chosen@));
                assert(names@.contains(name.0) <==> self.names_of(chosen@).contains(NameId(name.0)));
            }
            if !names.contains(&name.0) {
                match self.package_of(solvable) {
                    Some(package) => {
                        assert(*package == self.universe()[solvable.0 as int]);
                        actions.push(Self::remove_action(package));
                    },
                    None => {},
                }
            }
            i = i + 1;
        }
        proof {
            assert(was_installed@.take(was_installed@.len() as int) =~= was_installed@);
        }
        actions
    }

    /// The answer to give for the outcome of the solver. A solution becomes
    /// the plan of installs and removes that leads to it from what was
    /// installed; an outcome without solution becomes an error that says
    /// which kind it is and carries the text of the outcome.
    pub fn answer(&self, was_installed: &Vec<SolvableId>, outcome: Outcome) -> (answer: Answer)
        requires
            self.wf(),
            self.knows_all(was_installed@),
            outcome matches Outcome::Solved(chosen) ==> self.knows_all(chosen@),
        ensures
            self.answers(was_installed@, outcome, answer),
    {
        match outcome {
            Outcome::Solved(chosen) => Answer::Solution(self.plan(was_installed, &chosen)),
            Outcome::Unsolvable(message) => Answer::Error(
                Error { error: String::from_str("resolvo-apt-solver-unsolvable"), message },
            ),
            Outcome::Cancelled(reason) => Answer::Error(
                Error { error: String::from_str("resolvo-apt-solver-cancelled"), message: reason },
            ),
        }
    }
}

impl<'s> DebProvider<'s> {
    /// Installs and removes keep apart. A solvable that the plan removes was
    /// installed and none of the chosen solvables has its name; a solvable
    /// that the plan installs was chosen and was not installed; and the
    /// packages of the two have different names.
    pub proof fn lemma_actions_apart(
        &self,
        chosen: Seq<SolvableId>,
        added: SolvableId,
        dropped: SolvableId,
    )
        requires
            self.wf(),
            self.knows_all(chosen),
            chosen.filter(self.is_new()).contains(added),
            installed_solvables(self.universe(), self.universe().len() as int).filter(
                self.is_gone(chosen),
            ).contains(dropped),
        ensures
            chosen.contains(added),
            !installed(self.universe(), added),
            installed(self.universe(), dropped),
            !self.names_of(chosen).contains(self.name_of(dropped)),
            self.name_of(added) != self.name_of(dropped),
            self.universe()[added.0 as int].package@ != self.universe()[dropped.0 as int].package@,
    {
        let was_installed = installed_solvables(self.universe(), self.universe().len() as int);
        lemma_filter_within(chosen, self.is_new(), added);
        lemma_filter_within(was_installed, self.is_gone(chosen), dropped);
        lemma_installed_known(self.universe(), self.universe().len() as int);
        let at = choose|at: int| 0 <= at < chosen.len() && chosen[at] == added;
        assert(self.pool().knows_solvable(chosen[at]));
        let k = choose|k: int| 0 <= k < was_installed.len() && was_installed[k] == dropped;
        assert(was_installed[k].0 < self.universe().len());
        assert(self.names_of(chosen).contains(self.name_of(chosen[at])));
        let one = self.pool().solvables()[added.0 as int];
        let other = self.pool().solvables()[dropped.0 as int];
        assert(one.0.0 != other.0.0);
    }

}

} // verus!
