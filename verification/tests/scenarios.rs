//! Whole resolutions: a scenario goes in, the solver searches with the
//! provider, and the answer is compared with the expected actions.

use std::fmt::Display;

use apt_edsp::answer::{Action, Answer};
use apt_edsp::scenario::{Package, Request, Scenario};
use apt_edsp::Bool;
use resolvo::{
    Candidates, Dependencies, DependencyProvider, Interner, NameId, Problem, SolvableId, Solver,
    SolverCache, StringId, UnsolvableOrCancelled, VersionSetId, VersionSetUnionId,
};
use resolvo_apt_solver::answer::Outcome;
use resolvo_apt_solver::provider::DebProvider;
use resolvo_apt_solver::solve::{is_acceptable, solve, try_solve};

const ARCH: &str = "amd64";

/// The provider as the solver kernel wants to see it.
struct Kernel<'a, 's>(&'a DebProvider<'s>);

impl<'a, 's> Interner for Kernel<'a, 's> {
    fn display_solvable(&self, solvable: SolvableId) -> impl Display + '_ {
        self.0.display_solvable(solvable)
    }

    fn display_merged_solvables(&self, solvables: &[SolvableId]) -> impl Display + '_ {
        self.0.display_merged_solvables(solvables)
    }

    fn display_name(&self, name: NameId) -> impl Display + '_ {
        self.0.display_name(name)
    }

    fn display_version_set(&self, version_set: VersionSetId) -> impl Display + '_ {
        self.0.display_version_set(version_set)
    }

    fn display_string(&self, string_id: StringId) -> impl Display + '_ {
        self.0.display_string(string_id)
    }

    fn version_set_name(&self, version_set: VersionSetId) -> NameId {
        self.0.version_set_name(version_set)
    }

    fn solvable_name(&self, solvable: SolvableId) -> NameId {
        self.0.solvable_name(solvable)
    }

    fn version_sets_in_union(
        &self,
        version_set_union: VersionSetUnionId,
    ) -> impl Iterator<Item = VersionSetId> {
        self.0.version_sets_in_union(version_set_union).into_iter()
    }
}

impl<'a, 's> DependencyProvider for Kernel<'a, 's> {
    async fn filter_candidates(
        &self,
        candidates: &[SolvableId],
        version_set: VersionSetId,
        inverse: bool,
    ) -> Vec<SolvableId> {
        self.0.filter_candidates(candidates, version_set, inverse)
    }

    async fn get_candidates(&self, name: NameId) -> Option<Candidates> {
        self.0.get_candidates(name)
    }

    async fn sort_candidates(&self, _solver: &SolverCache<Self>, solvables: &mut [SolvableId]) {
        self.0.sort_candidates(solvables)
    }

    async fn get_dependencies(&self, solvable: SolvableId) -> Dependencies {
        self.0.get_dependencies(solvable)
    }
}

/// A kernel that is told to stop before it has begun.
struct Cancelling<'a, 's>(Kernel<'a, 's>);

impl<'a, 's> Interner for Cancelling<'a, 's> {
    fn display_solvable(&self, solvable: SolvableId) -> impl Display + '_ {
        self.0.display_solvable(solvable)
    }

    fn display_name(&self, name: NameId) -> impl Display + '_ {
        self.0.display_name(name)
    }

    fn display_version_set(&self, version_set: VersionSetId) -> impl Display + '_ {
        self.0.display_version_set(version_set)
    }

    fn display_string(&self, string_id: StringId) -> impl Display + '_ {
        self.0.display_string(string_id)
    }

    fn version_set_name(&self, version_set: VersionSetId) -> NameId {
        self.0.version_set_name(version_set)
    }

    fn solvable_name(&self, solvable: SolvableId) -> NameId {
        self.0.solvable_name(solvable)
    }

    fn version_sets_in_union(
        &self,
        version_set_union: VersionSetUnionId,
    ) -> impl Iterator<Item = VersionSetId> {
        self.0.version_sets_in_union(version_set_union)
    }
}

impl<'a, 's> DependencyProvider for Cancelling<'a, 's> {
    async fn filter_candidates(
        &self,
        candidates: &[SolvableId],
        version_set: VersionSetId,
        inverse: bool,
    ) -> Vec<SolvableId> {
        self.0.filter_candidates(candidates, version_set, inverse).await
    }

    async fn get_candidates(&self, name: NameId) -> Option<Candidates> {
        self.0.get_candidates(name).await
    }

    async fn sort_candidates(&self, _solver: &SolverCache<Self>, solvables: &mut [SolvableId]) {
        self.0 .0.sort_candidates(solvables)
    }

    async fn get_dependencies(&self, solvable: SolvableId) -> Dependencies {
        self.0.get_dependencies(solvable).await
    }

    fn should_cancel_with_value(&self) -> Option<Box<dyn std::any::Any>> {
        Some(Box::new("told to stop".to_string()))
    }
}

fn cancelled_search(provider: &DebProvider, problem: Problem) -> Outcome {
    let mut solver = Solver::new(Cancelling(Kernel(provider)));
    match solver.solve(problem) {
        Ok(solvables) => Outcome::Solved(solvables),
        Err(UnsolvableOrCancelled::Unsolvable(conflict)) => {
            Outcome::Unsolvable(conflict.display_user_friendly(&solver).to_string())
        }
        Err(UnsolvableOrCancelled::Cancelled(reason)) => {
            Outcome::Cancelled(*reason.downcast().unwrap())
        }
    }
}

fn search(provider: &DebProvider, problem: Problem) -> Outcome {
    let mut solver = Solver::new(Kernel(provider));
    match solver.solve(problem) {
        Ok(solvables) => Outcome::Solved(solvables),
        Err(UnsolvableOrCancelled::Unsolvable(conflict)) => {
            Outcome::Unsolvable(conflict.display_user_friendly(&solver).to_string())
        }
        Err(UnsolvableOrCancelled::Cancelled(reason)) => {
            Outcome::Cancelled(*reason.downcast().unwrap())
        }
    }
}

enum ExpectedAction {
    Installed,
    Removed,
}

use ExpectedAction::{Installed, Removed};

struct TestPackage {
    package: Package,
    expected_action: Option<ExpectedAction>,
}

fn package(name: &str, version: &str) -> TestPackage {
    TestPackage {
        package: Package {
            package: name.into(),
            version: version.try_into().unwrap(),
            architecture: ARCH.into(),
            installed: Bool::default(),
            ..Default::default()
        },
        expected_action: None,
    }
}

impl TestPackage {
    fn installed(mut self) -> Self {
        self.package.installed = true.into();
        self
    }

    fn deps(mut self, deps: &[&str]) -> Self {
        self.package.depends = deps.iter().map(|dep| (*dep).try_into().unwrap()).collect();
        self
    }

    fn conflicts(mut self, conflicts: &[&str]) -> Self {
        self.package.conflicts = conflicts
            .iter()
            .map(|conflict| (*conflict).try_into().unwrap())
            .collect();
        self
    }

    fn must(mut self, expected_action: ExpectedAction) -> Self {
        self.expected_action = Some(expected_action);
        self
    }

    fn expected_action(&self) -> Option<Action> {
        self.expected_action
            .as_ref()
            .map(|expected_action| match expected_action {
                ExpectedAction::Installed => self.package.to_install().into(),
                ExpectedAction::Removed => self.package.to_remove().into(),
            })
    }
}

struct TestScenario {
    scenario: Scenario,
    expected_actions: Vec<Action>,
}

fn action_id_key(action: &Action) -> &str {
    match action {
        Action::Install(install) => &install.install,
        Action::Remove(remove) => &remove.remove,
        Action::Autoremove(autoremove) => &autoremove.autoremove,
    }
}

fn action_id_cmp(x: &Action, y: &Action) -> std::cmp::Ordering {
    action_id_key(x).cmp(action_id_key(y))
}

impl TestScenario {
    fn with_arch(architecture: &str) -> Self {
        Self {
            scenario: Scenario {
                request: Request {
                    request: "EDSP 0.5".into(),
                    architecture: architecture.into(),
                    ..Default::default()
                },
                universe: Default::default(),
            },
            expected_actions: Default::default(),
        }
    }

    fn new() -> Self {
        Self::with_arch(ARCH)
    }

    fn install(mut self, s: impl Into<String>) -> Self {
        self.scenario.request.actions.install = Some(s.into());
        self
    }

    fn remove(mut self, s: impl Into<String>) -> Self {
        self.scenario.request.actions.remove = Some(s.into());
        self
    }

    fn packages(mut self, packages: impl IntoIterator<Item = TestPackage>) -> Self {
        for mut test_package in packages {
            test_package.package.id = self.scenario.universe.len().to_string();
            self.expected_actions.extend(test_package.expected_action());
            self.scenario.universe.push(test_package.package);
        }

        self
    }

    fn answer(&self) -> Answer {
        assert!(is_acceptable(&self.scenario));
        solve(&self.scenario, search)
    }

    /// Holds the answer against the scenario: afterwards every package to
    /// install is installed in one version, no package to remove is
    /// installed, and every dependency and conflict of what is installed is
    /// honoured.
    fn check_consistency(&self) {
        let actions = match self.answer() {
            Answer::Solution(actions) => actions,
            Answer::Error(error) => panic!("{error:?}"),
        };
        let universe = &self.scenario.universe;
        let mut present: Vec<bool> = universe.iter().map(|p| p.installed.0).collect();
        for action in &actions {
            match action {
                Action::Install(install) => {
                    let index: usize = install.install.parse().unwrap();
                    assert!(!present[index]);
                    for (other, package) in universe.iter().enumerate() {
                        if package.package == universe[index].package {
                            present[other] = false;
                        }
                    }
                    present[index] = true;
                }
                Action::Remove(remove) => {
                    let index: usize = remove.remove.parse().unwrap();
                    assert!(present[index]);
                    present[index] = false;
                }
                Action::Autoremove(_) => panic!("an autoremove"),
            }
        }
        let holds = |set: &apt_edsp::scenario::VersionSet| {
            universe.iter().enumerate().any(|(index, package)| {
                present[index]
                    && package.package == set.package
                    && match &set.constraint {
                        None => true,
                        Some((relation, bound)) => {
                            let order = package.version.cmp(bound);
                            match relation {
                                apt_edsp::scenario::Relation::Earlier => order.is_lt(),
                                apt_edsp::scenario::Relation::EarlierEqual => order.is_le(),
                                apt_edsp::scenario::Relation::Equal => order.is_eq(),
                                apt_edsp::scenario::Relation::LaterEqual => order.is_ge(),
                                apt_edsp::scenario::Relation::Later => order.is_gt(),
                            }
                        }
                    }
            })
        };
        let actions = &self.scenario.request.actions;
        for token in actions.install.as_deref().unwrap_or("").split_ascii_whitespace() {
            let count = universe
                .iter()
                .enumerate()
                .filter(|(index, package)| present[*index] && package.package == token)
                .count();
            assert_eq!(count, 1, "{token} is to install");
        }
        for token in actions.remove.as_deref().unwrap_or("").split_ascii_whitespace() {
            assert!(
                !universe
                    .iter()
                    .enumerate()
                    .any(|(index, package)| present[index] && package.package == token),
                "{token} is to remove"
            );
        }
        for (index, package) in universe.iter().enumerate() {
            if !present[index] {
                continue;
            }
            for dependency in &package.depends {
                assert!(
                    holds(&dependency.first) || dependency.alternates.iter().any(|set| holds(set)),
                    "{} depends on {}",
                    package.package,
                    dependency
                );
            }
            for conflict in &package.conflicts {
                assert!(!holds(conflict), "{} conflicts with {}", package.package, conflict);
            }
        }
    }

    fn check_solution(mut self) {
        self.check_consistency();

        let mut answer = self.answer();

        if let Answer::Solution(ref mut actions) = answer {
            actions.sort_unstable_by(action_id_cmp);
        }

        self.expected_actions.sort_unstable_by(action_id_cmp);

        assert_eq!(Answer::Solution(self.expected_actions), answer);
    }
}

#[test]
fn simple() {
    TestScenario::new()
        .install("baz")
        .packages([
            package("foo", "1").must(Installed),
            package("foo", "2"),
            package("foo", "3"),
            package("bar", "0").conflicts(&["foo (>= 2)"]).must(Installed),
            package("baz", "0").deps(&["foo", "bar"]).must(Installed),
        ])
        .check_solution();
}

#[test]
fn request_conflicts_with_installed() {
    TestScenario::new()
        .install("bar")
        .packages([
            package("foo", "0").conflicts(&["qux"]),
            package("foo", "1"),
            package("foo", "2").conflicts(&["qux"]),
            package("foo", "3").installed().must(Removed),
            package("bar", "0").conflicts(&["foo (>= 2)"]).must(Installed),
            package("qux", "0").installed(),
        ])
        .check_solution();
}

#[test]
fn installed_conflicts_with_request() {
    TestScenario::new()
        .install("bar")
        .packages([
            package("foo", "0").conflicts(&["bar"]),
            package("foo", "1"),
            package("foo", "2").conflicts(&["bar"]),
            package("foo", "3").installed().conflicts(&["bar"]).must(Removed),
            package("bar", "0").must(Installed),
            package("qux", "0").installed(),
        ])
        .check_solution();
}

#[test]
fn old_dependency_installed() {
    TestScenario::new()
        .install("bar")
        .packages([
            package("foo", "1"),
            package("foo", "2").installed(),
            package("foo", "3"),
            package("bar", "0").deps(&["foo"]).must(Installed),
        ])
        .check_solution();
}

#[test]
fn installed_depends_on_older_version() {
    TestScenario::new()
        .install("baz")
        .packages([
            package("foo", "1").installed(),
            package("foo", "2").must(Installed),
            package("bar", "0").installed().deps(&["foo (= 1)"]).must(Removed),
            package("baz", "0").deps(&["foo (= 2)"]).must(Installed),
        ])
        .check_solution();
}

#[test]
fn dependency_needs_upgrade() {
    TestScenario::new()
        .install("bar")
        .packages([
            package("foo", "1"),
            package("foo", "2").installed(),
            package("foo", "3").must(Installed),
            package("bar", "0").deps(&["foo (>> 2)"]).must(Installed),
        ])
        .check_solution();
}

#[test]
fn remove() {
    TestScenario::new()
        .remove("foo")
        .packages([
            package("qux", "0").installed().deps(&["baz"]).must(Removed),
            package("baz", "0").installed().deps(&["foo", "bar"]).must(Removed),
            package("bar", "0").installed().deps(&["foo (>= 2)"]).must(Removed),
            package("foo", "1"),
            package("foo", "2").installed().must(Removed),
            package("foo", "3"),
            package("quux", "0").installed(),
        ])
        .check_solution();
}

#[test]
fn alternates_are_a_choice() {
    TestScenario::new()
        .install("app")
        .packages([
            package("app", "1").deps(&["old-lib (>= 2) | new-lib | other"]).must(Installed),
            package("old-lib", "1"),
            package("new-lib", "1").must(Installed),
            package("other", "1"),
        ])
        .check_solution();
}

#[test]
fn an_alternate_that_is_installed_stays() {
    let given = TestScenario::new().install("app").packages([
        package("app", "1").deps(&["first | second"]),
        package("first", "1"),
        package("second", "1").installed(),
    ]);
    given.check_consistency();
    let actions = match given.answer() {
        Answer::Solution(actions) => actions,
        Answer::Error(error) => panic!("{error:?}"),
    };
    assert!(actions.iter().all(|action| matches!(action, Action::Install(_))));
    assert!(actions.iter().any(|action| action_id_key(action) == "0"));
}

#[test]
fn several_packages_to_install() {
    TestScenario::new()
        .install(" foo\tbar ")
        .packages([
            package("foo", "1"),
            package("foo", "2").must(Installed),
            package("bar", "1").must(Installed),
            package("baz", "1"),
        ])
        .check_solution();
}

#[test]
fn install_and_remove_at_once() {
    TestScenario::new()
        .install("new")
        .remove("old other")
        .packages([
            package("old", "1").installed().must(Removed),
            package("new", "1").must(Installed),
            package("other", "1"),
            package("kept", "1").installed(),
        ])
        .check_solution();
}

#[test]
fn removing_what_is_not_there_changes_nothing() {
    TestScenario::new()
        .remove("nosuch")
        .packages([package("foo", "1").installed(), package("bar", "1")])
        .check_solution();
}

#[test]
fn an_empty_request_changes_nothing() {
    TestScenario::new()
        .packages([package("foo", "1").installed(), package("foo", "2")])
        .check_solution();
}

#[test]
fn an_empty_universe_and_request_have_an_empty_solution() {
    assert_eq!(TestScenario::new().answer(), Answer::Solution(vec![]));
}

#[test]
fn two_packages_of_one_name_and_version_are_two_solvables() {
    let given = TestScenario::new().install("foo").packages([
        package("foo", "1"),
        package("foo", "1"),
        package("bar", "1"),
    ]);
    let actions = match given.answer() {
        Answer::Solution(actions) => actions,
        Answer::Error(error) => panic!("{error:?}"),
    };
    assert_eq!(actions.len(), 1);
    assert_eq!(action_id_key(&actions[0]), "0");
}

fn error_of(answer: Answer) -> apt_edsp::answer::Error {
    match answer {
        Answer::Error(error) => error,
        Answer::Solution(actions) => panic!("{actions:?}"),
    }
}

#[test]
fn a_package_that_does_not_exist_cannot_be_installed() {
    let given = TestScenario::new()
        .install("nosuch")
        .packages([package("foo", "1")]);
    let error = error_of(given.answer());
    assert_eq!(error.error, "resolvo-apt-solver-unsolvable");
    assert!(error.message.contains("nosuch"), "{}", error.message);
}

#[test]
fn a_missing_dependency_is_unsolvable() {
    let given = TestScenario::new()
        .install("app")
        .packages([package("app", "1").deps(&["lib (>= 2)"]), package("lib", "1")]);
    let error = error_of(given.answer());
    assert_eq!(error.error, "resolvo-apt-solver-unsolvable");
    assert!(error.message.contains("app"), "{}", error.message);
    assert!(error.message.contains("lib >=2"), "{}", error.message);
}

#[test]
fn a_cancelled_search_is_an_error() {
    let given = TestScenario::new()
        .install("foo")
        .packages([package("foo", "1")]);
    assert!(is_acceptable(&given.scenario));
    let error = error_of(solve(&given.scenario, cancelled_search));
    assert_eq!(error.error, "resolvo-apt-solver-cancelled");
    assert_eq!(error.message, "told to stop");
}

#[test]
fn a_chain_of_dependencies_is_followed() {
    let count = 200;
    let mut packages = Vec::new();
    for i in 0..count {
        for version in ["1", "2", "3"] {
            let name = format!("p{i}");
            let mut this = package(&name, version);
            if i + 1 < count {
                let next = format!("p{} (>= 2)", i + 1);
                this = this.deps(&[next.as_str()]);
            }
            if version == "3" && i > 0 {
                this = this.must(Installed);
            }
            packages.push(this);
        }
    }
    // the first package is asked for by name and may not be the newest
    let first = format!("p0 (= 3)");
    packages.push(package("top", "1").deps(&[first.as_str()]).must(Installed));
    packages[2].expected_action = Some(Installed);
    TestScenario::new().install("top").packages(packages).check_solution();
}

#[test]
fn names_and_versions_outside_ascii() {
    TestScenario::new()
        .install("größe")
        .packages([
            package("größe", "1.0~β1"),
            package("größe", "1.0").deps(&["日本語 (>= 2:0.1)"]).must(Installed),
            package("日本語", "1:9"),
            package("日本語", "2:0.1-ü").must(Installed),
        ])
        .check_solution();
}

#[test]
fn try_solve_answers_what_solve_answers() {
    let given = TestScenario::new().install("bar").packages([
        package("foo", "1"),
        package("foo", "2").installed(),
        package("bar", "0").deps(&["foo (>> 2)"]),
        package("foo", "3"),
    ]);
    let answer = try_solve(&given.scenario, search);
    assert_eq!(answer, Some(solve(&given.scenario, search)));
    let universe = &given.scenario.universe;
    assert_eq!(
        answer,
        Some(Answer::Solution(vec![
            Action::Install(universe[2].to_install()),
            Action::Install(universe[3].to_install()),
        ]))
    );
}

#[test]
fn try_solve_gives_no_answer_where_a_version_cannot_be_compared() {
    let long = "9".repeat(39);
    let given = TestScenario::new()
        .install("foo")
        .packages([package("foo", "1"), package("bar", &long)]);
    assert!(!is_acceptable(&given.scenario));
    assert_eq!(try_solve(&given.scenario, search), None);

    let relationship = format!("foo (<< {long})");
    let given = TestScenario::new()
        .install("foo")
        .packages([package("foo", "1"), package("bar", "1").conflicts(&[relationship.as_str()])]);
    assert_eq!(try_solve(&given.scenario, search), None);
}
