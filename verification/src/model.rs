//! The data that the library shares with its two neighbours: the scenario and
//! the answer of the package manager's protocol, and the identifiers and
//! records of the solver kernel. The types are theirs; they are declared here
//! so that the verifier reads their fields.

use vstd::prelude::*;

verus! {

/// A yes or no of the protocol, with the value it has where it is left out.
#[verifier::external_type_specification]
pub struct ExBool<const D: bool>(apt_edsp::Bool<D>);

/// The comparator of a constraint: `<<`, `<=`, `=`, `>=` or `>>`.
#[verifier::external_type_specification]
pub struct ExRelation(apt_edsp::scenario::Relation);

/// What went wrong when the text of a relationship was read. Never looked
/// into here.
#[verifier::external_type_specification]
#[verifier::external_body]
pub struct ExVersionSetParseError(apt_edsp::scenario::VersionSetParseError);

/// What went wrong when the text of a dependency was read. Never looked into
/// here.
#[verifier::external_type_specification]
#[verifier::external_body]
pub struct ExDependencyParseError(apt_edsp::scenario::DependencyParseError);

/// A relationship: a package name and, optionally, a constraint on its
/// version.
#[verifier::external_type_specification]
pub struct ExVersionSet(apt_edsp::scenario::VersionSet);

/// A dependency: a first relationship and its alternates, any of which
/// meets it.
#[verifier::external_type_specification]
pub struct ExDependency(apt_edsp::scenario::Dependency);

/// A package of the universe.
#[verifier::external_type_specification]
pub struct ExPackage(apt_edsp::scenario::Package);

/// What a request asks to be done.
#[verifier::external_type_specification]
pub struct ExActions(apt_edsp::scenario::Actions);

/// How a request would like it done. Never looked into here.
#[verifier::external_type_specification]
#[verifier::external_body]
pub struct ExPreferences(apt_edsp::scenario::Preferences);

/// The request of a scenario.
#[verifier::external_type_specification]
pub struct ExRequest(apt_edsp::scenario::Request);

/// A scenario: a request and the universe of packages.
#[verifier::external_type_specification]
pub struct ExScenario(apt_edsp::scenario::Scenario);

/// The action that installs a package.
#[verifier::external_type_specification]
pub struct ExInstall(apt_edsp::answer::Install);

/// The action that removes a package.
#[verifier::external_type_specification]
pub struct ExRemove(apt_edsp::answer::Remove);

/// The action that marks a package as no longer needed. Never made here.
#[verifier::external_type_specification]
#[verifier::external_body]
pub struct ExAutoremove(apt_edsp::answer::Autoremove);

/// The error of an answer: its kind and a message.
#[verifier::external_type_specification]
pub struct ExError(apt_edsp::answer::Error);

/// One action of a solution.
#[verifier::external_type_specification]
pub struct ExAction(apt_edsp::answer::Action);

/// The answer to a scenario: a solution or an error.
#[verifier::external_type_specification]
pub struct ExAnswer(apt_edsp::answer::Answer);

/// The identifier of a package name.
#[verifier::external_type_specification]
pub struct ExNameId(resolvo::NameId);

/// The identifier of a solvable.
#[verifier::external_type_specification]
pub struct ExSolvableId(resolvo::SolvableId);

/// The identifier of a string.
#[verifier::external_type_specification]
pub struct ExStringId(resolvo::StringId);

/// The identifier of a version set.
#[verifier::external_type_specification]
pub struct ExVersionSetId(resolvo::VersionSetId);

/// The identifier of a union of version sets.
#[verifier::external_type_specification]
pub struct ExVersionSetUnionId(resolvo::VersionSetUnionId);

/// A requirement: a version set, or a union of version sets.
#[verifier::external_type_specification]
pub struct ExRequirement(resolvo::Requirement);

/// The dependencies of a solvable: its requirements and its constraints.
#[verifier::external_type_specification]
pub struct ExKnownDependencies(resolvo::KnownDependencies);

/// The dependencies of a solvable, or the reason why they are not known.
#[verifier::external_type_specification]
pub struct ExDependencies(resolvo::Dependencies);

/// The candidates of a name, with the hints that go with them.
#[verifier::external_type_specification]
pub struct ExCandidates(resolvo::Candidates);

/// The problem that the solver is given.
#[verifier::external_type_specification]
pub struct ExProblem(resolvo::Problem);

} // verus!
