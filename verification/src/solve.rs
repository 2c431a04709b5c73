//! One resolution from end to end: load the scenario, pose the problem, let
//! the solver search, answer.

use apt_edsp::answer::Answer;
use apt_edsp::scenario::Scenario;
use resolvo::Problem;
use vstd::prelude::*;

use crate::answer::Outcome;
use crate::provider::DebProvider;
use crate::request::{
    field_text, installed_solvables, lemma_installed_known, poses, request_tokens, split_tokens,
    tokens,
};
use crate::scenario::{load_size, loadable, universe_relationships};

verus! {

/// Whether a scenario can be solved: a provider can load it, and after that
/// the pool still has room for the names in its request.
pub open spec fn acceptable(scenario: Scenario) -> bool {
    &&& loadable(scenario)
    &&& scenario.universe@.len() + universe_relationships(
        scenario.universe@,
        scenario.universe@.len() as int,
    ) + request_tokens(scenario.request) < u32::MAX
}

/// Whether a scenario can be solved.
pub fn is_acceptable(scenario: &Scenario) -> (ok: bool)
    ensures
        ok == acceptable(*scenario),
{
    let size = match load_size(scenario) {
        Some(size) => size,
        None => {
            return false;
        },
    };
    let install = match &scenario.request.actions.install {
        Some(text) => split_tokens(text.as_str()).len(),
        None => 0,
    };
    let remove = match &scenario.request.actions.remove {
        Some(text) => split_tokens(text.as_str()).len(),
        None => 0,
    };
    proof {
        assert(install == tokens(field_text(scenario.request.actions.install)).len());
        assert(remove == tokens(field_text(scenario.request.actions.remove)).len());
    }
    let room = (u32::MAX - size) as usize;
    install < room && remove < room - install
}

/// Solves a scenario with the given solver kernel. The scenario is loaded
/// into a provider and its request posed as a problem; the kernel searches,
/// asking the provider as it goes; what the kernel found is answered. The
/// kernel is any solver that can be given a provider and a problem; the
/// solvables of a solution it returns have to be solvables of the provider.
pub fn solve<'s, K>(scenario: &'s Scenario, kernel: K) -> (answer: Answer) where
    K: FnOnce(&DebProvider<'s>, Problem) -> Outcome,

    requires
        acceptable(*scenario),
        forall|provider: &DebProvider<'s>, problem: Problem|
            provider.wf() && provider.universe() == scenario.universe@ && poses(
                *provider,
                scenario.request,
                problem,
            ) ==> #[trigger] kernel.requires((provider, problem)),
        forall|provider: &DebProvider<'s>, problem: Problem, outcome: Outcome| #[trigger]
            kernel.ensures((provider, problem), outcome) ==> (outcome matches Outcome::Solved(
                chosen,
            ) ==> provider.knows_all(chosen@)),
    ensures
        solved_by(*scenario, kernel, answer),
{
    let mut provider = DebProvider::new(scenario);
    let problem = provider.problem(&scenario.request);
    let was_installed = provider.installed_packages();
    let ghost posed = problem;
    let outcome = kernel(&provider, problem);
    let ghost found = outcome;
    proof {
        lemma_installed_known(provider.universe(), provider.universe().len() as int);
    }
    let answer = provider.answer(&was_installed, outcome);
    proof {
        assert(kernel.ensures((&provider, posed), found));
    }
    answer
}

/// Whether the answer is one that solving the scenario with the kernel can
/// give: some provider loaded from the scenario, given the problem that the
/// request poses, let the kernel end in some outcome, and the answer is the
/// one to give for that outcome.
pub open spec fn solved_by<'s, K>(scenario: Scenario, kernel: K, answer: Answer) -> bool where
    K: FnOnce(&DebProvider<'s>, Problem) -> Outcome,
 {
    exists|provider: DebProvider<'s>, problem: Problem, outcome: Outcome|
        {
            &&& provider.wf()
            &&& provider.universe() == scenario.universe@
            &&& poses(provider, scenario.request, problem)
            &&& #[trigger] kernel.ensures((&provider, problem), outcome)
            &&& provider.answers(
                installed_solvables(scenario.universe@, scenario.universe@.len() as int),
                outcome,
                answer,
            )
        }
}

/// Solves a scenario with the given solver kernel, if the scenario can be
/// solved, and gives no answer if it cannot: if it is too large for the pool
/// or holds a version that cannot be compared.
pub fn try_solve<'s, K>(scenario: &'s Scenario, kernel: K) -> (answer: Option<Answer>) where
    K: FnOnce(&DebProvider<'s>, Problem) -> Outcome,

    requires
        forall|provider: &DebProvider<'s>, problem: Problem|
            provider.wf() && provider.universe() == scenario.universe@ && poses(
                *provider,
                scenario.request,
                problem,
            ) ==> #[trigger] kernel.requires((provider, problem)),
        forall|provider: &DebProvider<'s>, problem: Problem, outcome: Outcome| #[trigger]
            kernel.ensures((provider, problem), outcome) ==> (outcome matches Outcome::Solved(
                chosen,
            ) ==> provider.knows_all(chosen@)),
    ensures
        answer is Some <==> acceptable(*scenario),
        answer matches Some(given) ==> solved_by(*scenario, kernel, given),
{
    if is_acceptable(scenario) {
        Some(solve(scenario, kernel))
    } else {
        None
    }
}

} // verus!
