//! What holds of every provider, tried on particular ones.

use std::cmp::Ordering;
use std::collections::HashSet;

use apt_edsp::answer::{Action, Answer};
use apt_edsp::scenario::{Package, Request, Scenario};
use resolvo::{Dependencies, KnownDependencies, Requirement, SolvableId, VersionSetId};
use resolvo_apt_solver::answer::Outcome;
use resolvo_apt_solver::provider::DebProvider;

const VERSIONS: [&str; 9] = ["0", "1", "1.0~rc1", "1.0", "1.0-1", "2", "2+b1", "1:0.5", "10"];

const RELATIONSHIPS: [&str; 9] = [
    "foo",
    "foo (<< 1.0)",
    "foo (<= 1.0)",
    "foo (= 1.0)",
    "foo (>= 1.0)",
    "foo (>> 1.0)",
    "foo (= 5)",
    "foo (<< 0)",
    "foo (>= 1:0)",
];

fn package(name: &str, version: &str) -> Package {
    Package {
        package: name.into(),
        version: version.try_into().unwrap(),
        architecture: "amd64".into(),
        ..Default::default()
    }
}

/// foo in every version of `VERSIONS`, then bar, which both depends on and
/// conflicts with every relationship of `RELATIONSHIPS`.
fn sample() -> Scenario {
    let mut universe: Vec<Package> = VERSIONS.iter().map(|v| package("foo", v)).collect();
    let mut bar = package("bar", "1");
    bar.depends = RELATIONSHIPS.iter().map(|r| (*r).try_into().unwrap()).collect();
    bar.conflicts = RELATIONSHIPS.iter().map(|r| (*r).try_into().unwrap()).collect();
    universe.push(bar);
    for (i, package) in universe.iter_mut().enumerate() {
        package.id = i.to_string();
    }
    Scenario {
        request: Request::default(),
        universe,
    }
}

fn foos() -> Vec<SolvableId> {
    (0..VERSIONS.len() as u32).map(SolvableId).collect()
}

fn known(provider: &DebProvider, solvable: u32) -> KnownDependencies {
    match provider.get_dependencies(SolvableId(solvable)) {
        Dependencies::Known(known) => known,
        Dependencies::Unknown(_) => panic!("dependencies of {solvable} are unknown"),
    }
}

fn single(requirement: Requirement) -> VersionSetId {
    match requirement {
        Requirement::Single(id) => id,
        Requirement::Union(_) => panic!("a union"),
    }
}

#[test]
fn a_range_and_its_complement_split_the_versions() {
    let scenario = sample();
    let provider = DebProvider::new(&scenario);
    let known = known(&provider, VERSIONS.len() as u32);
    for i in 0..RELATIONSHIPS.len() {
        let range = single(known.requirements[i]);
        let complement = known.constrains[i];
        for solvable in foos() {
            let held = provider.filter_candidates(&[solvable], range, false).len() == 1;
            let left = provider.filter_candidates(&[solvable], complement, false).len() == 1;
            assert!(held != left, "{} and {:?}", RELATIONSHIPS[i], solvable);
        }
    }
}

#[test]
fn a_range_holds_what_its_relation_says() {
    let scenario = sample();
    let provider = DebProvider::new(&scenario);
    let known = known(&provider, VERSIONS.len() as u32);
    for (i, relationship) in RELATIONSHIPS.iter().enumerate() {
        let set: apt_edsp::scenario::VersionSet = (*relationship).try_into().unwrap();
        let expected: Vec<SolvableId> = foos()
            .into_iter()
            .filter(|solvable| {
                let version = &scenario.universe[solvable.0 as usize].version;
                match &set.constraint {
                    None => true,
                    Some((relation, bound)) => {
                        let order = version.cmp(bound);
                        match relation {
                            apt_edsp::scenario::Relation::Earlier => order == Ordering::Less,
                            apt_edsp::scenario::Relation::EarlierEqual => order != Ordering::Greater,
                            apt_edsp::scenario::Relation::Equal => order == Ordering::Equal,
                            apt_edsp::scenario::Relation::LaterEqual => order != Ordering::Less,
                            apt_edsp::scenario::Relation::Later => order == Ordering::Greater,
                        }
                    }
                }
            })
            .collect();
        let range = single(known.requirements[i]);
        assert_eq!(provider.filter_candidates(&foos(), range, false), expected, "{relationship}");
    }
}

#[test]
fn a_filter_and_its_inverse_split_the_candidates() {
    let scenario = sample();
    let provider = DebProvider::new(&scenario);
    let known = known(&provider, VERSIONS.len() as u32);
    let candidates = foos();
    let sets = known
        .requirements
        .iter()
        .map(|requirement| single(*requirement))
        .chain(known.constrains.iter().copied());
    for set in sets {
        let kept = provider.filter_candidates(&candidates, set, false);
        let left = provider.filter_candidates(&candidates, set, true);
        let kept_set: HashSet<SolvableId> = kept.iter().copied().collect();
        let left_set: HashSet<SolvableId> = left.iter().copied().collect();
        let all: HashSet<SolvableId> = candidates.iter().copied().collect();
        assert!(kept_set.is_disjoint(&left_set));
        assert_eq!(kept_set.union(&left_set).copied().collect::<HashSet<_>>(), all);
        assert_eq!(kept.len() + left.len(), candidates.len());
        // each keeps the order of the candidates
        let in_order: Vec<SolvableId> =
            candidates.iter().copied().filter(|s| kept_set.contains(s)).collect();
        assert_eq!(kept, in_order);
        let in_order: Vec<SolvableId> =
            candidates.iter().copied().filter(|s| left_set.contains(s)).collect();
        assert_eq!(left, in_order);
    }
}

#[test]
fn sorted_candidates_never_rise() {
    let scenario = sample();
    let provider = DebProvider::new(&scenario);
    let orders: [Vec<u32>; 4] = [
        vec![0, 1, 2, 3, 4, 5, 6, 7, 8],
        vec![8, 7, 6, 5, 4, 3, 2, 1, 0],
        vec![4, 0, 8, 2, 6, 1, 7, 3, 5],
        vec![3, 3, 1, 8, 1, 0],
    ];
    for order in orders {
        let given: Vec<SolvableId> = order.iter().map(|n| SolvableId(*n)).collect();
        let mut sorted = given.clone();
        provider.sort_candidates(&mut sorted);
        for pair in sorted.windows(2) {
            let first = &scenario.universe[pair[0].0 as usize].version;
            let second = &scenario.universe[pair[1].0 as usize].version;
            assert!(first.cmp(second) != Ordering::Less, "{first} before {second}");
        }
        let mut expected = given.clone();
        expected.sort();
        let mut found = sorted.clone();
        found.sort();
        assert_eq!(found, expected);
    }
}

#[test]
fn installs_and_removes_name_different_packages() {
    let mut universe = vec![
        package("a", "1"),
        package("a", "2"),
        package("b", "1"),
        package("c", "1"),
        package("d", "1"),
        package("d", "2"),
    ];
    for index in [0, 2, 3, 4] {
        universe[index].installed = true.into();
    }
    for (i, package) in universe.iter_mut().enumerate() {
        package.id = i.to_string();
    }
    let scenario = Scenario {
        request: Request::default(),
        universe,
    };
    let provider = DebProvider::new(&scenario);
    let was_installed = provider.installed_packages();
    let chosen = vec![SolvableId(1), SolvableId(3), SolvableId(5)];
    let actions = match provider.answer(&was_installed, Outcome::Solved(chosen.clone())) {
        Answer::Solution(actions) => actions,
        Answer::Error(error) => panic!("{error:?}"),
    };
    let mut installed_names = HashSet::new();
    let mut removed_names = HashSet::new();
    let chosen_names: HashSet<&str> = chosen
        .iter()
        .map(|s| scenario.universe[s.0 as usize].package.as_str())
        .collect();
    for action in &actions {
        match action {
            Action::Install(install) => {
                installed_names.insert(install.package.clone().unwrap());
            }
            Action::Remove(remove) => {
                let name = remove.package.clone().unwrap();
                let index: usize = remove.remove.parse().unwrap();
                assert!(scenario.universe[index].installed.0);
                assert!(!chosen_names.contains(name.as_str()));
                removed_names.insert(name);
            }
            Action::Autoremove(_) => panic!("an autoremove"),
        }
    }
    assert!(installed_names.is_disjoint(&removed_names));
    assert_eq!(installed_names, HashSet::from(["a".to_string(), "d".to_string()]));
    assert_eq!(removed_names, HashSet::from(["b".to_string()]));
}

#[test]
fn the_order_of_versions_turns_around_with_them() {
    let texts = [
        "", "0", "00", "1", "1.0", "1.0.0", "1.0-0", "1.0-1", "1.0-1~", "1.0-1+b1", "1.0~", "1.0~~",
        "1.0~~a", "1.0~rc1", "1.0~rc2", "1.0+b1", "1.0a", "1.0A", "1.0z", "1.0.", "1.0+", "1.0-",
        "1.00", "1.01", "1.1", "1.9", "1.10", "0:1.0", "1:0", "1:1.0", "2:0~", "10:1", "a", "A",
        "a1", "a01", "a1b", "a1b2", "~", "~~", "+", "-", ".", "1-1-1", "1:2:3", "1:2-3:4-5",
        "20240131", "340282366920938463463374607431768211455",
    ];
    let versions: Vec<apt_edsp::scenario::Version> =
        texts.iter().map(|text| (*text).try_into().unwrap()).collect();
    for a in &versions {
        assert_eq!(a.cmp(a), Ordering::Equal, "{a}");
        for b in &versions {
            assert_eq!(a.cmp(b), b.cmp(a).reverse(), "{a} and {b}");
        }
    }
}

#[test]
fn sorting_agrees_with_the_order_of_versions() {
    let texts = [
        "1.0~rc1", "1.0", "1.0-1", "1.0+b1", "1:0.1", "0.9", "1.0~~", "1.10", "1.9", "2", "1.0a",
        "1.0-1+b1", "1.0-1~",
    ];
    let mut universe: Vec<Package> = texts.iter().map(|text| package("foo", text)).collect();
    for (i, package) in universe.iter_mut().enumerate() {
        package.id = i.to_string();
    }
    let scenario = Scenario {
        request: Request::default(),
        universe,
    };
    let provider = DebProvider::new(&scenario);
    let mut sorted: Vec<SolvableId> = (0..texts.len() as u32).map(SolvableId).collect();
    provider.sort_candidates(&mut sorted);
    let mut expected: Vec<SolvableId> = (0..texts.len() as u32).map(SolvableId).collect();
    expected.sort_by(|a, b| {
        scenario.universe[b.0 as usize]
            .version
            .cmp(&scenario.universe[a.0 as usize].version)
    });
    assert_eq!(sorted, expected);
}
