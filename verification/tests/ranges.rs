//! From the constraint of a relationship to a range of versions.

use apt_edsp::scenario::{Relation, Version};
use resolvo::utils::Range;
use resolvo_apt_solver::range::{constraint_to_excluded_set, constraint_to_version_set};

fn version(text: &str) -> Version {
    text.try_into().unwrap()
}

fn constraint(relation: Relation, text: &str) -> Option<(Relation, Version)> {
    Some((relation, version(text)))
}

const PROBES: [&str; 7] = ["0", "1.9", "2~rc1", "2", "2-1", "2.0", "1:0"];

fn held(range: &Range<&Version>) -> Vec<&'static str> {
    PROBES
        .iter()
        .copied()
        .filter(|text| range.contains(&&version(text)))
        .collect()
}

#[test]
fn no_constraint_is_the_full_range() {
    let range = constraint_to_version_set(&None);
    assert_eq!(range, Range::full());
    assert_eq!(held(&range), PROBES.to_vec());
}

#[test]
fn earlier_is_strictly_lower() {
    let given = constraint(Relation::Earlier, "2");
    let range = constraint_to_version_set(&given);
    assert_eq!(range, Range::strictly_lower_than(&version("2")));
    assert_eq!(held(&range), vec!["0", "1.9", "2~rc1"]);
}

#[test]
fn earlier_or_equal_is_lower() {
    let given = constraint(Relation::EarlierEqual, "2");
    let range = constraint_to_version_set(&given);
    assert_eq!(range, Range::lower_than(&version("2")));
    assert_eq!(held(&range), vec!["0", "1.9", "2~rc1", "2"]);
}

#[test]
fn equal_is_the_singleton() {
    let given = constraint(Relation::Equal, "2");
    let range = constraint_to_version_set(&given);
    assert_eq!(range, Range::singleton(&version("2")));
    assert_eq!(held(&range), vec!["2"]);
}

#[test]
fn later_or_equal_is_higher() {
    let given = constraint(Relation::LaterEqual, "2");
    let range = constraint_to_version_set(&given);
    assert_eq!(range, Range::higher_than(&version("2")));
    assert_eq!(held(&range), vec!["2", "2-1", "2.0", "1:0"]);
}

#[test]
fn later_is_strictly_higher() {
    let given = constraint(Relation::Later, "2");
    let range = constraint_to_version_set(&given);
    assert_eq!(range, Range::strictly_higher_than(&version("2")));
    assert_eq!(held(&range), vec!["2-1", "2.0", "1:0"]);
}

#[test]
fn the_excluded_set_of_no_constraint_is_empty() {
    let range = constraint_to_excluded_set(&None);
    assert_eq!(range, Range::empty());
    assert!(held(&range).is_empty());
}

#[test]
fn the_excluded_set_is_the_complement() {
    let relations = [
        Relation::Earlier,
        Relation::EarlierEqual,
        Relation::Equal,
        Relation::LaterEqual,
        Relation::Later,
    ];
    for relation in relations {
        for bound in PROBES {
            let given = constraint(relation, bound);
            let admitted = constraint_to_version_set(&given);
            let excluded = constraint_to_excluded_set(&given);
            assert_eq!(excluded, admitted.complement());
            for probe in PROBES {
                let probe = version(probe);
                assert!(
                    admitted.contains(&&probe) != excluded.contains(&&probe),
                    "{relation} {bound} and {probe}"
                );
            }
        }
    }
}

#[test]
fn the_excluded_set_of_an_equality_is_all_but_one() {
    let given = constraint(Relation::Equal, "2");
    let range = constraint_to_excluded_set(&given);
    assert_eq!(held(&range), vec!["0", "1.9", "2~rc1", "2-1", "2.0", "1:0"]);
    assert_eq!(range.to_string(), "<2, >2");
}
