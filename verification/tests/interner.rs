//! The interning pool behind its counts.

use apt_edsp::scenario::Version;
use resolvo::utils::Range;
use resolvo::{NameId, SolvableId, StringId, VersionSetId, VersionSetUnionId};
use resolvo_apt_solver::interner::Interner;

fn version(text: &str) -> Version {
    text.try_into().unwrap()
}

#[test]
fn a_new_interner_knows_nothing() {
    let interner = Interner::new();
    assert!(!interner.has_name(NameId(0)));
    assert!(!interner.has_solvable(SolvableId(0)));
    assert!(!interner.has_version_set(VersionSetId(0)));
    assert!(!interner.has_string(StringId(0)));
    assert!(!interner.has_union(VersionSetUnionId(0)));
}

#[test]
fn names_are_numbered_in_order() {
    let mut interner = Interner::new();
    assert_eq!(interner.intern_package_name("foo"), NameId(0));
    assert_eq!(interner.intern_package_name("bar"), NameId(1));
    assert_eq!(interner.intern_package_name("baz"), NameId(2));
    assert!(interner.has_name(NameId(2)));
    assert!(!interner.has_name(NameId(3)));
}

#[test]
fn a_name_interned_again_keeps_its_id() {
    let mut interner = Interner::new();
    let foo = interner.intern_package_name("foo");
    let bar = interner.intern_package_name("bar");
    assert_ne!(foo, bar);
    assert_eq!(interner.intern_package_name("foo"), foo);
    assert_eq!(interner.intern_package_name("bar"), bar);
    let other = String::from("foo");
    assert_eq!(interner.intern_package_name(&other), foo);
    assert!(!interner.has_name(NameId(2)));
}

#[test]
fn names_resolve_to_what_was_interned() {
    let mut interner = Interner::new();
    let foo = interner.intern_package_name("foo");
    let bar = interner.intern_package_name("bar");
    assert_eq!(interner.resolve_package_name(foo), "foo");
    assert_eq!(interner.resolve_package_name(bar), "bar");
}

#[test]
fn strings_are_interned_once() {
    let mut interner = Interner::new();
    let one = interner.intern_string("Unknown package");
    let two = interner.intern_string("something else");
    assert_eq!(one, StringId(0));
    assert_eq!(two, StringId(1));
    assert_eq!(interner.intern_string("Unknown package"), one);
    assert_eq!(interner.resolve_string(one), "Unknown package");
    assert_eq!(interner.resolve_string(two), "something else");
    assert!(interner.has_string(two));
    assert!(!interner.has_string(StringId(2)));
}

#[test]
fn every_solvable_is_new() {
    let one = version("1.0");
    let mut interner = Interner::new();
    let foo = interner.intern_package_name("foo");
    let first = interner.intern_solvable(foo, &one);
    let second = interner.intern_solvable(foo, &one);
    assert_eq!(first, SolvableId(0));
    assert_eq!(second, SolvableId(1));
    assert!(interner.has_solvable(second));
    assert!(!interner.has_solvable(SolvableId(2)));
}

#[test]
fn solvables_resolve_to_name_and_version() {
    let one = version("1.0");
    let two = version("2.0-1");
    let mut interner = Interner::new();
    let foo = interner.intern_package_name("foo");
    let bar = interner.intern_package_name("bar");
    let a = interner.intern_solvable(foo, &one);
    let b = interner.intern_solvable(bar, &two);
    let (name, found) = interner.resolve_solvable(a);
    assert_eq!(name, foo);
    assert_eq!(found.as_str(), "1.0");
    let (name, found) = interner.resolve_solvable(b);
    assert_eq!(name, bar);
    assert_eq!(found.as_str(), "2.0-1");
}

#[test]
fn a_version_set_interned_again_keeps_its_id() {
    let two = version("2");
    let mut interner = Interner::new();
    let foo = interner.intern_package_name("foo");
    let bar = interner.intern_package_name("bar");
    let a = interner.intern_version_set(foo, Range::higher_than(&two));
    let b = interner.intern_version_set(foo, Range::full());
    let c = interner.intern_version_set(bar, Range::higher_than(&two));
    assert_eq!(a, VersionSetId(0));
    assert_eq!(b, VersionSetId(1));
    assert_eq!(c, VersionSetId(2));
    assert_eq!(interner.intern_version_set(foo, Range::higher_than(&two)), a);
    assert_eq!(interner.intern_version_set(foo, Range::full()), b);
    assert_eq!(interner.intern_version_set(bar, Range::higher_than(&two)), c);
    assert!(interner.has_version_set(c));
    assert!(!interner.has_version_set(VersionSetId(3)));
}

#[test]
fn equal_ranges_of_equal_versions_are_one_version_set() {
    // the same version number, written with and without its epoch
    let plain = version("1.0");
    let with_epoch = version("0:1.0");
    let mut interner = Interner::new();
    let foo = interner.intern_package_name("foo");
    let a = interner.intern_version_set(foo, Range::singleton(&plain));
    let b = interner.intern_version_set(foo, Range::singleton(&with_epoch));
    assert_eq!(a, b);
    assert!(!interner.has_version_set(VersionSetId(1)));
}

#[test]
fn version_sets_resolve_to_name_and_range() {
    let two = version("2");
    let mut interner = Interner::new();
    let foo = interner.intern_package_name("foo");
    let bar = interner.intern_package_name("bar");
    let a = interner.intern_version_set(foo, Range::strictly_lower_than(&two));
    let b = interner.intern_version_set(bar, Range::empty());
    assert_eq!(interner.resolve_version_set_package_name(a), foo);
    assert_eq!(interner.resolve_version_set_package_name(b), bar);
    assert_eq!(
        interner.resolve_version_set(a),
        &Range::strictly_lower_than(&two)
    );
    assert_eq!(interner.resolve_version_set(b), &Range::empty());
}

#[test]
fn every_union_is_new_and_keeps_its_order() {
    let mut interner = Interner::new();
    let foo = interner.intern_package_name("foo");
    let bar = interner.intern_package_name("bar");
    let baz = interner.intern_package_name("baz");
    let a = interner.intern_version_set(foo, Range::full());
    let b = interner.intern_version_set(bar, Range::full());
    let c = interner.intern_version_set(baz, Range::full());
    let first = interner.intern_version_set_union(c, vec![a, b]);
    let second = interner.intern_version_set_union(c, vec![a, b]);
    let third = interner.intern_version_set_union(b, vec![]);
    assert_eq!(first, VersionSetUnionId(0));
    assert_eq!(second, VersionSetUnionId(1));
    assert_eq!(third, VersionSetUnionId(2));
    assert_eq!(interner.resolve_version_set_union(first), vec![c, a, b]);
    assert_eq!(interner.resolve_version_set_union(second), vec![c, a, b]);
    assert_eq!(interner.resolve_version_set_union(third), vec![b]);
    assert!(interner.has_union(third));
    assert!(!interner.has_union(VersionSetUnionId(3)));
}

#[test]
fn interning_one_kind_leaves_the_others() {
    let one = version("1");
    let mut interner = Interner::new();
    let foo = interner.intern_package_name("foo");
    let solvable = interner.intern_solvable(foo, &one);
    let set = interner.intern_version_set(foo, Range::full());
    let text = interner.intern_string("why");
    let union = interner.intern_version_set_union(set, vec![set]);
    interner.intern_package_name("bar");
    interner.intern_string("because");
    assert_eq!(interner.resolve_package_name(foo), "foo");
    assert_eq!(interner.resolve_solvable(solvable).1.as_str(), "1");
    assert_eq!(interner.resolve_version_set(set), &Range::full());
    assert_eq!(interner.resolve_string(text), "why");
    assert_eq!(interner.resolve_version_set_union(union), vec![set, set]);
    assert!(!interner.has_solvable(SolvableId(1)));
    assert!(!interner.has_version_set(VersionSetId(1)));
    assert!(!interner.has_union(VersionSetUnionId(1)));
}
