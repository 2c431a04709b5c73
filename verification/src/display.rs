//! How the provider names what it holds: the texts the solver uses when it
//! explains why a request cannot be met, and the names behind identifiers.

use resolvo::{NameId, SolvableId, StringId, VersionSetId, VersionSetUnionId};
use vstd::prelude::*;
use vstd::string::*;

use crate::provider::DebProvider;
use crate::range::{range_text, range_to_string};
use crate::version::{version_str, version_text};

verus! {

impl<'s> DebProvider<'s> {
    /// The name of the package that a solvable belongs to, as text.
    pub open spec fn name_text_of(&self, solvable: SolvableId) -> Seq<char> {
        self.pool().names()[self.pool().solvables()[solvable.0 as int].0.0 as int]
    }

    /// The versions of the first `n` solvables, with `" | "` between them.
    pub open spec fn merged_versions(&self, solvables: Seq<SolvableId>, n: int) -> Seq<char>
        decreases n,
    {
        if n <= 1 {
            version_text(self.pool().solvables()[solvables[0].0 as int].1)
        } else {
            self.merged_versions(solvables, n - 1) + " | "@ + version_text(
                self.pool().solvables()[solvables[n - 1].0 as int].1,
            )
        }
    }

    /// The text for several solvables of one package: nothing for none, else
    /// the name of the first, a space, and the versions of all.
    pub open spec fn merged_text(&self, solvables: Seq<SolvableId>) -> Seq<char> {
        if solvables.len() == 0 {
            Seq::empty()
        } else {
            self.name_text_of(solvables[0]) + " "@ + self.merged_versions(
                solvables,
                solvables.len() as int,
            )
        }
    }

    /// The text for a solvable: name, `=`, version.
    pub fn display_solvable(&self, solvable: SolvableId) -> (text: String)
        requires
            self.wf(),
            self.pool().knows_solvable(solvable),
        ensures
            text@ == self.name_text_of(solvable) + "="@ + version_text(
                self.pool().solvables()[solvable.0 as int].1,
            ),
    {
        let (name, version) = self.interner().resolve_solvable(solvable);
        let mut text = String::from_str(self.display_name(name));
        text.append("=");
        text.append(version_str(version));
        text
    }

    /// The text for several solvables of one package: the name of the first
    /// and the versions of all, `name v0 | v1 | v2`. Nothing for none.
    pub fn display_merged_solvables(&self, solvables: &[SolvableId]) -> (text: String)
        requires
            self.wf(),
            forall|i: int|
                0 <= i < solvables@.len() ==> self.pool().knows_solvable(#[trigger] solvables@[i]),
        ensures
            text@ == self.merged_text(solvables@),
    {
        if solvables.len() == 0 {
            return String::new();
        }
        let (name, version) = self.interner().resolve_solvable(solvables[0]);
        let mut text = String::from_str(self.display_name(name));
        text.append(" ");
        text.append(version_str(version));
        let ghost head = self.name_text_of(solvables@[0]) + " "@;
        let mut i: usize = 1;
        while i < solvables.len()
            invariant
                self.wf(),
                forall|i: int|
                    0 <= i < solvables@.len() ==> self.pool().knows_solvable(
                        #[trigger] solvables@[i],
                    ),
                1 <= i <= solvables@.len(),
                head == self.name_text_of(solvables@[0]) + " "@,
                text@ == head + self.merged_versions(solvables@, i as int),
            decreases solvables@.len() - i,
        {
            let version = self.interner().resolve_solvable(solvables[i]).1;
            let ghost so_far = self.merged_versions(solvables@, i as int);
            text.append(" | ");
            text.append(version_str(version));
            proof {
                assert(text@ =~= head + (so_far + " | "@ + version_text(*version)));
            }
            i = i + 1;
        }
        text
    }

    /// The name behind a name id.
    pub fn display_name(&self, name: NameId) -> (text: &'s str)
        requires
            self.wf(),
            self.pool().knows_name(name),
        ensures
            text@ == self.pool().names()[name.0 as int],
    {
        self.interner().resolve_package_name(name)
    }

    /// The text for a version set: its range, as the range prints itself.
    pub fn display_version_set(&self, version_set: VersionSetId) -> (text: String)
        requires
            self.wf(),
            self.pool().knows_version_set(version_set),
        ensures
            text@ == range_text(self.pool().version_sets()[version_set.0 as int].1),
    {
        range_to_string(self.interner().resolve_version_set(version_set))
    }

    /// The string behind a string id.
    pub fn display_string(&self, string: StringId) -> (text: &str)
        requires
            self.wf(),
            self.pool().knows_string(string),
        ensures
            text@ == self.pool().strings()[string.0 as int],
    {
        self.interner().resolve_string(string)
    }

    /// The name that a version set speaks of.
    pub fn version_set_name(&self, version_set: VersionSetId) -> (name: NameId)
        requires
            self.wf(),
            self.pool().knows_version_set(version_set),
        ensures
            name == self.pool().version_sets()[version_set.0 as int].0,
            self.pool().knows_name(name),
    {
        self.interner().resolve_version_set_package_name(version_set)
    }

    /// The name that a solvable belongs to.
    pub fn solvable_name(&self, solvable: SolvableId) -> (name: NameId)
        requires
            self.wf(),
            self.pool().knows_solvable(solvable),
        ensures
            name == self.pool().solvables()[solvable.0 as int].0,
            self.pool().knows_name(name),
    {
        self.interner().resolve_solvable(solvable).0
    }

    /// The version sets that a union is made of, in the order they were
    /// given.
    pub fn version_sets_in_union(&self, union: VersionSetUnionId) -> (members: Vec<VersionSetId>)
        requires
            self.wf(),
            self.pool().knows_union(union),
        ensures
            members@ == self.pool().unions()[union.0 as int],
    {
        self.interner().resolve_version_set_union(union)
    }
}

} // verus!
