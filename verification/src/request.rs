//! From the request of a scenario to the problem the solver is given.

use apt_edsp::scenario::{Package, Request, Version};
use resolvo::{Problem, Requirement, SolvableId, VersionSetId};
use vstd::prelude::*;
use vstd::string::*;

use crate::interner::Interner;
use crate::provider::DebProvider;
use crate::range::{range_empty, range_full, range_holds};

verus! {

/// Whether `c` is ASCII whitespace: space, tab, line feed, form feed or
/// carriage return.
pub open spec fn is_space(c: char) -> bool {
    c == ' ' || c == '\t' || c == '\n' || c == '\x0C' || c == '\r'
}

/// The state of splitting after the first `n` characters: the tokens that
/// have ended, and the token that has begun and not ended, which is empty
/// where none has.
pub open spec fn scanned(text: Seq<char>, n: int) -> (Seq<Seq<char>>, Seq<char>)
    decreases n,
{
    if n <= 0 {
        (Seq::empty(), Seq::empty())
    } else {
        let (ended, begun) = scanned(text, n - 1);
        if !is_space(text[n - 1]) {
            (ended, begun.push(text[n - 1]))
        } else if begun.len() > 0 {
            (ended.push(begun), Seq::empty())
        } else {
            (ended, begun)
        }
    }
}

/// The tokens of a text: its longest runs of characters that are not ASCII
/// whitespace, in order.
pub open spec fn tokens(text: Seq<char>) -> Seq<Seq<char>> {
    let (ended, begun) = scanned(text, text.len() as int);
    if begun.len() > 0 {
        ended.push(begun)
    } else {
        ended
    }
}

/// The text of a request field: nothing where the field is absent.
pub open spec fn field_text(field: Option<String>) -> Seq<char> {
    match field {
        Some(text) => text@,
        None => Seq::empty(),
    }
}

/// The number of package names in a request: the tokens of its install field
/// and of its remove field.
pub open spec fn request_tokens(request: Request) -> nat {
    tokens(field_text(request.actions.install)).len() + tokens(
        field_text(request.actions.remove),
    ).len()
}

/// Every token that has ended, and the token that has begun, is free of
/// whitespace, and the tokens that have ended are not empty.
pub proof fn lemma_scanned_clean(text: Seq<char>, n: int)
    requires
        0 <= n <= text.len(),
    ensures
        forall|i: int|
            0 <= i < scanned(text, n).0.len() ==> {
                &&& (#[trigger] scanned(text, n).0[i]).len() > 0
                &&& forall|k: int|
                    0 <= k < scanned(text, n).0[i].len() ==> !is_space(
                        #[trigger] scanned(text, n).0[i][k],
                    )
            },
        forall|k: int|
            0 <= k < scanned(text, n).1.len() ==> !is_space(#[trigger] scanned(text, n).1[k]),
    decreases n,
{
    if n > 0 {
        lemma_scanned_clean(text, n - 1);
        let (ended, begun) = scanned(text, n - 1);
        let (ended_now, begun_now) = scanned(text, n);
        assert forall|i: int| 0 <= i < ended_now.len() implies {
            &&& (#[trigger] ended_now[i]).len() > 0
            &&& forall|k: int| 0 <= k < ended_now[i].len() ==> !is_space(#[trigger] ended_now[i][k])
        } by {
            if i < ended.len() {
                assert(ended_now[i] == ended[i]);
            } else {
                assert(ended_now[i] == begun);
            }
        }
        assert forall|k: int| 0 <= k < begun_now.len() implies !is_space(
            #[trigger] begun_now[k],
        ) by {
            if k < begun.len() {
                assert(begun_now[k] == begun[k]);
            }
        }
    }
}

/// Every token is a name: it is not empty and holds no whitespace.
pub proof fn lemma_tokens_clean(text: Seq<char>)
    ensures
        forall|i: int|
            0 <= i < tokens(text).len() ==> {
                &&& (#[trigger] tokens(text)[i]).len() > 0
                &&& forall|k: int|
                    0 <= k < tokens(text)[i].len() ==> !is_space(#[trigger] tokens(text)[i][k])
            },
{
    lemma_scanned_clean(text, text.len() as int);
    let (ended, begun) = scanned(text, text.len() as int);
    assert forall|i: int| 0 <= i < tokens(text).len() implies {
        &&& (#[trigger] tokens(text)[i]).len() > 0
        &&& forall|k: int| 0 <= k < tokens(text)[i].len() ==> !is_space(#[trigger] tokens(text)[i][k])
    } by {
        if i < ended.len() {
            assert(tokens(text)[i] == ended[i]);
        } else {
            assert(tokens(text)[i] == begun);
        }
    }
}

/// Whether `c` is ASCII whitespace.
fn is_whitespace(c: char) -> (space: bool)
    ensures
        space == is_space(c),
{
    c == ' ' || c == '\t' || c == '\n' || c == '\x0C' || c == '\r'
}

/// Splits a text at ASCII whitespace into its tokens.
pub fn split_tokens<'a>(text: &'a str) -> (found: Vec<&'a str>)
    ensures
        found@.len() == tokens(text@).len(),
        forall|i: int| 0 <= i < found@.len() ==> (#[trigger] found@[i])@ == tokens(text@)[i],
{
    let total = text.unicode_len();
    let mut found: Vec<&'a str> = Vec::new();
    let mut start: usize = 0;
    let mut pos: usize = 0;
    for c in it: text.chars()
        invariant
            it.seq() == text@,
            pos == it.index(),
            total == text@.len(),
            start <= pos,
            scanned(text@, pos as int).1 == text@.subrange(start as int, pos as int),
            found@.len() == scanned(text@, pos as int).0.len(),
            forall|i: int|
                0 <= i < found@.len() ==> (#[trigger] found@[i])@ == scanned(text@, pos as int).0[i],
    {
        assert(pos < text@.len() && c == text@[pos as int]);
        if is_whitespace(c) {
            if start < pos {
                found.push(text.substring_char(start, pos));
            }
            start = pos + 1;
        } else {
            proof {
                assert(text@.subrange(start as int, pos + 1) =~= text@.subrange(
                    start as int,
                    pos as int,
                ).push(c));
            }
        }
        pos = pos + 1;
    }
    if start < pos {
        found.push(text.substring_char(start, pos));
    }
    found
}

/// Whether the version set `id` of the pool speaks of the package `name` and
/// holds every version (where `every` is true) or none (where it is false).
pub open spec fn selects(pool: Interner, id: VersionSetId, name: Seq<char>, every: bool) -> bool {
    &&& pool.knows_version_set(id)
    &&& pool.knows_name(pool.version_sets()[id.0 as int].0)
    &&& pool.names()[pool.version_sets()[id.0 as int].0.0 as int] == name
    &&& forall|v: Version| #[trigger] range_holds(pool.version_sets()[id.0 as int].1, v) == every
}

/// Whether the requirement asks for some version of the package `name`: it is
/// a single version set, of that package, which holds every version.
pub open spec fn requires_some(pool: Interner, requirement: Requirement, name: Seq<char>) -> bool {
    match requirement {
        Requirement::Single(id) => selects(pool, id, name, true),
        Requirement::Union(_) => false,
    }
}

/// The solvables among the first `n` whose package is installed, in rising
/// order.
pub open spec fn installed_solvables(universe: Seq<Package>, n: int) -> Seq<SolvableId>
    decreases n,
{
    if n <= 0 {
        Seq::empty()
    } else {
        let earlier = installed_solvables(universe, n - 1);
        if universe[n - 1].installed.0 {
            earlier.push(SolvableId((n - 1) as u32))
        } else {
            earlier
        }
    }
}

/// The installed solvables are solvables of the universe, each stands for a
/// package that is installed, and every solvable of an installed package is
/// among them.
pub proof fn lemma_installed_known(universe: Seq<Package>, n: int)
    requires
        0 <= n <= universe.len() <= u32::MAX,
    ensures
        forall|i: int|
            0 <= i < installed_solvables(universe, n).len() ==> {
                &&& (#[trigger] installed_solvables(universe, n)[i]).0 < n
                &&& universe[installed_solvables(universe, n)[i].0 as int].installed.0
            },
        forall|id: SolvableId|
            id.0 < n && universe[id.0 as int].installed.0 ==> #[trigger] installed_solvables(
                universe,
                n,
            ).contains(id),
    decreases n,
{
    if n > 0 {
        lemma_installed_known(universe, n - 1);
        let earlier = installed_solvables(universe, n - 1);
        let all = installed_solvables(universe, n);
        assert forall|i: int| 0 <= i < all.len() implies {
            &&& (#[trigger] all[i]).0 < n
            &&& universe[all[i].0 as int].installed.0
        } by {
            if i < earlier.len() {
                assert(all[i] == earlier[i]);
            }
        }
        assert forall|id: SolvableId|
            id.0 < n && universe[id.0 as int].installed.0 implies #[trigger] all.contains(id) by {
            if id.0 < n - 1 {
                assert(earlier.contains(id));
                let k = choose|k: int| 0 <= k < earlier.len() && earlier[k] == id;
                assert(all[k] == earlier[k]);
            } else {
                assert(all[all.len() - 1] == id);
            }
        }
    }
}

/// Whether a problem is the one that a request poses to a provider. Each
/// token of the install field is a requirement for some version of the
/// package; each token of the remove field is a constraint to no version of
/// the package; every installed solvable is a soft requirement, in the order
/// of the universe.
pub open spec fn poses(provider: DebProvider, request: Request, problem: Problem) -> bool {
    let install = tokens(field_text(request.actions.install));
    let remove = tokens(field_text(request.actions.remove));
    &&& problem.requirements@.len() == install.len()
    &&& forall|i: int|
        0 <= i < install.len() ==> requires_some(
            provider.pool(),
            #[trigger] problem.requirements@[i],
            install[i],
        )
    &&& problem.constraints@.len() == remove.len()
    &&& forall|i: int|
        0 <= i < remove.len() ==> selects(
            provider.pool(),
            #[trigger] problem.constraints@[i],
            remove[i],
            false,
        )
    &&& problem.soft_requirements@ == installed_solvables(
        provider.universe(),
        provider.universe().len() as int,
    )
}

/// A version set stays what it selected when the pool grows.
pub proof fn lemma_selects_extends(before: Interner, after: Interner, id: VersionSetId, name: Seq<char>, every: bool)
    requires
        after.extends(&before),
        selects(before, id, name, every),
    ensures
        selects(after, id, name, every),
{
    assert(after.version_sets()[id.0 as int] == before.version_sets()[id.0 as int]);
    assert(after.names()[before.version_sets()[id.0 as int].0.0 as int]
        == before.names()[before.version_sets()[id.0 as int].0.0 as int]);
}

impl<'s> DebProvider<'s> {
    /// The version sets of the tokens of a request field, each the package
    /// that the token names in every version, or in none.
    fn intern_tokens(&mut self, text: &'s str, every: bool) -> (ids: Vec<VersionSetId>)
        requires
            old(self).wf(),
            old(self).pool().names().len() + tokens(text@).len() < u32::MAX,
            old(self).pool().version_sets().len() + tokens(text@).len() < u32::MAX,
        ensures
            final(self).wf(),
            final(self).grown_from(
                old(self),
                tokens(text@).len() as int,
                tokens(text@).len() as int,
                0,
            ),
            ids@.len() == tokens(text@).len(),
            forall|i: int|
                0 <= i < ids@.len() ==> selects(
                    final(self).pool(),
                    #[trigger] ids@[i],
                    tokens(text@)[i],
                    every,
                ),
    {
        let ghost before = *self;
        let names = split_tokens(text);
        let mut ids: Vec<VersionSetId> = Vec::new();
        let mut i: usize = 0;
        while i < names.len()
            invariant
                i <= names@.len(),
                names@.len() == tokens(text@).len(),
                forall|k: int| 0 <= k < names@.len() ==> (#[trigger] names@[k])@ == tokens(text@)[k],
                self.wf(),
                self.grown_from(&before, i as int, i as int, 0),
                before.pool().names().len() + tokens(text@).len() < u32::MAX,
                before.pool().version_sets().len() + tokens(text@).len() < u32::MAX,
                ids@.len() == i,
                forall|k: int|
                    0 <= k < i ==> selects(self.pool(), #[trigger] ids@[k], tokens(text@)[k], every),
            decreases names@.len() - i,
        {
            let ghost middle = *self;
            let range = if every {
                range_full()
            } else {
                range_empty()
            };
            let id = self.intern_version_set(names[i], range);
            proof {
                self.lemma_grown_twice(&middle, &before, (i as int, 1), (i as int, 1), (0, 0));
                assert forall|k: int| 0 <= k < i implies selects(
                    self.pool(),
                    #[trigger] ids@[k],
                    tokens(text@)[k],
                    every,
                ) by {
                    lemma_selects_extends(middle.pool(), self.pool(), ids@[k], tokens(text@)[k], every);
                }
            }
            ids.push(id);
            i = i + 1;
        }
        ids
    }

    /// The solvables whose package is installed, in the order of the
    /// universe.
    pub fn installed_packages(&self) -> (installed: Vec<SolvableId>)
        requires
            self.wf(),
        ensures
            installed@ == installed_solvables(self.universe(), self.universe().len() as int),
    {
        let mut installed: Vec<SolvableId> = Vec::new();
        let mut i: u32 = 0;
        loop
            invariant
                self.wf(),
                i <= self.universe().len(),
                installed@ == installed_solvables(self.universe(), i as int),
            ensures
                i == self.universe().len(),
            decreases self.universe().len() - i,
        {
            let package = match self.package_of(SolvableId(i)) {
                Some(package) => package,
                None => {
                    break ;
                },
            };
            assert(*package == self.universe()[i as int]);
            if package.installed.0 {
                installed.push(SolvableId(i));
            }
            i = i + 1;
        }
        installed
    }

    /// The problem that a request poses: a requirement for each package to
    /// install, a constraint for each package to remove, and the wish to
    /// keep what is installed.
    pub fn problem(&mut self, request: &'s Request) -> (problem: Problem)
        requires
            old(self).wf(),
            old(self).pool().names().len() + request_tokens(*request) < u32::MAX,
            old(self).pool().version_sets().len() + request_tokens(*request) < u32::MAX,
        ensures
            final(self).wf(),
            final(self).grown_from(
                old(self),
                request_tokens(*request) as int,
                request_tokens(*request) as int,
                0,
            ),
            poses(*final(self), *request, problem),
    {
        let ghost before = *self;
        let install: &'s str = match &request.actions.install {
            Some(text) => text.as_str(),
            None => "",
        };
        let remove: &'s str = match &request.actions.remove {
            Some(text) => text.as_str(),
            None => "",
        };
        proof {
            reveal_strlit("");
            assert(install@ =~= field_text(request.actions.install));
            assert(remove@ =~= field_text(request.actions.remove));
        }
        let wanted = self.intern_tokens(install, true);
        let ghost middle = *self;
        let constraints = self.intern_tokens(remove, false);
        let mut requirements: Vec<Requirement> = Vec::new();
        let mut i: usize = 0;
        while i < wanted.len()
            invariant
                i <= wanted@.len(),
                requirements@.len() == i,
                forall|k: int|
                    0 <= k < i ==> #[trigger] requirements@[k] == Requirement::Single(wanted@[k]),
            decreases wanted@.len() - i,
        {
            requirements.push(Requirement::Single(wanted[i]));
            i = i + 1;
        }
        let soft_requirements = self.installed_packages();
        proof {
            self.lemma_grown_twice(
                &middle,
                &before,
                (tokens(install@).len() as int, tokens(remove@).len() as int),
                (tokens(install@).len() as int, tokens(remove@).len() as int),
                (0, 0),
            );
            assert forall|k: int| 0 <= k < tokens(install@).len() implies requires_some(
                self.pool(),
                #[trigger] requirements@[k],
                tokens(install@)[k],
            ) by {
                lemma_selects_extends(
                    middle.pool(),
                    self.pool(),
                    wanted@[k],
                    tokens(install@)[k],
                    true,
                );
            }
        }
        Problem { requirements, constraints, soft_requirements }
    }
}

} // verus!
