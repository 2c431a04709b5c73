//! The core of an external dependency solver for APT.
//!
//! The package manager sends a scenario: a universe of packages, some of
//! them installed, and a request to install or remove packages. The library
//! loads the scenario into a [`provider::DebProvider`], which interns names,
//! solvables and version sets in the pool of the solver kernel and answers
//! what the kernel asks while it searches: which solvables a name has, which
//! of them a version set admits, in what order to try them, and what each of
//! them depends on and conflicts with. The request becomes the problem that
//! the kernel is given, and what the kernel finds becomes the answer: the
//! packages to install and to remove, or an error.
//!
//! Versions are Debian versions and compare as such; the ranges of versions
//! and the pool are those of the kernel. What the library assumes of them is
//! stated where they are declared, in [`version`], [`range`], [`pool`] and
//! [`index`]; everything built on them is verified.

pub mod answer;
pub mod candidates;
pub mod dependencies;
pub mod display;
pub mod index;
pub mod interner;
pub mod lists;
pub mod model;
pub mod pool;
pub mod provider;
pub mod range;
pub mod request;
pub mod scenario;
pub mod solve;
pub mod version;
