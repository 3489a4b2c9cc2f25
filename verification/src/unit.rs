//! Identities of compilation work: packages, targets, profiles, compile
//! modes, and the unit key that the dependency queue schedules by.
//!
//! The planning collaborator that enumerates units assigns stable numeric
//! identities to packages, targets and profiles; the scheduler only compares
//! them, so plain ids model them exactly.

use vstd::prelude::*;
use crate::freshness::Freshness;

verus! {

/// Identity of a package, assigned by the planning stage.
pub type PackageId = u64;

/// Whether a unit builds for the host machine or for the requested
/// cross-compilation target.
#[derive(Clone, Copy, PartialEq, Eq, Hash, Debug, Structural)]
pub enum Kind {
    Host,
    Target,
}

/// What kind of artifact a target produces.
#[derive(Clone, Copy, PartialEq, Eq, Hash, Debug, Structural)]
pub enum TargetKind {
    Lib,
    Bin,
    Test,
    Bench,
    ExampleLib,
    ExampleBin,
    CustomBuild,
}

/// A target descriptor: a stable identity plus the artifact kind.
#[derive(Clone, Copy, PartialEq, Eq, Hash, Debug, Structural)]
pub struct Target {
    pub id: u64,
    pub kind: TargetKind,
}

impl Target {
    pub open spec fn spec_is_lib(&self) -> bool {
        self.kind is Lib
    }

    #[verifier::when_used_as_spec(spec_is_lib)]
    pub fn is_lib(&self) -> (r: bool)
        ensures
            r == self.spec_is_lib(),
    {
        matches!(self.kind, TargetKind::Lib)
    }

    pub open spec fn spec_is_bin(&self) -> bool {
        self.kind is Bin
    }

    #[verifier::when_used_as_spec(spec_is_bin)]
    pub fn is_bin(&self) -> (r: bool)
        ensures
            r == self.spec_is_bin(),
    {
        matches!(self.kind, TargetKind::Bin)
    }

    pub open spec fn spec_is_test(&self) -> bool {
        self.kind is Test
    }

    #[verifier::when_used_as_spec(spec_is_test)]
    pub fn is_test(&self) -> (r: bool)
        ensures
            r == self.spec_is_test(),
    {
        matches!(self.kind, TargetKind::Test)
    }

    pub open spec fn spec_is_custom_build(&self) -> bool {
        self.kind is CustomBuild
    }

    #[verifier::when_used_as_spec(spec_is_custom_build)]
    pub fn is_custom_build(&self) -> (r: bool)
        ensures
            r == self.spec_is_custom_build(),
    {
        matches!(self.kind, TargetKind::CustomBuild)
    }
}

/// What the compiler is asked to do for a unit.
#[derive(Clone, Copy, PartialEq, Eq, Hash, Debug, Structural)]
pub enum CompileMode {
    Test,
    Build,
    Check,
    Bench,
    Doc { deps: bool },
    Doctest,
    RunCustomBuild,
}

impl CompileMode {
    pub open spec fn spec_is_doc(&self) -> bool {
        self is Doc
    }

    #[verifier::when_used_as_spec(spec_is_doc)]
    pub fn is_doc(&self) -> (r: bool)
        ensures
            r == self.spec_is_doc(),
    {
        matches!(self, CompileMode::Doc { .. })
    }

    pub open spec fn spec_is_check(&self) -> bool {
        self is Check
    }

    #[verifier::when_used_as_spec(spec_is_check)]
    pub fn is_check(&self) -> (r: bool)
        ensures
            r == self.spec_is_check(),
    {
        matches!(self, CompileMode::Check)
    }

    pub open spec fn spec_is_run_custom_build(&self) -> bool {
        self is RunCustomBuild
    }

    #[verifier::when_used_as_spec(spec_is_run_custom_build)]
    pub fn is_run_custom_build(&self) -> (r: bool)
        ensures
            r == self.spec_is_run_custom_build(),
    {
        matches!(self, CompileMode::RunCustomBuild)
    }
}

/// One compilation task as the planning stage hands it over.
#[derive(Clone, Copy, PartialEq, Eq, Hash, Debug, Structural)]
pub struct Unit {
    pub pkg: PackageId,
    pub target: Target,
    pub profile: u64,
    pub kind: Kind,
    pub mode: CompileMode,
}

/// An opaque unit of work: the embedding program maps the id back to the
/// action to perform. Whether running it needs a worker is tagged separately
/// with a [`Freshness`] when it is enqueued.
#[derive(Clone, Copy, PartialEq, Eq, Hash, Debug, Structural)]
pub struct Job {
    pub id: u64,
}

/// The dependency queue's node identity: two keys are equal iff all five
/// fields match.
#[derive(Clone, Copy, PartialEq, Eq, Hash, Debug, Structural)]
pub struct Key {
    pub pkg: PackageId,
    pub target: Target,
    pub profile: u64,
    pub kind: Kind,
    pub mode: CompileMode,
}

impl Key {
    pub open spec fn spec_new(unit: Unit) -> Key {
        Key {
            pkg: unit.pkg,
            target: unit.target,
            profile: unit.profile,
            kind: unit.kind,
            mode: unit.mode,
        }
    }

    pub fn new(unit: &Unit) -> (r: Key)
        ensures
            r == Key::spec_new(*unit),
    {
        Key {
            pkg: unit.pkg,
            target: unit.target,
            profile: unit.profile,
            kind: unit.kind,
            mode: unit.mode,
        }
    }

    /// The dependency keys of this unit, derived from the units it depends
    /// on. A test target does not depend on a bin target it would need only
    /// for execution: the graph governs compilation order, not run order, so
    /// that edge is left out.
    pub open spec fn spec_dependencies(self, deps: Seq<Unit>) -> Seq<Key> {
        deps.filter(|u: Unit| !(self.target.kind is Test && u.target.kind is Bin)).map_values(
            |u: Unit| Key::spec_new(u),
        )
    }

    pub fn dependencies(&self, deps: &Vec<Unit>) -> (r: Vec<Key>)
        ensures
            r@ == self.spec_dependencies(deps@),
    {
        let mut out: Vec<Key> = Vec::new();
        let mut i: usize = 0;
        while i < deps.len()
            invariant
                i <= deps@.len(),
                out@ == self.spec_dependencies(deps@.take(i as int)),
            decreases deps@.len() - i,
        {
            proof {
                assert(deps@.take(i + 1int).drop_last() == deps@.take(i as int));
                reveal_with_fuel(Seq::filter, 2);
            }
            let u = deps[i];
            if !(self.target.is_test() && u.target.is_bin()) {
                out.push(Key::new(&u));
            }
            i = i + 1;
        }
        proof {
            assert(deps@.take(deps@.len() as int) == deps@);
        }
        out
    }
}

/// A job paired with the freshness verdict it was enqueued with.
#[derive(Clone, Copy, PartialEq, Eq, Hash, Debug, Structural)]
pub struct QueuedJob {
    pub job: Job,
    pub fresh: Freshness,
}

} // verus!
