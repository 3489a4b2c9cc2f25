//! The freshness lattice: a two-valued verdict on whether a unit's cached
//! output is still valid, with a taint-style combine rule (dirtiness is
//! infectious).

use vstd::prelude::*;

verus! {

/// Whether a unit's previous output remains valid (`Fresh`) or the unit must
/// be rebuilt (`Dirty`).
#[derive(Clone, Copy, PartialEq, Eq, Hash, Debug, Structural)]
pub enum Freshness {
    Fresh,
    Dirty,
}

impl Freshness {
    /// The combine rule of the lattice: any `Dirty` operand taints the result.
    pub open spec fn spec_combine(self, other: Freshness) -> Freshness {
        if self is Dirty || other is Dirty {
            Freshness::Dirty
        } else {
            Freshness::Fresh
        }
    }

    /// Combines two verdicts: `Dirty` absorbs, `Fresh` is the identity.
    #[verifier::when_used_as_spec(spec_combine)]
    pub fn combine(self, other: Freshness) -> (r: Freshness)
        ensures
            r == self.spec_combine(other),
    {
        match self {
            Freshness::Fresh => other,
            Freshness::Dirty => Freshness::Dirty,
        }
    }
}

/// Combining verdicts does not depend on the order of the operands.
pub proof fn lemma_combine_commutative(a: Freshness, b: Freshness)
    ensures
        a.spec_combine(b) == b.spec_combine(a),
{
}

/// Combining verdicts does not depend on grouping.
pub proof fn lemma_combine_associative(a: Freshness, b: Freshness, c: Freshness)
    ensures
        a.spec_combine(b).spec_combine(c) == a.spec_combine(b.spec_combine(c)),
{
}

/// `Dirty` absorbs every verdict.
pub proof fn lemma_combine_dirty_absorbs(x: Freshness)
    ensures
        Freshness::Dirty.spec_combine(x) == Freshness::Dirty,
        x.spec_combine(Freshness::Dirty) == Freshness::Dirty,
{
}

/// `Fresh` is the identity of the lattice.
pub proof fn lemma_combine_fresh_identity(x: Freshness)
    ensures
        Freshness::Fresh.spec_combine(x) == x,
        x.spec_combine(Freshness::Fresh) == x,
{
}

} // verus!
