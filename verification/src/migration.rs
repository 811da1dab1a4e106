//! Migration complement chains: the complements captured by each schema
//! migration step, kept in order, each step starting at the schema where the
//! previous one ended.

use vstd::prelude::*;
use crate::lens::{SemanticId, Value};

verus! {

/// The identity of a lens specification.
#[derive(Debug, Clone, Copy, PartialEq, Eq, Structural, PartialOrd, Ord, Hash)]
pub struct LensSpecId(pub SemanticId);

/// The identity of the semantic manifest a capsule is pinned to.
#[derive(Debug, Clone, Copy, PartialEq, Eq, Structural, PartialOrd, Ord, Hash)]
pub struct SemanticManifestId(pub SemanticId);

/// The identity of the proof that a complement was archived elsewhere.
#[derive(Debug, Clone, Copy, PartialEq, Eq, Structural, PartialOrd, Ord, Hash)]
pub struct ArchiveProofId(pub SemanticId);

/// The complement one migration step captured, with the schemas it connects.
#[derive(Debug, Clone, PartialEq, Eq)]
pub struct ComplementCapsule {
    pub source_schema: u64,
    pub target_schema: u64,
    pub lens_spec: LensSpecId,
    pub semantic_pins: SemanticManifestId,
    pub encoding_version: u32,
    pub complement: Value,
}

/// How long a migration complement is kept, and where.
#[derive(Debug, Clone, Copy, PartialEq, Eq, Structural)]
pub enum ComplementRetention {
    Forever,
    UntilRevision(u64),
    UntilEpoch(u64),
    ExternalArchive(ArchiveProofId),
    Forget,
}

impl ComplementRetention {
    /// Whether the complement has to stay in local storage.
    pub fn requires_local_storage(self) -> (local: bool)
        ensures
            local <==> (self is Forever || self is UntilRevision || self is UntilEpoch),
    {
        match self {
            ComplementRetention::Forever | ComplementRetention::UntilRevision(_) | ComplementRetention::UntilEpoch(_) => true,
            _ => false,
        }
    }

    /// Whether the complement is explicitly given up.
    pub fn is_explicit_forget(self) -> (forget: bool)
        ensures
            forget <==> self is Forget,
    {
        match self {
            ComplementRetention::Forget => true,
            _ => false,
        }
    }
}

/// Why a step cannot join a migration chain.
#[derive(Debug, Clone, Copy, PartialEq, Eq, Structural)]
pub enum MigrationChainError {
    SchemaDiscontinuity,
}

/// Each step starts at the schema where the previous step ended.
pub open spec fn schema_continuous(steps: Seq<(ComplementCapsule, ComplementRetention)>) -> bool {
    forall|i: int| 0 <= i < steps.len() - 1 ==> (#[trigger] steps[i]).0.target_schema == steps[i + 1].0.source_schema
}

/// The migration steps of a store, in order, with their complements.
#[derive(Debug, PartialEq, Eq)]
pub struct MigrationComplementChain {
    steps: Vec<(ComplementCapsule, ComplementRetention)>,
}

impl MigrationComplementChain {
    #[verifier::type_invariant]
    closed spec fn continuous(self) -> bool {
        schema_continuous(self.steps@)
    }

    pub closed spec fn spec_steps(self) -> Seq<(ComplementCapsule, ComplementRetention)> {
        self.steps@
    }

    /// Appends a step when it starts at the schema where the chain ends;
    /// otherwise refuses it and leaves the chain as it was.
    pub fn push(&mut self, capsule: ComplementCapsule, retention: ComplementRetention) -> (result: Result<(), MigrationChainError>)
        ensures
            ({
                let steps = old(self).spec_steps();
                &&& steps.len() > 0 && steps.last().0.target_schema != capsule.source_schema ==> {
                    &&& result == Err::<(), MigrationChainError>(MigrationChainError::SchemaDiscontinuity)
                    &&& final(self).spec_steps() == steps
                }
                &&& !(steps.len() > 0 && steps.last().0.target_schema != capsule.source_schema) ==> {
                    &&& result is Ok
                    &&& final(self).spec_steps() == steps.push((capsule, retention))
                }
            }),
            schema_continuous(final(self).spec_steps()),
    {
        proof {
            use_type_invariant(&*self);
        }
        let n = self.steps.len();
        if n > 0 && self.steps[n - 1].0.target_schema != capsule.source_schema {
            return Err(MigrationChainError::SchemaDiscontinuity);
        }
        let mut steps: Vec<(ComplementCapsule, ComplementRetention)> = Vec::new();
        std::mem::swap(&mut steps, &mut self.steps);
        let ghost before = steps@;
        steps.push((capsule, retention));
        proof {
            assert forall|i: int| 0 <= i < steps@.len() - 1 implies (#[trigger] steps@[i]).0.target_schema == steps@[i + 1].0.source_schema by {
                if i < before.len() - 1 {
                    assert(before[i] == steps@[i] && before[i + 1] == steps@[i + 1]);
                }
            }
        }
        self.steps = steps;
        Ok(())
    }

    /// The steps, in order; each starts where the previous one ended.
    pub fn steps(&self) -> (steps: &[(ComplementCapsule, ComplementRetention)])
        ensures
            steps@ == self.spec_steps(),
            schema_continuous(steps@),
    {
        proof {
            use_type_invariant(self);
        }
        self.steps.as_slice()
    }
}

impl Default for MigrationComplementChain {
    fn default() -> (chain: Self)
        ensures
            chain.spec_steps().len() == 0,
    {
        MigrationComplementChain { steps: Vec::new() }
    }
}

} // verus!
