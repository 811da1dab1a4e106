//! A crash model of checkpoint publication and compaction: which generation
//! is the recoverable authority after a crash at any point of the protocol.

use vstd::prelude::*;
use crate::durability::StoreFaultPoint;

verus! {

/// The prerequisite files of a checkpoint generation.
#[derive(Debug, Clone, Copy, PartialEq, Eq, Structural)]
pub enum Prerequisite {
    Checkpoint,
    Wal,
    Metadata,
}

/// Steps of publishing a new generation.
#[derive(Debug, Clone, Copy, PartialEq, Eq, Structural)]
pub enum PublishPhase {
    Building,
    PrerequisiteDirectorySynced,
    PendingManifestSynced,
    ManifestRenamed,
    ManifestDirectorySynced,
}

/// What compaction removes for a generation.
#[derive(Debug, Clone, Copy, PartialEq, Eq, Structural)]
pub enum DurableEntry {
    Components,
    Manifest,
}

/// Crash boundaries of the publication and compaction protocol.
#[derive(Debug, Clone, Copy, PartialEq, Eq, Structural)]
pub enum ModelBoundary {
    CheckpointFileSynced,
    WalFileSynced,
    MetadataFileSynced,
    PrerequisiteDirectorySynced,
    PendingManifestFileSynced,
    ManifestRenameUncertain,
    ManifestDirectorySynced,
    BeforeGcRemove,
    AfterGcRemoveUncertain,
    GcDirectorySynced,
}

/// The model boundary that each production fault point stands for.
pub open spec fn boundary_of(point: StoreFaultPoint) -> ModelBoundary {
    match point {
        StoreFaultPoint::AfterCheckpointSync => ModelBoundary::CheckpointFileSynced,
        StoreFaultPoint::AfterWalSync => ModelBoundary::WalFileSynced,
        StoreFaultPoint::AfterMetadataSync => ModelBoundary::MetadataFileSynced,
        StoreFaultPoint::AfterPrerequisiteDirectorySync => ModelBoundary::PrerequisiteDirectorySynced,
        StoreFaultPoint::AfterPendingManifestSync => ModelBoundary::PendingManifestFileSynced,
        StoreFaultPoint::AfterManifestRename => ModelBoundary::ManifestRenameUncertain,
        StoreFaultPoint::AfterManifestDirectorySync => ModelBoundary::ManifestDirectorySynced,
        StoreFaultPoint::BeforeCompactionRemove => ModelBoundary::BeforeGcRemove,
        StoreFaultPoint::AfterCompactionRemove => ModelBoundary::AfterGcRemoveUncertain,
        StoreFaultPoint::AfterCompactionDirectorySync => ModelBoundary::GcDirectorySynced,
    }
}

pub fn production_boundary(point: StoreFaultPoint) -> (boundary: ModelBoundary)
    ensures
        boundary == boundary_of(point),
{
    match point {
        StoreFaultPoint::AfterCheckpointSync => ModelBoundary::CheckpointFileSynced,
        StoreFaultPoint::AfterWalSync => ModelBoundary::WalFileSynced,
        StoreFaultPoint::AfterMetadataSync => ModelBoundary::MetadataFileSynced,
        StoreFaultPoint::AfterPrerequisiteDirectorySync => ModelBoundary::PrerequisiteDirectorySynced,
        StoreFaultPoint::AfterPendingManifestSync => ModelBoundary::PendingManifestFileSynced,
        StoreFaultPoint::AfterManifestRename => ModelBoundary::ManifestRenameUncertain,
        StoreFaultPoint::AfterManifestDirectorySync => ModelBoundary::ManifestDirectorySynced,
        StoreFaultPoint::BeforeCompactionRemove => ModelBoundary::BeforeGcRemove,
        StoreFaultPoint::AfterCompactionRemove => ModelBoundary::AfterGcRemoveUncertain,
        StoreFaultPoint::AfterCompactionDirectorySync => ModelBoundary::GcDirectorySynced,
    }
}

/// Distinct fault points stand for distinct boundaries.
pub proof fn lemma_production_boundary_injective(a: StoreFaultPoint, b: StoreFaultPoint)
    requires
        boundary_of(a) == boundary_of(b),
    ensures
        a == b,
{
}

/// Every model boundary is the image of a production fault point.
pub proof fn lemma_production_boundary_covers(boundary: ModelBoundary)
    ensures
        exists|point: StoreFaultPoint| boundary_of(point) == boundary,
{
    match boundary {
        ModelBoundary::CheckpointFileSynced => assert(boundary_of(StoreFaultPoint::AfterCheckpointSync) == boundary),
        ModelBoundary::WalFileSynced => assert(boundary_of(StoreFaultPoint::AfterWalSync) == boundary),
        ModelBoundary::MetadataFileSynced => assert(boundary_of(StoreFaultPoint::AfterMetadataSync) == boundary),
        ModelBoundary::PrerequisiteDirectorySynced => assert(boundary_of(StoreFaultPoint::AfterPrerequisiteDirectorySync) == boundary),
        ModelBoundary::PendingManifestFileSynced => assert(boundary_of(StoreFaultPoint::AfterPendingManifestSync) == boundary),
        ModelBoundary::ManifestRenameUncertain => assert(boundary_of(StoreFaultPoint::AfterManifestRename) == boundary),
        ModelBoundary::ManifestDirectorySynced => assert(boundary_of(StoreFaultPoint::AfterManifestDirectorySync) == boundary),
        ModelBoundary::BeforeGcRemove => assert(boundary_of(StoreFaultPoint::BeforeCompactionRemove) == boundary),
        ModelBoundary::AfterGcRemoveUncertain => assert(boundary_of(StoreFaultPoint::AfterCompactionRemove) == boundary),
        ModelBoundary::GcDirectorySynced => assert(boundary_of(StoreFaultPoint::AfterCompactionDirectorySync) == boundary),
    }
}

/// Strictly increasing.
pub open spec fn increasing(s: Seq<u8>) -> bool {
    forall|i: int, j: int| 0 <= i < j < s.len() ==> s[i] < s[j]
}

/// `m` is the largest member of `s`.
pub open spec fn is_max(s: Set<u8>, m: u8) -> bool {
    s.contains(m) && forall|x: u8| #[trigger] s.contains(x) ==> x <= m
}

/// A set of generations, kept in increasing order.
#[derive(Debug, PartialEq, Eq)]
pub struct GenerationSet {
    items: Vec<u8>,
}

impl GenerationSet {
    pub closed spec fn spec_items(self) -> Seq<u8> {
        self.items@
    }

    /// The generations held.
    pub open spec fn members(self) -> Set<u8> {
        Set::new(|x: u8| self.spec_items().contains(x))
    }

    pub open spec fn wf(self) -> bool {
        increasing(self.spec_items())
    }

    pub fn new() -> (set: Self)
        ensures
            set.wf(),
            set.members() == Set::<u8>::empty(),
    {
        let set = GenerationSet { items: Vec::new() };
        assert(set.members() =~= Set::<u8>::empty());
        set
    }

    pub fn singleton(generation: u8) -> (set: Self)
        ensures
            set.wf(),
            set.members() == Set::<u8>::empty().insert(generation),
    {
        let mut items: Vec<u8> = Vec::new();
        items.push(generation);
        let set = GenerationSet { items };
        proof {
            assert forall|x: u8| set.members().contains(x) <==> Set::<u8>::empty().insert(generation).contains(x) by {
                if x == generation {
                    assert(set.spec_items()[0] == x);
                }
            }
            assert(set.members() =~= Set::<u8>::empty().insert(generation));
        }
        set
    }

    pub fn items(&self) -> (items: &[u8])
        ensures
            items@ == self.spec_items(),
    {
        self.items.as_slice()
    }

    pub fn contains(&self, generation: u8) -> (found: bool)
        ensures
            found <==> self.members().contains(generation),
    {
        let mut i: usize = 0;
        while i < self.items.len()
            invariant
                i <= self.items@.len(),
                forall|j: int| 0 <= j < i ==> self.items@[j] != generation,
            decreases self.items@.len() - i,
        {
            if self.items[i] == generation {
                return true;
            }
            i = i + 1;
        }
        false
    }

    /// The largest generation, if any.
    pub fn max(&self) -> (max: Option<u8>)
        requires
            self.wf(),
        ensures
            max is None <==> self.members() == Set::<u8>::empty(),
            max matches Some(m) ==> is_max(self.members(), m),
    {
        if self.items.len() == 0 {
            assert(self.members() =~= Set::<u8>::empty());
            None
        } else {
            let m = self.items[self.items.len() - 1];
            proof {
                assert(self.members().contains(m));
                assert forall|x: u8| #[trigger] self.members().contains(x) implies x <= m by {
                    let j = choose|j: int| 0 <= j < self.items@.len() && self.items@[j] == x;
                    if j < self.items@.len() - 1 {
                        assert(self.items@[j] < self.items@[self.items@.len() - 1]);
                    }
                }
                if self.members() == Set::<u8>::empty() {
                    assert(self.members().contains(m));
                }
            }
            Some(m)
        }
    }

    pub fn insert(&mut self, generation: u8)
        requires
            old(self).wf(),
        ensures
            final(self).wf(),
            final(self).members() == old(self).members().insert(generation),
    {
        let mut out: Vec<u8> = Vec::new();
        let mut i: usize = 0;
        while i < self.items.len() && self.items[i] < generation
            invariant
                i <= self.items@.len(),
                increasing(self.items@),
                out@ == self.items@.subrange(0, i as int),
                forall|j: int| 0 <= j < i ==> self.items@[j] < generation,
            decreases self.items@.len() - i,
        {
            out.push(self.items[i]);
            i = i + 1;
        }
        let present = i < self.items.len() && self.items[i] == generation;
        let ghost split = i;
        if !present {
            out.push(generation);
        }
        while i < self.items.len()
            invariant
                split <= i <= self.items@.len(),
                increasing(self.items@),
                forall|j: int| 0 <= j < split ==> self.items@[j] < generation,
                split < self.items@.len() ==> self.items@[split as int] >= generation,
                present <==> (split < self.items@.len() && self.items@[split as int] == generation),
                out@ == self.items@.subrange(0, split as int) + (if present { Seq::<u8>::empty() } else { seq![generation] })
                    + self.items@.subrange(split as int, i as int),
            decreases self.items@.len() - i,
        {
            out.push(self.items[i]);
            i = i + 1;
            assert(self.items@.subrange(split as int, i as int) =~= self.items@.subrange(split as int, i - 1).push(self.items@[i - 1]));
        }
        let ghost old_items = self.items@;
        proof {
            assert(old_items.subrange(split as int, old_items.len() as int) =~= old_items.subrange(split as int, i as int));
            let mid: Seq<u8> = if present { Seq::<u8>::empty() } else { seq![generation] };
            let a = old_items.subrange(0, split as int);
            let b = old_items.subrange(split as int, old_items.len() as int);
            assert(out@ =~= a + mid + b);
            assert forall|x: int, y: int| 0 <= x < y < out@.len() implies out@[x] < out@[y] by {
                let la = a.len() as int;
                let lm = mid.len() as int;
                if y < la {
                    assert(out@[x] == old_items[x] && out@[y] == old_items[y]);
                } else if y < la + lm {
                    assert(out@[y] == generation);
                    assert(out@[x] == old_items[x]);
                } else if x < la {
                    assert(out@[x] == old_items[x]);
                    assert(out@[y] == old_items[y - lm]);
                    if !present {
                        assert(old_items[y - lm] >= old_items[split as int]);
                    }
                } else if x < la + lm {
                    assert(out@[x] == generation);
                    assert(out@[y] == old_items[y - lm]);
                    if (split as int) < y - lm {
                        assert(old_items[split as int] < old_items[y - lm]);
                    }
                } else {
                    assert(out@[x] == old_items[x - lm]);
                    assert(out@[y] == old_items[y - lm]);
                }
            }
            assert forall|x: u8| (#[trigger] out@.contains(x)) <==> (old_items.contains(x) || x == generation) by {
                if out@.contains(x) {
                    let k = choose|k: int| 0 <= k < out@.len() && out@[k] == x;
                    if k < a.len() {
                        assert(old_items[k] == x);
                    } else if k < a.len() + mid.len() {
                    } else {
                        assert(old_items[k - mid.len()] == x);
                    }
                }
                if old_items.contains(x) {
                    let k = choose|k: int| 0 <= k < old_items.len() && old_items[k] == x;
                    if k < split {
                        assert(out@[k] == x);
                    } else {
                        assert(out@[k + mid.len()] == x);
                    }
                }
                if x == generation {
                    if present {
                        assert(out@[split as int] == x);
                    } else {
                        assert(out@[split as int] == x);
                    }
                }
            }
        }
        self.items = out;
        proof {
            assert(self.members() =~= old(self).members().insert(generation));
        }
    }

    pub fn remove(&mut self, generation: u8)
        requires
            old(self).wf(),
        ensures
            final(self).wf(),
            final(self).members() == old(self).members().remove(generation),
    {
        let mut out: Vec<u8> = Vec::new();
        let mut i: usize = 0;
        let ghost mut picked: Seq<int> = Seq::empty();
        while i < self.items.len()
            invariant
                i <= self.items@.len(),
                increasing(self.items@),
                increasing(out@),
                forall|k: int| 0 <= k < out@.len() ==> exists|j: int| 0 <= j < i && self.items@[j] == #[trigger] out@[k],
                forall|x: u8| #[trigger] out@.contains(x) <==> ((exists|j: int| 0 <= j < i && self.items@[j] == x) && x != generation),
            decreases self.items@.len() - i,
        {
            let ghost before = out@;
            if self.items[i] != generation {
                out.push(self.items[i]);
                proof {
                    assert forall|x: int, y: int| 0 <= x < y < out@.len() implies out@[x] < out@[y] by {
                        if y == out@.len() - 1 && x < before.len() {
                            let j = choose|j: int| 0 <= j < i && self.items@[j] == #[trigger] before[x];
                            assert(self.items@[j] < self.items@[i as int]);
                        }
                    }
                    assert forall|x: u8| #[trigger] out@.contains(x) <==> ((exists|j: int| 0 <= j < i + 1 && self.items@[j] == x) && x != generation) by {
                        if out@.contains(x) {
                            let k = choose|k: int| 0 <= k < out@.len() && out@[k] == x;
                            if k < before.len() {
                                assert(before.contains(x));
                            }
                        }
                        if (exists|j: int| 0 <= j < i + 1 && self.items@[j] == x) && x != generation {
                            let j = choose|j: int| 0 <= j < i + 1 && self.items@[j] == x;
                            if j < i {
                                assert(before.contains(x));
                                let k = choose|k: int| 0 <= k < before.len() && before[k] == x;
                                assert(out@[k] == x);
                            } else {
                                assert(out@[out@.len() - 1] == x);
                            }
                        }
                    }
                }
            } else {
                proof {
                    assert forall|x: u8| #[trigger] out@.contains(x) <==> ((exists|j: int| 0 <= j < i + 1 && self.items@[j] == x) && x != generation) by {
                        if (exists|j: int| 0 <= j < i + 1 && self.items@[j] == x) && x != generation {
                            let j = choose|j: int| 0 <= j < i + 1 && self.items@[j] == x;
                            assert(j < i);
                        }
                    }
                }
            }
            i = i + 1;
        }
        let ghost old_members = self.members();
        self.items = out;
        proof {
            assert forall|x: u8| self.members().contains(x) <==> old_members.remove(generation).contains(x) by {
                if old_members.contains(x) {
                    let j = choose|j: int| 0 <= j < old(self).items@.len() && old(self).items@[j] == x;
                }
            }
            assert(self.members() =~= old(self).members().remove(generation));
        }
    }
}

impl Clone for GenerationSet {
    fn clone(&self) -> (copy: Self)
        ensures
            copy.spec_items() == self.spec_items(),
    {
        let mut items: Vec<u8> = Vec::new();
        let mut i: usize = 0;
        while i < self.items.len()
            invariant
                i <= self.items@.len(),
                items@ == self.items@.subrange(0, i as int),
            decreases self.items@.len() - i,
        {
            items.push(self.items[i]);
            i = i + 1;
            assert(items@ =~= self.items@.subrange(0, i as int));
        }
        assert(self.items@.subrange(0, self.items@.len() as int) =~= self.items@);
        GenerationSet { items }
    }
}

/// Increasing sequences with the same members are equal.
pub proof fn lemma_increasing_unique(a: Seq<u8>, b: Seq<u8>)
    requires
        increasing(a),
        increasing(b),
        forall|x: u8| a.contains(x) <==> b.contains(x),
    ensures
        a == b,
    decreases a.len(),
{
    if a.len() == 0 {
        if b.len() > 0 {
            assert(b.contains(b[0]));
        }
        assert(a =~= b);
    } else {
        assert(a.contains(a[0]));
        assert(b.len() > 0);
        assert(b.contains(b[0]));
        let ka = choose|k: int| 0 <= k < a.len() && a[k] == b[0];
        let kb = choose|k: int| 0 <= k < b.len() && b[k] == a[0];
        if ka > 0 {
            assert(a[0] < a[ka]);
        }
        if kb > 0 {
            assert(b[0] < b[kb]);
        }
        assert(a[0] == b[0]);
        let ra = a.drop_first();
        let rb = b.drop_first();
        assert forall|x: u8| ra.contains(x) <==> rb.contains(x) by {
            if ra.contains(x) {
                let k = choose|k: int| 0 <= k < ra.len() && ra[k] == x;
                assert(a[k + 1] == x);
                assert(a[0] < a[k + 1]);
                assert(b.contains(x));
                let j = choose|j: int| 0 <= j < b.len() && b[j] == x;
                assert(j != 0);
                assert(rb[j - 1] == x);
            }
            if rb.contains(x) {
                let k = choose|k: int| 0 <= k < rb.len() && rb[k] == x;
                assert(b[k + 1] == x);
                assert(b[0] < b[k + 1]);
                assert(a.contains(x));
                let j = choose|j: int| 0 <= j < a.len() && a[j] == x;
                assert(j != 0);
                assert(ra[j - 1] == x);
            }
        }
        lemma_increasing_unique(ra, rb);
        assert(a =~= seq![a[0]] + ra);
        assert(b =~= seq![b[0]] + rb);
    }
}

/// After a crash, the store recovers the newest manifest's generation, which
/// needs every component of that generation.
pub open spec fn recoverable(components: Set<u8>, manifests: Set<u8>) -> bool {
    forall|a: u8| #[trigger] is_max(manifests, a) ==> components.contains(a)
}

/// `g` is older than the newest generation of `manifests`.
pub open spec fn older_than_authority(manifests: Set<u8>, g: u8) -> bool {
    exists|a: u8| #[trigger] is_max(manifests, a) && g < a
}

/// The newest manifest has its components, and pending removals only target older generations.
pub open spec fn sets_inv(components: Set<u8>, manifests: Set<u8>, gc: Seq<(u8, DurableEntry)>) -> bool {
    &&& forall|a: u8| #[trigger] is_max(manifests, a) ==> components.contains(a)
    &&& forall|i: int| 0 <= i < gc.len() ==> older_than_authority(manifests, #[trigger] gc[i].0)
}

/// A candidate is newer than every manifest until its own is durable, and has
/// durable components once its prerequisite directory is synced.
pub open spec fn candidate_inv(components: Set<u8>, manifests: Set<u8>, candidate: Option<CandidateGeneration>) -> bool {
    candidate matches Some(c) ==> {
        &&& c.phase != PublishPhase::ManifestDirectorySynced ==> forall|x: u8| #[trigger] manifests.contains(x) ==> x < c.generation
        &&& c.phase != PublishPhase::Building ==> components.contains(c.generation)
        &&& c.phase == PublishPhase::ManifestDirectorySynced ==> is_max(manifests, c.generation)
    }
}

/// The components and manifests a crash could leave on disk.
#[derive(Debug, PartialEq, Eq)]
pub struct CrashImage {
    components: GenerationSet,
    manifests: GenerationSet,
}

impl CrashImage {
    pub closed spec fn spec_components(self) -> GenerationSet {
        self.components
    }

    pub closed spec fn spec_manifests(self) -> GenerationSet {
        self.manifests
    }

    pub open spec fn wf(self) -> bool {
        self.spec_components().wf() && self.spec_manifests().wf()
    }

    pub fn new(components: GenerationSet, manifests: GenerationSet) -> (image: Self)
        ensures
            image.spec_components() == components,
            image.spec_manifests() == manifests,
    {
        CrashImage { components, manifests }
    }

    pub fn components(&self) -> (components: &GenerationSet)
        ensures
            *components == self.spec_components(),
    {
        &self.components
    }

    pub fn manifests(&self) -> (manifests: &GenerationSet)
        ensures
            *manifests == self.spec_manifests(),
    {
        &self.manifests
    }

    /// The generation recovery selects: the newest manifest.
    pub fn authority(&self) -> (authority: Option<u8>)
        requires
            self.wf(),
        ensures
            authority is None <==> self.spec_manifests().members() == Set::<u8>::empty(),
            authority matches Some(m) ==> is_max(self.spec_manifests().members(), m),
    {
        self.manifests.max()
    }

    /// Whether the selected authority still has all its components.
    pub fn authority_is_recoverable(&self) -> (ok: bool)
        requires
            self.wf(),
        ensures
            ok == recoverable(self.spec_components().members(), self.spec_manifests().members()),
    {
        match self.authority() {
            None => true,
            Some(generation) => {
                let found = self.components.contains(generation);
                proof {
                    assert forall|a: u8| #[trigger] is_max(self.spec_manifests().members(), a)
                        implies (self.spec_components().members().contains(a) <==> found) by {
                        assert(a <= generation && generation <= a);
                    }
                }
                found
            },
        }
    }
}

impl Clone for CrashImage {
    fn clone(&self) -> (copy: Self)
        ensures
            copy.spec_components().spec_items() == self.spec_components().spec_items(),
            copy.spec_manifests().spec_items() == self.spec_manifests().spec_items(),
    {
        CrashImage { components: self.components.clone(), manifests: self.manifests.clone() }
    }
}

/// A generation being published.
#[derive(Debug, Clone, Copy, PartialEq, Eq, Structural)]
pub struct CandidateGeneration {
    pub generation: u8,
    pub checkpoint_synced: bool,
    pub wal_synced: bool,
    pub metadata_synced: bool,
    pub phase: PublishPhase,
}

/// The durable state of the publication protocol.
#[derive(Debug)]
pub struct PublicationModel {
    durable_components: GenerationSet,
    durable_manifests: GenerationSet,
    candidate: Option<CandidateGeneration>,
    gc_remove_attempts: Vec<(u8, DurableEntry)>,
}

impl PublicationModel {
    pub closed spec fn spec_components(self) -> GenerationSet {
        self.durable_components
    }

    pub closed spec fn spec_manifests(self) -> GenerationSet {
        self.durable_manifests
    }

    pub closed spec fn spec_candidate(self) -> Option<CandidateGeneration> {
        self.candidate
    }

    pub closed spec fn spec_gc(self) -> Seq<(u8, DurableEntry)> {
        self.gc_remove_attempts@
    }

    /// Generations with durable components.
    pub open spec fn components_set(self) -> Set<u8> {
        self.spec_components().members()
    }

    /// Generations with a durable manifest.
    pub open spec fn manifests_set(self) -> Set<u8> {
        self.spec_manifests().members()
    }

    /// Attempted but not yet directory-synced removals.
    pub open spec fn gc_set(self) -> Set<(u8, DurableEntry)> {
        Set::new(|a: (u8, DurableEntry)| self.spec_gc().contains(a))
    }

    pub open spec fn wf(self) -> bool {
        &&& self.spec_components().wf()
        &&& self.spec_manifests().wf()
        &&& self.spec_gc().no_duplicates()
    }

    /// The protocol invariant: the newest manifest has its components; removals
    /// only target generations older than it; a candidate is newer than every
    /// manifest until its own is durable, and has durable components once its
    /// prerequisite directory is synced.
    pub open spec fn inv(self) -> bool {
        &&& self.wf()
        &&& sets_inv(self.components_set(), self.manifests_set(), self.spec_gc())
        &&& candidate_inv(self.components_set(), self.manifests_set(), self.spec_candidate())
    }

    /// A crash cut: an optional post-rename namespace and any subset of the attempted removals.
    pub open spec fn crash_cut(self, renamed: bool, removed: Set<(u8, DurableEntry)>) -> bool {
        &&& removed.subset_of(self.gc_set())
        &&& renamed ==> (self.spec_candidate() matches Some(c) && c.phase == PublishPhase::ManifestRenamed)
    }

    /// The components a crash cut leaves.
    pub open spec fn cut_components(self, removed: Set<(u8, DurableEntry)>) -> Set<u8> {
        self.components_set().filter(|g: u8| !removed.contains((g, DurableEntry::Components)))
    }

    /// The manifests a crash cut leaves.
    pub open spec fn cut_manifests(self, renamed: bool, removed: Set<(u8, DurableEntry)>) -> Set<u8> {
        let base = if renamed { self.manifests_set().insert(self.spec_candidate()->0.generation) } else { self.manifests_set() };
        base.filter(|g: u8| !removed.contains((g, DurableEntry::Manifest)))
    }

    pub fn with_published_generation(generation: u8) -> (model: Self)
        ensures
            model.inv(),
            model.components_set() == Set::<u8>::empty().insert(generation),
            model.manifests_set() == Set::<u8>::empty().insert(generation),
            model.spec_candidate() is None,
            model.spec_gc().len() == 0,
    {
        let model = PublicationModel {
            durable_components: GenerationSet::singleton(generation),
            durable_manifests: GenerationSet::singleton(generation),
            candidate: None,
            gc_remove_attempts: Vec::new(),
        };
        proof {
            assert forall|a: u8| #[trigger] is_max(model.manifests_set(), a) implies model.components_set().contains(a) by {}
        }
        model
    }

    pub fn durable_components(&self) -> (components: &GenerationSet)
        ensures
            *components == self.spec_components(),
    {
        &self.durable_components
    }

    pub fn durable_manifests(&self) -> (manifests: &GenerationSet)
        ensures
            *manifests == self.spec_manifests(),
    {
        &self.durable_manifests
    }

    /// Starts publishing `generation`, newer than every published manifest.
    pub fn begin(&mut self, generation: u8)
        requires
            old(self).wf(),
            old(self).spec_candidate() is None,
            forall|x: u8| #[trigger] old(self).manifests_set().contains(x) ==> x < generation,
        ensures
            final(self).wf(),
            old(self).inv() ==> final(self).inv(),
            final(self).spec_candidate() == Some(CandidateGeneration {
                generation,
                checkpoint_synced: false,
                wal_synced: false,
                metadata_synced: false,
                phase: PublishPhase::Building,
            }),
            final(self).spec_components() == old(self).spec_components(),
            final(self).spec_manifests() == old(self).spec_manifests(),
            final(self).spec_gc() == old(self).spec_gc(),
    {
        self.candidate = Some(CandidateGeneration {
            generation,
            checkpoint_synced: false,
            wal_synced: false,
            metadata_synced: false,
            phase: PublishPhase::Building,
        });
        proof {
            assert(self.components_set() == old(self).components_set());
            assert(self.manifests_set() == old(self).manifests_set());
        }
    }

    /// Syncs one prerequisite file of the candidate.
    pub fn sync_file(&mut self, prerequisite: Prerequisite)
        requires
            old(self).spec_candidate() matches Some(c) && c.phase == PublishPhase::Building,
        ensures
            old(self).inv() ==> final(self).inv(),
            final(self).wf() == old(self).wf(),
            final(self).spec_candidate() == Some(match prerequisite {
                Prerequisite::Checkpoint => CandidateGeneration { checkpoint_synced: true, ..old(self).spec_candidate()->0 },
                Prerequisite::Wal => CandidateGeneration { wal_synced: true, ..old(self).spec_candidate()->0 },
                Prerequisite::Metadata => CandidateGeneration { metadata_synced: true, ..old(self).spec_candidate()->0 },
            }),
            final(self).spec_components() == old(self).spec_components(),
            final(self).spec_manifests() == old(self).spec_manifests(),
            final(self).spec_gc() == old(self).spec_gc(),
    {
        let mut c = match self.candidate {
            Some(c) => c,
            None => return,
        };
        match prerequisite {
            Prerequisite::Checkpoint => c.checkpoint_synced = true,
            Prerequisite::Wal => c.wal_synced = true,
            Prerequisite::Metadata => c.metadata_synced = true,
        }
        self.candidate = Some(c);
        proof {
            assert(self.components_set() == old(self).components_set());
            assert(self.manifests_set() == old(self).manifests_set());
        }
    }

    /// Syncs the directory holding the three synced prerequisite files: the candidate's components become durable.
    pub fn sync_prerequisite_directory(&mut self)
        requires
            old(self).wf(),
            old(self).spec_candidate() matches Some(c) && c.phase == PublishPhase::Building
                && c.checkpoint_synced && c.wal_synced && c.metadata_synced,
        ensures
            final(self).wf(),
            old(self).inv() ==> final(self).inv(),
            final(self).spec_candidate() == Some(CandidateGeneration { phase: PublishPhase::PrerequisiteDirectorySynced, ..old(self).spec_candidate()->0 }),
            final(self).components_set() == old(self).components_set().insert(old(self).spec_candidate()->0.generation),
            final(self).spec_manifests() == old(self).spec_manifests(),
            final(self).spec_gc() == old(self).spec_gc(),
    {
        let mut c = match self.candidate {
            Some(c) => c,
            None => return,
        };
        self.durable_components.insert(c.generation);
        c.phase = PublishPhase::PrerequisiteDirectorySynced;
        self.candidate = Some(c);
        proof {
            assert(self.manifests_set() == old(self).manifests_set());
            if old(self).inv() {
                assert forall|a: u8| #[trigger] is_max(self.manifests_set(), a) implies self.components_set().contains(a) by {
                    assert(old(self).components_set().contains(a));
                }
            }
        }
    }

    /// Syncs the pending manifest file.
    pub fn sync_pending_manifest(&mut self)
        requires
            old(self).spec_candidate() matches Some(c) && c.phase == PublishPhase::PrerequisiteDirectorySynced,
        ensures
            final(self).wf() == old(self).wf(),
            old(self).inv() ==> final(self).inv(),
            final(self).spec_candidate() == Some(CandidateGeneration { phase: PublishPhase::PendingManifestSynced, ..old(self).spec_candidate()->0 }),
            final(self).spec_components() == old(self).spec_components(),
            final(self).spec_manifests() == old(self).spec_manifests(),
            final(self).spec_gc() == old(self).spec_gc(),
    {
        let mut c = match self.candidate {
            Some(c) => c,
            None => return,
        };
        c.phase = PublishPhase::PendingManifestSynced;
        self.candidate = Some(c);
        proof {
            assert(self.components_set() == old(self).components_set());
            assert(self.manifests_set() == old(self).manifests_set());
        }
    }

    /// Renames the pending manifest into place; until the directory is synced either namespace may survive a crash.
    pub fn rename_manifest(&mut self)
        requires
            old(self).spec_candidate() matches Some(c) && c.phase == PublishPhase::PendingManifestSynced,
        ensures
            final(self).wf() == old(self).wf(),
            old(self).inv() ==> final(self).inv(),
            final(self).spec_candidate() == Some(CandidateGeneration { phase: PublishPhase::ManifestRenamed, ..old(self).spec_candidate()->0 }),
            final(self).spec_components() == old(self).spec_components(),
            final(self).spec_manifests() == old(self).spec_manifests(),
            final(self).spec_gc() == old(self).spec_gc(),
    {
        let mut c = match self.candidate {
            Some(c) => c,
            None => return,
        };
        c.phase = PublishPhase::ManifestRenamed;
        self.candidate = Some(c);
        proof {
            assert(self.components_set() == old(self).components_set());
            assert(self.manifests_set() == old(self).manifests_set());
        }
    }

    /// Syncs the manifest directory: the candidate's manifest becomes durable.
    pub fn sync_manifest_directory(&mut self)
        requires
            old(self).wf(),
            old(self).spec_candidate() matches Some(c) && c.phase == PublishPhase::ManifestRenamed,
        ensures
            final(self).wf(),
            old(self).inv() ==> final(self).inv(),
            final(self).spec_candidate() == Some(CandidateGeneration { phase: PublishPhase::ManifestDirectorySynced, ..old(self).spec_candidate()->0 }),
            final(self).spec_components() == old(self).spec_components(),
            final(self).manifests_set() == old(self).manifests_set().insert(old(self).spec_candidate()->0.generation),
            final(self).spec_gc() == old(self).spec_gc(),
    {
        let mut c = match self.candidate {
            Some(c) => c,
            None => return,
        };
        self.durable_manifests.insert(c.generation);
        c.phase = PublishPhase::ManifestDirectorySynced;
        self.candidate = Some(c);
        proof {
            if old(self).inv() {
                let g = c.generation;
                assert(is_max(self.manifests_set(), g)) by {
                    assert forall|x: u8| #[trigger] self.manifests_set().contains(x) implies x <= g by {
                        if x != g {
                            assert(old(self).manifests_set().contains(x));
                        }
                    }
                }
                assert forall|a: u8| #[trigger] is_max(self.manifests_set(), a) implies self.components_set().contains(a) by {
                    assert(a <= g && g <= a);
                }
                assert forall|i: int| 0 <= i < self.spec_gc().len() implies older_than_authority(self.manifests_set(), #[trigger] self.spec_gc()[i].0) by {
                    assert(older_than_authority(old(self).manifests_set(), old(self).spec_gc()[i].0));
                    let a = choose|a: u8| #[trigger] is_max(old(self).manifests_set(), a) && old(self).spec_gc()[i].0 < a;
                    assert(old(self).manifests_set().contains(a));
                    assert(is_max(self.manifests_set(), g));
                }
            }
        }
    }

    /// Ends the publication once the manifest directory is synced.
    pub fn finish_publication(&mut self)
        requires
            old(self).spec_candidate() matches Some(c) && c.phase == PublishPhase::ManifestDirectorySynced,
        ensures
            final(self).wf() == old(self).wf(),
            old(self).inv() ==> final(self).inv(),
            final(self).spec_candidate() is None,
            final(self).spec_components() == old(self).spec_components(),
            final(self).spec_manifests() == old(self).spec_manifests(),
            final(self).spec_gc() == old(self).spec_gc(),
    {
        self.candidate = None;
        proof {
            assert(self.components_set() == old(self).components_set());
            assert(self.manifests_set() == old(self).manifests_set());
        }
    }

    /// Attempts to remove an obsolete entry; the removal is durable only after the next directory sync.
    pub fn attempt_gc_remove(&mut self, generation: u8, entry: DurableEntry)
        requires
            old(self).wf(),
            exists|a: u8| #[trigger] is_max(old(self).manifests_set(), a) && a != generation,
        ensures
            final(self).wf(),
            (old(self).inv() && older_than_authority(old(self).manifests_set(), generation)) ==> final(self).inv(),
            final(self).gc_set() == old(self).gc_set().insert((generation, entry)),
            final(self).spec_candidate() == old(self).spec_candidate(),
            final(self).spec_components() == old(self).spec_components(),
            final(self).spec_manifests() == old(self).spec_manifests(),
    {
        let mut i: usize = 0;
        while i < self.gc_remove_attempts.len()
            invariant
                i <= self.gc_remove_attempts@.len(),
                old(self).wf(),
                self.gc_remove_attempts@ == old(self).spec_gc(),
                self.durable_components == old(self).spec_components(),
                self.durable_manifests == old(self).spec_manifests(),
                self.candidate == old(self).spec_candidate(),
                forall|j: int| 0 <= j < i ==> self.gc_remove_attempts@[j] != (generation, entry),
            decreases self.gc_remove_attempts@.len() - i,
        {
            let (g, e) = self.gc_remove_attempts[i];
            if g == generation && e == entry {
                proof {
                    assert(self.gc_remove_attempts@[i as int] == (generation, entry));
                    assert(self.gc_set() =~= old(self).gc_set().insert((generation, entry)));
                }
                return;
            }
            i = i + 1;
        }
        let ghost before = self.gc_remove_attempts@;
        self.gc_remove_attempts.push((generation, entry));
        proof {
            assert forall|a: int, b: int| 0 <= a < self.gc_remove_attempts@.len() && 0 <= b < self.gc_remove_attempts@.len() && a != b
                implies self.gc_remove_attempts@[a] != self.gc_remove_attempts@[b] by {
                if a < before.len() && b < before.len() {
                    assert(before[a] != before[b]);
                }
            }
            assert forall|x: (u8, DurableEntry)| self.gc_set().contains(x) <==> old(self).gc_set().insert((generation, entry)).contains(x) by {
                lemma_push_contains_pair(before, (generation, entry), x);
            }
            assert(self.gc_set() =~= old(self).gc_set().insert((generation, entry)));
            if old(self).inv() && older_than_authority(old(self).manifests_set(), generation) {
                assert forall|k: int| 0 <= k < self.spec_gc().len() implies older_than_authority(self.manifests_set(), #[trigger] self.spec_gc()[k].0) by {
                    if k < before.len() {
                        assert(self.spec_gc()[k] == before[k]);
                    }
                }
            }
        }
    }

    /// Syncs the directory after removals: every attempted removal becomes durable.
    pub fn sync_gc_directory(&mut self)
        requires
            old(self).wf(),
        ensures
            final(self).wf(),
            old(self).inv() ==> final(self).inv(),
            final(self).components_set() == old(self).components_set().filter(|g: u8| !old(self).gc_set().contains((g, DurableEntry::Components))),
            final(self).manifests_set() == old(self).manifests_set().filter(|g: u8| !old(self).gc_set().contains((g, DurableEntry::Manifest))),
            final(self).spec_candidate() == old(self).spec_candidate(),
            final(self).spec_gc().len() == 0,
    {
        let mut i: usize = 0;
        while i < self.gc_remove_attempts.len()
            invariant
                i <= self.gc_remove_attempts@.len(),
                self.gc_remove_attempts@ == old(self).spec_gc(),
                self.candidate == old(self).spec_candidate(),
                self.durable_components.wf(),
                self.durable_manifests.wf(),
                self.components_set() == old(self).components_set().filter(|g: u8|
                    !(exists|j: int| 0 <= j < i && self.gc_remove_attempts@[j] == (g, DurableEntry::Components))),
                self.manifests_set() == old(self).manifests_set().filter(|g: u8|
                    !(exists|j: int| 0 <= j < i && self.gc_remove_attempts@[j] == (g, DurableEntry::Manifest))),
            decreases self.gc_remove_attempts@.len() - i,
        {
            let (generation, entry) = self.gc_remove_attempts[i];
            let ghost comps = self.components_set();
            let ghost mans = self.manifests_set();
            match entry {
                DurableEntry::Components => {
                    self.durable_components.remove(generation);
                },
                DurableEntry::Manifest => {
                    self.durable_manifests.remove(generation);
                },
            }
            proof {
                let gcs = self.gc_remove_attempts@;
                assert(self.components_set() =~= old(self).components_set().filter(|g: u8|
                    !(exists|j: int| 0 <= j < i + 1 && gcs[j] == (g, DurableEntry::Components)))) by {
                    assert forall|g: u8| #[trigger] self.components_set().contains(g) <==> old(self).components_set().filter(|g: u8|
                        !(exists|j: int| 0 <= j < i + 1 && gcs[j] == (g, DurableEntry::Components))).contains(g) by {
                        if exists|j: int| 0 <= j < i + 1 && gcs[j] == (g, DurableEntry::Components) {
                            let j = choose|j: int| 0 <= j < i + 1 && gcs[j] == (g, DurableEntry::Components);
                            if j < i {
                                assert(!comps.contains(g));
                            }
                        }
                        if !(exists|j: int| 0 <= j < i && gcs[j] == (g, DurableEntry::Components)) && gcs[i as int] == (g, DurableEntry::Components) {
                            assert(exists|j: int| 0 <= j < i + 1 && gcs[j] == (g, DurableEntry::Components));
                        }
                    }
                }
                assert(self.manifests_set() =~= old(self).manifests_set().filter(|g: u8|
                    !(exists|j: int| 0 <= j < i + 1 && gcs[j] == (g, DurableEntry::Manifest)))) by {
                    assert forall|g: u8| #[trigger] self.manifests_set().contains(g) <==> old(self).manifests_set().filter(|g: u8|
                        !(exists|j: int| 0 <= j < i + 1 && gcs[j] == (g, DurableEntry::Manifest))).contains(g) by {
                        if exists|j: int| 0 <= j < i + 1 && gcs[j] == (g, DurableEntry::Manifest) {
                            let j = choose|j: int| 0 <= j < i + 1 && gcs[j] == (g, DurableEntry::Manifest);
                            if j < i {
                                assert(!mans.contains(g));
                            }
                        }
                        if !(exists|j: int| 0 <= j < i && gcs[j] == (g, DurableEntry::Manifest)) && gcs[i as int] == (g, DurableEntry::Manifest) {
                            assert(exists|j: int| 0 <= j < i + 1 && gcs[j] == (g, DurableEntry::Manifest));
                        }
                    }
                }
            }
            i = i + 1;
        }
        self.gc_remove_attempts.clear();
        proof {
            let gcs = old(self).spec_gc();
            assert(self.components_set() =~= old(self).components_set().filter(|g: u8| !old(self).gc_set().contains((g, DurableEntry::Components))));
            assert(self.manifests_set() =~= old(self).manifests_set().filter(|g: u8| !old(self).gc_set().contains((g, DurableEntry::Manifest))));
            if old(self).inv() {
                let om = old(self).manifests_set();
                if exists|a: u8| #[trigger] is_max(om, a) {
                    let a = choose|a: u8| #[trigger] is_max(om, a);
                    assert(!old(self).gc_set().contains((a, DurableEntry::Manifest))) by {
                        if old(self).gc_set().contains((a, DurableEntry::Manifest)) {
                            let k = choose|k: int| 0 <= k < gcs.len() && gcs[k] == (a, DurableEntry::Manifest);
                            assert(older_than_authority(om, gcs[k].0));
                            let b = choose|b: u8| #[trigger] is_max(om, b) && gcs[k].0 < b;
                            assert(a <= b && b <= a);
                        }
                    }
                    assert(!old(self).gc_set().contains((a, DurableEntry::Components))) by {
                        if old(self).gc_set().contains((a, DurableEntry::Components)) {
                            let k = choose|k: int| 0 <= k < gcs.len() && gcs[k] == (a, DurableEntry::Components);
                            assert(older_than_authority(om, gcs[k].0));
                            let b = choose|b: u8| #[trigger] is_max(om, b) && gcs[k].0 < b;
                            assert(a <= b && b <= a);
                        }
                    }
                    assert(is_max(self.manifests_set(), a));
                    assert forall|x: u8| #[trigger] is_max(self.manifests_set(), x) implies self.components_set().contains(x) by {
                        assert(x <= a && a <= x);
                    }
                } else {
                    assert forall|x: u8| #[trigger] is_max(self.manifests_set(), x) implies self.components_set().contains(x) by {
                        assert(is_max(om, x)) by {
                            assert forall|y: u8| #[trigger] om.contains(y) implies y <= x by {
                                if !self.manifests_set().contains(y) {
                                    assert(old(self).gc_set().contains((y, DurableEntry::Manifest)));
                                    let k = choose|k: int| 0 <= k < gcs.len() && gcs[k] == (y, DurableEntry::Manifest);
                                    assert(older_than_authority(om, gcs[k].0));
                                    let b = choose|b: u8| #[trigger] is_max(om, b) && gcs[k].0 < b;
                                }
                            }
                        }
                    }
                }
                if let Some(c) = self.candidate {
                    if c.phase == PublishPhase::ManifestDirectorySynced {
                        let g = c.generation;
                        assert(is_max(om, g));
                        assert(!old(self).gc_set().contains((g, DurableEntry::Manifest))) by {
                            if old(self).gc_set().contains((g, DurableEntry::Manifest)) {
                                let k = choose|k: int| 0 <= k < gcs.len() && gcs[k] == (g, DurableEntry::Manifest);
                                assert(older_than_authority(om, gcs[k].0));
                                let b = choose|b: u8| #[trigger] is_max(om, b) && gcs[k].0 < b;
                                assert(g <= b && b <= g);
                            }
                        }
                        assert(is_max(self.manifests_set(), g));
                    }
                    if c.phase != PublishPhase::Building {
                        assert(old(self).components_set().contains(c.generation));
                        assert(!old(self).gc_set().contains((c.generation, DurableEntry::Components))) by {
                            if old(self).gc_set().contains((c.generation, DurableEntry::Components)) {
                                let k = choose|k: int| 0 <= k < gcs.len() && gcs[k] == (c.generation, DurableEntry::Components);
                                assert(older_than_authority(om, gcs[k].0));
                                let b = choose|b: u8| #[trigger] is_max(om, b) && gcs[k].0 < b;
                                assert(om.contains(b));
                                if c.phase != PublishPhase::ManifestDirectorySynced {
                                    assert(b < c.generation);
                                } else {
                                    assert(b <= c.generation);
                                }
                            }
                        }
                    }
                }
            }
        }
    }
}

/// Membership in a pushed sequence of pairs.
pub proof fn lemma_push_contains_pair(s: Seq<(u8, DurableEntry)>, x: (u8, DurableEntry), a: (u8, DurableEntry))
    ensures
        s.push(x).contains(a) <==> (s.contains(a) || a == x),
{
    if s.push(x).contains(a) && a != x {
        let k = choose|k: int| 0 <= k < s.push(x).len() && s.push(x)[k] == a;
        assert(s[k] == a);
    }
    if s.contains(a) {
        let k = choose|k: int| 0 <= k < s.len() && s[k] == a;
        assert(s.push(x)[k] == a);
    }
    if a == x {
        assert(s.push(x)[s.len() as int] == a);
    }
}

/// Crash safety: in every state the protocol reaches, every crash cut leaves a
/// recoverable authority.
pub proof fn lemma_crash_cut_recoverable(m: PublicationModel, renamed: bool, removed: Set<(u8, DurableEntry)>)
    requires
        m.inv(),
        m.crash_cut(renamed, removed),
    ensures
        recoverable(m.cut_components(removed), m.cut_manifests(renamed, removed)),
{
    let comps = m.cut_components(removed);
    let mans = m.cut_manifests(renamed, removed);
    let om = m.manifests_set();
    assert forall|a: u8| #[trigger] is_max(mans, a) implies comps.contains(a) by {
        if renamed {
            let c = m.spec_candidate()->0;
            let g = c.generation;
            assert(m.components_set().contains(g));
            assert(!removed.contains((g, DurableEntry::Manifest))) by {
                if removed.contains((g, DurableEntry::Manifest)) {
                    assert(m.gc_set().contains((g, DurableEntry::Manifest)));
                    let k = choose|k: int| 0 <= k < m.spec_gc().len() && m.spec_gc()[k] == (g, DurableEntry::Manifest);
                    assert(older_than_authority(om, m.spec_gc()[k].0));
                    let b = choose|b: u8| #[trigger] is_max(om, b) && m.spec_gc()[k].0 < b;
                    assert(om.contains(b));
                }
            }
            assert(!removed.contains((g, DurableEntry::Components))) by {
                if removed.contains((g, DurableEntry::Components)) {
                    assert(m.gc_set().contains((g, DurableEntry::Components)));
                    let k = choose|k: int| 0 <= k < m.spec_gc().len() && m.spec_gc()[k] == (g, DurableEntry::Components);
                    assert(older_than_authority(om, m.spec_gc()[k].0));
                    let b = choose|b: u8| #[trigger] is_max(om, b) && m.spec_gc()[k].0 < b;
                    assert(om.contains(b));
                }
            }
            assert(mans.contains(g));
            assert(a <= g);
            assert(g <= a) by {
                assert forall|x: u8| #[trigger] mans.contains(x) implies x <= g by {
                    if x != g {
                        assert(om.contains(x));
                    }
                }
            }
        } else {
            assert(om.contains(a));
            if exists|b: u8| #[trigger] is_max(om, b) {
                let b = choose|b: u8| #[trigger] is_max(om, b);
                assert(m.components_set().contains(b));
                assert(!removed.contains((b, DurableEntry::Manifest))) by {
                    if removed.contains((b, DurableEntry::Manifest)) {
                        assert(m.gc_set().contains((b, DurableEntry::Manifest)));
                        let k = choose|k: int| 0 <= k < m.spec_gc().len() && m.spec_gc()[k] == (b, DurableEntry::Manifest);
                        assert(older_than_authority(om, m.spec_gc()[k].0));
                        let b2 = choose|b2: u8| #[trigger] is_max(om, b2) && m.spec_gc()[k].0 < b2;
                        assert(b <= b2 && b2 <= b);
                    }
                }
                assert(mans.contains(b));
                assert(a == b) by {
                    assert(a <= b);
                    assert(b <= a);
                }
                assert(!removed.contains((b, DurableEntry::Components))) by {
                    if removed.contains((b, DurableEntry::Components)) {
                        assert(m.gc_set().contains((b, DurableEntry::Components)));
                        let k = choose|k: int| 0 <= k < m.spec_gc().len() && m.spec_gc()[k] == (b, DurableEntry::Components);
                        assert(older_than_authority(om, m.spec_gc()[k].0));
                        let b2 = choose|b2: u8| #[trigger] is_max(om, b2) && m.spec_gc()[k].0 < b2;
                        assert(b <= b2 && b2 <= b);
                    }
                }
            } else {
                assert(is_max(om, a)) by {
                    assert forall|y: u8| #[trigger] om.contains(y) implies y <= a by {
                        if !mans.contains(y) {
                            assert(removed.contains((y, DurableEntry::Manifest)));
                            assert(m.gc_set().contains((y, DurableEntry::Manifest)));
                            let k = choose|k: int| 0 <= k < m.spec_gc().len() && m.spec_gc()[k] == (y, DurableEntry::Manifest);
                            assert(older_than_authority(om, m.spec_gc()[k].0));
                            let b = choose|b: u8| #[trigger] is_max(om, b) && m.spec_gc()[k].0 < b;
                        }
                    }
                }
            }
        }
    }
}

/// Lexicographic order on increasing generation sequences: the order in
/// which two sets of generations compare element by element.
pub open spec fn seq_lt(a: Seq<u8>, b: Seq<u8>) -> bool
    decreases a.len(),
{
    if a.len() == 0 {
        b.len() > 0
    } else if b.len() == 0 {
        false
    } else if a[0] != b[0] {
        a[0] < b[0]
    } else {
        seq_lt(a.drop_first(), b.drop_first())
    }
}

pub proof fn lemma_seq_lt_irreflexive(a: Seq<u8>)
    ensures
        !seq_lt(a, a),
    decreases a.len(),
{
    if a.len() > 0 {
        lemma_seq_lt_irreflexive(a.drop_first());
    }
}

pub proof fn lemma_seq_lt_transitive(a: Seq<u8>, b: Seq<u8>, c: Seq<u8>)
    requires
        seq_lt(a, b),
        seq_lt(b, c),
    ensures
        seq_lt(a, c),
    decreases a.len(),
{
    if a.len() > 0 && a[0] == b[0] && b[0] == c[0] {
        lemma_seq_lt_transitive(a.drop_first(), b.drop_first(), c.drop_first());
    }
}

pub proof fn lemma_seq_lt_total(a: Seq<u8>, b: Seq<u8>)
    requires
        a != b,
    ensures
        seq_lt(a, b) || seq_lt(b, a),
    decreases a.len(),
{
    if a.len() == 0 {
        if b.len() == 0 {
            assert(a =~= b);
        }
    } else if b.len() > 0 && a[0] == b[0] {
        if a.drop_first() == b.drop_first() {
            assert(a =~= seq![a[0]] + a.drop_first());
            assert(b =~= seq![b[0]] + b.drop_first());
        }
        lemma_seq_lt_total(a.drop_first(), b.drop_first());
    }
}

/// What crash images are ordered and compared by: their manifests, then their components.
pub open spec fn image_key(image: CrashImage) -> (Seq<u8>, Seq<u8>) {
    (image.spec_manifests().spec_items(), image.spec_components().spec_items())
}

/// The order of crash images: by manifests, then by components.
pub open spec fn image_lt(x: CrashImage, y: CrashImage) -> bool {
    let kx = image_key(x);
    let ky = image_key(y);
    seq_lt(kx.0, ky.0) || (kx.0 == ky.0 && seq_lt(kx.1, ky.1))
}

pub proof fn lemma_image_lt_irreflexive(x: CrashImage)
    ensures
        !image_lt(x, x),
{
    lemma_seq_lt_irreflexive(image_key(x).0);
    lemma_seq_lt_irreflexive(image_key(x).1);
}

pub proof fn lemma_image_lt_transitive(x: CrashImage, y: CrashImage, z: CrashImage)
    requires
        image_lt(x, y),
        image_lt(y, z),
    ensures
        image_lt(x, z),
{
    let (a, b, c) = (image_key(x), image_key(y), image_key(z));
    if seq_lt(a.0, b.0) && seq_lt(b.0, c.0) {
        lemma_seq_lt_transitive(a.0, b.0, c.0);
    } else if seq_lt(a.0, b.0) {
    } else if seq_lt(b.0, c.0) {
    } else {
        lemma_seq_lt_transitive(a.1, b.1, c.1);
    }
}

pub proof fn lemma_image_lt_total(x: CrashImage, y: CrashImage)
    requires
        image_key(x) != image_key(y),
    ensures
        image_lt(x, y) || image_lt(y, x),
{
    let (a, b) = (image_key(x), image_key(y));
    if a.0 != b.0 {
        lemma_seq_lt_total(a.0, b.0);
    } else {
        lemma_seq_lt_total(a.1, b.1);
    }
}

/// Compares two generation sequences: negative, zero or positive.
fn compare_generations(a: &[u8], b: &[u8]) -> (order: i8)
    ensures
        order == 0 <==> a@ == b@,
        order < 0 <==> seq_lt(a@, b@),
        order > 0 <==> seq_lt(b@, a@),
{
    let mut i: usize = 0;
    assert(a@.skip(0) =~= a@);
    assert(b@.skip(0) =~= b@);
    while i < a.len() && i < b.len()
        invariant
            i <= a@.len(),
            i <= b@.len(),
            a@.subrange(0, i as int) == b@.subrange(0, i as int),
            seq_lt(a@, b@) == seq_lt(a@.skip(i as int), b@.skip(i as int)),
            seq_lt(b@, a@) == seq_lt(b@.skip(i as int), a@.skip(i as int)),
        decreases a@.len() - i,
    {
        if a[i] != b[i] {
            assert(a@.skip(i as int)[0] == a@[i as int]);
            assert(b@.skip(i as int)[0] == b@[i as int]);
            if a[i] < b[i] {
                return -1;
            } else {
                return 1;
            }
        }
        proof {
            assert(a@.skip(i as int).drop_first() =~= a@.skip(i + 1));
            assert(b@.skip(i as int).drop_first() =~= b@.skip(i + 1));
            assert(a@.subrange(0, i + 1) =~= a@.subrange(0, i as int).push(a@[i as int]));
            assert(b@.subrange(0, i + 1) =~= b@.subrange(0, i as int).push(b@[i as int]));
        }
        i = i + 1;
    }
    if i < b.len() {
        -1
    } else if i < a.len() {
        1
    } else {
        proof {
            assert(a@ =~= a@.subrange(0, i as int));
            assert(b@ =~= b@.subrange(0, i as int));
            lemma_seq_lt_irreflexive(a@.skip(i as int));
            assert(a@.skip(i as int) =~= b@.skip(i as int));
        }
        0
    }
}

/// Compares two crash images by manifests, then components.
fn compare_images(x: &CrashImage, y: &CrashImage) -> (order: i8)
    ensures
        order == 0 <==> image_key(*x) == image_key(*y),
        order < 0 <==> image_lt(*x, *y),
        order > 0 <==> image_lt(*y, *x),
{
    let by_manifests = compare_generations(x.manifests.items(), y.manifests.items());
    if by_manifests != 0 {
        by_manifests
    } else {
        compare_generations(x.components.items(), y.components.items())
    }
}

/// Strictly increasing in the crash-image order.
pub open spec fn images_sorted(s: Seq<CrashImage>) -> bool {
    forall|i: int, j: int| 0 <= i < j < s.len() ==> image_lt(s[i], s[j])
}

/// Some image of `s` has key `k`.
pub open spec fn has_key(s: Seq<CrashImage>, k: (Seq<u8>, Seq<u8>)) -> bool {
    exists|i: int| 0 <= i < s.len() && image_key(s[i]) == k
}

/// Inserts `image` into a sorted sequence of images, unless one with its key is there.
fn insert_sorted(out: &mut Vec<CrashImage>, image: CrashImage)
    requires
        images_sorted(old(out)@),
    ensures
        images_sorted(final(out)@),
        forall|k: (Seq<u8>, Seq<u8>)| #[trigger] has_key(final(out)@, k) <==> (has_key(old(out)@, k) || k == image_key(image)),
{
    let mut p: usize = 0;
    loop
        invariant
            p <= out@.len(),
            out@ == old(out)@,
            forall|q: int| 0 <= q < p ==> image_lt(#[trigger] out@[q], image),
        ensures
            p <= out@.len(),
            out@ == old(out)@,
            forall|q: int| 0 <= q < p ==> image_lt(#[trigger] out@[q], image),
            p < out@.len() ==> !image_lt(out@[p as int], image),
        decreases out@.len() - p,
    {
        if p >= out.len() {
            break;
        }
        let order = compare_images(&out[p], &image);
        if order >= 0 {
            break;
        }
        p = p + 1;
    }
    if p < out.len() {
        let order = compare_images(&out[p], &image);
        if order == 0 {
            proof {
                assert forall|k: (Seq<u8>, Seq<u8>)| #[trigger] has_key(out@, k) <==> (has_key(old(out)@, k) || k == image_key(image)) by {
                    if k == image_key(image) {
                        assert(image_key(out@[p as int]) == k);
                    }
                }
            }
            return;
        }
    }
    let ghost before = out@;
    let ghost key = image_key(image);
    proof {
        if p < before.len() {
            lemma_image_lt_total(before[p as int], image);
        }
    }
    out.insert(p, image);
    proof {
        let after = out@;
        assert(after == before.insert(p as int, image));
        assert forall|i: int, j: int| 0 <= i < j < after.len() implies image_lt(after[i], after[j]) by {
            if j < p {
                assert(after[i] == before[i] && after[j] == before[j]);
            } else if j == p {
                assert(after[i] == before[i]);
            } else if i < p {
                assert(after[i] == before[i] && after[j] == before[j - 1]);
            } else if i == p {
                assert(after[j] == before[j - 1]);
                if j - 1 > p {
                    lemma_image_lt_transitive(image, before[p as int], before[j - 1]);
                }
            } else {
                assert(after[i] == before[i - 1] && after[j] == before[j - 1]);
            }
        }
        assert forall|k: (Seq<u8>, Seq<u8>)| #[trigger] has_key(after, k) <==> (has_key(before, k) || k == key) by {
            if has_key(after, k) {
                let i = choose|i: int| 0 <= i < after.len() && image_key(after[i]) == k;
                if i < p {
                    assert(image_key(before[i]) == k);
                } else if i > p {
                    assert(image_key(before[i - 1]) == k);
                }
            }
            if has_key(before, k) {
                let i = choose|i: int| 0 <= i < before.len() && image_key(before[i]) == k;
                if i < p {
                    assert(after[i] == before[i]);
                } else {
                    assert(after[i + 1] == before[i]);
                }
            }
            if k == key {
                assert(after[p as int] == image);
            }
        }
    }
}

/// The cut after one more removal: the removed entry is gone from its set.
pub proof fn lemma_cut_insert(m: PublicationModel, renamed: bool, removed: Set<(u8, DurableEntry)>, g: u8, e: DurableEntry)
    ensures
        e == DurableEntry::Components ==> m.cut_components(removed.insert((g, e))) == m.cut_components(removed).remove(g),
        e == DurableEntry::Components ==> m.cut_manifests(renamed, removed.insert((g, e))) == m.cut_manifests(renamed, removed),
        e == DurableEntry::Manifest ==> m.cut_components(removed.insert((g, e))) == m.cut_components(removed),
        e == DurableEntry::Manifest ==> m.cut_manifests(renamed, removed.insert((g, e))) == m.cut_manifests(renamed, removed).remove(g),
{
    let r2 = removed.insert((g, e));
    assert forall|x: u8| #[trigger] m.cut_components(r2).contains(x) <==>
        (m.cut_components(removed).contains(x) && !(e == DurableEntry::Components && x == g)) by {
        if x == g && e == DurableEntry::Components {
            assert(r2.contains((x, DurableEntry::Components)));
        }
    }
    assert forall|x: u8| #[trigger] m.cut_manifests(renamed, r2).contains(x) <==>
        (m.cut_manifests(renamed, removed).contains(x) && !(e == DurableEntry::Manifest && x == g)) by {
        if x == g && e == DurableEntry::Manifest {
            assert(r2.contains((x, DurableEntry::Manifest)));
        }
    }
    if e == DurableEntry::Components {
        assert(m.cut_components(r2) =~= m.cut_components(removed).remove(g));
        assert(m.cut_manifests(renamed, r2) =~= m.cut_manifests(renamed, removed));
    } else {
        assert(m.cut_components(r2) =~= m.cut_components(removed));
        assert(m.cut_manifests(renamed, r2) =~= m.cut_manifests(renamed, removed).remove(g));
    }
}

/// A copy of `image` with one removal applied.
fn with_removal(image: &CrashImage, g: u8, e: DurableEntry) -> (copy: CrashImage)
    requires
        image.wf(),
    ensures
        copy.wf(),
        copy.spec_components().members() == (if e == DurableEntry::Components {
            image.spec_components().members().remove(g)
        } else {
            image.spec_components().members()
        }),
        copy.spec_manifests().members() == (if e == DurableEntry::Manifest {
            image.spec_manifests().members().remove(g)
        } else {
            image.spec_manifests().members()
        }),
{
    let mut copy = image.clone();
    assert(copy.spec_components().members() == image.spec_components().members());
    assert(copy.spec_manifests().members() == image.spec_manifests().members());
    match e {
        DurableEntry::Components => {
            copy.components.remove(g);
        },
        DurableEntry::Manifest => {
            copy.manifests.remove(g);
        },
    }
    copy
}

/// The images of `all` with one per key, in increasing order.
fn sorted_unique(all: &Vec<CrashImage>) -> (out: Vec<CrashImage>)
    ensures
        images_sorted(out@),
        forall|key: (Seq<u8>, Seq<u8>)| #[trigger] has_key(out@, key) <==> has_key(all@, key),
{
    let mut out: Vec<CrashImage> = Vec::new();
    let mut idx: usize = 0;
    while idx < all.len()
        invariant
            idx <= all@.len(),
            images_sorted(out@),
            forall|key: (Seq<u8>, Seq<u8>)| #[trigger] has_key(out@, key) <==>
                exists|i: int| 0 <= i < idx && image_key(all@[i]) == key,
        decreases all@.len() - idx,
    {
        let copy = all[idx].clone();
        proof {
            assert(image_key(copy) == image_key(all@[idx as int]));
        }
        insert_sorted(&mut out, copy);
        proof {
            assert forall|key: (Seq<u8>, Seq<u8>)| #[trigger] has_key(out@, key) <==>
                exists|i: int| 0 <= i < idx + 1 && image_key(all@[i]) == key by {
                if exists|i: int| 0 <= i < idx + 1 && image_key(all@[i]) == key {
                    let i = choose|i: int| 0 <= i < idx + 1 && image_key(all@[i]) == key;
                    if i < idx {
                        assert(exists|i: int| 0 <= i < idx && image_key(all@[i]) == key);
                    }
                }
            }
        }
        idx = idx + 1;
    }
    out
}

impl PublicationModel {
    /// `image` is what the crash cut (`renamed`, `removed`) leaves.
    pub open spec fn is_cut_image(self, image: CrashImage, renamed: bool, removed: Set<(u8, DurableEntry)>) -> bool {
        &&& image.wf()
        &&& image.spec_components().members() == self.cut_components(removed)
        &&& image.spec_manifests().members() == self.cut_manifests(renamed, removed)
    }

    /// `image` is what some crash cut leaves.
    pub open spec fn is_crash_image(self, image: CrashImage) -> bool {
        exists|renamed: bool, removed: Set<(u8, DurableEntry)>|
            self.crash_cut(renamed, removed) && #[trigger] self.is_cut_image(image, renamed, removed)
    }

    /// The first `k` attempted removals.
    pub open spec fn gc_prefix(self, k: int) -> Set<(u8, DurableEntry)> {
        Set::new(|a: (u8, DurableEntry)| exists|j: int| 0 <= j < k && self.spec_gc()[j] == a)
    }

    /// A crash cut that only removes among the first `k` attempted removals.
    pub open spec fn prefix_cut(self, renamed: bool, removed: Set<(u8, DurableEntry)>, k: int) -> bool {
        &&& removed.subset_of(self.gc_prefix(k))
        &&& renamed ==> (self.spec_candidate() matches Some(c) && c.phase == PublishPhase::ManifestRenamed)
    }

    /// Images with the keys of cut images are cut images.
    proof fn lemma_images_are_cuts(self, out: Seq<CrashImage>, all: Seq<CrashImage>, cr: Seq<bool>,
        cs: Seq<Set<(u8, DurableEntry)>>, k: int)
        requires
            all.len() == cr.len(),
            all.len() == cs.len(),
            self.gc_prefix(k) == self.gc_set(),
            forall|i: int| 0 <= i < all.len() ==> #[trigger] self.prefix_cut(cr[i], cs[i], k),
            forall|i: int| 0 <= i < all.len() ==> #[trigger] self.is_cut_image(all[i], cr[i], cs[i]),
            forall|key: (Seq<u8>, Seq<u8>)| #[trigger] has_key(out, key) <==> has_key(all, key),
        ensures
            forall|q: int| 0 <= q < out.len() ==> #[trigger] self.is_crash_image(out[q]),
    {
        assert forall|q: int| 0 <= q < out.len() implies #[trigger] self.is_crash_image(out[q]) by {
            assert(has_key(out, image_key(out[q])));
            let i = choose|i: int| 0 <= i < all.len() && image_key(all[i]) == image_key(out[q]);
            assert(self.prefix_cut(cr[i], cs[i], k));
            assert(self.is_cut_image(all[i], cr[i], cs[i]));
            assert(self.is_cut_image(out[q], cr[i], cs[i]));
            assert(self.crash_cut(cr[i], cs[i]));
        }
    }

    /// Every image a crash could leave, each once, ordered by manifests and then components.
    pub fn crash_images(&self) -> (images: Vec<CrashImage>)
        requires
            self.wf(),
        ensures
            images_sorted(images@),
            forall|i: int| 0 <= i < images@.len() ==> #[trigger] self.is_crash_image(images@[i]),
            forall|renamed: bool, removed: Set<(u8, DurableEntry)>| #[trigger] self.crash_cut(renamed, removed) ==>
                exists|i: int| 0 <= i < images@.len() && self.is_cut_image(images@[i], renamed, removed),
    {
        let ghost mut cr: Seq<bool> = Seq::empty();
        let ghost mut cs: Seq<Set<(u8, DurableEntry)>> = Seq::empty();
        let ghost none: Set<(u8, DurableEntry)> = Set::empty();
        let mut all: Vec<CrashImage> = Vec::new();
        let base = CrashImage { components: self.durable_components.clone(), manifests: self.durable_manifests.clone() };
        proof {
            assert(self.cut_components(none) =~= self.components_set());
            assert(self.cut_manifests(false, none) =~= self.manifests_set());
            assert(self.is_cut_image(base, false, none));
        }
        let renamed_generation: Option<u8> = match self.candidate {
            Some(c) => if c.phase == PublishPhase::ManifestRenamed { Some(c.generation) } else { None },
            None => None,
        };
        let post = match renamed_generation {
            Some(g) => {
                let mut post = base.clone();
                post.manifests.insert(g);
                proof {
                    assert(self.cut_manifests(true, none) =~= self.manifests_set().insert(g));
                    assert(self.is_cut_image(post, true, none));
                }
                Some(post)
            },
            None => None,
        };
        all.push(base);
        proof {
            cr = cr.push(false);
            cs = cs.push(none);
        }
        match post {
            Some(post) => {
                all.push(post);
                proof {
                    cr = cr.push(true);
                    cs = cs.push(none);
                }
            },
            None => {},
        }
        proof {
            assert(self.gc_prefix(0) =~= none);
            assert forall|renamed: bool, removed: Set<(u8, DurableEntry)>| #[trigger] self.prefix_cut(renamed, removed, 0) implies
                exists|i: int| 0 <= i < all@.len() && cr[i] == renamed && cs[i] == removed by {
                assert(removed =~= none);
                if renamed {
                    assert(cr[1] == renamed && cs[1] == removed);
                } else {
                    assert(cr[0] == renamed && cs[0] == removed);
                }
            }
        }
        let mut k: usize = 0;
        while k < self.gc_remove_attempts.len()
            invariant
                self.wf(),
                k <= self.spec_gc().len(),
                all@.len() == cr.len(),
                all@.len() == cs.len(),
                forall|i: int| 0 <= i < all@.len() ==> #[trigger] self.prefix_cut(cr[i], cs[i], k as int),
                forall|i: int| 0 <= i < all@.len() ==> #[trigger] self.is_cut_image(all@[i], cr[i], cs[i]),
                forall|renamed: bool, removed: Set<(u8, DurableEntry)>| #[trigger] self.prefix_cut(renamed, removed, k as int) ==>
                    exists|i: int| 0 <= i < all@.len() && cr[i] == renamed && cs[i] == removed,
            decreases self.spec_gc().len() - k,
        {
            let (g, e) = self.gc_remove_attempts[k];
            let ghost attempt = (g, e);
            let ghost cr0 = cr;
            let ghost cs0 = cs;
            let ghost all0 = all@;
            let n = all.len();
            let mut j: usize = 0;
            while j < n
                invariant
                    self.wf(),
                    n == all0.len(),
                    n == cr0.len(),
                    n == cs0.len(),
                    j <= n,
                    all@.len() == n + j,
                    cr.len() == n + j,
                    cs.len() == n + j,
                    forall|i: int| 0 <= i < n ==> all@[i] == all0[i] && cr[i] == cr0[i] && cs[i] == cs0[i],
                    forall|i: int| 0 <= i < n ==> #[trigger] self.prefix_cut(cr0[i], cs0[i], k as int),
                    forall|i: int| 0 <= i < n ==> #[trigger] self.is_cut_image(all0[i], cr0[i], cs0[i]),
                    forall|renamed: bool, removed: Set<(u8, DurableEntry)>| #[trigger] self.prefix_cut(renamed, removed, k as int) ==>
                        exists|i: int| 0 <= i < n && cr0[i] == renamed && cs0[i] == removed,
                    self.spec_gc()[k as int] == attempt,
                    attempt == (g, e),
                    k < self.spec_gc().len(),
                    forall|t: int| 0 <= t < j ==> cr[n + t] == cr0[t] && cs[n + t] == cs0[t].insert(attempt),
                    forall|t: int| 0 <= t < j ==> #[trigger] self.is_cut_image(all@[n + t], cr[n + t], cs[n + t]),
                decreases n - j,
            {
                let ghost from = all0[j as int];
                proof {
                    assert(all@[j as int] == from);
                    assert(self.is_cut_image(from, cr0[j as int], cs0[j as int]));
                }
                let copy = with_removal(&all[j], g, e);
                proof {
                    let r = cr0[j as int];
                    let sset = cs0[j as int];
                    lemma_cut_insert(*self, r, sset, g, e);
                    assert(attempt == (g, e));
                    assert(from.spec_components().members() == self.cut_components(sset));
                    assert(from.spec_manifests().members() == self.cut_manifests(r, sset));
                    if e == DurableEntry::Components {
                        assert(copy.spec_components().members() == self.cut_components(sset.insert(attempt)));
                        assert(copy.spec_manifests().members() == self.cut_manifests(r, sset.insert(attempt)));
                    } else {
                        assert(copy.spec_components().members() == self.cut_components(sset.insert(attempt)));
                        assert(copy.spec_manifests().members() == self.cut_manifests(r, sset.insert(attempt)));
                    }
                    assert(self.is_cut_image(copy, r, sset.insert(attempt)));
                }
                all.push(copy);
                proof {
                    cr = cr.push(cr0[j as int]);
                    cs = cs.push(cs0[j as int].insert(attempt));
                }
                j = j + 1;
            }
            proof {
                assert(self.spec_gc()[k as int] == attempt);
                assert forall|i: int| 0 <= i < all@.len() implies #[trigger] self.prefix_cut(cr[i], cs[i], k + 1)
                    && self.is_cut_image(all@[i], cr[i], cs[i]) by {
                    if i < n {
                        assert(self.prefix_cut(cr0[i], cs0[i], k as int));
                        assert(self.is_cut_image(all0[i], cr0[i], cs0[i]));
                        assert forall|a: (u8, DurableEntry)| cs[i].contains(a) implies #[trigger] self.gc_prefix(k + 1).contains(a) by {
                            assert(self.gc_prefix(k as int).contains(a));
                            let w = choose|w: int| 0 <= w < k && self.spec_gc()[w] == a;
                        }
                    } else {
                        let t = i - n;
                        assert(self.prefix_cut(cr0[t], cs0[t], k as int));
                        assert(cs[i] == cs0[t].insert(attempt));
                        assert forall|a: (u8, DurableEntry)| cs[i].contains(a) implies #[trigger] self.gc_prefix(k + 1).contains(a) by {
                            if a == attempt {
                                assert(self.spec_gc()[k as int] == a);
                            } else {
                                assert(self.gc_prefix(k as int).contains(a));
                                let w = choose|w: int| 0 <= w < k && self.spec_gc()[w] == a;
                            }
                        }
                    }
                }
                assert forall|i: int| 0 <= i < all@.len() implies #[trigger] self.is_cut_image(all@[i], cr[i], cs[i]) by {
                    if i < n {
                        assert(self.is_cut_image(all0[i], cr0[i], cs0[i]));
                    } else {
                        let t = i - n;
                        assert(self.is_cut_image(all@[n + t], cr[n + t], cs[n + t]));
                    }
                }
                assert forall|renamed: bool, removed: Set<(u8, DurableEntry)>| #[trigger] self.prefix_cut(renamed, removed, k + 1) implies
                    exists|i: int| 0 <= i < all@.len() && cr[i] == renamed && cs[i] == removed by {
                    if removed.contains(attempt) {
                        let rest = removed.remove(attempt);
                        assert forall|a: (u8, DurableEntry)| rest.contains(a) implies #[trigger] self.gc_prefix(k as int).contains(a) by {
                            assert(self.gc_prefix(k + 1).contains(a));
                            let w = choose|w: int| 0 <= w < k + 1 && self.spec_gc()[w] == a;
                        }
                        assert(self.prefix_cut(renamed, rest, k as int));
                        let i = choose|i: int| 0 <= i < all0.len() && cr0[i] == renamed && cs0[i] == rest;
                        assert(rest.insert(attempt) =~= removed);
                        assert(cr[n + i] == renamed && cs[n + i] == removed);
                    } else {
                        assert forall|a: (u8, DurableEntry)| removed.contains(a) implies #[trigger] self.gc_prefix(k as int).contains(a) by {
                            assert(self.gc_prefix(k + 1).contains(a));
                            let w = choose|w: int| 0 <= w < k + 1 && self.spec_gc()[w] == a;
                        }
                        assert(self.prefix_cut(renamed, removed, k as int));
                        let i = choose|i: int| 0 <= i < all0.len() && cr0[i] == renamed && cs0[i] == removed;
                        assert(cr[i] == renamed && cs[i] == removed);
                    }
                }
            }
            k = k + 1;
        }
        proof {
            assert(self.gc_prefix(k as int) =~= self.gc_set());
        }
        let out = sorted_unique(&all);
        proof {
            self.lemma_images_are_cuts(out@, all@, cr, cs, k as int);
            assert forall|renamed: bool, removed: Set<(u8, DurableEntry)>| #[trigger] self.crash_cut(renamed, removed) implies
                exists|q: int| 0 <= q < out@.len() && self.is_cut_image(out@[q], renamed, removed) by {
                assert(self.prefix_cut(renamed, removed, k as int));
                let i = choose|i: int| 0 <= i < all@.len() && cr[i] == renamed && cs[i] == removed;
                assert(self.is_cut_image(all@[i], cr[i], cs[i]));
                assert(has_key(out@, image_key(all@[i])));
                let q = choose|q: int| 0 <= q < out@.len() && image_key(out@[q]) == image_key(all@[i]);
                assert(self.is_cut_image(out@[q], renamed, removed));
            }
        }
        out
    }
    /// Whether every image a crash could leave has a recoverable authority.
    pub fn is_crash_safe(&self) -> (safe: bool)
        requires
            self.wf(),
        ensures
            safe <==> forall|renamed: bool, removed: Set<(u8, DurableEntry)>| #[trigger] self.crash_cut(renamed, removed) ==>
                recoverable(self.cut_components(removed), self.cut_manifests(renamed, removed)),
            self.inv() ==> safe,
    {
        let images = self.crash_images();
        let mut i: usize = 0;
        while i < images.len()
            invariant
                i <= images@.len(),
                forall|j: int| 0 <= j < images@.len() ==> #[trigger] self.is_crash_image(images@[j]),
                forall|j: int| 0 <= j < i ==> recoverable(#[trigger] images@[j].spec_components().members(),
                    images@[j].spec_manifests().members()),
            decreases images@.len() - i,
        {
            proof {
                assert(self.is_crash_image(images@[i as int]));
            }
            if !images[i].authority_is_recoverable() {
                proof {
                    let (r, s) = choose|r: bool, s: Set<(u8, DurableEntry)>|
                        self.crash_cut(r, s) && #[trigger] self.is_cut_image(images@[i as int], r, s);
                    assert(self.crash_cut(r, s));
                    assert(!recoverable(self.cut_components(s), self.cut_manifests(r, s)));
                    if self.inv() {
                        lemma_crash_cut_recoverable(*self, r, s);
                    }
                }
                return false;
            }
            i = i + 1;
        }
        proof {
            assert forall|renamed: bool, removed: Set<(u8, DurableEntry)>| #[trigger] self.crash_cut(renamed, removed) implies
                recoverable(self.cut_components(removed), self.cut_manifests(renamed, removed)) by {
                let q = choose|q: int| 0 <= q < images@.len() && self.is_cut_image(images@[q], renamed, removed);
                assert(recoverable(images@[q].spec_components().members(), images@[q].spec_manifests().members()));
            }
            if self.inv() {
                assert forall|renamed: bool, removed: Set<(u8, DurableEntry)>| #[trigger] self.crash_cut(renamed, removed) implies
                    recoverable(self.cut_components(removed), self.cut_manifests(renamed, removed)) by {
                    lemma_crash_cut_recoverable(*self, renamed, removed);
                }
            }
        }
        true
    }
}

} // verus!
