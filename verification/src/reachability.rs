//! Certified reachability: the entities reachable from the seeds along the
//! edges, solved through the grounded closure and checked by rank and parent.

use std::collections::{BTreeMap, BTreeSet};
use vstd::prelude::*;
use crate::identity::EntityId;
use crate::grounded::{
    cert_valid, is_least_model, seeds_ranked, atom_justified, premises_ranked_below, body_live,
    strictly_sorted, same_atoms, atoms_below, rules_below, GroundedAtomId, GroundedProgram,
    GroundedRule, GroundedWitness,
};
use crate::id_sets::{
    enumeration, increasing_ids, increasing_pairs, lemma_enumeration_exists, lemma_ids_ordered,
    lemma_pair_enumeration_exists, lemma_pairs_ordered, pair_enumeration, pair_lt,
    pair_set_elements, set_elements,
};

verus! {

broadcast use vstd::std_specs::btree::group_btree_axioms, vstd::laws_cmp::group_laws_cmp;

/// Entities, the seeds among them and the edges between them.
#[derive(Debug, Clone, PartialEq, Eq)]
pub struct ReachabilityProgram {
    pub universe: BTreeSet<EntityId>,
    pub seeds: BTreeSet<EntityId>,
    pub edges: BTreeSet<(EntityId, EntityId)>,
}

/// The reachable entities, each with a rank and, unless it is a seed, the
/// parent it was reached from.
#[derive(Debug, Clone, PartialEq, Eq)]
pub struct ReachabilityCertificate {
    pub reachable: BTreeSet<EntityId>,
    pub rank: BTreeMap<EntityId, usize>,
    pub parent: BTreeMap<EntityId, EntityId>,
}

/// Why a reachability program or certificate is refused.
#[derive(Debug, Clone, Copy, PartialEq, Eq, Structural)]
pub enum FixpointError {
    SeedOutsideUniverse(EntityId),
    EdgeOutsideUniverse(EntityId),
    MissingRank(EntityId),
    SeedHasNonZeroRank(EntityId),
    MissingParent(EntityId),
    ParentNotReachable(EntityId),
    ParentRankNotSmaller(EntityId),
    MissingWitnessEdge { parent: EntityId, child: EntityId },
    NotClosedUnderEdge { parent: EntityId, child: EntityId },
    CertificateContainsOutsideUniverse(EntityId),
    MissingSeed(EntityId),
    GroundedClosure(crate::grounded::GroundedClosureError),
}

impl From<crate::grounded::GroundedClosureError> for FixpointError {
    fn from(value: crate::grounded::GroundedClosureError) -> (error: Self) {
        FixpointError::GroundedClosure(value)
    }
}

impl vstd::std_specs::convert::FromSpecImpl<crate::grounded::GroundedClosureError> for FixpointError {
    open spec fn obeys_from_spec() -> bool {
        true
    }

    open spec fn from_spec(value: crate::grounded::GroundedClosureError) -> Self {
        FixpointError::GroundedClosure(value)
    }
}

/// Every seed and both ends of every edge lie in the universe.
pub open spec fn within_universe(universe: Set<EntityId>, seeds: Set<EntityId>, edges: Set<(EntityId, EntityId)>) -> bool {
    &&& forall|x: EntityId| #[trigger] seeds.contains(x) ==> universe.contains(x)
    &&& forall|e: (EntityId, EntityId)| #[trigger] edges.contains(e) ==> universe.contains(e.0) && universe.contains(e.1)
}

/// The first of `ids` outside `universe`.
pub open spec fn first_outside(ids: Seq<EntityId>, universe: Set<EntityId>) -> Option<EntityId>
    decreases ids.len(),
{
    if ids.len() == 0 {
        None
    } else if !universe.contains(ids[0]) {
        Some(ids[0])
    } else {
        first_outside(ids.drop_first(), universe)
    }
}

/// The end outside `universe` of the first of `edges` that has one, its
/// source before its target.
pub open spec fn first_end_outside(edges: Seq<(EntityId, EntityId)>, universe: Set<EntityId>) -> Option<EntityId>
    decreases edges.len(),
{
    if edges.len() == 0 {
        None
    } else if !universe.contains(edges[0].0) {
        Some(edges[0].0)
    } else if !universe.contains(edges[0].1) {
        Some(edges[0].1)
    } else {
        first_end_outside(edges.drop_first(), universe)
    }
}

/// What validating a program reports: the first seed outside the universe
/// in increasing order, else the first edge end outside it, else success.
pub open spec fn validation_outcome(universe: Set<EntityId>, seeds: Set<EntityId>, edges: Set<(EntityId, EntityId)>) -> Result<(), FixpointError> {
    match first_outside(enumeration(seeds), universe) {
        Some(x) => Err(FixpointError::SeedOutsideUniverse(x)),
        None => match first_end_outside(pair_enumeration(edges), universe) {
            Some(x) => Err(FixpointError::EdgeOutsideUniverse(x)),
            None => Ok(()),
        },
    }
}

proof fn lemma_first_outside(ids: Seq<EntityId>, universe: Set<EntityId>)
    ensures
        first_outside(ids, universe) is None <==> forall|i: int| 0 <= i < ids.len() ==> universe.contains(#[trigger] ids[i]),
    decreases ids.len(),
{
    if ids.len() > 0 {
        lemma_first_outside(ids.drop_first(), universe);
        if universe.contains(ids[0]) {
            assert forall|i: int| 1 <= i < ids.len() implies (universe.contains(#[trigger] ids[i]) <==> universe.contains(ids.drop_first()[i - 1])) by {}
        }
    }
}

proof fn lemma_first_end_outside(edges: Seq<(EntityId, EntityId)>, universe: Set<EntityId>)
    ensures
        first_end_outside(edges, universe) is None <==> forall|i: int| 0 <= i < edges.len() ==>
            universe.contains((#[trigger] edges[i]).0) && universe.contains(edges[i].1),
    decreases edges.len(),
{
    if edges.len() > 0 {
        lemma_first_end_outside(edges.drop_first(), universe);
        if universe.contains(edges[0].0) && universe.contains(edges[0].1) {
            assert forall|i: int| 1 <= i < edges.len() implies (#[trigger] edges[i]) == edges.drop_first()[i - 1] by {}
        }
    }
}

/// Validation succeeds exactly on programs within their universe.
pub proof fn lemma_validation_ok(universe: Set<EntityId>, seeds: Set<EntityId>, edges: Set<(EntityId, EntityId)>)
    requires
        seeds.finite(),
        edges.finite(),
    ensures
        validation_outcome(universe, seeds, edges) is Ok <==> within_universe(universe, seeds, edges),
{
    lemma_enumeration_exists(seeds);
    lemma_pair_enumeration_exists(edges);
    let q = enumeration(seeds);
    let r = pair_enumeration(edges);
    lemma_first_outside(q, universe);
    lemma_first_end_outside(r, universe);
    if within_universe(universe, seeds, edges) {
        assert forall|i: int| 0 <= i < q.len() implies universe.contains(#[trigger] q[i]) by {
            assert(q.to_set().contains(q[i]));
        }
        assert forall|i: int| 0 <= i < r.len() implies universe.contains((#[trigger] r[i]).0) && universe.contains(r[i].1) by {
            assert(r.to_set().contains(r[i]));
        }
    }
    if validation_outcome(universe, seeds, edges) is Ok {
        assert forall|x: EntityId| #[trigger] seeds.contains(x) implies universe.contains(x) by {
            assert(q.to_set().contains(x));
            let i = choose|i: int| 0 <= i < q.len() && q[i] == x;
            assert(universe.contains(q[i]));
        }
        assert forall|e: (EntityId, EntityId)| #[trigger] edges.contains(e) implies universe.contains(e.0) && universe.contains(e.1) by {
            assert(r.to_set().contains(e));
            let i = choose|i: int| 0 <= i < r.len() && r[i] == e;
            assert(universe.contains(r[i].0) && universe.contains(r[i].1));
        }
    }
}

impl ReachabilityProgram {
    /// Refuses a seed, then an edge end, outside the universe, each the first in increasing order.
    pub fn validate(&self) -> (result: Result<(), FixpointError>)
        ensures
            result == validation_outcome(self.universe@, self.seeds@, self.edges@),
    {
        proof {
            lemma_ids_ordered();
            lemma_pairs_ordered();
        }
        let seeds = set_elements(&self.seeds);
        assert(seeds@.skip(0) =~= seeds@);
        let mut i: usize = 0;
        while i < seeds.len()
            invariant
                i <= seeds@.len(),
                seeds@ == enumeration(self.seeds@),
                first_outside(seeds@, self.universe@) == first_outside(seeds@.skip(i as int), self.universe@),
            decreases seeds@.len() - i,
        {
            if !self.universe.contains(&seeds[i]) {
                return Err(FixpointError::SeedOutsideUniverse(seeds[i]));
            }
            assert(seeds@.skip(i as int).drop_first() =~= seeds@.skip(i + 1));
            i = i + 1;
        }
        let edges = pair_set_elements(&self.edges);
        assert(edges@.skip(0) =~= edges@);
        let mut j: usize = 0;
        while j < edges.len()
            invariant
                j <= edges@.len(),
                edges@ == pair_enumeration(self.edges@),
                first_outside(enumeration(self.seeds@), self.universe@) is None,
                first_end_outside(edges@, self.universe@) == first_end_outside(edges@.skip(j as int), self.universe@),
            decreases edges@.len() - j,
        {
            let (left, right) = edges[j];
            if !self.universe.contains(&left) {
                return Err(FixpointError::EdgeOutsideUniverse(left));
            }
            if !self.universe.contains(&right) {
                return Err(FixpointError::EdgeOutsideUniverse(right));
            }
            assert(edges@.skip(j as int).drop_first() =~= edges@.skip(j + 1));
            j = j + 1;
        }
        Ok(())
    }
}

/// `reach` holds every seed and is closed along the edges.
pub open spec fn reach_closed(seeds: Set<EntityId>, edges: Set<(EntityId, EntityId)>, reach: Set<EntityId>) -> bool {
    &&& forall|x: EntityId| #[trigger] seeds.contains(x) ==> reach.contains(x)
    &&& forall|e: (EntityId, EntityId)| #[trigger] edges.contains(e) && reach.contains(e.0) ==> reach.contains(e.1)
}

/// The least set that holds every seed and is closed along the edges.
pub open spec fn least_reach(seeds: Set<EntityId>, edges: Set<(EntityId, EntityId)>) -> Set<EntityId> {
    Set::new(|x: EntityId| forall|r: Set<EntityId>| #[trigger] reach_closed(seeds, edges, r) ==> r.contains(x))
}

/// `v` has a reachable parent of smaller rank along an edge.
pub open spec fn parent_ok(
    edges: Set<(EntityId, EntityId)>,
    reach: Set<EntityId>,
    rank: Map<EntityId, usize>,
    parent: Map<EntityId, EntityId>,
    v: EntityId,
) -> bool {
    &&& parent.contains_key(v)
    &&& reach.contains(parent[v])
    &&& rank.contains_key(parent[v])
    &&& rank[parent[v]] < rank[v]
    &&& edges.contains((parent[v], v))
}

/// What a valid certificate satisfies: the program lies in its universe, the
/// reachable set lies in the universe, holds every seed at rank zero, gives
/// every other member a reachable parent of smaller rank along an edge, and
/// is closed along the edges.
pub open spec fn certifies(p: ReachabilityProgram, c: ReachabilityCertificate) -> bool {
    let reach = c.reachable@;
    let rank = c.rank@;
    &&& within_universe(p.universe@, p.seeds@, p.edges@)
    &&& forall|x: EntityId| #[trigger] reach.contains(x) ==> p.universe@.contains(x)
    &&& forall|x: EntityId| #[trigger] p.seeds@.contains(x) ==> reach.contains(x) && rank.contains_key(x) && rank[x] == 0
    &&& forall|v: EntityId| #[trigger] reach.contains(v) ==> rank.contains_key(v)
        && (!p.seeds@.contains(v) ==> parent_ok(p.edges@, reach, rank, c.parent@, v))
    &&& reach_closed(p.seeds@, p.edges@, reach)
}

/// The first seed problem, in increasing order of seeds.
pub open spec fn seed_error(seeds: Seq<EntityId>, reach: Set<EntityId>, rank: Map<EntityId, usize>) -> Option<FixpointError>
    decreases seeds.len(),
{
    if seeds.len() == 0 {
        None
    } else {
        let x = seeds[0];
        if !reach.contains(x) {
            Some(FixpointError::MissingSeed(x))
        } else if !rank.contains_key(x) {
            Some(FixpointError::MissingRank(x))
        } else if rank[x] != 0 {
            Some(FixpointError::SeedHasNonZeroRank(x))
        } else {
            seed_error(seeds.drop_first(), reach, rank)
        }
    }
}

/// The first member problem, in increasing order of members.
pub open spec fn member_error(
    members: Seq<EntityId>,
    seeds: Set<EntityId>,
    edges: Set<(EntityId, EntityId)>,
    reach: Set<EntityId>,
    rank: Map<EntityId, usize>,
    parent: Map<EntityId, EntityId>,
) -> Option<FixpointError>
    decreases members.len(),
{
    if members.len() == 0 {
        None
    } else {
        let v = members[0];
        if !rank.contains_key(v) {
            Some(FixpointError::MissingRank(v))
        } else if seeds.contains(v) {
            member_error(members.drop_first(), seeds, edges, reach, rank, parent)
        } else if !parent.contains_key(v) {
            Some(FixpointError::MissingParent(v))
        } else if !reach.contains(parent[v]) {
            Some(FixpointError::ParentNotReachable(parent[v]))
        } else if !rank.contains_key(parent[v]) {
            Some(FixpointError::MissingRank(parent[v]))
        } else if rank[parent[v]] >= rank[v] {
            Some(FixpointError::ParentRankNotSmaller(v))
        } else if !edges.contains((parent[v], v)) {
            Some(FixpointError::MissingWitnessEdge { parent: parent[v], child: v })
        } else {
            member_error(members.drop_first(), seeds, edges, reach, rank, parent)
        }
    }
}

/// The first edge leaving the reachable set, in increasing order of edges.
pub open spec fn closure_error(edges: Seq<(EntityId, EntityId)>, reach: Set<EntityId>) -> Option<FixpointError>
    decreases edges.len(),
{
    if edges.len() == 0 {
        None
    } else if reach.contains(edges[0].0) && !reach.contains(edges[0].1) {
        Some(FixpointError::NotClosedUnderEdge { parent: edges[0].0, child: edges[0].1 })
    } else {
        closure_error(edges.drop_first(), reach)
    }
}

/// What checking a certificate reports: a program problem, then the first
/// member outside the universe, then the first seed problem, then the first
/// member problem, then the first edge leaving the reachable set.
pub open spec fn check_outcome(p: ReachabilityProgram, c: ReachabilityCertificate) -> Result<(), FixpointError> {
    let reach = c.reachable@;
    match validation_outcome(p.universe@, p.seeds@, p.edges@) {
        Err(e) => Err(e),
        Ok(()) => match first_outside(enumeration(reach), p.universe@) {
            Some(x) => Err(FixpointError::CertificateContainsOutsideUniverse(x)),
            None => match seed_error(enumeration(p.seeds@), reach, c.rank@) {
                Some(e) => Err(e),
                None => match member_error(enumeration(reach), p.seeds@, p.edges@, reach, c.rank@, c.parent@) {
                    Some(e) => Err(e),
                    None => match closure_error(pair_enumeration(p.edges@), reach) {
                        Some(e) => Err(e),
                        None => Ok(()),
                    },
                },
            },
        },
    }
}

proof fn lemma_seed_error(seeds: Seq<EntityId>, reach: Set<EntityId>, rank: Map<EntityId, usize>)
    ensures
        seed_error(seeds, reach, rank) is None <==> forall|i: int| 0 <= i < seeds.len() ==>
            reach.contains(#[trigger] seeds[i]) && rank.contains_key(seeds[i]) && rank[seeds[i]] == 0,
    decreases seeds.len(),
{
    if seeds.len() > 0 {
        lemma_seed_error(seeds.drop_first(), reach, rank);
        assert forall|i: int| 1 <= i < seeds.len() implies (#[trigger] seeds[i]) == seeds.drop_first()[i - 1] by {}
    }
}

proof fn lemma_member_error(
    members: Seq<EntityId>,
    seeds: Set<EntityId>,
    edges: Set<(EntityId, EntityId)>,
    reach: Set<EntityId>,
    rank: Map<EntityId, usize>,
    parent: Map<EntityId, EntityId>,
)
    ensures
        member_error(members, seeds, edges, reach, rank, parent) is None <==> forall|i: int| 0 <= i < members.len() ==>
            rank.contains_key(#[trigger] members[i]) && (!seeds.contains(members[i]) ==> parent_ok(edges, reach, rank, parent, members[i])),
    decreases members.len(),
{
    if members.len() > 0 {
        lemma_member_error(members.drop_first(), seeds, edges, reach, rank, parent);
        assert forall|i: int| 1 <= i < members.len() implies (#[trigger] members[i]) == members.drop_first()[i - 1] by {}
    }
}

proof fn lemma_closure_error(edges: Seq<(EntityId, EntityId)>, reach: Set<EntityId>)
    ensures
        closure_error(edges, reach) is None <==> forall|i: int| 0 <= i < edges.len() ==>
            (reach.contains((#[trigger] edges[i]).0) ==> reach.contains(edges[i].1)),
    decreases edges.len(),
{
    if edges.len() > 0 {
        lemma_closure_error(edges.drop_first(), reach);
        assert forall|i: int| 1 <= i < edges.len() implies (#[trigger] edges[i]) == edges.drop_first()[i - 1] by {}
    }
}

/// `check` accepts exactly the certificates that satisfy `certifies`.
pub proof fn lemma_check_accepts_exactly_valid(p: ReachabilityProgram, c: ReachabilityCertificate)
    requires
        p.universe@.finite(),
        p.seeds@.finite(),
        p.edges@.finite(),
        c.reachable@.finite(),
    ensures
        check_outcome(p, c) is Ok <==> certifies(p, c),
{
    let u = p.universe@;
    let s = p.seeds@;
    let e = p.edges@;
    let reach = c.reachable@;
    lemma_validation_ok(u, s, e);
    lemma_enumeration_exists(s);
    lemma_enumeration_exists(reach);
    lemma_pair_enumeration_exists(e);
    let qs = enumeration(s);
    let qr = enumeration(reach);
    let qe = pair_enumeration(e);
    lemma_first_outside(qr, u);
    lemma_seed_error(qs, reach, c.rank@);
    lemma_member_error(qr, s, e, reach, c.rank@, c.parent@);
    lemma_closure_error(qe, reach);
    if certifies(p, c) {
        assert forall|i: int| 0 <= i < qr.len() implies u.contains(#[trigger] qr[i]) by {
            assert(qr.to_set().contains(qr[i]));
        }
        assert forall|i: int| 0 <= i < qs.len() implies reach.contains(#[trigger] qs[i]) && c.rank@.contains_key(qs[i]) && c.rank@[qs[i]] == 0 by {
            assert(qs.to_set().contains(qs[i]));
        }
        assert forall|i: int| 0 <= i < qr.len() implies c.rank@.contains_key(#[trigger] qr[i])
            && (!s.contains(qr[i]) ==> parent_ok(e, reach, c.rank@, c.parent@, qr[i])) by {
            assert(qr.to_set().contains(qr[i]));
        }
        assert forall|i: int| 0 <= i < qe.len() implies (reach.contains((#[trigger] qe[i]).0) ==> reach.contains(qe[i].1)) by {
            assert(qe.to_set().contains(qe[i]));
        }
    }
    if check_outcome(p, c) is Ok {
        assert forall|x: EntityId| #[trigger] reach.contains(x) implies u.contains(x) by {
            assert(qr.to_set().contains(x));
            let i = choose|i: int| 0 <= i < qr.len() && qr[i] == x;
            assert(u.contains(qr[i]));
        }
        assert forall|x: EntityId| #[trigger] s.contains(x) implies reach.contains(x) && c.rank@.contains_key(x) && c.rank@[x] == 0 by {
            assert(qs.to_set().contains(x));
            let i = choose|i: int| 0 <= i < qs.len() && qs[i] == x;
            assert(reach.contains(qs[i]));
        }
        assert forall|v: EntityId| #[trigger] reach.contains(v) implies c.rank@.contains_key(v)
            && (!s.contains(v) ==> parent_ok(e, reach, c.rank@, c.parent@, v)) by {
            assert(qr.to_set().contains(v));
            let i = choose|i: int| 0 <= i < qr.len() && qr[i] == v;
            assert(c.rank@.contains_key(qr[i]));
        }
        assert forall|x: (EntityId, EntityId)| #[trigger] e.contains(x) && reach.contains(x.0) implies reach.contains(x.1) by {
            assert(qe.to_set().contains(x));
            let i = choose|i: int| 0 <= i < qe.len() && qe[i] == x;
            assert(reach.contains(qe[i].0) ==> reach.contains(qe[i].1));
        }
    }
}

/// A member of a certified reachable set lies in every closed set.
proof fn lemma_certified_member_reached(p: ReachabilityProgram, c: ReachabilityCertificate, r: Set<EntityId>, v: EntityId)
    requires
        certifies(p, c),
        reach_closed(p.seeds@, p.edges@, r),
        c.reachable@.contains(v),
    ensures
        r.contains(v),
    decreases c.rank@[v],
{
    if !p.seeds@.contains(v) {
        let w = c.parent@[v];
        assert(parent_ok(p.edges@, c.reachable@, c.rank@, c.parent@, v));
        lemma_certified_member_reached(p, c, r, w);
        assert(p.edges@.contains((w, v)));
    }
}

/// A certified reachable set is exactly the least set that holds the seeds
/// and is closed along the edges.
pub proof fn lemma_certified_is_least(p: ReachabilityProgram, c: ReachabilityCertificate)
    requires
        certifies(p, c),
    ensures
        c.reachable@ == least_reach(p.seeds@, p.edges@),
{
    assert forall|x: EntityId| c.reachable@.contains(x) <==> #[trigger] least_reach(p.seeds@, p.edges@).contains(x) by {
        if c.reachable@.contains(x) {
            assert forall|r: Set<EntityId>| #[trigger] reach_closed(p.seeds@, p.edges@, r) implies r.contains(x) by {
                lemma_certified_member_reached(p, c, r, x);
            }
        }
        if least_reach(p.seeds@, p.edges@).contains(x) {
            assert(reach_closed(p.seeds@, p.edges@, c.reachable@));
        }
    }
    assert(c.reachable@ =~= least_reach(p.seeds@, p.edges@));
}

/// Checks `certificate` against `program`, reporting the first problem in
/// the order of `check_outcome`.
pub fn check(program: &ReachabilityProgram, certificate: &ReachabilityCertificate) -> (result: Result<(), FixpointError>)
    ensures
        result == check_outcome(*program, *certificate),
        result is Ok <==> certifies(*program, *certificate),
        result is Ok ==> certificate.reachable@ == least_reach(program.seeds@, program.edges@),
{
    proof {
        lemma_ids_ordered();
        lemma_pairs_ordered();
    }
    let members = set_elements(&certificate.reachable);
    let seeds = set_elements(&program.seeds);
    let edges = pair_set_elements(&program.edges);
    let _universe = set_elements(&program.universe);
    proof {
        lemma_check_accepts_exactly_valid(*program, *certificate);
    }
    program.validate()?;
    assert(members@.skip(0) =~= members@);
    let mut i: usize = 0;
    while i < members.len()
        invariant
            i <= members@.len(),
            members@ == enumeration(certificate.reachable@),
            validation_outcome(program.universe@, program.seeds@, program.edges@) is Ok,
            check_outcome(*program, *certificate) is Ok <==> certifies(*program, *certificate),
            first_outside(members@, program.universe@) == first_outside(members@.skip(i as int), program.universe@),
        decreases members@.len() - i,
    {
        if !program.universe.contains(&members[i]) {
            proof {
                assert(members@.skip(i as int)[0] == members@[i as int]);
                assert(first_outside(members@, program.universe@) == Some(members@[i as int]));
                assert(validation_outcome(program.universe@, program.seeds@, program.edges@) is Ok);
            }
            return Err(FixpointError::CertificateContainsOutsideUniverse(members[i]));
        }
        assert(members@.skip(i as int).drop_first() =~= members@.skip(i + 1));
        i = i + 1;
    }
    assert(seeds@.skip(0) =~= seeds@);
    let mut k: usize = 0;
    while k < seeds.len()
        invariant
            k <= seeds@.len(),
            seeds@ == enumeration(program.seeds@),
            validation_outcome(program.universe@, program.seeds@, program.edges@) is Ok,
            check_outcome(*program, *certificate) is Ok <==> certifies(*program, *certificate),
            first_outside(enumeration(certificate.reachable@), program.universe@) is None,
            seed_error(seeds@, certificate.reachable@, certificate.rank@) == seed_error(seeds@.skip(k as int), certificate.reachable@, certificate.rank@),
        decreases seeds@.len() - k,
    {
        let seed = seeds[k];
        assert(seeds@.skip(k as int)[0] == seed);
        if !certificate.reachable.contains(&seed) {
            return Err(FixpointError::MissingSeed(seed));
        }
        let rank = match certificate.rank.get(&seed) {
            Some(rank) => *rank,
            None => {
                return Err(FixpointError::MissingRank(seed));
            },
        };
        if rank != 0 {
            return Err(FixpointError::SeedHasNonZeroRank(seed));
        }
        assert(seeds@.skip(k as int).drop_first() =~= seeds@.skip(k + 1));
        k = k + 1;
    }
    let mut m: usize = 0;
    while m < members.len()
        invariant
            m <= members@.len(),
            members@ == enumeration(certificate.reachable@),
            validation_outcome(program.universe@, program.seeds@, program.edges@) is Ok,
            check_outcome(*program, *certificate) is Ok <==> certifies(*program, *certificate),
            first_outside(enumeration(certificate.reachable@), program.universe@) is None,
            seed_error(enumeration(program.seeds@), certificate.reachable@, certificate.rank@) is None,
            member_error(members@, program.seeds@, program.edges@, certificate.reachable@, certificate.rank@, certificate.parent@)
                == member_error(members@.skip(m as int), program.seeds@, program.edges@, certificate.reachable@, certificate.rank@, certificate.parent@),
        decreases members@.len() - m,
    {
        let value = members[m];
        assert(members@.skip(m as int)[0] == value);
        let value_rank = match certificate.rank.get(&value) {
            Some(rank) => *rank,
            None => {
                return Err(FixpointError::MissingRank(value));
            },
        };
        if !program.seeds.contains(&value) {
            let witness_parent = match certificate.parent.get(&value) {
                Some(parent) => *parent,
                None => {
                    return Err(FixpointError::MissingParent(value));
                },
            };
            if !certificate.reachable.contains(&witness_parent) {
                return Err(FixpointError::ParentNotReachable(witness_parent));
            }
            let parent_rank = match certificate.rank.get(&witness_parent) {
                Some(rank) => *rank,
                None => {
                    return Err(FixpointError::MissingRank(witness_parent));
                },
            };
            if parent_rank >= value_rank {
                return Err(FixpointError::ParentRankNotSmaller(value));
            }
            if !program.edges.contains(&(witness_parent, value)) {
                return Err(FixpointError::MissingWitnessEdge { parent: witness_parent, child: value });
            }
        }
        assert(members@.skip(m as int).drop_first() =~= members@.skip(m + 1));
        m = m + 1;
    }
    assert(edges@.skip(0) =~= edges@);
    let mut j: usize = 0;
    while j < edges.len()
        invariant
            j <= edges@.len(),
            edges@ == pair_enumeration(program.edges@),
            validation_outcome(program.universe@, program.seeds@, program.edges@) is Ok,
            check_outcome(*program, *certificate) is Ok <==> certifies(*program, *certificate),
            first_outside(enumeration(certificate.reachable@), program.universe@) is None,
            seed_error(enumeration(program.seeds@), certificate.reachable@, certificate.rank@) is None,
            member_error(enumeration(certificate.reachable@), program.seeds@, program.edges@, certificate.reachable@, certificate.rank@, certificate.parent@) is None,
            closure_error(edges@, certificate.reachable@) == closure_error(edges@.skip(j as int), certificate.reachable@),
        decreases edges@.len() - j,
    {
        let (left, right) = edges[j];
        assert(edges@.skip(j as int)[0] == (left, right));
        if certificate.reachable.contains(&left) && !certificate.reachable.contains(&right) {
            return Err(FixpointError::NotClosedUnderEdge { parent: left, child: right });
        }
        assert(edges@.skip(j as int).drop_first() =~= edges@.skip(j + 1));
        j = j + 1;
    }
    proof {
        if check_outcome(*program, *certificate) is Ok {
            lemma_certified_is_least(*program, *certificate);
        }
    }
    Ok(())
}

/// The atom index of each entity: its position in `entities`.
fn atom_index(entities: &Vec<EntityId>) -> (index: BTreeMap<EntityId, GroundedAtomId>)
    requires
        increasing_ids(entities@),
    ensures
        forall|i: int| 0 <= i < entities@.len() ==> index@.contains_key(#[trigger] entities@[i]) && index@[entities@[i]].id() == i,
        forall|x: EntityId| #[trigger] index@.contains_key(x) ==> entities@.contains(x),
{
    proof {
        lemma_ids_ordered();
    }
    let mut index: BTreeMap<EntityId, GroundedAtomId> = BTreeMap::new();
    let mut i: usize = 0;
    while i < entities.len()
        invariant
            i <= entities@.len(),
            increasing_ids(entities@),
            forall|j: int| 0 <= j < i ==> index@.contains_key(#[trigger] entities@[j]) && index@[entities@[j]].id() == j,
            forall|x: EntityId| #[trigger] index@.contains_key(x) ==> exists|j: int| 0 <= j < i && entities@[j] == x,
        decreases entities@.len() - i,
    {
        index.insert(entities[i], GroundedAtomId::new(i));
        proof {
            assert forall|j: int| 0 <= j < i + 1 implies index@.contains_key(#[trigger] entities@[j]) && index@[entities@[j]].id() == j by {
                if j < i {
                    assert(entities@[j] < entities@[i as int]);
                }
            }
            assert forall|x: EntityId| #[trigger] index@.contains_key(x) implies exists|j: int| 0 <= j < i + 1 && entities@[j] == x by {
                if x != entities@[i as int] {
                    let j = choose|j: int| 0 <= j < i && entities@[j] == x;
                    assert(entities@[j] == x);
                } else {
                    assert(entities@[i as int] == x);
                }
            }
        }
        i = i + 1;
    }
    proof {
        assert forall|x: EntityId| #[trigger] index@.contains_key(x) implies entities@.contains(x) by {
            let j = choose|j: int| 0 <= j < i && entities@[j] == x;
            assert(entities@[j] == x);
        }
    }
    index
}

/// The atom of `x`.
fn atom_of(index: &BTreeMap<EntityId, GroundedAtomId>, x: EntityId) -> (atom: GroundedAtomId)
    requires
        index@.contains_key(x),
    ensures
        atom == index@[x],
{
    proof {
        lemma_ids_ordered();
    }
    match index.get(&x) {
        Some(atom) => *atom,
        None => {
            proof {
                assert(false);
            }
            GroundedAtomId::new(0)
        },
    }
}

/// A strictly sorted list with the atoms of `[a]` is `[a]`.
proof fn lemma_single_body(body: Seq<GroundedAtomId>, a: GroundedAtomId)
    requires
        strictly_sorted(body),
        same_atoms(body, seq![a]),
    ensures
        body == seq![a],
{
    assert(seq![a][0] == a);
    assert(seq![a].contains(a));
    assert(body.contains(a));
    if body.len() >= 2 {
        assert(seq![a].contains(body[0]) && seq![a].contains(body[1]));
        assert(body[0].id() < body[1].id());
    }
    assert(body.len() == 1);
    assert(seq![a].contains(body[0]));
    assert(body =~= seq![a]);
}

/// One rule per edge: from the atom of its source to the atom of its target.
fn edge_rules(edges: &Vec<(EntityId, EntityId)>, index: &BTreeMap<EntityId, GroundedAtomId>) -> (rules: Vec<GroundedRule>)
    requires
        forall|t: int| 0 <= t < edges@.len() ==> index@.contains_key((#[trigger] edges@[t]).0) && index@.contains_key(edges@[t].1),
    ensures
        rules@.len() == edges@.len(),
        forall|t: int| 0 <= t < rules@.len() ==> (#[trigger] rules@[t]).spec_body() == seq![index@[edges@[t].0]]
            && rules@[t].spec_head() == index@[edges@[t].1] && rules@[t].spec_enabled(),
{
    let mut rules: Vec<GroundedRule> = Vec::new();
    let mut t: usize = 0;
    while t < edges.len()
        invariant
            t <= edges@.len(),
            forall|u: int| 0 <= u < edges@.len() ==> index@.contains_key((#[trigger] edges@[u]).0) && index@.contains_key(edges@[u].1),
            rules@.len() == t,
            forall|u: int| 0 <= u < t ==> (#[trigger] rules@[u]).spec_body() == seq![index@[edges@[u].0]]
                && rules@[u].spec_head() == index@[edges@[u].1] && rules@[u].spec_enabled(),
        decreases edges@.len() - t,
    {
        let (parent, child) = edges[t];
        assert(edges@[t as int] == (parent, child));
        let parent_atom = atom_of(index, parent);
        let child_atom = atom_of(index, child);
        let mut body: Vec<GroundedAtomId> = Vec::new();
        body.push(parent_atom);
        assert(body@ =~= seq![parent_atom]);
        let rule = GroundedRule::new(body, child_atom);
        proof {
            lemma_single_body(rule.spec_body(), parent_atom);
        }
        rules.push(rule);
        t = t + 1;
    }
    rules
}

/// The atoms of `ids`.
fn atoms_of(ids: &Vec<EntityId>, index: &BTreeMap<EntityId, GroundedAtomId>) -> (atoms: Vec<GroundedAtomId>)
    requires
        forall|t: int| 0 <= t < ids@.len() ==> index@.contains_key(#[trigger] ids@[t]),
    ensures
        atoms@.len() == ids@.len(),
        forall|t: int| 0 <= t < atoms@.len() ==> #[trigger] atoms@[t] == index@[ids@[t]],
{
    let mut atoms: Vec<GroundedAtomId> = Vec::new();
    let mut t: usize = 0;
    while t < ids.len()
        invariant
            t <= ids@.len(),
            forall|u: int| 0 <= u < ids@.len() ==> index@.contains_key(#[trigger] ids@[u]),
            atoms@.len() == t,
            forall|u: int| 0 <= u < t ==> #[trigger] atoms@[u] == index@[ids@[u]],
        decreases ids@.len() - t,
    {
        atoms.push(atom_of(index, ids[t]));
        t = t + 1;
    }
    atoms
}

/// The entity of the atom at position `t` of `live`.
spec fn live_entity(entities: Seq<EntityId>, live: Seq<GroundedAtomId>, t: int) -> EntityId {
    entities[live[t].id() as int]
}

/// What solving builds, read back: the reachable set, ranks and parents
/// taken from a valid grounded certificate of the edge rules certify the program.
proof fn lemma_solved_certifies(
    program: ReachabilityProgram,
    entities: Seq<EntityId>,
    seeds: Seq<EntityId>,
    edges: Seq<(EntityId, EntityId)>,
    index: Map<EntityId, GroundedAtomId>,
    seed_atoms: Seq<GroundedAtomId>,
    g: GroundedProgram,
    gc: crate::grounded::GroundedCertificate,
    live: Seq<GroundedAtomId>,
    certificate: ReachabilityCertificate,
)
    requires
        increasing_ids(entities),
        entities.to_set() == program.universe@,
        seeds.to_set() == program.seeds@,
        edges.to_set() == program.edges@,
        within_universe(program.universe@, program.seeds@, program.edges@),
        forall|i: int| 0 <= i < entities.len() ==> index.contains_key(#[trigger] entities[i]) && index[entities[i]].id() == i,
        forall|x: EntityId| #[trigger] index.contains_key(x) ==> entities.contains(x),
        g.spec_atom_count() == entities.len(),
        g.spec_rules().len() == edges.len(),
        forall|t: int| 0 <= t < edges.len() ==> (#[trigger] g.spec_rules()[t]).spec_body() == seq![index[edges[t].0]]
            && g.spec_rules()[t].spec_head() == index[edges[t].1] && g.spec_rules()[t].spec_enabled(),
        same_atoms(g.spec_seeds(), seed_atoms),
        seed_atoms.len() == seeds.len(),
        forall|t: int| 0 <= t < seed_atoms.len() ==> #[trigger] seed_atoms[t] == index[seeds[t]],
        cert_valid(g, gc),
        seeds_ranked(g, gc.spec_rank()),
        forall|a: GroundedAtomId| live.contains(a) <==> gc.live_at(a.id() as int),
        forall|x: EntityId| certificate.reachable@.contains(x) <==> exists|t: int| 0 <= t < live.len() && live_entity(entities, live, t) == x,
        forall|t: int| 0 <= t < live.len() ==> certificate.rank@.contains_key(#[trigger] live_entity(entities, live, t))
            && certificate.rank@[live_entity(entities, live, t)] == gc.spec_rank()[live[t].id() as int]->0,
        forall|t: int| 0 <= t < live.len() ==> (gc.spec_witness()[live[t].id() as int] matches Some(GroundedWitness::Rule(rid)) ==>
            certificate.parent@.contains_key(#[trigger] live_entity(entities, live, t))
                && certificate.parent@[live_entity(entities, live, t)] == edges[rid.id() as int].0),
    ensures
        certifies(program, certificate),
{
    let u = program.universe@;
    let s = program.seeds@;
    let e = program.edges@;
    let reach = certificate.reachable@;
    let rank = certificate.rank@;
    let n = entities.len();
    // Every member of the universe is an entity whose atom sits at its position.
    assert forall|x: EntityId| u.contains(x) implies index.contains_key(x) && index[x].id() < n && entities[index[x].id() as int] == x by {
        assert(entities.to_set().contains(x));
        let j = choose|j: int| 0 <= j < n && entities[j] == x;
        assert(index.contains_key(entities[j]));
    }
    // A live atom's entity is reachable.
    assert forall|x: EntityId| u.contains(x) && gc.live_at(index[x].id() as int) implies reach.contains(x) by {
        assert(live.contains(index[x]));
        let t = choose|t: int| 0 <= t < live.len() && live[t] == index[x];
        assert(live_entity(entities, live, t) == x);
    }
    assert forall|x: EntityId| #[trigger] reach.contains(x) implies u.contains(x) by {
        let t = choose|t: int| 0 <= t < live.len() && live_entity(entities, live, t) == x;
        assert(live.contains(live[t]));
        assert(gc.live_at(live[t].id() as int));
        assert(entities.to_set().contains(entities[live[t].id() as int]));
    }
    assert forall|x: EntityId| #[trigger] s.contains(x) implies reach.contains(x) && rank.contains_key(x) && rank[x] == 0 by {
        assert(u.contains(x));
        assert(seeds.to_set().contains(x));
        let t = choose|t: int| 0 <= t < seeds.len() && seeds[t] == x;
        assert(seed_atoms[t] == index[x]);
        assert(seed_atoms.contains(index[x]));
        assert(g.spec_seeds().contains(index[x]));
        let k = choose|k: int| 0 <= k < g.spec_seeds().len() && g.spec_seeds()[k] == index[x];
        assert(gc.spec_live()[g.spec_seeds()[k].id() as int]);
        assert(gc.spec_rank()[g.spec_seeds()[k].id() as int] == Some(0usize));
        assert(gc.live_at(index[x].id() as int));
        assert(live.contains(index[x]));
        let m = choose|m: int| 0 <= m < live.len() && live[m] == index[x];
        assert(live_entity(entities, live, m) == x);
        assert(rank.contains_key(live_entity(entities, live, m)));
    }
    assert forall|v: EntityId| #[trigger] reach.contains(v) implies rank.contains_key(v)
        && (!s.contains(v) ==> parent_ok(e, reach, rank, certificate.parent@, v)) by {
        let t = choose|t: int| 0 <= t < live.len() && live_entity(entities, live, t) == v;
        let a = live[t].id() as int;
        assert(live.contains(live[t]));
        assert(gc.live_at(a));
        assert(rank.contains_key(live_entity(entities, live, t)));
        if !s.contains(v) {
            assert(atom_justified(g, gc, a));
            match (gc.spec_rank()[a], gc.spec_witness()[a]) {
                (Some(r), Some(GroundedWitness::Seed)) => {
                    assert(g.is_seed(a));
                    let k = choose|k: int| 0 <= k < g.spec_seeds().len() && #[trigger] g.spec_seeds()[k].id() == a;
                    assert(g.spec_seeds().contains(g.spec_seeds()[k]));
                    assert(seed_atoms.contains(g.spec_seeds()[k]));
                    let m = choose|m: int| 0 <= m < seed_atoms.len() && seed_atoms[m] == g.spec_seeds()[k];
                    assert(seeds.to_set().contains(seeds[m]));
                    assert(u.contains(seeds[m]));
                    assert(entities[index[seeds[m]].id() as int] == seeds[m]);
                    assert(false);
                },
                (Some(r), Some(GroundedWitness::Rule(rid))) => {
                    let j = rid.id() as int;
                    let rule = g.spec_rules()[j];
                    let edge = edges[j];
                    assert(edges.to_set().contains(edge));
                    assert(e.contains(edge));
                    assert(u.contains(edge.0) && u.contains(edge.1));
                    assert(rule.spec_head() == index[edge.1]);
                    assert(entities[index[edge.1].id() as int] == edge.1);
                    assert(v == edge.1);
                    assert(certificate.parent@.contains_key(live_entity(entities, live, t)));
                    let w = edge.0;
                    assert(certificate.parent@[v] == w);
                    assert(premises_ranked_below(gc, rule, r));
                    assert(rule.spec_body()[0] == index[w]);
                    let q = index[w].id() as int;
                    assert(gc.spec_live()[q]);
                    assert(gc.live_at(q));
                    assert(reach.contains(w));
                    assert(live.contains(index[w]));
                    let m = choose|m: int| 0 <= m < live.len() && live[m] == index[w];
                    assert(live_entity(entities, live, m) == w);
                    assert(rank.contains_key(live_entity(entities, live, m)));
                    assert(rank[w] < rank[v]);
                    assert(edge == (w, v));
                },
                _ => {},
            }
        }
    }
    assert forall|x: (EntityId, EntityId)| #[trigger] e.contains(x) && reach.contains(x.0) implies reach.contains(x.1) by {
        assert(edges.to_set().contains(x));
        let j = choose|j: int| 0 <= j < edges.len() && edges[j] == x;
        let rule = g.spec_rules()[j];
        assert(u.contains(x.0) && u.contains(x.1));
        let t = choose|t: int| 0 <= t < live.len() && live_entity(entities, live, t) == x.0;
        assert(live.contains(live[t]));
        assert(gc.live_at(live[t].id() as int));
        assert(index[entities[live[t].id() as int]].id() == live[t].id());
        assert(body_live(rule, gc.spec_live())) by {
            assert forall|k: int| 0 <= k < rule.spec_body().len() implies gc.spec_live()[#[trigger] rule.spec_body()[k].id() as int] by {
                assert(rule.spec_body()[k] == index[x.0]);
            }
        }
        assert(gc.spec_live()[rule.spec_head().id() as int]);
        assert(gc.live_at(index[x.1].id() as int));
    }
}

/// The entities reachable from the seeds, with ranks and parents that
/// `check` accepts, computed as the grounded closure of one rule per edge.
pub fn solve(program: &ReachabilityProgram) -> (result: Result<ReachabilityCertificate, FixpointError>)
    ensures
        match result {
            Ok(certificate) => {
                &&& validation_outcome(program.universe@, program.seeds@, program.edges@) is Ok
                &&& certifies(*program, certificate)
                &&& certificate.reachable@ == least_reach(program.seeds@, program.edges@)
            },
            Err(e) => Err::<(), FixpointError>(e) == validation_outcome(program.universe@, program.seeds@, program.edges@),
        },
{
    proof {
        lemma_ids_ordered();
        lemma_pairs_ordered();
    }
    program.validate()?;
    let entity_by_atom = set_elements(&program.universe);
    let seeds = set_elements(&program.seeds);
    let rule_edges = pair_set_elements(&program.edges);
    proof {
        lemma_validation_ok(program.universe@, program.seeds@, program.edges@);
    }
    let atom_by_entity = atom_index(&entity_by_atom);
    proof {
        assert forall|x: EntityId| program.universe@.contains(x) implies atom_by_entity@.contains_key(x) by {
            assert(entity_by_atom@.to_set().contains(x));
            let j = choose|j: int| 0 <= j < entity_by_atom@.len() && entity_by_atom@[j] == x;
            assert(atom_by_entity@.contains_key(entity_by_atom@[j]));
        }
        assert forall|t: int| 0 <= t < rule_edges@.len() implies atom_by_entity@.contains_key((#[trigger] rule_edges@[t]).0)
            && atom_by_entity@.contains_key(rule_edges@[t].1) by {
            assert(rule_edges@.to_set().contains(rule_edges@[t]));
            assert(program.edges@.contains(rule_edges@[t]));
        }
        assert forall|t: int| 0 <= t < seeds@.len() implies atom_by_entity@.contains_key(#[trigger] seeds@[t]) by {
            assert(seeds@.to_set().contains(seeds@[t]));
            assert(program.seeds@.contains(seeds@[t]));
        }
    }
    let rules = edge_rules(&rule_edges, &atom_by_entity);
    let seed_atoms = atoms_of(&seeds, &atom_by_entity);
    let n = entity_by_atom.len();
    let ghost rules_view = rules@;
    let ghost seeds_view = seed_atoms@;
    proof {
        assert forall|x: EntityId| #[trigger] atom_by_entity@.contains_key(x) implies atom_by_entity@[x].id() < n by {
            assert(entity_by_atom@.contains(x));
            let j = choose|j: int| 0 <= j < entity_by_atom@.len() && entity_by_atom@[j] == x;
            assert(atom_by_entity@.contains_key(entity_by_atom@[j]));
        }
        assert(atoms_below(seed_atoms@, n as nat)) by {
            assert forall|i: int| 0 <= i < seed_atoms@.len() implies #[trigger] seed_atoms@[i].id() < n by {
                assert(atom_by_entity@.contains_key(seeds@[i]));
            }
        }
        assert(rules_below(rules@, n as nat)) by {
            assert forall|r: int| 0 <= r < rules@.len() implies {
                &&& #[trigger] rules@[r].spec_head().id() < n
                &&& atoms_below(rules@[r].spec_body(), n as nat)
            } by {
                assert(atom_by_entity@.contains_key(rule_edges@[r].0));
                assert(atom_by_entity@.contains_key(rule_edges@[r].1));
                assert(rules@[r].spec_body() == seq![atom_by_entity@[rule_edges@[r].0]]);
            }
        }
    }
    let grounded = match GroundedProgram::new(n, seed_atoms, rules) {
        Ok(grounded) => grounded,
        Err(e) => {
            proof {
                assert(false);
            }
            return Err(FixpointError::GroundedClosure(e));
        },
    };
    let (grounded_certificate, _stats) = crate::grounded::solve(&grounded);
    let live = grounded_certificate.live_atoms();
    let mut reachable: BTreeSet<EntityId> = BTreeSet::new();
    let mut rank: BTreeMap<EntityId, usize> = BTreeMap::new();
    let mut parent: BTreeMap<EntityId, EntityId> = BTreeMap::new();
    let mut k: usize = 0;
    while k < live.len()
        invariant
            k <= live@.len(),
            increasing_ids(entity_by_atom@),
            entity_by_atom@.len() == n,
            grounded.spec_atom_count() == n,
            grounded.spec_rules().len() == rule_edges@.len(),
            cert_valid(grounded, grounded_certificate),
            strictly_sorted(live@),
            forall|a: GroundedAtomId| live@.contains(a) <==> grounded_certificate.live_at(a.id() as int),
            forall|x: EntityId| reachable@.contains(x) <==> exists|t: int| 0 <= t < k && live_entity(entity_by_atom@, live@, t) == x,
            forall|t: int| 0 <= t < k ==> rank@.contains_key(#[trigger] live_entity(entity_by_atom@, live@, t))
                && rank@[live_entity(entity_by_atom@, live@, t)] == grounded_certificate.spec_rank()[live@[t].id() as int]->0,
            forall|t: int| 0 <= t < k ==> (grounded_certificate.spec_witness()[live@[t].id() as int] matches Some(GroundedWitness::Rule(rid)) ==>
                parent@.contains_key(#[trigger] live_entity(entity_by_atom@, live@, t))
                    && parent@[live_entity(entity_by_atom@, live@, t)] == rule_edges@[rid.id() as int].0),
        decreases live@.len() - k,
    {
        let atom = live[k];
        proof {
            assert(live@.contains(atom));
            assert(grounded_certificate.live_at(atom.id() as int));
            assert(crate::grounded::shape_ok(grounded, grounded_certificate));
            assert(atom_justified(grounded, grounded_certificate, atom.id() as int));
            assert forall|t: int| 0 <= t < k implies live_entity(entity_by_atom@, live@, t) != entity_by_atom@[atom.id() as int] by {
                assert(live@[t].id() < atom.id());
            }
        }
        let entity = entity_by_atom[atom.index()];
        let ghost fresh = entity;
        reachable.insert(entity);
        let atom_rank = match grounded_certificate.rank(atom) {
            Some(atom_rank) => atom_rank,
            None => {
                proof {
                    assert(false);
                }
                return Err(FixpointError::MissingRank(entity));
            },
        };
        rank.insert(entity, atom_rank);
        match grounded_certificate.witness(atom) {
            Some(GroundedWitness::Rule(rule_id)) => {
                let (witness_parent, _witness_child) = rule_edges[rule_id.index()];
                parent.insert(entity, witness_parent);
            },
            _ => {},
        }
        proof {
            assert(live_entity(entity_by_atom@, live@, k as int) == fresh);
            assert forall|x: EntityId| reachable@.contains(x) <==> exists|t: int| 0 <= t < k + 1 && live_entity(entity_by_atom@, live@, t) == x by {
                if reachable@.contains(x) && x != fresh {
                    let t = choose|t: int| 0 <= t < k && live_entity(entity_by_atom@, live@, t) == x;
                    assert(live_entity(entity_by_atom@, live@, t) == x);
                }
                if exists|t: int| 0 <= t < k + 1 && live_entity(entity_by_atom@, live@, t) == x {
                    let t = choose|t: int| 0 <= t < k + 1 && live_entity(entity_by_atom@, live@, t) == x;
                    if t < k {
                        assert(exists|t2: int| 0 <= t2 < k && live_entity(entity_by_atom@, live@, t2) == x);
                    }
                }
            }
        }
        k = k + 1;
    }
    let certificate = ReachabilityCertificate { reachable, rank, parent };
    proof {
        lemma_solved_certifies(
            *program,
            entity_by_atom@,
            seeds@,
            rule_edges@,
            atom_by_entity@,
            seeds_view,
            grounded,
            grounded_certificate,
            live@,
            certificate,
        );
        lemma_certified_is_least(*program, certificate);
    }
    Ok(certificate)
}

/// A solver whose answers come with certificates that an independent `check` accepts.
pub trait CertifiedFixpointSolver {
    type Program;
    type Certificate;
    type Output;
    type Error;

    fn solve(program: &Self::Program) -> Result<Self::Certificate, Self::Error>;

    fn check(program: &Self::Program, certificate: &Self::Certificate) -> Result<(), Self::Error>;

    fn output(certificate: &Self::Certificate) -> &Self::Output;
}

/// Reachability as a certified fixpoint solver.
pub struct ReachabilitySolver;

impl CertifiedFixpointSolver for ReachabilitySolver {
    type Program = ReachabilityProgram;
    type Certificate = ReachabilityCertificate;
    type Output = BTreeSet<EntityId>;
    type Error = FixpointError;

    fn solve(program: &ReachabilityProgram) -> (result: Result<ReachabilityCertificate, FixpointError>)
        ensures
            match result {
                Ok(certificate) => {
                    &&& validation_outcome(program.universe@, program.seeds@, program.edges@) is Ok
                    &&& certifies(*program, certificate)
                    &&& certificate.reachable@ == least_reach(program.seeds@, program.edges@)
                },
                Err(e) => Err::<(), FixpointError>(e) == validation_outcome(program.universe@, program.seeds@, program.edges@),
            },
    {
        solve(program)
    }

    fn check(program: &ReachabilityProgram, certificate: &ReachabilityCertificate) -> (result: Result<(), FixpointError>)
        ensures
            result == check_outcome(*program, *certificate),
    {
        check(program, certificate)
    }

    fn output(certificate: &ReachabilityCertificate) -> (reachable: &BTreeSet<EntityId>)
        ensures
            reachable@ == certificate.reachable@,
    {
        &certificate.reachable
    }
}

} // verus!
