use std::collections::{BTreeMap, BTreeSet, VecDeque};

use kernel_core::identity::EntityId;
use kernel_core::reachability::{
    check, solve, CertifiedFixpointSolver, FixpointError, ReachabilityCertificate,
    ReachabilityProgram, ReachabilitySolver,
};

fn id(raw: u128) -> EntityId {
    raw
}

#[test]
fn solver_emits_checkable_least_fixpoint_certificate() {
    let program = ReachabilityProgram {
        universe: BTreeSet::from([id(1), id(2), id(3), id(4)]),
        seeds: BTreeSet::from([id(1)]),
        edges: BTreeSet::from([(id(1), id(2)), (id(2), id(3))]),
    };
    let certificate = solve(&program).unwrap();
    assert_eq!(certificate.reachable, BTreeSet::from([id(1), id(2), id(3)]));
    assert_eq!(check(&program, &certificate), Ok(()));
}

#[test]
fn checker_rejects_closed_but_nonleast_superset_without_witness() {
    let program = ReachabilityProgram {
        universe: BTreeSet::from([id(1), id(2), id(9)]),
        seeds: BTreeSet::from([id(1)]),
        edges: BTreeSet::from([(id(1), id(2))]),
    };
    let certificate = ReachabilityCertificate {
        reachable: BTreeSet::from([id(1), id(2), id(9)]),
        rank: BTreeMap::from([(id(1), 0), (id(2), 1), (id(9), 1)]),
        parent: BTreeMap::from([(id(2), id(1))]),
    };
    assert_eq!(
        check(&program, &certificate),
        Err(FixpointError::MissingParent(id(9)))
    );
}

#[test]
fn checker_rejects_nonclosed_candidate() {
    let program = ReachabilityProgram {
        universe: BTreeSet::from([id(1), id(2)]),
        seeds: BTreeSet::from([id(1)]),
        edges: BTreeSet::from([(id(1), id(2))]),
    };
    let certificate = ReachabilityCertificate {
        reachable: BTreeSet::from([id(1)]),
        rank: BTreeMap::from([(id(1), 0)]),
        parent: BTreeMap::new(),
    };
    assert_eq!(
        check(&program, &certificate),
        Err(FixpointError::NotClosedUnderEdge {
            parent: id(1),
            child: id(2)
        })
    );
}

#[test]
fn adjacency_lowering_preserves_relation_scan_certificate_exactly() {
    fn reference(program: &ReachabilityProgram) -> ReachabilityCertificate {
        let mut reachable = BTreeSet::new();
        let mut rank = BTreeMap::new();
        let mut parent = BTreeMap::new();
        let mut queue = VecDeque::new();
        for &seed in &program.seeds {
            reachable.insert(seed);
            rank.insert(seed, 0);
            queue.push_back(seed);
        }
        while let Some(current) = queue.pop_front() {
            let current_rank = rank[&current];
            for &(left, right) in &program.edges {
                if left == current && reachable.insert(right) {
                    rank.insert(right, current_rank + 1);
                    parent.insert(right, current);
                    queue.push_back(right);
                }
            }
        }
        ReachabilityCertificate {
            reachable,
            rank,
            parent,
        }
    }

    for salt in 0_u64..32 {
        let universe = (0_u64..24)
            .map(|raw| id(u128::from(raw)))
            .collect::<BTreeSet<_>>();
        let seeds = BTreeSet::from([id(u128::from(salt % 5))]);
        let mut edges = BTreeSet::new();
        for left in 0_u64..24 {
            for right in 0_u64..24 {
                if left != right && (left * 17 + right * 31 + salt * 13) % 19 == 0 {
                    edges.insert((id(u128::from(left)), id(u128::from(right))));
                }
            }
        }
        let program = ReachabilityProgram {
            universe,
            seeds,
            edges,
        };
        assert_eq!(solve(&program).unwrap(), reference(&program), "salt={salt}");
    }
}

#[test]
fn solver_boundary_outputs_the_checked_reachable_set() {
    let program = ReachabilityProgram {
        universe: BTreeSet::from([id(1), id(2)]),
        seeds: BTreeSet::from([id(1)]),
        edges: BTreeSet::from([(id(1), id(2))]),
    };
    let certificate = ReachabilitySolver::solve(&program).unwrap();
    assert_eq!(ReachabilitySolver::check(&program, &certificate), Ok(()));
    assert_eq!(
        ReachabilitySolver::output(&certificate),
        &BTreeSet::from([id(1), id(2)])
    );
}

#[test]
fn validation_refuses_seeds_and_edges_outside_the_universe() {
    let program = ReachabilityProgram {
        universe: BTreeSet::from([id(1), id(2)]),
        seeds: BTreeSet::from([id(7), id(3)]),
        edges: BTreeSet::new(),
    };
    assert_eq!(program.validate(), Err(FixpointError::SeedOutsideUniverse(id(3))));
    assert_eq!(solve(&program), Err(FixpointError::SeedOutsideUniverse(id(3))));
    let program = ReachabilityProgram {
        universe: BTreeSet::from([id(1), id(2)]),
        seeds: BTreeSet::from([id(1)]),
        edges: BTreeSet::from([(id(2), id(5)), (id(1), id(8))]),
    };
    assert_eq!(program.validate(), Err(FixpointError::EdgeOutsideUniverse(id(8))));
}

#[test]
fn checker_reports_seed_rank_and_parent_problems() {
    let program = ReachabilityProgram {
        universe: BTreeSet::from([id(1), id(2), id(3)]),
        seeds: BTreeSet::from([id(1)]),
        edges: BTreeSet::from([(id(1), id(2))]),
    };
    let outside = ReachabilityCertificate {
        reachable: BTreeSet::from([id(1), id(4)]),
        rank: BTreeMap::new(),
        parent: BTreeMap::new(),
    };
    assert_eq!(
        check(&program, &outside),
        Err(FixpointError::CertificateContainsOutsideUniverse(id(4)))
    );
    let no_seed = ReachabilityCertificate {
        reachable: BTreeSet::new(),
        rank: BTreeMap::new(),
        parent: BTreeMap::new(),
    };
    assert_eq!(check(&program, &no_seed), Err(FixpointError::MissingSeed(id(1))));
    let seed_rank = ReachabilityCertificate {
        reachable: BTreeSet::from([id(1), id(2)]),
        rank: BTreeMap::from([(id(1), 1), (id(2), 2)]),
        parent: BTreeMap::from([(id(2), id(1))]),
    };
    assert_eq!(
        check(&program, &seed_rank),
        Err(FixpointError::SeedHasNonZeroRank(id(1)))
    );
    let flat_rank = ReachabilityCertificate {
        reachable: BTreeSet::from([id(1), id(2)]),
        rank: BTreeMap::from([(id(1), 0), (id(2), 0)]),
        parent: BTreeMap::from([(id(2), id(1))]),
    };
    assert_eq!(
        check(&program, &flat_rank),
        Err(FixpointError::ParentRankNotSmaller(id(2)))
    );
    let wrong_edge = ReachabilityCertificate {
        reachable: BTreeSet::from([id(1), id(2), id(3)]),
        rank: BTreeMap::from([(id(1), 0), (id(2), 1), (id(3), 2)]),
        parent: BTreeMap::from([(id(2), id(1)), (id(3), id(2))]),
    };
    assert_eq!(
        check(&program, &wrong_edge),
        Err(FixpointError::MissingWitnessEdge {
            parent: id(2),
            child: id(3)
        })
    );
}
