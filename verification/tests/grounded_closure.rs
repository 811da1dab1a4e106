use kernel_core::grounded::{
    apply_update, check, check_bipolar_support, reconcile_bipolar_support,
    reconcile_structural_change, solve, solve_bipolar_support, BipolarSupportProgram,
    BipolarSupportRequirement, GroundedAtomId, GroundedClosureError, GroundedProgram,
    GroundedRule, GroundedRuleId, GroundedUpdate, GroundedWitness,
};
use kernel_core::grounded::{local_recompute_after_deletion_indexed, GroundedIncidenceIndex};

#[derive(Clone)]
struct Rng(usize);

impl Rng {
    fn next(&mut self) -> usize {
        self.0 = self.0.wrapping_mul(1_664_525).wrapping_add(1_013_904_223);
        self.0
    }

    fn usize(&mut self, n: usize) -> usize {
        self.next() % n.max(1)
    }

    fn bool(&mut self, numerator: usize, denominator: usize) -> bool {
        self.usize(denominator) < numerator
    }
}

fn atom(index: usize) -> GroundedAtomId {
    GroundedAtomId::new(index)
}

fn random_program(rng: &mut Rng, atoms: usize, rules: usize) -> GroundedProgram {
    let seeds = (0..atoms)
        .filter(|_| rng.bool(1, 5))
        .map(atom)
        .collect::<Vec<_>>();
    let rules = (0..rules)
        .map(|_| {
            let arity = rng.usize(4);
            let body = (0..arity)
                .map(|_| atom(rng.usize(atoms)))
                .collect::<Vec<_>>();
            let head = atom(rng.usize(atoms));
            GroundedRule::new(body, head)
        })
        .collect::<Vec<_>>();
    GroundedProgram::new(atoms, seeds, rules).unwrap()
}

fn naive_live(program: &GroundedProgram) -> Vec<bool> {
    let mut live = vec![false; program.atom_count()];
    for seed in program.seeds() {
        live[seed.index()] = true;
    }
    loop {
        let mut changed = false;
        for rule in program.rules() {
            if !rule.enabled() || live[rule.head().index()] {
                continue;
            }
            if rule.body().iter().all(|premise| live[premise.index()]) {
                live[rule.head().index()] = true;
                changed = true;
            }
        }
        if !changed {
            return live;
        }
    }
}

fn live_vector(program: &GroundedProgram, certificate: &kernel_core::grounded::GroundedCertificate) -> Vec<bool> {
    (0..program.atom_count())
        .map(|index| certificate.is_live(atom(index)))
        .collect()
}

fn rebuild(atom_count: usize, seeds: Vec<GroundedAtomId>, rules: Vec<GroundedRule>) -> GroundedProgram {
    GroundedProgram::new(atom_count, seeds, rules).unwrap()
}

#[test]
fn randomized_solver_matches_naive_and_certificate() {
    let mut rng = Rng(1);
    for _ in 0..2_000 {
        let atoms = 1 + rng.usize(18);
        let rules = rng.usize(50);
        let program = random_program(&mut rng, atoms, rules);
        let (certificate, _) = solve(&program);
        assert_eq!(live_vector(&program, &certificate), naive_live(&program));
        assert_eq!(check(&program, &certificate), Ok(()));
    }
}

#[test]
fn groundless_cycle_remains_dead() {
    let program = GroundedProgram::new(
        2,
        vec![],
        vec![
            GroundedRule::new(vec![atom(0)], atom(1)),
            GroundedRule::new(vec![atom(1)], atom(0)),
        ],
    )
    .unwrap();
    let (certificate, _) = solve(&program);
    assert!(!certificate.is_live(atom(0)));
    assert!(!certificate.is_live(atom(1)));
    assert_eq!(check(&program, &certificate), Ok(()));
}

#[test]
fn genuine_hyperrule_requires_all_premises() {
    let rules = vec![GroundedRule::new(vec![atom(0), atom(1)], atom(2))];
    let one = GroundedProgram::new(3, vec![atom(0)], rules.clone()).unwrap();
    assert!(!solve(&one).0.is_live(atom(2)));
    let both = GroundedProgram::new(3, vec![atom(0), atom(1)], rules).unwrap();
    assert!(solve(&both).0.is_live(atom(2)));
}

#[test]
fn randomized_mixed_updates_match_full_rebuild() {
    let mut rng = Rng(7);
    let mut program = random_program(&mut rng, 40, 100);
    let (mut certificate, _) = solve(&program);
    for _ in 0..5_000 {
        let mut update = GroundedUpdate::default();
        match rng.usize(4) {
            0 => update.add_seeds.push(atom(rng.usize(program.atom_count()))),
            1 => update
                .remove_seeds
                .push(atom(rng.usize(program.atom_count()))),
            2 => update
                .enable_rules
                .push(GroundedRuleId::new(rng.usize(program.rules().len()))),
            _ => update
                .disable_rules
                .push(GroundedRuleId::new(rng.usize(program.rules().len()))),
        }
        let (next, _) = apply_update(&mut program, &certificate, &update).unwrap();
        let full = solve(&program).0;
        assert_eq!(next.live_atoms(), full.live_atoms());
        certificate = next;
    }
}

#[test]
fn deleting_non_witness_rule_does_no_invalidation_work() {
    let mut program = GroundedProgram::new(
        4,
        vec![atom(0), atom(1)],
        vec![
            GroundedRule::new(vec![atom(0)], atom(2)),
            GroundedRule::new(vec![atom(1)], atom(2)),
            GroundedRule::new(vec![atom(2)], atom(3)),
        ],
    )
    .unwrap();
    let (certificate, _) = solve(&program);
    assert_eq!(
        certificate.witness(atom(2)),
        Some(GroundedWitness::Rule(GroundedRuleId::new(0)))
    );
    let update = GroundedUpdate {
        disable_rules: vec![GroundedRuleId::new(1)],
        ..GroundedUpdate::default()
    };
    let (same, stats) = apply_update(&mut program, &certificate, &update).unwrap();
    assert_eq!(same.live_atoms(), certificate.live_atoms());
    assert_eq!(stats.affected_atoms, 0);
}

#[test]
fn deleting_grounding_seed_kills_self_supported_cycle() {
    let mut program = GroundedProgram::new(
        3,
        vec![atom(0)],
        vec![
            GroundedRule::new(vec![atom(0)], atom(1)),
            GroundedRule::new(vec![atom(1)], atom(2)),
            GroundedRule::new(vec![atom(2)], atom(1)),
        ],
    )
    .unwrap();
    let (certificate, _) = solve(&program);
    let update = GroundedUpdate {
        remove_seeds: vec![atom(0)],
        ..GroundedUpdate::default()
    };
    let (next, stats) = apply_update(&mut program, &certificate, &update).unwrap();
    assert!(next.live_atoms().is_empty());
    assert_eq!(stats.affected_atoms, 3);
}

#[test]
fn structural_body_extension_resurrects_only_selected_witness_cone() {
    let old_program = GroundedProgram::new(
        5,
        vec![atom(0)],
        vec![
            GroundedRule::new(vec![atom(0)], atom(2)),
            GroundedRule::new(vec![atom(2)], atom(3)),
            GroundedRule::new(vec![atom(4)], atom(1)),
        ],
    )
    .unwrap();
    let (old, _) = solve(&old_program);
    assert!(old.is_live(atom(2)));
    assert!(old.is_live(atom(3)));

    let new_program = GroundedProgram::new(
        5,
        vec![atom(0)],
        vec![
            GroundedRule::new(vec![atom(0), atom(1)], atom(2)),
            GroundedRule::new(vec![atom(2)], atom(3)),
            GroundedRule::new(vec![atom(4)], atom(1)),
        ],
    )
    .unwrap();
    let (reconciled, stats) =
        reconcile_structural_change(&old_program, &new_program, &old).unwrap();
    let rebuilt = solve(&new_program).0;
    assert_eq!(reconciled.live_atoms(), rebuilt.live_atoms());
    assert!(!reconciled.is_live(atom(2)));
    assert!(!reconciled.is_live(atom(3)));
    assert_eq!(stats.affected_atoms, 2);
}

#[test]
fn randomized_structural_reconciliation_matches_full_rebuild() {
    let mut rng = Rng(31);
    let mut program = random_program(&mut rng, 24, 48);
    let (mut certificate, _) = solve(&program);
    for _ in 0..2_000 {
        let mut atom_count = program.atom_count();
        let mut seeds = program.seeds().to_vec();
        let mut rules = program.rules().to_vec();
        match rng.usize(6) {
            0 => {
                atom_count += 1;
                let new_atom = atom(atom_count - 1);
                if rng.bool(1, 2) {
                    seeds.push(new_atom);
                }
                rules.push(GroundedRule::new(vec![atom(rng.usize(atom_count))], new_atom));
            }
            1 => {
                let candidate = atom(rng.usize(atom_count));
                if seeds.contains(&candidate) {
                    seeds.retain(|seed| *seed != candidate);
                } else {
                    seeds.push(candidate);
                }
            }
            2 if !rules.is_empty() => {
                let index = rng.usize(rules.len());
                let arity = rng.usize(4);
                let body = (0..arity)
                    .map(|_| atom(rng.usize(atom_count)))
                    .collect::<Vec<_>>();
                let head = atom(rng.usize(atom_count));
                rules[index] = GroundedRule::new(body, head);
            }
            3 if rules.len() > 1 => {
                let left = rng.usize(rules.len());
                let right = rng.usize(rules.len());
                rules.swap(left, right);
            }
            4 => rules.push(GroundedRule::new(
                vec![atom(rng.usize(atom_count))],
                atom(rng.usize(atom_count)),
            )),
            _ if !rules.is_empty() => {
                let index = rng.usize(rules.len());
                rules.remove(index);
            }
            _ => {}
        }
        let next = rebuild(atom_count, seeds, rules);
        next.validate().unwrap();
        let (reconciled, _) = reconcile_structural_change(&program, &next, &certificate).unwrap();
        let rebuilt = solve(&next).0;
        assert_eq!(reconciled.live_atoms(), rebuilt.live_atoms());
        assert_eq!(check(&next, &reconciled), Ok(()));
        program = next;
        certificate = reconciled;
    }
}

#[test]
fn bipolar_support_is_exact_complement_of_grounded_death() {
    // 0 and 1 mutually support each other; 2 has no supporter; 3 depends only on 2.
    let program = BipolarSupportProgram::new(
        4,
        vec![],
        vec![
            BipolarSupportRequirement::new(atom(0), vec![atom(1)]),
            BipolarSupportRequirement::new(atom(1), vec![atom(0)]),
            BipolarSupportRequirement::new(atom(2), vec![]),
            BipolarSupportRequirement::new(atom(3), vec![atom(2)]),
        ],
    )
    .unwrap();
    let (certificate, _) = solve_bipolar_support(&program).unwrap();
    assert!(certificate.is_supported(atom(0)));
    assert!(certificate.is_supported(atom(1)));
    assert!(!certificate.is_supported(atom(2)));
    assert!(!certificate.is_supported(atom(3)));
    assert_eq!(check_bipolar_support(&program, &certificate), Ok(()));
}

#[test]
fn unavailable_atom_grounds_death_through_support_requirements() {
    let program = BipolarSupportProgram::new(
        3,
        vec![atom(0)],
        vec![
            BipolarSupportRequirement::new(atom(1), vec![atom(0)]),
            BipolarSupportRequirement::new(atom(2), vec![atom(1)]),
        ],
    )
    .unwrap();
    let (certificate, _) = solve_bipolar_support(&program).unwrap();
    assert!(certificate.supported_atoms().is_empty());
}

#[test]
fn bipolar_body_extension_resurrects_support_through_death_witness_cone() {
    let old_program = BipolarSupportProgram::new(
        4,
        vec![atom(0)],
        vec![
            BipolarSupportRequirement::new(atom(2), vec![atom(0)]),
            BipolarSupportRequirement::new(atom(3), vec![atom(2)]),
        ],
    )
    .unwrap();
    let (old, _) = solve_bipolar_support(&old_program).unwrap();
    assert!(!old.is_supported(atom(2)));
    assert!(!old.is_supported(atom(3)));

    let new_program = BipolarSupportProgram::new(
        4,
        vec![atom(0)],
        vec![
            BipolarSupportRequirement::new(atom(2), vec![atom(0), atom(1)]),
            BipolarSupportRequirement::new(atom(3), vec![atom(2)]),
        ],
    )
    .unwrap();
    let (reconciled, stats) =
        reconcile_bipolar_support(&old_program, &new_program, &old).unwrap();
    let rebuilt = solve_bipolar_support(&new_program).unwrap().0;
    assert_eq!(reconciled.supported_atoms(), rebuilt.supported_atoms());
    assert!(reconciled.is_supported(atom(2)));
    assert!(reconciled.is_supported(atom(3)));
    assert_eq!(stats.affected_atoms, 2);
}

#[test]
fn program_rejects_atom_outside_universe() {
    let result = GroundedProgram::new(2, vec![atom(0)], vec![GroundedRule::new(vec![atom(5)], atom(1))]);
    assert_eq!(result.unwrap_err(), GroundedClosureError::AtomOutsideUniverse(atom(5)));
    let seeds = GroundedProgram::new(2, vec![atom(3), atom(7)], vec![]);
    assert_eq!(seeds.unwrap_err(), GroundedClosureError::AtomOutsideUniverse(atom(3)));
}

#[test]
fn check_reports_missing_seed_and_unclosed_rule() {
    let program = GroundedProgram::new(2, vec![atom(0)], vec![GroundedRule::new(vec![atom(0)], atom(1))]).unwrap();
    let (certificate, _) = solve(&program);
    let other = GroundedProgram::new(2, vec![atom(1)], vec![]).unwrap();
    let (empty_like, _) = solve(&other);
    assert_eq!(
        check(&program, &empty_like),
        Err(GroundedClosureError::SeedWitnessForNonSeed(atom(1)))
    );
    assert_eq!(check(&program, &certificate), Ok(()));
    let bigger = GroundedProgram::new(3, vec![atom(0)], vec![]).unwrap();
    assert_eq!(check(&bigger, &certificate), Err(GroundedClosureError::CertificateShapeMismatch));
}

#[test]
fn update_rejects_out_of_range_rule() {
    let mut program = GroundedProgram::new(2, vec![atom(0)], vec![GroundedRule::new(vec![atom(0)], atom(1))]).unwrap();
    let (certificate, _) = solve(&program);
    let update = GroundedUpdate {
        enable_rules: vec![GroundedRuleId::new(4)],
        ..GroundedUpdate::default()
    };
    assert_eq!(
        apply_update(&mut program, &certificate, &update).unwrap_err(),
        GroundedClosureError::RuleOutsideProgram(GroundedRuleId::new(4))
    );
}

#[test]
fn structural_change_rejects_shrinking_universe() {
    let old_program = GroundedProgram::new(3, vec![atom(0)], vec![]).unwrap();
    let (old, _) = solve(&old_program);
    let new_program = GroundedProgram::new(2, vec![atom(0)], vec![]).unwrap();
    assert_eq!(
        reconcile_structural_change(&old_program, &new_program, &old).unwrap_err(),
        GroundedClosureError::StructuralUniverseShrank { old_atom_count: 3, new_atom_count: 2 }
    );
}

#[test]
fn rule_body_is_sorted_and_deduplicated() {
    let rule = GroundedRule::new(vec![atom(3), atom(1), atom(3), atom(0)], atom(2));
    assert_eq!(rule.body(), &[atom(0), atom(1), atom(3)]);
    assert!(rule.enabled());
    assert!(!GroundedRule::disabled(vec![atom(1)], atom(0)).enabled());
}

#[test]
fn rederivation_during_setup_matches_full_rebuild() {
    // Atom 1 loses its witness and is re-derived from atom 0 while the rules
    // of the affected heads are being set up; the rule [1, 2] -> 3 must still
    // wait for premise 2, which stays dead.
    let mut program = GroundedProgram::new(
        6,
        vec![atom(4), atom(5)],
        vec![
            GroundedRule::new(vec![atom(4)], atom(1)),
            GroundedRule::new(vec![atom(4)], atom(2)),
            GroundedRule::new(vec![atom(1), atom(2)], atom(3)),
            GroundedRule::new(vec![atom(0)], atom(1)),
            GroundedRule::new(vec![atom(5)], atom(0)),
        ],
    )
    .unwrap();
    let (certificate, _) = solve(&program);
    assert_eq!(certificate.witness(atom(1)), Some(GroundedWitness::Rule(GroundedRuleId::new(0))));
    assert_eq!(certificate.witness(atom(3)), Some(GroundedWitness::Rule(GroundedRuleId::new(2))));
    let update = GroundedUpdate {
        remove_seeds: vec![atom(4)],
        ..GroundedUpdate::default()
    };
    let (next, stats) = apply_update(&mut program, &certificate, &update).unwrap();
    assert_eq!(live_vector(&program, &next), naive_live(&program));
    assert_eq!(live_vector(&program, &next), vec![true, true, false, false, false, true]);
    assert_eq!(next.witness(atom(1)), Some(GroundedWitness::Rule(GroundedRuleId::new(3))));
    assert_eq!(stats.affected_atoms, 4);
    assert_eq!(check(&program, &next), Ok(()));
}

#[test]
fn local_recompute_rederives_from_surviving_support() {
    let rules = vec![
        GroundedRule::new(vec![atom(0)], atom(2)),
        GroundedRule::new(vec![atom(1)], atom(2)),
        GroundedRule::new(vec![atom(0)], atom(3)),
        GroundedRule::new(vec![atom(2), atom(3)], atom(4)),
    ];
    let (old, _) = solve(&GroundedProgram::new(5, vec![atom(0), atom(1)], rules.clone()).unwrap());
    let program = GroundedProgram::new(5, vec![atom(1)], rules).unwrap();
    let index = GroundedIncidenceIndex::compile(&program);
    let (c, s) = local_recompute_after_deletion_indexed(&program, &index, &old, &vec![atom(0)]);
    assert_eq!(c.live_atoms(), solve(&program).0.live_atoms());
    assert_eq!(c.live_atoms(), vec![atom(1), atom(2)]);
    assert!(!c.is_live(atom(4)));
    assert_eq!(c.witness(atom(2)), Some(GroundedWitness::Rule(GroundedRuleId::new(1))));
    assert_eq!(s.affected_atoms, 4);
    assert_eq!(check(&program, &c), Ok(()));
}

#[test]
fn solver_selects_the_lowest_numbered_qualifying_rule() {
    let program = GroundedProgram::new(
        3,
        vec![atom(0), atom(1)],
        vec![
            GroundedRule::new(vec![atom(1)], atom(2)),
            GroundedRule::new(vec![atom(0)], atom(2)),
        ],
    )
    .unwrap();
    let (certificate, stats) = solve(&program);
    assert_eq!(certificate.witness(atom(0)), Some(GroundedWitness::Seed));
    assert_eq!(certificate.witness(atom(2)), Some(GroundedWitness::Rule(GroundedRuleId::new(0))));
    assert_eq!(certificate.rank(atom(2)), Some(1));
    assert!(stats.rule_fires <= 2);
    assert!(stats.incidence_updates <= 2);
    assert_eq!(stats.dependency_walks, 0);
}
