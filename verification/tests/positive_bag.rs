use kernel_core::fixpoint::{
    check_positive_bag, solve_positive_bag, BigNatural, NaturalInfinity, PositiveBagFixpointError,
    PositiveBagProgram, PositiveBagRule,
};
use kernel_core::grounded::GroundedAtomId;

fn atom(index: usize) -> GroundedAtomId {
    GroundedAtomId::new(index)
}

#[test]
fn finite_positive_recursion_counts_exact_proof_trees_without_row_expansion() {
    // a has two base witnesses; b derives once from a; c derives from a*b.
    let program = PositiveBagProgram::new(
        3,
        vec![2, 0, 0],
        vec![
            PositiveBagRule::new(vec![atom(0)], atom(1), 3),
            PositiveBagRule::new(vec![atom(0), atom(1)], atom(2), 1),
        ],
    )
    .unwrap();
    let certificate = solve_positive_bag(&program).unwrap();
    assert_eq!(certificate.multiplicity(atom(0)), Some(&NaturalInfinity::finite_u64(2)));
    assert_eq!(certificate.multiplicity(atom(1)), Some(&NaturalInfinity::finite_u64(6)));
    assert_eq!(certificate.multiplicity(atom(2)), Some(&NaturalInfinity::finite_u64(12)));
    check_positive_bag(&program, &certificate).unwrap();
}

#[test]
fn grounded_productive_cycle_is_infinite_and_propagates_downstream() {
    let program = PositiveBagProgram::new(
        3,
        vec![1, 0, 0],
        vec![
            PositiveBagRule::new(vec![atom(0)], atom(1), 1),
            PositiveBagRule::new(vec![atom(1)], atom(0), 1),
            PositiveBagRule::new(vec![atom(1)], atom(2), 1),
        ],
    )
    .unwrap();
    let certificate = solve_positive_bag(&program).unwrap();
    assert!(certificate.multiplicity(atom(0)).unwrap().is_infinite());
    assert!(certificate.multiplicity(atom(1)).unwrap().is_infinite());
    assert!(certificate.multiplicity(atom(2)).unwrap().is_infinite());
}

#[test]
fn ungrounded_cycle_stays_zero_in_least_fixpoint() {
    let program = PositiveBagProgram::new(
        2,
        vec![0, 0],
        vec![
            PositiveBagRule::new(vec![atom(0)], atom(1), 1),
            PositiveBagRule::new(vec![atom(1)], atom(0), 1),
        ],
    )
    .unwrap();
    let certificate = solve_positive_bag(&program).unwrap();
    assert_eq!(certificate.multiplicity(atom(0)), Some(&NaturalInfinity::zero()));
    assert_eq!(certificate.multiplicity(atom(1)), Some(&NaturalInfinity::zero()));
}

#[test]
fn duplicate_recursive_occurrence_multiplies_proof_counts() {
    let program = PositiveBagProgram::new(
        2,
        vec![3, 0],
        vec![PositiveBagRule::new(vec![atom(0), atom(0)], atom(1), 2)],
    )
    .unwrap();
    let certificate = solve_positive_bag(&program).unwrap();
    assert_eq!(certificate.multiplicity(atom(1)), Some(&NaturalInfinity::finite_u64(18)));
}

#[test]
fn hostile_cycle_with_dead_conjunctive_premise_is_not_productive() {
    // atom 0 is grounded. atom 2 is dead, so 0*2 -> 1 never fires and
    // the apparent 0 <-> 1 graph cycle is not part of the live program.
    let program = PositiveBagProgram::new(
        3,
        vec![1, 0, 0],
        vec![
            PositiveBagRule::new(vec![atom(0), atom(2)], atom(1), 1),
            PositiveBagRule::new(vec![atom(1)], atom(0), 1),
        ],
    )
    .unwrap();
    let certificate = solve_positive_bag(&program).unwrap();
    assert_eq!(certificate.multiplicity(atom(0)), Some(&NaturalInfinity::finite_u64(1)));
    assert_eq!(certificate.multiplicity(atom(1)), Some(&NaturalInfinity::zero()));
    assert_eq!(certificate.multiplicity(atom(2)), Some(&NaturalInfinity::zero()));
}

#[test]
fn randomized_acyclic_programs_match_independent_u128_oracle() {
    fn next(state: &mut u64) -> u64 {
        *state = state
            .wrapping_mul(6_364_136_223_846_793_005)
            .wrapping_add(1_442_695_040_888_963_407);
        *state
    }
    let mut state = 0x4d59_5df4_d0f3_3173_u64;
    for _case in 0..2_000 {
        let count = 2 + usize::try_from(next(&mut state) % 7).unwrap();
        let seeds = (0..count).map(|_| next(&mut state) % 4).collect::<Vec<_>>();
        let mut rules = Vec::new();
        for head in 0..count {
            let rule_count = usize::try_from(next(&mut state) % 3).unwrap();
            for _ in 0..rule_count {
                let body_len = if head == 0 {
                    0
                } else {
                    usize::try_from(next(&mut state) % 3).unwrap()
                };
                let body = (0..body_len)
                    .map(|_| {
                        let premise = usize::try_from(next(&mut state) % head as u64).unwrap();
                        atom(premise)
                    })
                    .collect::<Vec<_>>();
                rules.push(PositiveBagRule::new(body, atom(head), 1 + next(&mut state) % 3));
            }
        }
        let program = PositiveBagProgram::new(count, seeds.clone(), rules.clone()).unwrap();
        let certificate = solve_positive_bag(&program).unwrap();

        let mut oracle = vec![0_u128; count];
        for head in 0..count {
            let mut value = u128::from(seeds[head]);
            for rule in rules.iter().filter(|rule| rule.head.index() == head) {
                let mut product = u128::from(rule.coefficient);
                for premise in &rule.body {
                    product *= oracle[premise.index()];
                }
                value += product;
            }
            oracle[head] = value;
            let NaturalInfinity::Finite(actual) = certificate.multiplicity(atom(head)).unwrap() else {
                panic!("acyclic program classified as infinite");
            };
            assert_eq!(actual.to_decimal_string(), value.to_string());
        }
    }
}

#[test]
fn long_finite_carrier_uses_iterative_scc_walk_without_stack_recursion() {
    let count = 20_000;
    let mut rules = Vec::with_capacity(count - 1);
    for head in 1..count {
        rules.push(PositiveBagRule::new(vec![atom(head - 1)], atom(head), 1));
    }
    let mut seeds = vec![0; count];
    seeds[0] = 1;
    let program = PositiveBagProgram::new(count, seeds, rules).unwrap();
    let certificate = solve_positive_bag(&program).unwrap();
    assert_eq!(certificate.multiplicity(atom(count - 1)), Some(&NaturalInfinity::finite_u64(1)));
}

#[test]
fn arbitrary_precision_finite_counts_do_not_turn_into_infinity() {
    let program = PositiveBagProgram::new(
        3,
        vec![u64::MAX, 0, 0],
        vec![
            PositiveBagRule::new(vec![atom(0), atom(0)], atom(1), u64::MAX),
            PositiveBagRule::new(vec![atom(1), atom(1)], atom(2), u64::MAX),
        ],
    )
    .unwrap();
    let certificate = solve_positive_bag(&program).unwrap();
    let NaturalInfinity::Finite(value) = certificate.multiplicity(atom(2)).unwrap() else {
        panic!("finite acyclic proof count must remain finite");
    };
    assert!(value.to_decimal_string().len() > 38);
}

#[test]
fn program_shape_is_validated() {
    assert_eq!(
        PositiveBagProgram::new(2, vec![1], Vec::new()).unwrap_err(),
        PositiveBagFixpointError::SeedShapeMismatch
    );
    assert_eq!(
        PositiveBagProgram::new(2, vec![1, 0], vec![PositiveBagRule::new(vec![atom(0)], atom(5), 1)]).unwrap_err(),
        PositiveBagFixpointError::AtomOutsideUniverse(atom(5))
    );
    assert_eq!(
        PositiveBagProgram::new(2, vec![1, 0], vec![PositiveBagRule::new(vec![atom(0), atom(7)], atom(1), 1)]).unwrap_err(),
        PositiveBagFixpointError::AtomOutsideUniverse(atom(7))
    );
    let program = PositiveBagProgram::new(2, vec![1, 4], Vec::new()).unwrap();
    assert_eq!(program.atom_count(), 2);
    assert_eq!(program.seed_multiplicity(), &[1, 4]);
    assert!(program.rules().is_empty());
}

#[test]
fn zero_coefficient_rules_do_not_derive() {
    let program = PositiveBagProgram::new(
        2,
        vec![5, 0],
        vec![PositiveBagRule::new(vec![atom(0)], atom(1), 0)],
    )
    .unwrap();
    let certificate = solve_positive_bag(&program).unwrap();
    assert_eq!(certificate.multiplicity(atom(1)), Some(&NaturalInfinity::zero()));
    assert!(!certificate.support().is_live(atom(1)));
    assert_eq!(certificate.multiplicities().len(), 2);
    assert_eq!(certificate.multiplicity(atom(9)), None);
}

#[test]
fn self_loop_on_a_live_atom_is_infinite() {
    let program = PositiveBagProgram::new(
        2,
        vec![1, 0],
        vec![
            PositiveBagRule::new(vec![atom(0)], atom(0), 1),
            PositiveBagRule::new(vec![atom(1)], atom(1), 1),
        ],
    )
    .unwrap();
    let certificate = solve_positive_bag(&program).unwrap();
    assert!(certificate.multiplicity(atom(0)).unwrap().is_infinite());
    assert_eq!(certificate.multiplicity(atom(1)), Some(&NaturalInfinity::zero()));
}

#[test]
fn checker_rejects_tampered_multiplicities() {
    let program = PositiveBagProgram::new(
        2,
        vec![2, 0],
        vec![PositiveBagRule::new(vec![atom(0)], atom(1), 3)],
    )
    .unwrap();
    let certificate = solve_positive_bag(&program).unwrap();
    assert_eq!(check_positive_bag(&program, &certificate), Ok(()));
    let bigger = PositiveBagProgram::new(3, vec![2, 0, 0], Vec::new()).unwrap();
    assert_eq!(
        check_positive_bag(&bigger, &certificate),
        Err(PositiveBagFixpointError::CertificateShapeMismatch)
    );
    let other = PositiveBagProgram::new(
        2,
        vec![2, 0],
        vec![PositiveBagRule::new(vec![atom(0)], atom(1), 4)],
    )
    .unwrap();
    assert_eq!(
        check_positive_bag(&other, &certificate),
        Err(PositiveBagFixpointError::CertificateShapeMismatch)
    );
}

#[test]
fn big_natural_arithmetic_is_exact() {
    let mut value = BigNatural::from_u64(999_999_999);
    value.add_assign(&BigNatural::one());
    assert_eq!(value.to_decimal_string(), "1000000000");
    let square = value.multiplied(&value);
    assert_eq!(square.to_decimal_string(), "1000000000000000000");
    let max = BigNatural::from_u64(u64::MAX);
    assert_eq!(max.multiplied(&max).to_decimal_string(), "340282366920938463426481119284349108225");
    assert!(BigNatural::zero().is_zero());
    assert_eq!(BigNatural::zero().to_decimal_string(), "0");
    assert!(max.multiplied(&BigNatural::zero()).is_zero());
    assert_eq!(BigNatural::from_u64(7).to_decimal_string(), "7");
    assert_eq!(BigNatural::from_u64(1_000_000_007).to_decimal_string(), "1000000007");
}

#[test]
fn support_atoms_are_exactly_the_nonzero_ones() {
    let program = PositiveBagProgram::new(
        5,
        vec![1, 0, 0, 0, 0],
        vec![
            PositiveBagRule::new(vec![atom(0)], atom(1), 2),
            PositiveBagRule::new(vec![atom(1), atom(4)], atom(2), 1),
            PositiveBagRule::new(vec![atom(1)], atom(3), 0),
        ],
    )
    .unwrap();
    let certificate = solve_positive_bag(&program).unwrap();
    for index in 0..5 {
        let live = certificate.support().is_live(atom(index));
        let zero = certificate.multiplicity(atom(index)) == Some(&NaturalInfinity::zero());
        assert_eq!(live, !zero);
    }
    assert!(certificate.support().is_live(atom(1)));
    assert!(!certificate.support().is_live(atom(2)));
    assert!(!certificate.support().is_live(atom(3)));
}
