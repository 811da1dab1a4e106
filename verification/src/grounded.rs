//! Grounded (least-fixpoint) closure of finite Horn programs, with
//! checkable certificates and incremental maintenance.

use vstd::prelude::*;
use vstd::layout::size_of;
use crate::retained::{sat_add, sat_mul, sat_sum, saturating_add, saturating_mul, vec_capacity};
use crate::digraph::{is_path, path_step};

verus! {

/// Index of an atom in the finite universe of a grounded program.
#[derive(Debug, Clone, Copy, PartialEq, Eq, Structural, PartialOrd, Ord, Hash)]
pub struct GroundedAtomId(usize);

impl GroundedAtomId {
    pub closed spec fn id(self) -> nat {
        self.0 as nat
    }

    pub proof fn lemma_id_injective(self, other: Self)
        ensures
            self.id() == other.id() <==> self == other,
    {
    }

    pub fn new(index: usize) -> (atom: Self)
        ensures
            atom.id() == index,
    {
        Self(index)
    }

    pub fn index(self) -> (index: usize)
        ensures
            index == self.id(),
    {
        self.0
    }
}

/// Index of a rule in a grounded program.
#[derive(Debug, Clone, Copy, PartialEq, Eq, Structural, PartialOrd, Ord, Hash)]
pub struct GroundedRuleId(usize);

impl GroundedRuleId {
    pub closed spec fn id(self) -> nat {
        self.0 as nat
    }

    pub proof fn lemma_id_injective(self, other: Self)
        ensures
            self.id() == other.id() <==> self == other,
    {
    }

    pub fn new(index: usize) -> (rule: Self)
        ensures
            rule.id() == index,
    {
        Self(index)
    }

    pub fn index(self) -> (index: usize)
        ensures
            index == self.id(),
    {
        self.0
    }
}

/// A sequence of atoms in strictly increasing index order (hence without repeats).
pub open spec fn strictly_sorted(s: Seq<GroundedAtomId>) -> bool {
    forall|i: int, j: int| 0 <= i < j < s.len() ==> s[i].id() < s[j].id()
}

pub open spec fn same_atoms(a: Seq<GroundedAtomId>, b: Seq<GroundedAtomId>) -> bool {
    forall|x: GroundedAtomId| a.contains(x) <==> b.contains(x)
}

/// Sorts atoms by index and removes repeats.
pub fn sorted_unique_atoms(atoms: &Vec<GroundedAtomId>) -> (out: Vec<GroundedAtomId>)
    ensures
        strictly_sorted(out@),
        same_atoms(out@, atoms@),
        out@.len() <= atoms@.len(),
{
    let mut out: Vec<GroundedAtomId> = Vec::new();
    let mut i: usize = 0;
    while i < atoms.len()
        invariant
            i <= atoms.len(),
            strictly_sorted(out@),
            out@.len() <= i,
            forall|x: GroundedAtomId| out@.contains(x) <==> atoms@.subrange(0, i as int).contains(x),
        decreases atoms.len() - i,
    {
        let x = atoms[i];
        let mut p: usize = 0;
        while p < out.len() && out[p].0 < x.0
            invariant
                p <= out.len(),
                forall|k: int| 0 <= k < p ==> out@[k].id() < x.id(),
            decreases out.len() - p,
        {
            p = p + 1;
        }
        let ghost before = out@;
        let ghost prefix = atoms@.subrange(0, i as int);
        assert(atoms@.subrange(0, i + 1) =~= prefix.push(x));
        if p < out.len() && out[p].0 == x.0 {
            assert(out@[p as int] == x);
            assert forall|y: GroundedAtomId| out@.contains(y) <==> prefix.push(x).contains(y) by {
                if prefix.push(x).contains(y) && y != x {
                    let k = choose|k: int| 0 <= k < prefix.push(x).len() && prefix.push(x)[k] == y;
                    assert(prefix.contains(y));
                }
                if y == x {
                    assert(prefix.push(x)[prefix.len() as int] == x);
                }
                if out@.contains(y) {
                    assert(prefix.contains(y));
                    let k = choose|k: int| 0 <= k < prefix.len() && prefix[k] == y;
                    assert(prefix.push(x)[k] == y);
                }
            }
        } else {
            out.insert(p, x);
            assert(out@ =~= before.subrange(0, p as int).push(x) + before.subrange(p as int, before.len() as int));
            assert forall|a: int, b: int| 0 <= a < b < out@.len() implies out@[a].id() < out@[b].id() by {
                if a < p && b == p {
                } else if a < p && b > p {
                    assert(out@[b] == before[b - 1]);
                } else if a == p && b > p {
                    assert(out@[b] == before[b - 1]);
                    assert(before[p as int].id() >= x.id());
                    if b - 1 > p {
                        assert(before[p as int].id() < before[b - 1].id());
                    }
                } else if a > p {
                    assert(out@[a] == before[a - 1]);
                    assert(out@[b] == before[b - 1]);
                }
            }
            assert forall|y: GroundedAtomId| out@.contains(y) <==> prefix.push(x).contains(y) by {
                if out@.contains(y) {
                    let k = choose|k: int| 0 <= k < out@.len() && out@[k] == y;
                    if k < p {
                        assert(before[k] == y);
                        assert(before.contains(y));
                    } else if k > p {
                        assert(before[k - 1] == y);
                        assert(before.contains(y));
                    }
                    if y != x {
                        assert(prefix.contains(y));
                        let m = choose|m: int| 0 <= m < prefix.len() && prefix[m] == y;
                        assert(prefix.push(x)[m] == y);
                    } else {
                        assert(prefix.push(x)[prefix.len() as int] == x);
                    }
                }
                if prefix.push(x).contains(y) {
                    if y == x {
                        assert(out@[p as int] == x);
                    } else {
                        let m = choose|m: int| 0 <= m < prefix.push(x).len() && prefix.push(x)[m] == y;
                        assert(prefix[m] == y);
                        assert(prefix.contains(y));
                        assert(before.contains(y));
                        let k = choose|k: int| 0 <= k < before.len() && before[k] == y;
                        if k < p {
                            assert(out@[k] == y);
                        } else {
                            assert(out@[k + 1] == y);
                        }
                    }
                }
            }
        }
        i = i + 1;
    }
    assert(atoms@.subrange(0, atoms@.len() as int) =~= atoms@);
    out
}

/// A Horn rule `body -> head` over atom indices; disabled rules never fire.
#[derive(Debug, PartialEq, Eq)]
pub struct GroundedRule {
    body: Vec<GroundedAtomId>,
    head: GroundedAtomId,
    enabled: bool,
}

impl GroundedRule {
    #[verifier::type_invariant]
    pub closed spec fn body_sorted(self) -> bool {
        strictly_sorted(self.body@)
    }

    pub closed spec fn spec_body(self) -> Seq<GroundedAtomId> {
        self.body@
    }

    pub closed spec fn spec_head(self) -> GroundedAtomId {
        self.head
    }

    pub closed spec fn spec_enabled(self) -> bool {
        self.enabled
    }

    pub fn new(body: Vec<GroundedAtomId>, head: GroundedAtomId) -> (rule: Self)
        ensures
            strictly_sorted(rule.spec_body()),
            same_atoms(rule.spec_body(), body@),
            rule.spec_head() == head,
            rule.spec_enabled(),
    {
        let body = sorted_unique_atoms(&body);
        Self { body, head, enabled: true }
    }

    pub fn disabled(body: Vec<GroundedAtomId>, head: GroundedAtomId) -> (rule: Self)
        ensures
            strictly_sorted(rule.spec_body()),
            same_atoms(rule.spec_body(), body@),
            rule.spec_head() == head,
            !rule.spec_enabled(),
    {
        let body = sorted_unique_atoms(&body);
        Self { body, head, enabled: false }
    }

    pub fn body(&self) -> (body: &[GroundedAtomId])
        ensures
            body@ == self.spec_body(),
    {
        self.body.as_slice()
    }

    pub fn head(&self) -> (head: GroundedAtomId)
        ensures
            head == self.spec_head(),
    {
        self.head
    }

    pub fn enabled(&self) -> (enabled: bool)
        ensures
            enabled == self.spec_enabled(),
    {
        self.enabled
    }
}

/// Copies a slice element by element.
pub fn copy_seq<T: Copy>(atoms: &[T]) -> (out: Vec<T>)
    ensures
        out@ == atoms@,
{
    let mut out: Vec<T> = Vec::new();
    let mut i: usize = 0;
    while i < atoms.len()
        invariant
            i <= atoms.len(),
            out@ == atoms@.subrange(0, i as int),
        decreases atoms.len() - i,
    {
        out.push(atoms[i]);
        i = i + 1;
        assert(out@ =~= atoms@.subrange(0, i as int));
    }
    assert(atoms@.subrange(0, atoms@.len() as int) =~= atoms@);
    out
}

impl Clone for GroundedRule {
    fn clone(&self) -> (rule: Self)
        ensures
            rule.spec_body() == self.spec_body(),
            rule.spec_head() == self.spec_head(),
            rule.spec_enabled() == self.spec_enabled(),
    {
        proof {
            use_type_invariant(self);
        }
        let body = copy_seq(self.body.as_slice());
        GroundedRule { body, head: self.head, enabled: self.enabled }
    }
}

#[derive(Debug, Clone, Copy, PartialEq, Eq, Structural)]
pub enum GroundedClosureError {
    AtomOutsideUniverse(GroundedAtomId),
    RuleOutsideProgram(GroundedRuleId),
    CertificateShapeMismatch,
    LiveAtomMissingRank(GroundedAtomId),
    LiveAtomMissingWitness(GroundedAtomId),
    DeadAtomHasProofState(GroundedAtomId),
    SeedWitnessForNonSeed(GroundedAtomId),
    SeedHasNonZeroRank(GroundedAtomId),
    WitnessRuleDisabled(GroundedRuleId),
    WitnessRuleHeadMismatch { atom: GroundedAtomId, rule: GroundedRuleId },
    WitnessPremiseDead { atom: GroundedAtomId, premise: GroundedAtomId },
    WitnessRankNotStrictlySmaller { atom: GroundedAtomId, premise: GroundedAtomId },
    MissingSeed(GroundedAtomId),
    NotClosedUnderRule(GroundedRuleId),
    StructuralUniverseShrank { old_atom_count: usize, new_atom_count: usize },
}

/// Every atom of `s` lies below `n`.
pub open spec fn atoms_below(s: Seq<GroundedAtomId>, n: nat) -> bool {
    forall|i: int| 0 <= i < s.len() ==> #[trigger] s[i].id() < n
}

/// The first atom of `atoms` at or after position `k` whose index is not below `n`.
pub open spec fn first_outside(atoms: Seq<GroundedAtomId>, n: nat, k: int) -> Option<GroundedAtomId>
    decreases atoms.len() - k,
{
    if k < 0 || k >= atoms.len() {
        None
    } else if atoms[k].id() >= n {
        Some(atoms[k])
    } else {
        first_outside(atoms, n, k + 1)
    }
}

/// The atoms a rule mentions, in validation order: head first, then body.
pub open spec fn rule_atoms(rule: GroundedRule) -> Seq<GroundedAtomId> {
    seq![rule.spec_head()] + rule.spec_body()
}

/// The first out-of-universe atom mentioned by the rules at or after position `k`.
pub open spec fn first_rule_outside(rules: Seq<GroundedRule>, n: nat, k: int) -> Option<GroundedAtomId>
    decreases rules.len() - k,
{
    if k < 0 || k >= rules.len() {
        None
    } else {
        match first_outside(rule_atoms(rules[k]), n, 0) {
            Some(a) => Some(a),
            None => first_rule_outside(rules, n, k + 1),
        }
    }
}

/// Outcome of validating seeds and rules against a universe of `n` atoms.
pub open spec fn validation_result(n: nat, seeds: Seq<GroundedAtomId>, rules: Seq<GroundedRule>) -> Result<(), GroundedClosureError> {
    match first_outside(seeds, n, 0) {
        Some(a) => Err(GroundedClosureError::AtomOutsideUniverse(a)),
        None => match first_rule_outside(rules, n, 0) {
            Some(a) => Err(GroundedClosureError::AtomOutsideUniverse(a)),
            None => Ok(()),
        },
    }
}

/// Every rule's atoms lie below `n`.
pub open spec fn rules_below(rules: Seq<GroundedRule>, n: nat) -> bool {
    forall|r: int| 0 <= r < rules.len() ==> {
        &&& #[trigger] rules[r].spec_head().id() < n
        &&& atoms_below(rules[r].spec_body(), n)
    }
}

pub open spec fn rules_sorted(rules: Seq<GroundedRule>) -> bool {
    forall|r: int| 0 <= r < rules.len() ==> strictly_sorted(#[trigger] rules[r].spec_body())
}

pub proof fn lemma_first_outside(atoms: Seq<GroundedAtomId>, n: nat, k: int)
    requires
        0 <= k <= atoms.len(),
    ensures
        first_outside(atoms, n, k) is None <==> (forall|i: int| k <= i < atoms.len() ==> #[trigger] atoms[i].id() < n),
        first_outside(atoms, n, k) matches Some(a) ==> a.id() >= n && (exists|i: int| k <= i < atoms.len() && atoms[i] == a),
    decreases atoms.len() - k,
{
    if k < atoms.len() {
        lemma_first_outside(atoms, n, k + 1);
    }
}

pub proof fn lemma_first_rule_outside(rules: Seq<GroundedRule>, n: nat, k: int)
    requires
        0 <= k <= rules.len(),
    ensures
        first_rule_outside(rules, n, k) is None <==> (forall|r: int| k <= r < rules.len() ==> {
            &&& #[trigger] rules[r].spec_head().id() < n
            &&& atoms_below(rules[r].spec_body(), n)
        }),
    decreases rules.len() - k,
{
    if k < rules.len() {
        lemma_first_rule_outside(rules, n, k + 1);
        let atoms = rule_atoms(rules[k]);
        lemma_first_outside(atoms, n, 0);
        if first_outside(atoms, n, 0) is None {
            assert(atoms[0] == rules[k].spec_head());
            assert forall|i: int| 0 <= i < rules[k].spec_body().len() implies #[trigger] rules[k].spec_body()[i].id() < n by {
                assert(atoms[i + 1] == rules[k].spec_body()[i]);
            }
        } else {
            if rules[k].spec_head().id() < n && atoms_below(rules[k].spec_body(), n) {
                assert forall|i: int| 0 <= i < atoms.len() implies #[trigger] atoms[i].id() < n by {
                    if i > 0 {
                        assert(atoms[i] == rules[k].spec_body()[i - 1]);
                    }
                }
            }
        }
    }
}

pub proof fn lemma_validation_ok(n: nat, seeds: Seq<GroundedAtomId>, rules: Seq<GroundedRule>)
    ensures
        validation_result(n, seeds, rules) is Ok <==> (atoms_below(seeds, n) && rules_below(rules, n)),
{
    lemma_first_outside(seeds, n, 0);
    lemma_first_rule_outside(rules, n, 0);
}

/// A finite Horn program: `atom_count` atoms, seed facts and rules.
#[derive(Debug, PartialEq, Eq)]
pub struct GroundedProgram {
    atom_count: usize,
    seeds: Vec<GroundedAtomId>,
    rules: Vec<GroundedRule>,
}

impl GroundedProgram {
    pub closed spec fn spec_atom_count(self) -> nat {
        self.atom_count as nat
    }

    pub closed spec fn spec_seeds(self) -> Seq<GroundedAtomId> {
        self.seeds@
    }

    pub closed spec fn spec_rules(self) -> Seq<GroundedRule> {
        self.rules@
    }

    /// Seeds are kept sorted without repeats; every atom lies in the universe.
    pub open spec fn wf(self) -> bool {
        &&& strictly_sorted(self.spec_seeds())
        &&& atoms_below(self.spec_seeds(), self.spec_atom_count())
        &&& rules_below(self.spec_rules(), self.spec_atom_count())
        &&& rules_sorted(self.spec_rules())
        &&& self.spec_rules().len() <= usize::MAX
    }

    pub open spec fn is_seed(self, a: int) -> bool {
        exists|k: int| 0 <= k < self.spec_seeds().len() && #[trigger] self.spec_seeds()[k].id() == a
    }

    pub fn new(atom_count: usize, seeds: Vec<GroundedAtomId>, rules: Vec<GroundedRule>) -> (result: Result<Self, GroundedClosureError>)
        ensures
            result is Ok <==> (atoms_below(seeds@, atom_count as nat) && rules_below(rules@, atom_count as nat)),
            match result {
                Ok(program) => {
                    &&& program.wf()
                    &&& program.spec_atom_count() == atom_count
                    &&& same_atoms(program.spec_seeds(), seeds@)
                    &&& program.spec_rules() == rules@
                },
                Err(e) => exists|sorted: Seq<GroundedAtomId>| {
                    &&& strictly_sorted(sorted)
                    &&& same_atoms(sorted, seeds@)
                    &&& Err::<(), GroundedClosureError>(e) == validation_result(atom_count as nat, sorted, rules@)
                },
            },
    {
        let sorted = sorted_unique_atoms(&seeds);
        let _rule_count = rules.len();
        let program = Self { atom_count, seeds: sorted, rules };
        let checked = program.validate();
        proof {
            lemma_validation_ok(atom_count as nat, program.seeds@, program.rules@);
            if atoms_below(seeds@, atom_count as nat) {
                assert forall|i: int| 0 <= i < program.seeds@.len() implies #[trigger] program.seeds@[i].id() < atom_count by {
                    assert(program.seeds@.contains(program.seeds@[i]));
                    let k = choose|k: int| 0 <= k < seeds@.len() && seeds@[k] == program.seeds@[i];
                }
            }
            if atoms_below(program.seeds@, atom_count as nat) {
                assert forall|i: int| 0 <= i < seeds@.len() implies #[trigger] seeds@[i].id() < atom_count by {
                    assert(seeds@.contains(seeds@[i]));
                    let k = choose|k: int| 0 <= k < program.seeds@.len() && program.seeds@[k] == seeds@[i];
                }
            }
        }
        match checked {
            Ok(()) => Ok(program),
            Err(e) => Err(e),
        }
    }

    pub fn validate(&self) -> (result: Result<(), GroundedClosureError>)
        ensures
            result == validation_result(self.spec_atom_count(), self.spec_seeds(), self.spec_rules()),
            rules_sorted(self.spec_rules()),
    {
        let n = self.atom_count;
        let mut bad: Option<GroundedAtomId> = None;
        let mut i: usize = 0;
        while i < self.seeds.len()
            invariant
                i <= self.seeds.len(),
                n == self.atom_count,
                bad is None ==> first_outside(self.seeds@, n as nat, 0) == first_outside(self.seeds@, n as nat, i as int),
                bad matches Some(a) ==> first_outside(self.seeds@, n as nat, 0) == Some(a),
            decreases self.seeds.len() - i,
        {
            if bad.is_none() && self.seeds[i].0 >= n {
                bad = Some(self.seeds[i]);
            }
            i = i + 1;
        }
        let mut rule_bad: Option<GroundedAtomId> = None;
        let mut r: usize = 0;
        while r < self.rules.len()
            invariant
                r <= self.rules.len(),
                n == self.atom_count,
                rules_sorted(self.rules@.subrange(0, r as int)),
                rule_bad is None ==> first_rule_outside(self.rules@, n as nat, 0) == first_rule_outside(self.rules@, n as nat, r as int),
                rule_bad matches Some(a) ==> first_rule_outside(self.rules@, n as nat, 0) == Some(a),
            decreases self.rules.len() - r,
        {
            let rule = &self.rules[r];
            proof {
                use_type_invariant(rule);
                assert(self.rules@.subrange(0, r + 1).last() == *rule);
                assert forall|q: int| 0 <= q < r + 1 implies strictly_sorted(#[trigger] self.rules@.subrange(0, r + 1)[q].spec_body()) by {
                    if q < r {
                        assert(self.rules@.subrange(0, r + 1)[q] == self.rules@.subrange(0, r as int)[q]);
                    }
                }
            }
            if rule_bad.is_none() {
                let ghost atoms = rule_atoms(*rule);
                if rule.head.0 >= n {
                    rule_bad = Some(rule.head);
                    assert(atoms[0] == rule.head);
                } else {
                    let mut j: usize = 0;
                    while j < rule.body.len()
                        invariant
                            j <= rule.body.len(),
                            atoms == rule_atoms(*rule),
                            rule == &self.rules@[r as int],
                            r < self.rules@.len(),
                            n == self.atom_count,
                            rule_bad is None ==> first_outside(atoms, n as nat, 0) == first_outside(atoms, n as nat, j + 1),
                            rule_bad matches Some(a) ==> first_outside(atoms, n as nat, 0) == Some(a),
                        decreases rule.body.len() - j,
                    {
                        assert(atoms[j + 1] == rule.body@[j as int]);
                        if rule_bad.is_none() && rule.body[j].0 >= n {
                            rule_bad = Some(rule.body[j]);
                        }
                        j = j + 1;
                    }
                    assert(atoms.len() == rule.body.len() + 1);
                }
            }
            r = r + 1;
        }
        assert(self.rules@.subrange(0, self.rules@.len() as int) =~= self.rules@);
        match bad {
            Some(a) => Err(GroundedClosureError::AtomOutsideUniverse(a)),
            None => match rule_bad {
                Some(a) => Err(GroundedClosureError::AtomOutsideUniverse(a)),
                None => Ok(()),
            },
        }
    }

    pub fn atom_count(&self) -> (count: usize)
        ensures
            count == self.spec_atom_count(),
    {
        self.atom_count
    }

    pub fn seeds(&self) -> (seeds: &[GroundedAtomId])
        ensures
            seeds@ == self.spec_seeds(),
    {
        self.seeds.as_slice()
    }

    pub fn rules(&self) -> (rules: &[GroundedRule])
        ensures
            rules@ == self.spec_rules(),
    {
        self.rules.as_slice()
    }

    fn validate_atom(&self, atom: GroundedAtomId) -> (result: Result<(), GroundedClosureError>)
        ensures
            result is Ok <==> atom.id() < self.spec_atom_count(),
            result is Err ==> result == Err::<(), GroundedClosureError>(GroundedClosureError::AtomOutsideUniverse(atom)),
    {
        if atom.0 < self.atom_count {
            Ok(())
        } else {
            Err(GroundedClosureError::AtomOutsideUniverse(atom))
        }
    }

    fn validate_rule(&self, rule: GroundedRuleId) -> (result: Result<(), GroundedClosureError>)
        ensures
            result is Ok <==> rule.id() < self.spec_rules().len(),
            result is Err ==> result == Err::<(), GroundedClosureError>(GroundedClosureError::RuleOutsideProgram(rule)),
    {
        if rule.0 < self.rules.len() {
            Ok(())
        } else {
            Err(GroundedClosureError::RuleOutsideProgram(rule))
        }
    }
}


/// The atom with index `i`.
pub closed spec fn atom_at(i: int) -> GroundedAtomId {
    GroundedAtomId(i as usize)
}

/// The rule id with index `i`.
pub closed spec fn rule_at(i: int) -> GroundedRuleId {
    GroundedRuleId(i as usize)
}

pub proof fn lemma_atom_at(i: int)
    requires
        0 <= i <= usize::MAX,
    ensures
        atom_at(i).id() == i,
        forall|a: GroundedAtomId| a.id() == i ==> a == atom_at(i),
{
}

pub proof fn lemma_rule_at(i: int)
    requires
        0 <= i <= usize::MAX,
    ensures
        rule_at(i).id() == i,
        forall|a: GroundedRuleId| a.id() == i ==> a == rule_at(i),
{
}

/// How an atom was justified: it is a seed, or a rule with all premises justified earlier.
#[derive(Debug, Clone, Copy, PartialEq, Eq, Structural)]
pub enum GroundedWitness {
    Seed,
    Rule(GroundedRuleId),
}

/// A candidate least model together with a well-founded derivation for each member.
#[derive(Debug, PartialEq, Eq)]
pub struct GroundedCertificate {
    live: Vec<bool>,
    rank: Vec<Option<usize>>,
    witness: Vec<Option<GroundedWitness>>,
}

impl GroundedCertificate {
    pub closed spec fn spec_live(self) -> Seq<bool> {
        self.live@
    }

    pub closed spec fn spec_rank(self) -> Seq<Option<usize>> {
        self.rank@
    }

    pub closed spec fn spec_witness(self) -> Seq<Option<GroundedWitness>> {
        self.witness@
    }

    pub open spec fn live_at(self, i: int) -> bool {
        0 <= i < self.spec_live().len() && self.spec_live()[i]
    }

    pub fn is_live(&self, atom: GroundedAtomId) -> (live: bool)
        ensures
            live == self.live_at(atom.id() as int),
    {
        if atom.0 < self.live.len() {
            self.live[atom.0]
        } else {
            false
        }
    }

    pub fn rank(&self, atom: GroundedAtomId) -> (rank: Option<usize>)
        ensures
            rank == (if atom.id() < self.spec_rank().len() { self.spec_rank()[atom.id() as int] } else { None }),
    {
        if atom.0 < self.rank.len() {
            self.rank[atom.0]
        } else {
            None
        }
    }

    pub fn witness(&self, atom: GroundedAtomId) -> (witness: Option<GroundedWitness>)
        ensures
            witness == (if atom.id() < self.spec_witness().len() { self.spec_witness()[atom.id() as int] } else { None }),
    {
        if atom.0 < self.witness.len() {
            self.witness[atom.0]
        } else {
            None
        }
    }

    /// The live atoms in increasing index order.
    pub fn live_atoms(&self) -> (atoms: Vec<GroundedAtomId>)
        ensures
            strictly_sorted(atoms@),
            forall|a: GroundedAtomId| atoms@.contains(a) <==> self.live_at(a.id() as int),
    {
        let mut out: Vec<GroundedAtomId> = Vec::new();
        let mut i: usize = 0;
        while i < self.live.len()
            invariant
                i <= self.live.len(),
                strictly_sorted(out@),
                forall|k: int| 0 <= k < out@.len() ==> #[trigger] out@[k].id() < i,
                forall|a: GroundedAtomId| out@.contains(a) <==> (a.id() < i && self.live_at(a.id() as int)),
            decreases self.live.len() - i,
        {
            if self.live[i] {
                let ghost before = out@;
                out.push(GroundedAtomId(i));
                assert forall|a: GroundedAtomId| out@.contains(a) <==> (a.id() < i + 1 && self.live_at(a.id() as int)) by {
                    if a.id() == i {
                        assert(a == GroundedAtomId(i));
                        assert(out@[before.len() as int] == a);
                    }
                    if out@.contains(a) && a != GroundedAtomId(i) {
                        let k = choose|k: int| 0 <= k < out@.len() && out@[k] == a;
                        assert(before[k] == a);
                    }
                    if before.contains(a) {
                        let k = choose|k: int| 0 <= k < before.len() && before[k] == a;
                        assert(out@[k] == a);
                    }
                }
            }
            i = i + 1;
        }
        out
    }
}

impl Clone for GroundedCertificate {
    fn clone(&self) -> (copy: Self)
        ensures
            copy.spec_live() == self.spec_live(),
            copy.spec_rank() == self.spec_rank(),
            copy.spec_witness() == self.spec_witness(),
    {
        GroundedCertificate {
            live: copy_seq(self.live.as_slice()),
            rank: copy_seq(self.rank.as_slice()),
            witness: copy_seq(self.witness.as_slice()),
        }
    }
}

/// `s` contains every seed and is closed under every enabled rule.
pub open spec fn closed_set(p: GroundedProgram, s: Set<int>) -> bool {
    &&& forall|k: int| 0 <= k < p.spec_seeds().len() ==> s.contains(#[trigger] p.spec_seeds()[k].id() as int)
    &&& forall|r: int|
        0 <= r < p.spec_rules().len() && #[trigger] p.spec_rules()[r].spec_enabled()
            && (forall|k: int| 0 <= k < p.spec_rules()[r].spec_body().len() ==> s.contains(#[trigger] p.spec_rules()[r].spec_body()[k].id() as int))
            ==> s.contains(p.spec_rules()[r].spec_head().id() as int)
}

/// Atom `a` belongs to the least model: every closed set contains it.
pub open spec fn in_least_model(p: GroundedProgram, a: int) -> bool {
    forall|s: Set<int>| #[trigger] closed_set(p, s) ==> s.contains(a)
}

/// `live` marks exactly the atoms of the least model of `p`.
pub open spec fn is_least_model(p: GroundedProgram, live: Seq<bool>) -> bool {
    &&& live.len() == p.spec_atom_count()
    &&& forall|a: int| 0 <= a < live.len() ==> (#[trigger] live[a] <==> in_least_model(p, a))
}

/// All premises of `rule` are live with a rank strictly below `r`.
pub open spec fn premises_ranked_below(c: GroundedCertificate, rule: GroundedRule, r: usize) -> bool {
    forall|k: int| 0 <= k < rule.spec_body().len() ==> {
        let q = #[trigger] rule.spec_body()[k].id() as int;
        &&& c.spec_live()[q]
        &&& c.spec_rank()[q] matches Some(pr) && pr < r
    }
}

/// Atom `i` carries consistent proof state in `c`.
pub open spec fn atom_justified(p: GroundedProgram, c: GroundedCertificate, i: int) -> bool {
    if !c.spec_live()[i] {
        c.spec_rank()[i] is None && c.spec_witness()[i] is None
    } else {
        match (c.spec_rank()[i], c.spec_witness()[i]) {
            (Some(r), Some(GroundedWitness::Seed)) => p.is_seed(i) && r == 0,
            (Some(r), Some(GroundedWitness::Rule(rid))) => {
                &&& rid.id() < p.spec_rules().len()
                &&& p.spec_rules()[rid.id() as int].spec_enabled()
                &&& p.spec_rules()[rid.id() as int].spec_head().id() == i
                &&& premises_ranked_below(c, p.spec_rules()[rid.id() as int], r)
            },
            _ => false,
        }
    }
}

pub open spec fn body_live(rule: GroundedRule, live: Seq<bool>) -> bool {
    forall|k: int| 0 <= k < rule.spec_body().len() ==> live[#[trigger] rule.spec_body()[k].id() as int]
}

pub open spec fn shape_ok(p: GroundedProgram, c: GroundedCertificate) -> bool {
    &&& c.spec_live().len() == p.spec_atom_count()
    &&& c.spec_rank().len() == p.spec_atom_count()
    &&& c.spec_witness().len() == p.spec_atom_count()
}

/// `c` is a valid certificate for `p`: every live atom has a well-founded
/// derivation, every seed is live and the live set is closed under the rules.
pub open spec fn cert_valid(p: GroundedProgram, c: GroundedCertificate) -> bool {
    &&& shape_ok(p, c)
    &&& forall|i: int| 0 <= i < p.spec_atom_count() ==> #[trigger] atom_justified(p, c, i)
    &&& forall|k: int| 0 <= k < p.spec_seeds().len() ==> c.spec_live()[#[trigger] p.spec_seeds()[k].id() as int]
    &&& forall|r: int| 0 <= r < p.spec_rules().len() && #[trigger] p.spec_rules()[r].spec_enabled()
        && body_live(p.spec_rules()[r], c.spec_live()) ==> c.spec_live()[p.spec_rules()[r].spec_head().id() as int]
}

proof fn lemma_live_in_every_closed_set(p: GroundedProgram, c: GroundedCertificate, s: Set<int>, a: int)
    requires
        p.wf(),
        cert_valid(p, c),
        closed_set(p, s),
        0 <= a < p.spec_atom_count(),
        c.spec_live()[a],
    ensures
        s.contains(a),
    decreases c.spec_rank()[a]->0,
{
    assert(atom_justified(p, c, a));
    match c.spec_witness()[a] {
        Some(GroundedWitness::Seed) => {
            let k = choose|k: int| 0 <= k < p.spec_seeds().len() && #[trigger] p.spec_seeds()[k].id() == a;
            assert(s.contains(p.spec_seeds()[k].id() as int));
        },
        Some(GroundedWitness::Rule(rid)) => {
            let rule = p.spec_rules()[rid.id() as int];
            assert forall|k: int| 0 <= k < rule.spec_body().len() implies s.contains(#[trigger] rule.spec_body()[k].id() as int) by {
                let q = rule.spec_body()[k].id() as int;
                assert(rules_below(p.spec_rules(), p.spec_atom_count()));
                assert(p.spec_rules()[rid.id() as int].spec_head().id() < p.spec_atom_count());
                assert(atoms_below(rule.spec_body(), p.spec_atom_count()));
                assert(rule.spec_body()[k].id() < p.spec_atom_count());
                lemma_live_in_every_closed_set(p, c, s, q);
            }
            assert(p.spec_rules()[rid.id() as int].spec_enabled());
        },
        None => {},
    }
}

/// A valid certificate marks exactly the least model of the program.
pub proof fn lemma_valid_certificate_is_least_model(p: GroundedProgram, c: GroundedCertificate)
    requires
        p.wf(),
        cert_valid(p, c),
    ensures
        is_least_model(p, c.spec_live()),
{
    let n = p.spec_atom_count();
    let live_set = Set::new(|a: int| 0 <= a < n && c.spec_live()[a]);
    assert(closed_set(p, live_set)) by {
        assert forall|k: int| 0 <= k < p.spec_seeds().len() implies live_set.contains(#[trigger] p.spec_seeds()[k].id() as int) by {
            assert(p.spec_seeds()[k].id() < n);
        }
        assert forall|r: int|
            0 <= r < p.spec_rules().len() && #[trigger] p.spec_rules()[r].spec_enabled()
                && (forall|k: int| 0 <= k < p.spec_rules()[r].spec_body().len() ==> live_set.contains(#[trigger] p.spec_rules()[r].spec_body()[k].id() as int))
            implies live_set.contains(p.spec_rules()[r].spec_head().id() as int) by {
            assert(body_live(p.spec_rules()[r], c.spec_live()));
            assert(p.spec_rules()[r].spec_head().id() < n);
        }
    }
    assert forall|a: int| 0 <= a < c.spec_live().len() implies (#[trigger] c.spec_live()[a] <==> in_least_model(p, a)) by {
        if c.spec_live()[a] {
            assert forall|s: Set<int>| #[trigger] closed_set(p, s) implies s.contains(a) by {
                lemma_live_in_every_closed_set(p, c, s, a);
            }
        }
        if in_least_model(p, a) {
            assert(live_set.contains(a));
        }
    }
}

/// Two valid certificates of the same program agree on liveness.
pub proof fn lemma_valid_certificates_agree(p: GroundedProgram, c1: GroundedCertificate, c2: GroundedCertificate)
    requires
        p.wf(),
        cert_valid(p, c1),
        cert_valid(p, c2),
    ensures
        c1.spec_live() == c2.spec_live(),
{
    lemma_valid_certificate_is_least_model(p, c1);
    lemma_valid_certificate_is_least_model(p, c2);
    assert(c1.spec_live() =~= c2.spec_live());
}


/// The first premise (from position `k`) of a witness rule that is dead, unranked
/// or not ranked strictly below `r`.
pub open spec fn premise_error(c: GroundedCertificate, atom: GroundedAtomId, r: usize, body: Seq<GroundedAtomId>, k: int) -> Option<GroundedClosureError>
    decreases body.len() - k,
{
    if k < 0 || k >= body.len() {
        None
    } else {
        let premise = body[k];
        if !c.spec_live()[premise.id() as int] {
            Some(GroundedClosureError::WitnessPremiseDead { atom, premise })
        } else {
            match c.spec_rank()[premise.id() as int] {
                None => Some(GroundedClosureError::LiveAtomMissingRank(premise)),
                Some(pr) => if pr >= r {
                    Some(GroundedClosureError::WitnessRankNotStrictlySmaller { atom, premise })
                } else {
                    premise_error(c, atom, r, body, k + 1)
                },
            }
        }
    }
}

/// The error, if any, that the proof state of atom `i` raises.
pub open spec fn atom_error(p: GroundedProgram, c: GroundedCertificate, i: int) -> Option<GroundedClosureError> {
    let atom = atom_at(i);
    if !c.spec_live()[i] {
        if c.spec_rank()[i] is Some || c.spec_witness()[i] is Some {
            Some(GroundedClosureError::DeadAtomHasProofState(atom))
        } else {
            None
        }
    } else {
        match c.spec_rank()[i] {
            None => Some(GroundedClosureError::LiveAtomMissingRank(atom)),
            Some(r) => match c.spec_witness()[i] {
                None => Some(GroundedClosureError::LiveAtomMissingWitness(atom)),
                Some(GroundedWitness::Seed) => if !p.is_seed(i) {
                    Some(GroundedClosureError::SeedWitnessForNonSeed(atom))
                } else if r != 0 {
                    Some(GroundedClosureError::SeedHasNonZeroRank(atom))
                } else {
                    None
                },
                Some(GroundedWitness::Rule(rid)) => if rid.id() >= p.spec_rules().len() {
                    Some(GroundedClosureError::RuleOutsideProgram(rid))
                } else if !p.spec_rules()[rid.id() as int].spec_enabled() {
                    Some(GroundedClosureError::WitnessRuleDisabled(rid))
                } else if p.spec_rules()[rid.id() as int].spec_head() != atom {
                    Some(GroundedClosureError::WitnessRuleHeadMismatch { atom, rule: rid })
                } else {
                    premise_error(c, atom, r, p.spec_rules()[rid.id() as int].spec_body(), 0)
                },
            },
        }
    }
}

pub open spec fn first_atom_error(p: GroundedProgram, c: GroundedCertificate, i: int) -> Option<GroundedClosureError>
    decreases p.spec_atom_count() - i,
{
    if i < 0 || i >= p.spec_atom_count() {
        None
    } else {
        match atom_error(p, c, i) {
            Some(e) => Some(e),
            None => first_atom_error(p, c, i + 1),
        }
    }
}

pub open spec fn first_missing_seed(p: GroundedProgram, c: GroundedCertificate, k: int) -> Option<GroundedClosureError>
    decreases p.spec_seeds().len() - k,
{
    if k < 0 || k >= p.spec_seeds().len() {
        None
    } else if !c.spec_live()[p.spec_seeds()[k].id() as int] {
        Some(GroundedClosureError::MissingSeed(p.spec_seeds()[k]))
    } else {
        first_missing_seed(p, c, k + 1)
    }
}

pub open spec fn first_unclosed_rule(p: GroundedProgram, c: GroundedCertificate, r: int) -> Option<GroundedClosureError>
    decreases p.spec_rules().len() - r,
{
    if r < 0 || r >= p.spec_rules().len() {
        None
    } else if p.spec_rules()[r].spec_enabled() && body_live(p.spec_rules()[r], c.spec_live())
        && !c.spec_live()[p.spec_rules()[r].spec_head().id() as int] {
        Some(GroundedClosureError::NotClosedUnderRule(rule_at(r)))
    } else {
        first_unclosed_rule(p, c, r + 1)
    }
}

/// What `check` reports: the shape, then each atom in index order, then the
/// seeds in increasing order, then the rules in order; the first failure wins.
pub open spec fn check_result(p: GroundedProgram, c: GroundedCertificate) -> Result<(), GroundedClosureError> {
    if !shape_ok(p, c) {
        Err(GroundedClosureError::CertificateShapeMismatch)
    } else {
        match first_atom_error(p, c, 0) {
            Some(e) => Err(e),
            None => match first_missing_seed(p, c, 0) {
                Some(e) => Err(e),
                None => match first_unclosed_rule(p, c, 0) {
                    Some(e) => Err(e),
                    None => Ok(()),
                },
            },
        }
    }
}

proof fn lemma_premise_error(p: GroundedProgram, c: GroundedCertificate, atom: GroundedAtomId, r: usize, rule: GroundedRule, k: int)
    requires
        0 <= k <= rule.spec_body().len(),
        atoms_below(rule.spec_body(), p.spec_atom_count()),
        shape_ok(p, c),
    ensures
        premise_error(c, atom, r, rule.spec_body(), k) is None <==> (forall|j: int| k <= j < rule.spec_body().len() ==> {
            let q = #[trigger] rule.spec_body()[j].id() as int;
            &&& c.spec_live()[q]
            &&& c.spec_rank()[q] matches Some(pr) && pr < r
        }),
    decreases rule.spec_body().len() - k,
{
    if k < rule.spec_body().len() {
        lemma_premise_error(p, c, atom, r, rule, k + 1);
    }
}

proof fn lemma_atom_error(p: GroundedProgram, c: GroundedCertificate, i: int)
    requires
        p.wf(),
        shape_ok(p, c),
        0 <= i < p.spec_atom_count(),
    ensures
        atom_error(p, c, i) is None <==> atom_justified(p, c, i),
{
    lemma_atom_at(i);
    if c.spec_live()[i] {
        match (c.spec_rank()[i], c.spec_witness()[i]) {
            (Some(r), Some(GroundedWitness::Rule(rid))) => {
                if rid.id() < p.spec_rules().len() {
                    let rule = p.spec_rules()[rid.id() as int];
                    assert(rule.spec_head().id() < p.spec_atom_count());
                    lemma_premise_error(p, c, atom_at(i), r, rule, 0);
                    rule.spec_head().lemma_id_injective(atom_at(i));
                }
            },
            _ => {},
        }
    }
}

proof fn lemma_first_atom_error(p: GroundedProgram, c: GroundedCertificate, i: int)
    requires
        p.wf(),
        shape_ok(p, c),
        0 <= i <= p.spec_atom_count(),
    ensures
        first_atom_error(p, c, i) is None <==> (forall|j: int| i <= j < p.spec_atom_count() ==> #[trigger] atom_justified(p, c, j)),
    decreases p.spec_atom_count() - i,
{
    if i < p.spec_atom_count() {
        lemma_atom_error(p, c, i);
        lemma_first_atom_error(p, c, i + 1);
    }
}

proof fn lemma_first_missing_seed(p: GroundedProgram, c: GroundedCertificate, k: int)
    requires
        0 <= k <= p.spec_seeds().len(),
    ensures
        first_missing_seed(p, c, k) is None <==> (forall|j: int| k <= j < p.spec_seeds().len() ==> c.spec_live()[#[trigger] p.spec_seeds()[j].id() as int]),
    decreases p.spec_seeds().len() - k,
{
    if k < p.spec_seeds().len() {
        lemma_first_missing_seed(p, c, k + 1);
    }
}

proof fn lemma_first_unclosed_rule(p: GroundedProgram, c: GroundedCertificate, r: int)
    requires
        0 <= r <= p.spec_rules().len(),
    ensures
        first_unclosed_rule(p, c, r) is None <==> (forall|q: int| r <= q < p.spec_rules().len() && #[trigger] p.spec_rules()[q].spec_enabled()
            && body_live(p.spec_rules()[q], c.spec_live()) ==> c.spec_live()[p.spec_rules()[q].spec_head().id() as int]),
    decreases p.spec_rules().len() - r,
{
    if r < p.spec_rules().len() {
        lemma_first_unclosed_rule(p, c, r + 1);
    }
}

/// `check` accepts exactly the valid certificates.
pub proof fn lemma_check_result_ok(p: GroundedProgram, c: GroundedCertificate)
    requires
        p.wf(),
    ensures
        check_result(p, c) is Ok <==> cert_valid(p, c),
{
    if shape_ok(p, c) {
        lemma_first_atom_error(p, c, 0);
        lemma_first_missing_seed(p, c, 0);
        lemma_first_unclosed_rule(p, c, 0);
    }
}

fn check_premises(c: &GroundedCertificate, atom: GroundedAtomId, r: usize, rule: &GroundedRule, Ghost(p): Ghost<GroundedProgram>) -> (result: Option<GroundedClosureError>)
    requires
        atoms_below(rule.spec_body(), p.spec_atom_count()),
        shape_ok(p, *c),
    ensures
        result == premise_error(*c, atom, r, rule.spec_body(), 0),
{
    let mut k: usize = 0;
    while k < rule.body.len()
        invariant
            k <= rule.body.len(),
            atoms_below(rule.spec_body(), p.spec_atom_count()),
            shape_ok(p, *c),
            premise_error(*c, atom, r, rule.spec_body(), 0) == premise_error(*c, atom, r, rule.spec_body(), k as int),
        decreases rule.body.len() - k,
    {
        let premise = rule.body[k];
        assert(premise.id() < p.spec_atom_count());
        if !c.live[premise.0] {
            return Some(GroundedClosureError::WitnessPremiseDead { atom, premise });
        }
        match c.rank[premise.0] {
            None => {
                return Some(GroundedClosureError::LiveAtomMissingRank(premise));
            },
            Some(pr) => {
                if pr >= r {
                    return Some(GroundedClosureError::WitnessRankNotStrictlySmaller { atom, premise });
                }
            },
        }
        k = k + 1;
    }
    None
}

fn check_atom(p: &GroundedProgram, c: &GroundedCertificate, index: usize) -> (result: Option<GroundedClosureError>)
    requires
        p.wf(),
        shape_ok(*p, *c),
        index < p.spec_atom_count(),
    ensures
        result == atom_error(*p, *c, index as int),
{
    let atom = GroundedAtomId(index);
    proof {
        lemma_atom_at(index as int);
    }
    if !c.live[index] {
        if c.rank[index].is_some() || c.witness[index].is_some() {
            return Some(GroundedClosureError::DeadAtomHasProofState(atom));
        }
        return None;
    }
    let rank = match c.rank[index] {
        None => {
            return Some(GroundedClosureError::LiveAtomMissingRank(atom));
        },
        Some(r) => r,
    };
    let witness = match c.witness[index] {
        None => {
            return Some(GroundedClosureError::LiveAtomMissingWitness(atom));
        },
        Some(w) => w,
    };
    match witness {
        GroundedWitness::Seed => {
            let found = seeds_contain(&p.seeds, atom);
            if !found {
                return Some(GroundedClosureError::SeedWitnessForNonSeed(atom));
            }
            if rank != 0 {
                return Some(GroundedClosureError::SeedHasNonZeroRank(atom));
            }
            None
        },
        GroundedWitness::Rule(rule_id) => {
            if rule_id.0 >= p.rules.len() {
                return Some(GroundedClosureError::RuleOutsideProgram(rule_id));
            }
            let rule = &p.rules[rule_id.0];
            if !rule.enabled {
                return Some(GroundedClosureError::WitnessRuleDisabled(rule_id));
            }
            if rule.head.0 != atom.0 {
                return Some(GroundedClosureError::WitnessRuleHeadMismatch { atom, rule: rule_id });
            }
            proof {
                assert(rule.spec_head() == atom);
            }
            check_premises(c, atom, rank, rule, Ghost(*p))
        },
    }
}

/// Membership of an atom in a strictly sorted seed list.
fn seeds_contain(seeds: &Vec<GroundedAtomId>, atom: GroundedAtomId) -> (found: bool)
    ensures
        found <==> exists|k: int| 0 <= k < seeds@.len() && #[trigger] seeds@[k].id() == atom.id(),
{
    let mut k: usize = 0;
    while k < seeds.len()
        invariant
            k <= seeds.len(),
            forall|j: int| 0 <= j < k ==> #[trigger] seeds@[j].id() != atom.id(),
        decreases seeds.len() - k,
    {
        if seeds[k].0 == atom.0 {
            assert(seeds@[k as int].id() == atom.id());
            return true;
        }
        k = k + 1;
    }
    false
}

/// Checks a certificate against a program; see `check_result` for the report order.
pub fn check(program: &GroundedProgram, certificate: &GroundedCertificate) -> (result: Result<(), GroundedClosureError>)
    requires
        program.wf(),
    ensures
        result == check_result(*program, *certificate),
        result is Ok <==> cert_valid(*program, *certificate),
        result is Ok ==> is_least_model(*program, certificate.spec_live()),
{
    proof {
        lemma_check_result_ok(*program, *certificate);
        if cert_valid(*program, *certificate) {
            lemma_valid_certificate_is_least_model(*program, *certificate);
        }
    }
    let n = program.atom_count;
    if certificate.live.len() != n || certificate.rank.len() != n || certificate.witness.len() != n {
        return Err(GroundedClosureError::CertificateShapeMismatch);
    }
    let mut i: usize = 0;
    while i < n
        invariant
            i <= n,
            n == program.spec_atom_count(),
            program.wf(),
            shape_ok(*program, *certificate),
            first_atom_error(*program, *certificate, 0) == first_atom_error(*program, *certificate, i as int),
        decreases n - i,
    {
        match check_atom(program, certificate, i) {
            Some(e) => {
                assert(first_atom_error(*program, *certificate, i as int) == Some(e));
                proof {
                    lemma_check_result_ok(*program, *certificate);
                }
                return Err(e);
            },
            None => {},
        }
        i = i + 1;
    }
    let mut k: usize = 0;
    while k < program.seeds.len()
        invariant
            k <= program.seeds.len(),
            program.wf(),
            shape_ok(*program, *certificate),
            first_atom_error(*program, *certificate, 0) is None,
            first_missing_seed(*program, *certificate, 0) == first_missing_seed(*program, *certificate, k as int),
        decreases program.seeds.len() - k,
    {
        let seed = program.seeds[k];
        assert(seed.id() < program.spec_atom_count());
        if !certificate.live[seed.0] {
            proof {
                lemma_check_result_ok(*program, *certificate);
            }
            return Err(GroundedClosureError::MissingSeed(seed));
        }
        k = k + 1;
    }
    let mut r: usize = 0;
    while r < program.rules.len()
        invariant
            r <= program.rules.len(),
            program.wf(),
            shape_ok(*program, *certificate),
            first_atom_error(*program, *certificate, 0) is None,
            first_missing_seed(*program, *certificate, 0) is None,
            first_unclosed_rule(*program, *certificate, 0) == first_unclosed_rule(*program, *certificate, r as int),
        decreases program.rules.len() - r,
    {
        let rule = &program.rules[r];
        if rule.enabled {
            let all_live = body_all_live(certificate, rule, Ghost(*program));
            assert(rule.spec_head().id() < program.spec_atom_count());
            if all_live && !certificate.live[rule.head.0] {
                proof {
                    lemma_rule_at(r as int);
                    lemma_check_result_ok(*program, *certificate);
                }
                return Err(GroundedClosureError::NotClosedUnderRule(GroundedRuleId(r)));
            }
        }
        r = r + 1;
    }
    Ok(())
}

fn body_all_live(c: &GroundedCertificate, rule: &GroundedRule, Ghost(p): Ghost<GroundedProgram>) -> (all: bool)
    requires
        atoms_below(rule.spec_body(), p.spec_atom_count()),
        c.spec_live().len() == p.spec_atom_count(),
    ensures
        all == body_live(*rule, c.spec_live()),
{
    let mut k: usize = 0;
    while k < rule.body.len()
        invariant
            k <= rule.body.len(),
            atoms_below(rule.spec_body(), p.spec_atom_count()),
            c.spec_live().len() == p.spec_atom_count(),
            forall|j: int| 0 <= j < k ==> c.spec_live()[#[trigger] rule.spec_body()[j].id() as int],
        decreases rule.body.len() - k,
    {
        assert(rule.spec_body()[k as int].id() < p.spec_atom_count());
        if !c.live[rule.body[k].0] {
            assert(!c.spec_live()[rule.spec_body()[k as int].id() as int]);
            return false;
        }
        k = k + 1;
    }
    true
}


/// A vector holding `n` copies of `x`.
pub fn filled<T: Copy>(x: T, n: usize) -> (v: Vec<T>)
    ensures
        v@ == Seq::new(n as nat, |i: int| x),
{
    let mut v: Vec<T> = Vec::new();
    let mut i: usize = 0;
    while i < n
        invariant
            i <= n,
            v@ == Seq::new(i as nat, |j: int| x),
        decreases n - i,
    {
        v.push(x);
        i = i + 1;
        assert(v@ =~= Seq::new(i as nat, |j: int| x));
    }
    v
}

/// Rule ids in strictly increasing order.
pub open spec fn rule_ids_sorted(s: Seq<GroundedRuleId>) -> bool {
    forall|i: int, j: int| 0 <= i < j < s.len() ==> s[i].id() < s[j].id()
}

/// For each atom: the rules whose body mentions it, and the rules whose head it is.
#[derive(Debug, PartialEq, Eq)]
pub struct GroundedIncidenceIndex {
    dependents: Vec<Vec<GroundedRuleId>>,
    by_head: Vec<Vec<GroundedRuleId>>,
}

/// `lists[a]` lists, in increasing order, exactly the rules `r` with `rel(a, r)`.
pub open spec fn lists_rules_exactly(lists: Seq<Seq<GroundedRuleId>>, n: nat, rule_count: nat, rel: spec_fn(int, int) -> bool) -> bool {
    &&& lists.len() == n
    &&& forall|a: int| 0 <= a < n ==> rule_ids_sorted(#[trigger] lists[a])
    &&& forall|a: int, j: int| 0 <= a < n && 0 <= j < lists[a].len() ==> {
        &&& (#[trigger] lists[a][j]).id() < rule_count
        &&& rel(a, lists[a][j].id() as int)
    }
    &&& forall|a: int, r: int| 0 <= a < n && 0 <= r < rule_count && rel(a, r) ==> #[trigger] lists[a].contains(rule_at(r))
}

pub open spec fn body_mentions(rule: GroundedRule, a: int) -> bool {
    exists|k: int| 0 <= k < rule.spec_body().len() && #[trigger] rule.spec_body()[k].id() == a
}

impl GroundedIncidenceIndex {
    pub closed spec fn spec_dependents(self) -> Seq<Seq<GroundedRuleId>> {
        self.dependents@.map_values(|v: Vec<GroundedRuleId>| v@)
    }

    pub closed spec fn spec_by_head(self) -> Seq<Seq<GroundedRuleId>> {
        self.by_head@.map_values(|v: Vec<GroundedRuleId>| v@)
    }

    /// The index describes `p`: dependents by body membership, rules by head.
    pub open spec fn matches(self, p: GroundedProgram) -> bool {
        &&& lists_rules_exactly(self.spec_dependents(), p.spec_atom_count(), p.spec_rules().len(),
            |a: int, r: int| body_mentions(p.spec_rules()[r], a))
        &&& lists_rules_exactly(self.spec_by_head(), p.spec_atom_count(), p.spec_rules().len(),
            |a: int, r: int| p.spec_rules()[r].spec_head().id() == a)
    }

    pub fn compile(program: &GroundedProgram) -> (index: Self)
        requires
            program.wf(),
        ensures
            index.matches(*program),
    {
        let n = program.atom_count;
        let mut dependents: Vec<Vec<GroundedRuleId>> = Vec::new();
        let mut by_head: Vec<Vec<GroundedRuleId>> = Vec::new();
        let mut i: usize = 0;
        while i < n
            invariant
                i <= n,
                dependents@.len() == i,
                by_head@.len() == i,
                forall|a: int| 0 <= a < i ==> (#[trigger] dependents@[a])@.len() == 0,
                forall|a: int| 0 <= a < i ==> (#[trigger] by_head@[a])@.len() == 0,
            decreases n - i,
        {
            dependents.push(Vec::new());
            by_head.push(Vec::new());
            i = i + 1;
        }
        let ghost rules = program.rules@;
        let mut r: usize = 0;
        while r < program.rules.len()
            invariant
                r <= program.rules.len(),
                n == program.spec_atom_count(),
                rules == program.spec_rules(),
                program.wf(),
                dependents@.len() == n,
                by_head@.len() == n,
                forall|a: int| 0 <= a < n ==> rule_ids_sorted((#[trigger] dependents@[a])@),
                forall|a: int| 0 <= a < n ==> rule_ids_sorted((#[trigger] by_head@[a])@),
                forall|a: int, j: int| 0 <= a < n && 0 <= j < dependents@[a]@.len() ==> {
                    &&& (#[trigger] dependents@[a]@[j]).id() < r
                    &&& body_mentions(rules[dependents@[a]@[j].id() as int], a)
                },
                forall|a: int, j: int| 0 <= a < n && 0 <= j < by_head@[a]@.len() ==> {
                    &&& (#[trigger] by_head@[a]@[j]).id() < r
                    &&& rules[by_head@[a]@[j].id() as int].spec_head().id() == a
                },
                forall|a: int, q: int| 0 <= a < n && 0 <= q < r && #[trigger] body_mentions(rules[q], a) ==> dependents@[a]@.contains(rule_at(q)),
                forall|a: int, q: int| 0 <= a < n && 0 <= q < r && rules[q].spec_head().id() == a ==> #[trigger] by_head@[a]@.contains(rule_at(q)),
            decreases program.rules.len() - r,
        {
            let rule = &program.rules[r];
            let rule_id = GroundedRuleId(r);
            proof {
                lemma_rule_at(r as int);
            }
            let h = rule.head.0;
            assert(program.spec_rules()[r as int].spec_head().id() < n);
            assert(atoms_below(rule.spec_body(), n as nat));
            let ghost dep_before = dependents@;
            let ghost head_before = by_head@;
            by_head[h].push(rule_id);
            proof {
                assert forall|a: int| 0 <= a < n implies rule_ids_sorted((#[trigger] by_head@[a])@) by {
                    if a == h {
                        assert(by_head@[a]@ == head_before[a]@.push(rule_id));
                    } else {
                        assert(by_head@[a] == head_before[a]);
                    }
                }
                assert forall|a: int, j: int| 0 <= a < n && 0 <= j < by_head@[a]@.len() implies {
                    &&& (#[trigger] by_head@[a]@[j]).id() < r + 1
                    &&& rules[by_head@[a]@[j].id() as int].spec_head().id() == a
                } by {
                    if a == h {
                        assert(by_head@[a]@ == head_before[a]@.push(rule_id));
                        if j < head_before[a]@.len() {
                            assert(by_head@[a]@[j] == head_before[a]@[j]);
                        }
                    } else {
                        assert(by_head@[a] == head_before[a]);
                    }
                }
                assert forall|a: int, q: int| 0 <= a < n && 0 <= q < r + 1 && rules[q].spec_head().id() == a implies #[trigger] by_head@[a]@.contains(rule_at(q)) by {
                    if a == h {
                        assert(by_head@[a]@ == head_before[a]@.push(rule_id));
                        if q < r {
                            assert(head_before[a]@.contains(rule_at(q)));
                            let j = choose|j: int| 0 <= j < head_before[a]@.len() && head_before[a]@[j] == rule_at(q);
                            assert(by_head@[a]@[j] == rule_at(q));
                        } else {
                            assert(by_head@[a]@[head_before[a]@.len() as int] == rule_id);
                        }
                    } else {
                        assert(by_head@[a] == head_before[a]);
                    }
                }
            }
            let mut k: usize = 0;
            while k < rule.body.len()
                invariant
                    k <= rule.body.len(),
                    rule == &rules[r as int],
                    r < rules.len(),
                    rule_id == rule_at(r as int),
                    rule_id.id() == r,
                    atoms_below(rule.spec_body(), n as nat),
                    n == program.spec_atom_count(),
                    rules == program.spec_rules(),
                    program.wf(),
                    dependents@.len() == n,
                    forall|a: int| 0 <= a < n ==> rule_ids_sorted((#[trigger] dependents@[a])@),
                    forall|a: int, j: int| 0 <= a < n && 0 <= j < dependents@[a]@.len() ==> {
                        &&& (#[trigger] dependents@[a]@[j]).id() < r + 1
                        &&& body_mentions(rules[dependents@[a]@[j].id() as int], a)
                    },
                    forall|a: int, j: int| 0 <= a < n && 0 <= j < dependents@[a]@.len() && (#[trigger] dependents@[a]@[j]).id() == r ==>
                        exists|m: int| 0 <= m < k && rule.spec_body()[m].id() == a,
                    forall|a: int, q: int| 0 <= a < n && 0 <= q < r && #[trigger] body_mentions(rules[q], a) ==> dependents@[a]@.contains(rule_at(q)),
                    forall|m: int| 0 <= m < k ==> dependents@[rule.spec_body()[m].id() as int]@.contains(rule_id),
                decreases rule.body.len() - k,
            {
                let atom = rule.body[k].0;
                assert(rule.spec_body()[k as int].id() < n);
                let ghost before = dependents@;
                proof {
                    assert(strictly_sorted(rule.spec_body()));
                    assert forall|j: int| 0 <= j < before[atom as int]@.len() implies (#[trigger] before[atom as int]@[j]).id() < r by {
                        if before[atom as int]@[j].id() == r {
                            let m = choose|m: int| 0 <= m < k && rule.spec_body()[m].id() == atom;
                            assert(rule.spec_body()[m].id() < rule.spec_body()[k as int].id());
                        }
                    }
                }
                dependents[atom].push(rule_id);
                proof {
                    assert(body_mentions(rules[r as int], atom as int)) by {
                        assert(rule.spec_body()[k as int].id() == atom);
                    }
                    assert forall|a: int| 0 <= a < n implies rule_ids_sorted((#[trigger] dependents@[a])@) by {
                        if a == atom {
                            assert(dependents@[a]@ == before[a]@.push(rule_id));
                        } else {
                            assert(dependents@[a] == before[a]);
                        }
                    }
                    assert forall|a: int, j: int| 0 <= a < n && 0 <= j < dependents@[a]@.len() implies {
                        &&& (#[trigger] dependents@[a]@[j]).id() < r + 1
                        &&& body_mentions(rules[dependents@[a]@[j].id() as int], a)
                    } by {
                        if a == atom {
                            assert(dependents@[a]@ == before[a]@.push(rule_id));
                            if j < before[a]@.len() {
                                assert(dependents@[a]@[j] == before[a]@[j]);
                            }
                        } else {
                            assert(dependents@[a] == before[a]);
                        }
                    }
                    assert forall|a: int, j: int| 0 <= a < n && 0 <= j < dependents@[a]@.len() && (#[trigger] dependents@[a]@[j]).id() == r implies
                        exists|m: int| 0 <= m < k + 1 && rule.spec_body()[m].id() == a by {
                        if a == atom {
                            assert(rule.spec_body()[k as int].id() == a);
                        } else {
                            assert(dependents@[a] == before[a]);
                            let m = choose|m: int| 0 <= m < k && rule.spec_body()[m].id() == a;
                        }
                    }
                    assert forall|a: int, q: int| 0 <= a < n && 0 <= q < r && #[trigger] body_mentions(rules[q], a) implies dependents@[a]@.contains(rule_at(q)) by {
                        assert(before[a]@.contains(rule_at(q)));
                        let j = choose|j: int| 0 <= j < before[a]@.len() && before[a]@[j] == rule_at(q);
                        if a == atom {
                            assert(dependents@[a]@ == before[a]@.push(rule_id));
                        }
                        assert(dependents@[a]@[j] == rule_at(q));
                    }
                    assert forall|m: int| 0 <= m < k + 1 implies dependents@[rule.spec_body()[m].id() as int]@.contains(rule_id) by {
                        let b = rule.spec_body()[m].id() as int;
                        assert(b < n);
                        if b == atom {
                            assert(dependents@[b]@ == before[b]@.push(rule_id));
                            assert(dependents@[b]@[before[b]@.len() as int] == rule_id);
                        } else {
                            assert(dependents@[b] == before[b]);
                        }
                    }
                }
                k = k + 1;
            }
            proof {
                assert forall|a: int, q: int| 0 <= a < n && 0 <= q < r + 1 && #[trigger] body_mentions(rules[q], a) implies dependents@[a]@.contains(rule_at(q)) by {
                    if q == r {
                        let m = choose|m: int| 0 <= m < rule.spec_body().len() && #[trigger] rule.spec_body()[m].id() == a;
                    }
                }
            }
            r = r + 1;
        }
        let index = GroundedIncidenceIndex { dependents, by_head };
        proof {
            assert(index.spec_dependents().len() == n);
            assert forall|a: int| 0 <= a < n implies #[trigger] index.spec_dependents()[a] == dependents@[a]@ by {}
            assert forall|a: int| 0 <= a < n implies #[trigger] index.spec_by_head()[a] == by_head@[a]@ by {}
        }
        index
    }
}


/// Work counters reported by the solvers; they do not affect results.
#[derive(Debug, Clone, Copy, PartialEq, Eq, Structural)]
pub struct GroundedWorkStats {
    pub incidence_updates: usize,
    pub dependency_walks: usize,
    pub rule_fires: usize,
    pub affected_atoms: usize,
}

impl Default for GroundedWorkStats {
    fn default() -> (stats: Self)
        ensures
            stats == (GroundedWorkStats { incidence_updates: 0, dependency_walks: 0, rule_fires: 0, affected_atoms: 0 }),
    {
        GroundedWorkStats { incidence_updates: 0, dependency_walks: 0, rule_fires: 0, affected_atoms: 0 }
    }
}

/// Number of atoms of `body` that are not (yet) in `done`.
pub open spec fn count_pending(body: Seq<GroundedAtomId>, done: Seq<GroundedAtomId>) -> nat
    decreases body.len(),
{
    if body.len() == 0 {
        0
    } else {
        count_pending(body.drop_last(), done) + if done.contains(body.last()) { 0nat } else { 1nat }
    }
}

proof fn lemma_count_pending_empty(body: Seq<GroundedAtomId>)
    ensures
        count_pending(body, Seq::empty()) == body.len(),
    decreases body.len(),
{
    if body.len() > 0 {
        lemma_count_pending_empty(body.drop_last());
    }
}

proof fn lemma_count_pending_absent(body: Seq<GroundedAtomId>, done: Seq<GroundedAtomId>, a: GroundedAtomId)
    requires
        !body.contains(a),
    ensures
        count_pending(body, done.push(a)) == count_pending(body, done),
    decreases body.len(),
{
    if body.len() > 0 {
        assert(!body.drop_last().contains(a)) by {
            if body.drop_last().contains(a) {
                let k = choose|k: int| 0 <= k < body.drop_last().len() && body.drop_last()[k] == a;
                assert(body[k] == a);
            }
        }
        lemma_count_pending_absent(body.drop_last(), done, a);
        assert(body.last() != a) by {
            assert(body[body.len() - 1] == body.last());
        }
        assert(done.push(a).contains(body.last()) == done.contains(body.last())) by {
            if done.push(a).contains(body.last()) {
                let k = choose|k: int| 0 <= k < done.push(a).len() && done.push(a)[k] == body.last();
                assert(done[k] == body.last());
            }
            if done.contains(body.last()) {
                let k = choose|k: int| 0 <= k < done.len() && done[k] == body.last();
                assert(done.push(a)[k] == body.last());
            }
        }
    }
}

proof fn lemma_count_pending_present(body: Seq<GroundedAtomId>, done: Seq<GroundedAtomId>, a: GroundedAtomId)
    requires
        strictly_sorted(body),
        body.contains(a),
        !done.contains(a),
    ensures
        count_pending(body, done.push(a)) + 1 == count_pending(body, done),
    decreases body.len(),
{
    let rest = body.drop_last();
    if body.last() == a {
        assert(!rest.contains(a)) by {
            if rest.contains(a) {
                let k = choose|k: int| 0 <= k < rest.len() && rest[k] == a;
                assert(body[k] == a);
                assert(body[k].id() < body[body.len() - 1].id());
            }
        }
        lemma_count_pending_absent(rest, done, a);
        assert(done.push(a)[done.len() as int] == a);
    } else {
        let k = choose|k: int| 0 <= k < body.len() && body[k] == a;
        assert(k != body.len() - 1);
        assert(rest[k] == a);
        lemma_count_pending_present(rest, done, a);
        assert(done.push(a).contains(body.last()) == done.contains(body.last())) by {
            if done.push(a).contains(body.last()) {
                let m = choose|m: int| 0 <= m < done.push(a).len() && done.push(a)[m] == body.last();
                assert(done[m] == body.last());
            }
            if done.contains(body.last()) {
                let m = choose|m: int| 0 <= m < done.len() && done[m] == body.last();
                assert(done.push(a)[m] == body.last());
            }
        }
    }
}

proof fn lemma_count_pending_zero(body: Seq<GroundedAtomId>, done: Seq<GroundedAtomId>)
    ensures
        count_pending(body, done) == 0 <==> (forall|k: int| 0 <= k < body.len() ==> done.contains(#[trigger] body[k])),
    decreases body.len(),
{
    if body.len() > 0 {
        lemma_count_pending_zero(body.drop_last(), done);
        if count_pending(body, done) == 0 {
            assert forall|k: int| 0 <= k < body.len() implies done.contains(#[trigger] body[k]) by {
                if k < body.len() - 1 {
                    assert(body.drop_last()[k] == body[k]);
                }
            }
        }
        if forall|k: int| 0 <= k < body.len() ==> done.contains(#[trigger] body[k]) {
            assert forall|k: int| 0 <= k < body.drop_last().len() implies done.contains(#[trigger] body.drop_last()[k]) by {
                assert(body.drop_last()[k] == body[k]);
            }
            assert(done.contains(body[body.len() - 1]));
        }
    }
}

/// A sequence of distinct atoms below `n` has at most `n` entries.
proof fn lemma_distinct_atoms_bounded(q: Seq<GroundedAtomId>, n: nat)
    requires
        forall|i: int, j: int| 0 <= i < j < q.len() ==> q[i] != q[j],
        forall|i: int| 0 <= i < q.len() ==> (#[trigger] q[i]).id() < n,
    ensures
        q.len() <= n,
{
    let ids = q.map_values(|a: GroundedAtomId| a.id() as int);
    assert(ids.no_duplicates()) by {
        assert forall|i: int, j: int| 0 <= i < ids.len() && 0 <= j < ids.len() && i != j implies ids[i] != ids[j] by {
            q[i].lemma_id_injective(q[j]);
            if i < j {
                assert(q[i] != q[j]);
            } else {
                assert(q[j] != q[i]);
            }
        }
    }
    ids.unique_seq_to_set();
    vstd::set_lib::lemma_int_range(0, n as int);
    assert(ids.to_set().subset_of(vstd::set_lib::set_int_range(0, n as int))) by {
        assert forall|x: int| ids.to_set().contains(x) implies vstd::set_lib::set_int_range(0, n as int).contains(x) by {
            let k = choose|k: int| 0 <= k < ids.len() && ids[k] == x;
            assert(q[k].id() < n);
        }
    }
    vstd::set_lib::lemma_len_subset(ids.to_set(), vstd::set_lib::set_int_range(0, n as int));
}

struct SolverState {
    live: Vec<bool>,
    rank: Vec<Option<usize>>,
    witness: Vec<Option<GroundedWitness>>,
    fired: Vec<bool>,
    queue: Vec<GroundedAtomId>,
    stats: GroundedWorkStats,
}

spec fn st_cert(st: SolverState) -> GroundedCertificate {
    GroundedCertificate { live: st.live, rank: st.rank, witness: st.witness }
}

/// Number of set flags among the first `k` of `flags`.
pub open spec fn flag_count(flags: Seq<bool>, k: int) -> nat
    decreases k,
{
    if k <= 0 {
        0
    } else {
        flag_count(flags, k - 1) + if flags[k - 1] { 1nat } else { 0nat }
    }
}

/// Number of enabled rules among the first `k` rules of `p`.
pub open spec fn enabled_count(p: GroundedProgram, k: int) -> nat
    decreases k,
{
    if k <= 0 {
        0
    } else {
        enabled_count(p, k - 1) + if p.spec_rules()[k - 1].spec_enabled() { 1nat } else { 0nat }
    }
}

proof fn lemma_flag_count_set(flags: Seq<bool>, i: int, k: int)
    requires
        0 <= i < flags.len(),
        !flags[i],
        0 <= k <= flags.len(),
    ensures
        flag_count(flags.update(i, true), k) == flag_count(flags, k) + if i < k { 1nat } else { 0nat },
        flag_count(flags, k) <= k,
    decreases k,
{
    if k > 0 {
        lemma_flag_count_set(flags, i, k - 1);
    }
}

proof fn lemma_flag_count_bound(flags: Seq<bool>, k: int)
    requires
        0 <= k <= flags.len(),
    ensures
        flag_count(flags, k) <= k,
    decreases k,
{
    if k > 0 {
        lemma_flag_count_bound(flags, k - 1);
    }
}

proof fn lemma_flag_count_none(flags: Seq<bool>, k: int)
    requires
        0 <= k <= flags.len(),
        forall|j: int| 0 <= j < flags.len() ==> !(#[trigger] flags[j]),
    ensures
        flag_count(flags, k) == 0,
    decreases k,
{
    if k > 0 {
        lemma_flag_count_none(flags, k - 1);
    }
}

proof fn lemma_fired_within_enabled(p: GroundedProgram, fired: Seq<bool>, k: int)
    requires
        fired.len() == p.spec_rules().len(),
        0 <= k <= fired.len(),
        forall|r: int| 0 <= r < fired.len() && #[trigger] fired[r] ==> p.spec_rules()[r].spec_enabled(),
    ensures
        flag_count(fired, k) <= enabled_count(p, k),
    decreases k,
{
    if k > 0 {
        lemma_fired_within_enabled(p, fired, k - 1);
    }
}

/// Premise counts already spent by the first `k` rules: for each enabled rule,
/// its body length less what it still waits for.
spec fn spent(p: GroundedProgram, rem: Seq<usize>, k: int) -> int
    decreases k,
{
    if k <= 0 {
        0
    } else {
        spent(p, rem, k - 1) + if p.spec_rules()[k - 1].spec_enabled() { p.spec_rules()[k - 1].spec_body().len() - rem[k - 1] } else { 0int }
    }
}

/// The total body length of the enabled rules among the first `k`.
pub open spec fn enabled_body_total(p: GroundedProgram, k: int) -> nat
    decreases k,
{
    if k <= 0 {
        0
    } else {
        enabled_body_total(p, k - 1) + if p.spec_rules()[k - 1].spec_enabled() { p.spec_rules()[k - 1].spec_body().len() } else { 0nat }
    }
}

proof fn lemma_spent_update(p: GroundedProgram, rem: Seq<usize>, q: int, v: usize, k: int)
    requires
        0 <= q < rem.len(),
        k <= rem.len(),
    ensures
        spent(p, rem.update(q, v), k) == spent(p, rem, k) + if q < k && p.spec_rules()[q].spec_enabled() { rem[q] - v } else { 0int },
    decreases k,
{
    if k > 0 {
        lemma_spent_update(p, rem, q, v, k - 1);
    }
}

proof fn lemma_spent_bound(p: GroundedProgram, rem: Seq<usize>, k: int)
    ensures
        spent(p, rem, k) <= enabled_body_total(p, k),
    decreases k,
{
    if k > 0 {
        lemma_spent_bound(p, rem, k - 1);
    }
}

proof fn lemma_spent_none(p: GroundedProgram, rem: Seq<usize>, k: int)
    requires
        forall|q: int| 0 <= q < k && p.spec_rules()[q].spec_enabled() ==> #[trigger] rem[q] == p.spec_rules()[q].spec_body().len(),
    ensures
        spent(p, rem, k) == 0,
    decreases k,
{
    if k > 0 {
        lemma_spent_none(p, rem, k - 1);
    }
}

spec fn st_core(p: GroundedProgram, st: SolverState) -> bool {
    let n = p.spec_atom_count();
    &&& st.stats.dependency_walks == 0
    &&& st.stats.affected_atoms == 0
    &&& st.stats.rule_fires == flag_count(st.fired@, st.fired@.len() as int)
    &&& st.live@.len() == n
    &&& st.rank@.len() == n
    &&& st.witness@.len() == n
    &&& st.fired@.len() == p.spec_rules().len()
    &&& forall|i: int, j: int| 0 <= i < j < st.queue@.len() ==> st.queue@[i] != st.queue@[j]
    &&& forall|i: int| 0 <= i < st.queue@.len() ==> (#[trigger] st.queue@[i]).id() < n && st.live@[st.queue@[i].id() as int]
    &&& forall|a: int| 0 <= a < n && #[trigger] st.live@[a] ==> st.queue@.contains(atom_at(a))
    &&& forall|a: int| 0 <= a < n ==> #[trigger] atom_justified(p, st_cert(st), a)
    &&& forall|a: int| 0 <= a < n && st.live@[a] ==> ((#[trigger] st.rank@[a]) matches Some(r) && r < st.queue@.len())
    &&& forall|r: int| 0 <= r < p.spec_rules().len() && #[trigger] st.fired@[r] ==>
        p.spec_rules()[r].spec_enabled() && st.live@[p.spec_rules()[r].spec_head().id() as int]
}

spec fn in_tail(deps: Seq<GroundedRuleId>, j: int, r: int) -> bool {
    exists|m: int| j <= m < deps.len() && #[trigger] deps[m].id() == r
}

/// Counting state of rule `r`: an enabled unfired rule still waits for its
/// unprocessed premises (plus one when it is still to be visited in `deps[j..]`).
spec fn pending_rule(p: GroundedProgram, fired: Seq<bool>, remaining: Seq<usize>, done: Seq<GroundedAtomId>, deps: Seq<GroundedRuleId>, j: int, r: int) -> bool {
    let rule = p.spec_rules()[r];
    &&& rule.spec_enabled() && !fired[r] ==> remaining[r] == count_pending(rule.spec_body(), done) + (if in_tail(deps, j, r) { 1int } else { 0int })
    &&& !rule.spec_enabled() ==> !fired[r] && remaining[r] == 0
}

spec fn pending_ok(p: GroundedProgram, fired: Seq<bool>, remaining: Seq<usize>, done: Seq<GroundedAtomId>, deps: Seq<GroundedRuleId>, j: int) -> bool {
    &&& remaining.len() == p.spec_rules().len()
    &&& forall|r: int| 0 <= r < p.spec_rules().len() ==> #[trigger] pending_rule(p, fired, remaining, done, deps, j, r)
}

spec fn zero_fired(p: GroundedProgram, fired: Seq<bool>, remaining: Seq<usize>) -> bool {
    forall|r: int| 0 <= r < p.spec_rules().len() && p.spec_rules()[r].spec_enabled() && #[trigger] remaining[r] == 0 ==> fired[r]
}

spec fn seeds_live(p: GroundedProgram, live: Seq<bool>) -> bool {
    forall|k: int| 0 <= k < p.spec_seeds().len() ==> live[#[trigger] p.spec_seeds()[k].id() as int]
}

/// Every seed has rank zero.
pub open spec fn seeds_ranked(p: GroundedProgram, rank: Seq<Option<usize>>) -> bool {
    forall|k: int| 0 <= k < p.spec_seeds().len() ==> rank[#[trigger] p.spec_seeds()[k].id() as int] == Some(0usize)
}

impl SolverState {
    fn fire_rule(&mut self, program: &GroundedProgram, rule_id: GroundedRuleId)
        requires
            program.wf(),
            st_core(*program, *old(self)),
            rule_id.id() < program.spec_rules().len(),
            program.spec_rules()[rule_id.id() as int].spec_enabled(),
            old(self).fired@[rule_id.id() as int] || body_live(program.spec_rules()[rule_id.id() as int], old(self).live@),
        ensures
            st_core(*program, *final(self)),
            final(self).fired@ == old(self).fired@.update(rule_id.id() as int, true),
            final(self).stats.incidence_updates == old(self).stats.incidence_updates,
            old(self).queue@.len() <= final(self).queue@.len(),
            final(self).queue@.subrange(0, old(self).queue@.len() as int) == old(self).queue@,
            forall|a: int| 0 <= a < old(self).live@.len() && old(self).live@[a] ==> #[trigger] final(self).live@[a],
            forall|a: int| 0 <= a < old(self).live@.len() && old(self).live@[a] ==> #[trigger] final(self).rank@[a] == old(self).rank@[a],
    {
        let ghost p = *program;
        let ghost n = p.spec_atom_count();
        let i = rule_id.0;
        if self.fired[i] {
            assert(self.fired@ =~= old(self).fired@.update(i as int, true));
            assert(self.queue@.subrange(0, self.queue@.len() as int) =~= self.queue@);
            return;
        }
        proof {
            lemma_flag_count_set(self.fired@, i as int, self.fired@.len() as int);
            lemma_flag_count_bound(self.fired@.update(i as int, true), self.fired@.len() as int);
        }
        self.fired.set(i, true);
        self.stats.rule_fires = self.stats.rule_fires.saturating_add(1);
        let rule = &program.rules[i];
        let h = rule.head.0;
        assert(program.spec_rules()[i as int].spec_head().id() < n);
        if self.live[h] {
            assert(self.queue@.subrange(0, self.queue@.len() as int) =~= self.queue@);
            assert(st_cert(*self) == st_cert(*old(self)));
            return;
        }
        assert(atoms_below(rule.spec_body(), n));
        let queue_len = self.queue.len();
        let mut max_rank: Option<usize> = None;
        let mut k: usize = 0;
        while k < rule.body.len()
            invariant
                k <= rule.body.len(),
                rule == &program.spec_rules()[i as int],
                atoms_below(rule.spec_body(), n),
                n == program.spec_atom_count(),
                self.live@.len() == n,
                self.rank@.len() == n,
                body_live(*rule, self.live@),
                forall|a: int| 0 <= a < n && self.live@[a] ==> ((#[trigger] self.rank@[a]) matches Some(r) && r < self.queue@.len()),
                max_rank is None <==> k == 0,
                queue_len == self.queue@.len(),
                max_rank matches Some(m) ==> m < self.queue@.len(),
                forall|j: int| 0 <= j < k ==> ((#[trigger] self.rank@[rule.spec_body()[j].id() as int]) matches Some(v) && v <= max_rank->0),
            decreases rule.body.len() - k,
        {
            let b = rule.body[k].0;
            assert(rule.spec_body()[k as int].id() < n);
            assert(self.live@[b as int]);
            if let Some(v) = self.rank[b] {
                max_rank = Some(match max_rank {
                    None => v,
                    Some(m) => if v > m { v } else { m },
                });
            }
            k = k + 1;
        }
        let rank = match max_rank {
            None => 0,
            Some(v) => v.saturating_add(1),
        };
        let ghost mid = *self;
        self.live.set(h, true);
        self.rank.set(h, Some(rank));
        self.witness.set(h, Some(GroundedWitness::Rule(rule_id)));
        self.queue.push(rule.head);
        proof {
            lemma_atom_at(h as int);
            let c0 = st_cert(*old(self));
            let c1 = st_cert(*self);
            assert(c1.spec_live() == c0.spec_live().update(h as int, true));
            assert(c1.spec_rank() == c0.spec_rank().update(h as int, Some(rank)));
            assert(self.queue@.subrange(0, old(self).queue@.len() as int) =~= old(self).queue@);
            assert forall|a: int| 0 <= a < n implies #[trigger] atom_justified(p, c1, a) by {
                if a == h {
                    assert forall|j: int| 0 <= j < rule.spec_body().len() implies {
                        let q = #[trigger] rule.spec_body()[j].id() as int;
                        &&& c1.spec_live()[q]
                        &&& c1.spec_rank()[q] matches Some(pr) && pr < rank
                    } by {
                        let q = rule.spec_body()[j].id() as int;
                        assert(mid.live@[q]);
                        assert(q != h);
                        assert(self.rank@[q] == mid.rank@[q]);
                        assert(mid.rank@[q] matches Some(v) && v <= max_rank->0);
                        assert(rank == max_rank->0 + 1);
                    }
                } else {
                    assert(atom_justified(p, c0, a));
                    if c0.spec_live()[a] {
                        match (c0.spec_rank()[a], c0.spec_witness()[a]) {
                            (Some(r), Some(GroundedWitness::Rule(rid))) => {
                                let wr = p.spec_rules()[rid.id() as int];
                                assert forall|j: int| 0 <= j < wr.spec_body().len() implies {
                                    let q = #[trigger] wr.spec_body()[j].id() as int;
                                    &&& c1.spec_live()[q]
                                    &&& c1.spec_rank()[q] matches Some(pr) && pr < r
                                } by {
                                    let q = wr.spec_body()[j].id() as int;
                                    assert(c0.spec_live()[q]);
                                }
                            },
                            _ => {},
                        }
                    }
                }
            }
            assert forall|a: int| 0 <= a < n && #[trigger] self.live@[a] implies self.queue@.contains(atom_at(a)) by {
                if a == h {
                    assert(self.queue@[old(self).queue@.len() as int] == atom_at(a));
                } else {
                    assert(old(self).live@[a]);
                    let m = choose|m: int| 0 <= m < old(self).queue@.len() && old(self).queue@[m] == atom_at(a);
                    assert(self.queue@[m] == atom_at(a));
                }
            }
            assert forall|x: int, y: int| 0 <= x < y < self.queue@.len() implies self.queue@[x] != self.queue@[y] by {
                if y == old(self).queue@.len() {
                    assert(old(self).live@[old(self).queue@[x].id() as int]);
                }
            }
            assert forall|x: int| 0 <= x < self.queue@.len() implies (#[trigger] self.queue@[x]).id() < n && self.live@[self.queue@[x].id() as int] by {
                if x < old(self).queue@.len() {
                    assert(self.queue@[x] == old(self).queue@[x]);
                }
            }
            assert forall|r: int| 0 <= r < p.spec_rules().len() && #[trigger] self.fired@[r] implies
                p.spec_rules()[r].spec_enabled() && self.live@[p.spec_rules()[r].spec_head().id() as int] by {
                if r != i {
                    assert(old(self).fired@[r]);
                }
            }
        }
    }
}

/// Rule `r` of `p` could be the witness of atom `a` in `c`: it is enabled, its
/// head is `a` and its premises are live with ranks below the rank of `a`.
pub open spec fn qualifies(p: GroundedProgram, c: GroundedCertificate, a: int, r: int) -> bool {
    &&& 0 <= r < p.spec_rules().len()
    &&& p.spec_rules()[r].spec_enabled()
    &&& p.spec_rules()[r].spec_head().id() == a
    &&& c.spec_rank()[a] matches Some(ra) && premises_ranked_below(c, p.spec_rules()[r], ra)
}

/// The witness of a live atom `a` is canonical: a seed is witnessed by its
/// seed fact, any other atom by the lowest-numbered rule that qualifies.
pub open spec fn canonical_at(p: GroundedProgram, c: GroundedCertificate, a: int) -> bool {
    c.spec_live()[a] ==> if p.is_seed(a) {
        c.spec_witness()[a] == Some(GroundedWitness::Seed)
    } else {
        &&& c.spec_witness()[a] matches Some(GroundedWitness::Rule(w))
        &&& qualifies(p, c, a, w.id() as int)
        &&& forall|r: int| 0 <= r < w.id() ==> !#[trigger] qualifies(p, c, a, r)
    }
}

/// Whether every premise of `rule` is live in `c` with a rank below `bound`.
fn premises_below(c: &GroundedCertificate, rule: &GroundedRule, bound: usize, Ghost(p): Ghost<GroundedProgram>) -> (below: bool)
    requires
        p.wf(),
        shape_ok(p, *c),
        exists|r: int| 0 <= r < p.spec_rules().len() && p.spec_rules()[r] == *rule,
    ensures
        below == premises_ranked_below(*c, *rule, bound),
{
    let ghost r0 = choose|r: int| 0 <= r < p.spec_rules().len() && p.spec_rules()[r] == *rule;
    assert(atoms_below(rule.spec_body(), p.spec_atom_count())) by {
        assert(p.spec_rules()[r0].spec_head().id() < p.spec_atom_count());
    }
    let mut k: usize = 0;
    while k < rule.body.len()
        invariant
            k <= rule.body.len(),
            atoms_below(rule.spec_body(), p.spec_atom_count()),
            shape_ok(p, *c),
            forall|j: int| 0 <= j < k ==> {
                let q = #[trigger] rule.spec_body()[j].id() as int;
                &&& c.spec_live()[q]
                &&& c.spec_rank()[q] matches Some(pr) && pr < bound
            },
        decreases rule.body.len() - k,
    {
        let q = rule.body[k].0;
        assert(rule.spec_body()[k as int].id() < p.spec_atom_count());
        if !c.live[q] {
            return false;
        }
        match c.rank[q] {
            Some(pr) => {
                if pr >= bound {
                    return false;
                }
            },
            None => {
                return false;
            },
        }
        k = k + 1;
    }
    true
}

/// Replaces the witness of every live atom by its canonical witness; liveness
/// and ranks stay as they are.
fn canonicalize_witnesses(program: &GroundedProgram, index: &GroundedIncidenceIndex, c: GroundedCertificate) -> (out: GroundedCertificate)
    requires
        program.wf(),
        index.matches(*program),
        cert_valid(*program, c),
        seeds_ranked(*program, c.spec_rank()),
    ensures
        out.spec_live() == c.spec_live(),
        out.spec_rank() == c.spec_rank(),
        cert_valid(*program, out),
        forall|a: int| 0 <= a < program.spec_atom_count() ==> #[trigger] canonical_at(*program, out, a),
{
    let ghost p = *program;
    let n = program.atom_count;
    let mut seed_mask = filled(false, n);
    let mut k: usize = 0;
    while k < program.seeds.len()
        invariant
            k <= program.seeds.len(),
            p == *program,
            program.wf(),
            n == p.spec_atom_count(),
            seed_mask@.len() == n,
            forall|a: int| 0 <= a < n ==> (#[trigger] seed_mask@[a] <==> exists|j: int| 0 <= j < k && #[trigger] p.spec_seeds()[j].id() == a),
        decreases program.seeds.len() - k,
    {
        let s = program.seeds[k].0;
        assert(p.spec_seeds()[k as int].id() < n);
        let ghost m0 = seed_mask@;
        seed_mask.set(s, true);
        proof {
            assert forall|a: int| 0 <= a < n implies (#[trigger] seed_mask@[a] <==> exists|j: int| 0 <= j < k + 1 && #[trigger] p.spec_seeds()[j].id() == a) by {
                if a == s {
                    assert(p.spec_seeds()[k as int].id() == a);
                } else {
                    assert(seed_mask@[a] == m0[a]);
                    if exists|j: int| 0 <= j < k + 1 && #[trigger] p.spec_seeds()[j].id() == a {
                        let j = choose|j: int| 0 <= j < k + 1 && #[trigger] p.spec_seeds()[j].id() == a;
                        assert(j != k);
                    }
                }
            }
        }
        k = k + 1;
    }
    let mut out = c;
    let mut a: usize = 0;
    while a < n
        invariant
            a <= n,
            p == *program,
            program.wf(),
            index.matches(p),
            n == p.spec_atom_count(),
            seed_mask@.len() == n,
            forall|b: int| 0 <= b < n ==> (#[trigger] seed_mask@[b] <==> p.is_seed(b)),
            out.spec_live() == c.spec_live(),
            out.spec_rank() == c.spec_rank(),
            cert_valid(p, out),
            seeds_ranked(p, out.spec_rank()),
            forall|b: int| 0 <= b < a ==> #[trigger] canonical_at(p, out, b),
        decreases n - a,
    {
        if out.live[a] {
            let ghost before = out;
            assert(atom_justified(p, out, a as int));
            if seed_mask[a] {
                proof {
                    let k = choose|k: int| 0 <= k < p.spec_seeds().len() && #[trigger] p.spec_seeds()[k].id() == a;
                    assert(out.spec_rank()[p.spec_seeds()[k].id() as int] == Some(0usize));
                }
                out.witness.set(a, Some(GroundedWitness::Seed));
                proof {
                    lemma_witness_swap(p, before, out, a as int);
                    assert(p.is_seed(a as int));
                    assert(canonical_at(p, out, a as int));
                }
            } else {
                let ra = match out.rank[a] {
                    Some(v) => v,
                    None => {
                        proof {
                            assert(false);
                        }
                        0
                    },
                };
                let heads = &index.by_head[a];
                proof {
                    assert(index.spec_by_head()[a as int] == heads@);
                    assert(rule_ids_sorted(heads@));
                }
                let mut j: usize = 0;
                let mut chosen: Option<usize> = None;
                while j < heads.len() && chosen.is_none()
                    invariant
                        j <= heads@.len(),
                        a < n,
                        heads@ == index.spec_by_head()[a as int],
                        rule_ids_sorted(heads@),
                        p == *program,
                        program.wf(),
                        index.matches(p),
                        n == p.spec_atom_count(),
                        shape_ok(p, out),
                        out.spec_rank()[a as int] == Some(ra),
                        chosen is None ==> forall|jj: int| 0 <= jj < j ==> !qualifies(p, out, a as int, #[trigger] heads@[jj].id() as int),
                        chosen matches Some(w) ==> qualifies(p, out, a as int, w as int)
                            && (forall|jj: int| 0 <= jj < j && #[trigger] heads@[jj].id() < w ==> !qualifies(p, out, a as int, heads@[jj].id() as int))
                            && exists|jw: int| 0 <= jw < j && heads@[jw].id() == w,
                    decreases heads@.len() - j,
                {
                    let r = heads[j].0;
                    assert(heads@[j as int].id() < p.spec_rules().len());
                    let rule = &program.rules[r];
                    if rule.enabled && premises_below(&out, rule, ra, Ghost(p)) {
                        chosen = Some(r);
                    }
                    j = j + 1;
                }
                match chosen {
                    Some(w) => {
                        proof {
                            lemma_rule_at(w as int);
                            let jw = choose|jw: int| 0 <= jw < j && heads@[jw].id() == w;
                            assert forall|r: int| 0 <= r < w implies !#[trigger] qualifies(p, out, a as int, r) by {
                                if qualifies(p, out, a as int, r) {
                                    lemma_rule_at(r);
                                    assert(heads@.contains(rule_at(r)));
                                    let jr = choose|jr: int| 0 <= jr < heads@.len() && heads@[jr] == rule_at(r);
                                    assert(heads@[jr].id() == r);
                                    if jr >= jw {
                                        if jr > jw {
                                            assert(heads@[jw].id() < heads@[jr].id());
                                        }
                                    }
                                    assert(jr < jw);
                                }
                            }
                        }
                        out.witness.set(a, Some(GroundedWitness::Rule(GroundedRuleId(w))));
                        proof {
                            assert(GroundedRuleId(w).id() == w);
                            lemma_witness_swap(p, before, out, a as int);
                            assert(!p.is_seed(a as int));
                            assert forall|r: int| qualifies(p, out, a as int, r) == #[trigger] qualifies(p, before, a as int, r) by {}
                            assert(out.spec_live()[a as int]);
                            assert(out.spec_witness()[a as int] == Some(GroundedWitness::Rule(GroundedRuleId(w))));
                            assert(qualifies(p, before, a as int, w as int));
                            assert(qualifies(p, out, a as int, w as int));
                            assert(forall|r: int| 0 <= r < w ==> !#[trigger] qualifies(p, before, a as int, r));
                            assert forall|r: int| 0 <= r < w implies !#[trigger] qualifies(p, out, a as int, r) by {
                                assert(!qualifies(p, before, a as int, r));
                            }
                            assert(canonical_at(p, out, a as int));
                        }
                    },
                    None => {
                        proof {
                            match before.spec_witness()[a as int] {
                                Some(GroundedWitness::Rule(rid)) => {
                                    let r = rid.id() as int;
                                    assert(qualifies(p, out, a as int, r));
                                    lemma_rule_at(r);
                                    assert(heads@.contains(rule_at(r)));
                                    let jr = choose|jr: int| 0 <= jr < heads@.len() && heads@[jr] == rule_at(r);
                                    assert(heads@[jr].id() == r);
                                },
                                _ => {
                                    assert(p.is_seed(a as int));
                                },
                            }
                            assert(false);
                        }
                    },
                }
            }
            proof {
                assert forall|b: int| 0 <= b < a + 1 implies #[trigger] canonical_at(p, out, b) by {
                    assert forall|r: int| qualifies(p, out, b, r) == #[trigger] qualifies(p, before, b, r) by {}
                    if b < a {
                        assert(canonical_at(p, before, b));
                        assert(out.spec_witness()[b] == before.spec_witness()[b]);
                        if out.spec_live()[b] && !p.is_seed(b) {
                            let w = before.spec_witness()[b]->0->Rule_0;
                            assert forall|r: int| 0 <= r < w.id() implies !#[trigger] qualifies(p, out, b, r) by {
                                assert(!qualifies(p, before, b, r));
                            }
                        }
                    } else {
                        assert(seed_mask@[b] <==> p.is_seed(b));
                    }
                }
            }
        } else {
            proof {
                assert(canonical_at(p, out, a as int));
            }
        }
        a = a + 1;
    }
    out
}

/// Replacing the witness of a live atom by one that qualifies (or by its seed
/// fact, for a seed of rank zero) keeps the certificate valid.
proof fn lemma_witness_swap(p: GroundedProgram, before: GroundedCertificate, after: GroundedCertificate, a: int)
    requires
        cert_valid(p, before),
        0 <= a < p.spec_atom_count(),
        after.spec_live() == before.spec_live(),
        after.spec_rank() == before.spec_rank(),
        after.spec_witness().len() == before.spec_witness().len(),
        forall|b: int| 0 <= b < before.spec_witness().len() && b != a ==> after.spec_witness()[b] == before.spec_witness()[b],
        before.spec_live()[a],
        match after.spec_witness()[a] {
            Some(GroundedWitness::Seed) => p.is_seed(a) && before.spec_rank()[a] == Some(0usize),
            Some(GroundedWitness::Rule(w)) => qualifies(p, before, a, w.id() as int),
            None => false,
        },
    ensures
        cert_valid(p, after),
{
    assert forall|i: int| 0 <= i < p.spec_atom_count() implies #[trigger] atom_justified(p, after, i) by {
        assert(atom_justified(p, before, i));
        if i != a {
            assert(after.spec_witness()[i] == before.spec_witness()[i]);
            if before.spec_live()[i] {
                match (before.spec_rank()[i], before.spec_witness()[i]) {
                    (Some(r), Some(GroundedWitness::Rule(rid))) => {
                        assert(premises_ranked_below(after, p.spec_rules()[rid.id() as int], r) == premises_ranked_below(before, p.spec_rules()[rid.id() as int], r));
                    },
                    _ => {},
                }
            }
        } else {
            match after.spec_witness()[a] {
                Some(GroundedWitness::Rule(w)) => {
                    let ra = before.spec_rank()[a]->0;
                    assert(premises_ranked_below(after, p.spec_rules()[w.id() as int], ra) == premises_ranked_below(before, p.spec_rules()[w.id() as int], ra));
                },
                _ => {},
            }
        }
    }
}

/// Least-model solver using a precompiled incidence index. Each live seed is
/// witnessed by its seed fact and every other live atom by the lowest-numbered
/// rule whose premises are live with lower ranks.
#[verifier::spinoff_prover]
pub fn solve_indexed(program: &GroundedProgram, index: &GroundedIncidenceIndex) -> (result: (GroundedCertificate, GroundedWorkStats))
    requires
        program.wf(),
        index.matches(*program),
    ensures
        cert_valid(*program, result.0),
        is_least_model(*program, result.0.spec_live()),
        seeds_ranked(*program, result.0.spec_rank()),
        ranks_within(result.0, program.spec_atom_count() as int),
        forall|a: int| 0 <= a < program.spec_atom_count() ==> #[trigger] canonical_at(*program, result.0, a),
        result.1.rule_fires <= enabled_count(*program, program.spec_rules().len() as int),
        result.1.incidence_updates <= enabled_body_total(*program, program.spec_rules().len() as int),
        result.1.dependency_walks == 0,
        result.1.affected_atoms == 0,
{
    let ghost p = *program;
    let n = program.atom_count;
    let rule_count = program.rules.len();
    let mut remaining = filled(0usize, rule_count);
    let mut state = SolverState {
        live: filled(false, n),
        rank: filled(None, n),
        witness: filled(None, n),
        fired: filled(false, rule_count),
        queue: Vec::new(),
        stats: GroundedWorkStats::default(),
    };
    proof {
        lemma_flag_count_none(state.fired@, rule_count as int);
    }
    let mut k: usize = 0;
    while k < program.seeds.len()
        invariant
            k <= program.seeds.len(),
            program.wf(),
            p == *program,
            n == p.spec_atom_count(),
            rule_count == p.spec_rules().len(),
            st_core(p, state),
            forall|r: int| 0 <= r < rule_count ==> !(#[trigger] state.fired@[r]),
            forall|j: int| 0 <= j < k ==> state.live@[#[trigger] p.spec_seeds()[j].id() as int],
            forall|a: int| 0 <= a < n && state.live@[a] ==> #[trigger] state.rank@[a] == Some(0usize),
            state.stats.incidence_updates == 0,
        decreases program.seeds.len() - k,
    {
        let seed = program.seeds[k];
        assert(p.spec_seeds()[k as int].id() < n);
        if !state.live[seed.0] {
            let ghost before = state;
            state.live.set(seed.0, true);
            state.rank.set(seed.0, Some(0));
            state.witness.set(seed.0, Some(GroundedWitness::Seed));
            state.queue.push(seed);
            proof {
                let h = seed.id() as int;
                lemma_atom_at(h);
                let c0 = st_cert(before);
                let c1 = st_cert(state);
                assert(p.is_seed(h)) by {
                    assert(p.spec_seeds()[k as int].id() == h);
                }
                assert forall|a: int| 0 <= a < n implies #[trigger] atom_justified(p, c1, a) by {
                    assert(atom_justified(p, c0, a));
                    if a != h && c0.spec_live()[a] {
                        match (c0.spec_rank()[a], c0.spec_witness()[a]) {
                            (Some(r), Some(GroundedWitness::Rule(rid))) => {
                                let wr = p.spec_rules()[rid.id() as int];
                                assert forall|j: int| 0 <= j < wr.spec_body().len() implies {
                                    let q = #[trigger] wr.spec_body()[j].id() as int;
                                    &&& c1.spec_live()[q]
                                    &&& c1.spec_rank()[q] matches Some(pr) && pr < r
                                } by {
                                    let q = wr.spec_body()[j].id() as int;
                                    assert(c0.spec_live()[q]);
                                }
                            },
                            _ => {},
                        }
                    }
                }
                assert forall|a: int| 0 <= a < n && #[trigger] state.live@[a] implies state.queue@.contains(atom_at(a)) by {
                    if a == h {
                        assert(state.queue@[before.queue@.len() as int] == atom_at(a));
                    } else {
                        assert(before.live@[a]);
                        let m = choose|m: int| 0 <= m < before.queue@.len() && before.queue@[m] == atom_at(a);
                        assert(state.queue@[m] == atom_at(a));
                    }
                }
                assert forall|x: int, y: int| 0 <= x < y < state.queue@.len() implies state.queue@[x] != state.queue@[y] by {
                    if y == before.queue@.len() {
                        assert(before.live@[before.queue@[x].id() as int]);
                    }
                }
                assert forall|x: int| 0 <= x < state.queue@.len() implies (#[trigger] state.queue@[x]).id() < n && state.live@[state.queue@[x].id() as int] by {
                    if x < before.queue@.len() {
                        assert(state.queue@[x] == before.queue@[x]);
                    }
                }
            }
        }
        k = k + 1;
    }
    let mut r: usize = 0;
    while r < rule_count
        invariant
            r <= rule_count,
            program.wf(),
            p == *program,
            rule_count == p.spec_rules().len(),
            remaining@.len() == rule_count,
            forall|q: int| 0 <= q < r ==> #[trigger] remaining@[q] == (if p.spec_rules()[q].spec_enabled() { p.spec_rules()[q].spec_body().len() as int } else { 0int }),
            forall|q: int| r <= q < rule_count ==> #[trigger] remaining@[q] == 0,
            state.stats.incidence_updates == 0,
        decreases rule_count - r,
    {
        let rule = &program.rules[r];
        if rule.enabled {
            remaining.set(r, rule.body.len());
        }
        r = r + 1;
    }
    proof {
        assert forall|q: int| 0 <= q < rule_count implies #[trigger] pending_rule(p, state.fired@, remaining@, Seq::empty(), Seq::empty(), 0, q) by {
            lemma_count_pending_empty(p.spec_rules()[q].spec_body());
        }
        lemma_spent_none(p, remaining@, rule_count as int);
    }
    let mut r: usize = 0;
    while r < rule_count
        invariant
            r <= rule_count,
            program.wf(),
            p == *program,
            n == p.spec_atom_count(),
            rule_count == p.spec_rules().len(),
            st_core(p, state),
            seeds_live(p, state.live@),
            seeds_ranked(p, state.rank@),
            state.queue@.len() >= 0,
            pending_ok(p, state.fired@, remaining@, Seq::empty(), Seq::empty(), 0),
            state.stats.incidence_updates <= spent(p, remaining@, rule_count as int),
            forall|q: int| 0 <= q < rule_count && p.spec_rules()[q].spec_enabled() ==> #[trigger] remaining@[q] <= p.spec_rules()[q].spec_body().len(),
            forall|q: int| r <= q < rule_count ==> !(#[trigger] state.fired@[q]),
            forall|q: int| 0 <= q < r && p.spec_rules()[q].spec_enabled() && #[trigger] remaining@[q] == 0 ==> state.fired@[q],
        decreases rule_count - r,
    {
        if program.rules[r].enabled && remaining[r] == 0 {
            let ghost before = state;
            proof {
                assert(pending_rule(p, state.fired@, remaining@, Seq::empty(), Seq::empty(), 0, r as int));
                lemma_count_pending_zero(p.spec_rules()[r as int].spec_body(), Seq::empty());
                assert(p.spec_rules()[r as int].spec_body().len() == 0) by {
                    if p.spec_rules()[r as int].spec_body().len() > 0 {
                        assert(!Seq::<GroundedAtomId>::empty().contains(p.spec_rules()[r as int].spec_body()[0]));
                    }
                }
                lemma_rule_at(r as int);
            }
            state.fire_rule(program, GroundedRuleId(r));
            proof {
                assert forall|q: int| 0 <= q < rule_count implies #[trigger] pending_rule(p, state.fired@, remaining@, Seq::empty(), Seq::empty(), 0, q) by {
                    assert(pending_rule(p, before.fired@, remaining@, Seq::empty(), Seq::empty(), 0, q));
                }
                assert forall|k: int| 0 <= k < p.spec_seeds().len() implies state.live@[#[trigger] p.spec_seeds()[k].id() as int] by {
                    assert(before.live@[p.spec_seeds()[k].id() as int]);
                    assert(p.spec_seeds()[k].id() < n);
                }
                assert forall|k: int| 0 <= k < p.spec_seeds().len() implies state.rank@[#[trigger] p.spec_seeds()[k].id() as int] == Some(0usize) by {
                    assert(before.live@[p.spec_seeds()[k].id() as int]);
                    assert(before.rank@[p.spec_seeds()[k].id() as int] == Some(0usize));
                    assert(p.spec_seeds()[k].id() < n);
                }
            }
        }
        r = r + 1;
    }
    let mut cursor: usize = 0;
    assert(state.queue@.subrange(0, 0) =~= Seq::<GroundedAtomId>::empty());
    while cursor < state.queue.len()
        invariant
            cursor <= state.queue@.len(),
            program.wf(),
            p == *program,
            index.matches(p),
            n == p.spec_atom_count(),
            rule_count == p.spec_rules().len(),
            st_core(p, state),
            seeds_live(p, state.live@),
            seeds_ranked(p, state.rank@),
            pending_ok(p, state.fired@, remaining@, state.queue@.subrange(0, cursor as int), Seq::empty(), 0),
            state.stats.incidence_updates <= spent(p, remaining@, rule_count as int),
            forall|q: int| 0 <= q < rule_count && p.spec_rules()[q].spec_enabled() ==> #[trigger] remaining@[q] <= p.spec_rules()[q].spec_body().len(),
            zero_fired(p, state.fired@, remaining@),
        decreases n - cursor,
    {
        proof {
            lemma_distinct_atoms_bounded(state.queue@, n as nat);
        }
        let atom = state.queue[cursor];
        let ghost done = state.queue@.subrange(0, cursor as int);
        cursor = cursor + 1;
        let ghost done2 = state.queue@.subrange(0, cursor as int);
        let a = atom.0;
        assert(a < n);
        let deps = &index.dependents[a];
        let ghost dl = deps@;
        proof {
            assert(index.spec_dependents()[a as int] == dl);
            assert(done2 =~= done.push(atom));
            assert(!done.contains(atom)) by {
                if done.contains(atom) {
                    let m = choose|m: int| 0 <= m < done.len() && done[m] == atom;
                    assert(state.queue@[m] == state.queue@[cursor - 1]);
                }
            }
            assert forall|q: int| 0 <= q < rule_count implies #[trigger] pending_rule(p, state.fired@, remaining@, done2, dl, 0, q) by {
                assert(pending_rule(p, state.fired@, remaining@, done, Seq::empty(), 0, q));
                let rule = p.spec_rules()[q];
                assert(rules_sorted(p.spec_rules()));
                assert(strictly_sorted(rule.spec_body()));
                lemma_atom_at(a as int);
                if body_mentions(rule, a as int) {
                    let k = choose|k: int| 0 <= k < rule.spec_body().len() && #[trigger] rule.spec_body()[k].id() == a;
                    rule.spec_body()[k].lemma_id_injective(atom);
                    assert(rule.spec_body().contains(atom));
                    lemma_count_pending_present(rule.spec_body(), done, atom);
                    assert(dl.contains(rule_at(q)));
                    lemma_rule_at(q);
                    let m = choose|m: int| 0 <= m < dl.len() && dl[m] == rule_at(q);
                    assert(dl[m].id() == q);
                    assert(in_tail(dl, 0, q));
                } else {
                    assert(!rule.spec_body().contains(atom)) by {
                        if rule.spec_body().contains(atom) {
                            let k = choose|k: int| 0 <= k < rule.spec_body().len() && rule.spec_body()[k] == atom;
                            assert(rule.spec_body()[k].id() == a);
                        }
                    }
                    lemma_count_pending_absent(rule.spec_body(), done, atom);
                    assert(!in_tail(dl, 0, q)) by {
                        if in_tail(dl, 0, q) {
                            let m = choose|m: int| 0 <= m < dl.len() && #[trigger] dl[m].id() == q;
                            assert(body_mentions(p.spec_rules()[dl[m].id() as int], a as int));
                        }
                    }
                }
            }
        }
        let mut j: usize = 0;
        while j < deps.len()
            invariant
                j <= deps@.len(),
                dl == deps@,
                program.wf(),
            p == *program,
                index.matches(p),
                dl == index.spec_dependents()[a as int],
                a < n,
                n == p.spec_atom_count(),
                rule_count == p.spec_rules().len(),
                st_core(p, state),
                seeds_live(p, state.live@),
                seeds_ranked(p, state.rank@),
                cursor <= state.queue@.len(),
                state.queue@.subrange(0, cursor as int) == done2,
                pending_ok(p, state.fired@, remaining@, done2, dl, j as int),
                state.stats.incidence_updates <= spent(p, remaining@, rule_count as int),
                forall|q: int| 0 <= q < rule_count && p.spec_rules()[q].spec_enabled() ==> #[trigger] remaining@[q] <= p.spec_rules()[q].spec_body().len(),
                zero_fired(p, state.fired@, remaining@),
            decreases deps@.len() - j,
        {
            let rule_id = deps[j];
            let q = rule_id.0;
            assert(rule_ids_sorted(dl));
            assert(q < rule_count);
            proof {
                assert(in_tail(dl, j as int, q as int)) by {
                    assert(dl[j as int].id() == q);
                }
                assert(pending_rule(p, state.fired@, remaining@, done2, dl, j as int, q as int));
            }
            if !state.fired[q] && remaining[q] != 0 {
                let ghost before = state;
                let ghost rem_before = remaining@;
                state.stats.incidence_updates = state.stats.incidence_updates.saturating_add(1);
                assert(st_cert(state) == st_cert(before));
                let left = remaining[q] - 1;
                proof {
                    assert(p.spec_rules()[q as int].spec_enabled()) by {
                        assert(pending_rule(p, state.fired@, remaining@, done2, dl, j as int, q as int));
                    }
                    lemma_spent_update(p, remaining@, q as int, left, rule_count as int);
                }
                remaining.set(q, left);
                if left == 0 {
                    proof {
                        let body = p.spec_rules()[q as int].spec_body();
                        lemma_count_pending_zero(body, done2);
                        assert forall|k: int| 0 <= k < body.len() implies state.live@[#[trigger] body[k].id() as int] by {
                            assert(done2.contains(body[k]));
                            let m = choose|m: int| 0 <= m < done2.len() && done2[m] == body[k];
                            assert(state.queue@[m] == body[k]);
                        }
                    }
                    state.fire_rule(program, rule_id);
                    proof {
                        assert(state.queue@.subrange(0, cursor as int) =~= done2) by {
                            assert(state.queue@.subrange(0, before.queue@.len() as int) == before.queue@);
                            assert forall|m: int| 0 <= m < cursor implies state.queue@[m] == done2[m] by {
                                assert(state.queue@.subrange(0, before.queue@.len() as int)[m] == state.queue@[m]);
                            }
                        }
                        assert forall|k: int| 0 <= k < p.spec_seeds().len() implies state.live@[#[trigger] p.spec_seeds()[k].id() as int] by {
                            assert(before.live@[p.spec_seeds()[k].id() as int]);
                            assert(p.spec_seeds()[k].id() < n);
                        }
                        assert forall|k: int| 0 <= k < p.spec_seeds().len() implies state.rank@[#[trigger] p.spec_seeds()[k].id() as int] == Some(0usize) by {
                            assert(before.live@[p.spec_seeds()[k].id() as int]);
                            assert(before.rank@[p.spec_seeds()[k].id() as int] == Some(0usize));
                            assert(p.spec_seeds()[k].id() < n);
                        }
                    }
                }
                proof {
                    assert forall|r: int| 0 <= r < rule_count implies #[trigger] pending_rule(p, state.fired@, remaining@, done2, dl, j + 1, r) by {
                        assert(pending_rule(p, before.fired@, rem_before, done2, dl, j as int, r));
                        if r != q {
                            assert(in_tail(dl, j as int, r) == in_tail(dl, j + 1, r)) by {
                                if in_tail(dl, j as int, r) {
                                    let m = choose|m: int| j <= m < dl.len() && #[trigger] dl[m].id() == r;
                                    assert(m != j);
                                }
                            }
                        } else {
                            assert(!in_tail(dl, j + 1, r)) by {
                                if in_tail(dl, j + 1, r) {
                                    let m = choose|m: int| j + 1 <= m < dl.len() && #[trigger] dl[m].id() == r;
                                    assert(dl[j as int].id() < dl[m].id());
                                }
                            }
                        }
                    }
                    assert forall|r: int| 0 <= r < rule_count && p.spec_rules()[r].spec_enabled() && #[trigger] remaining@[r] == 0 implies state.fired@[r] by {
                        if r != q {
                            assert(before.fired@[r]);
                        }
                    }
                }
            } else {
                proof {
                    assert forall|r: int| 0 <= r < rule_count implies #[trigger] pending_rule(p, state.fired@, remaining@, done2, dl, j + 1, r) by {
                        assert(pending_rule(p, state.fired@, remaining@, done2, dl, j as int, r));
                        if r != q {
                            assert(in_tail(dl, j as int, r) == in_tail(dl, j + 1, r)) by {
                                if in_tail(dl, j as int, r) {
                                    let m = choose|m: int| j <= m < dl.len() && #[trigger] dl[m].id() == r;
                                    assert(m != j);
                                }
                            }
                        }
                    }
                }
            }
            j = j + 1;
        }
        proof {
            assert forall|r: int| 0 <= r < rule_count implies #[trigger] pending_rule(p, state.fired@, remaining@, state.queue@.subrange(0, cursor as int), Seq::empty(), 0, r) by {
                assert(pending_rule(p, state.fired@, remaining@, done2, dl, j as int, r));
                assert(!in_tail(dl, j as int, r));
                assert(!in_tail(Seq::empty(), 0, r));
            }
        }
    }
    let solved = GroundedCertificate { live: state.live, rank: state.rank, witness: state.witness };
    let ghost c = solved;
    proof {
        let done = state.queue@.subrange(0, cursor as int);
        assert(done =~= state.queue@);
        assert(c == st_cert(state));
        assert forall|r: int| 0 <= r < rule_count && #[trigger] p.spec_rules()[r].spec_enabled()
            && body_live(p.spec_rules()[r], c.spec_live()) implies c.spec_live()[p.spec_rules()[r].spec_head().id() as int] by {
            let rule = p.spec_rules()[r];
            assert(pending_rule(p, state.fired@, remaining@, done, Seq::empty(), 0, r));
            assert(atoms_below(rule.spec_body(), n as nat));
            assert forall|k: int| 0 <= k < rule.spec_body().len() implies done.contains(#[trigger] rule.spec_body()[k]) by {
                let b = rule.spec_body()[k];
                assert(b.id() < n);
                assert(c.spec_live()[b.id() as int]);
                lemma_atom_at(b.id() as int);
                assert(state.queue@.contains(atom_at(b.id() as int)));
            }
            lemma_count_pending_zero(rule.spec_body(), done);
            if !state.fired@[r] {
                assert(!in_tail(Seq::empty(), 0, r));
                assert(remaining@[r] == 0);
            }
        }
        lemma_valid_certificate_is_least_model(p, c);
        lemma_distinct_atoms_bounded(state.queue@, n as nat);
        assert(ranks_within(c, n as int)) by {
            assert forall|a: int| 0 <= a < c.spec_live().len() && #[trigger] c.spec_live()[a] implies (c.spec_rank()[a] matches Some(r) && r <= n) by {
                assert(state.live@[a]);
                assert(state.rank@[a] matches Some(r) && r < state.queue@.len());
            }
        }
    }
    proof {
        lemma_fired_within_enabled(p, state.fired@, rule_count as int);
        lemma_spent_bound(p, remaining@, rule_count as int);
        assert(seeds_ranked(p, c.spec_rank()));
    }
    let certificate = canonicalize_witnesses(program, index, solved);
    proof {
        lemma_valid_certificate_is_least_model(p, certificate);
        assert(ranks_within(certificate, n as int)) by {
            assert forall|a: int| 0 <= a < certificate.spec_live().len() && #[trigger] certificate.spec_live()[a]
                implies (certificate.spec_rank()[a] matches Some(r) && r <= n) by {
                assert(c.spec_live()[a]);
            }
        }
    }
    (certificate, state.stats)
}

/// Least-model solver: compiles the incidence index, then saturates.
pub fn solve(program: &GroundedProgram) -> (result: (GroundedCertificate, GroundedWorkStats))
    requires
        program.wf(),
    ensures
        cert_valid(*program, result.0),
        is_least_model(*program, result.0.spec_live()),
        seeds_ranked(*program, result.0.spec_rank()),
        ranks_within(result.0, program.spec_atom_count() as int),
        forall|a: int| 0 <= a < program.spec_atom_count() ==> #[trigger] canonical_at(*program, result.0, a),
        result.1.rule_fires <= enabled_count(*program, program.spec_rules().len() as int),
        result.1.incidence_updates <= enabled_body_total(*program, program.spec_rules().len() as int),
        result.1.dependency_walks == 0,
        result.1.affected_atoms == 0,
{
    let index = GroundedIncidenceIndex::compile(program);
    solve_indexed(program, &index)
}


/// Inserts `a` into a strictly sorted atom list unless it is already present.
fn insert_sorted_atom(v: &mut Vec<GroundedAtomId>, a: GroundedAtomId)
    requires
        strictly_sorted(old(v)@),
    ensures
        strictly_sorted(final(v)@),
        forall|x: GroundedAtomId| final(v)@.contains(x) <==> (old(v)@.contains(x) || x == a),
{
    let mut p: usize = 0;
    while p < v.len() && v[p].0 < a.0
        invariant
            p <= v.len(),
            forall|k: int| 0 <= k < p ==> v@[k].id() < a.id(),
        decreases v.len() - p,
    {
        p = p + 1;
    }
    if p < v.len() && v[p].0 == a.0 {
        proof {
            v@[p as int].lemma_id_injective(a);
            assert(v@.contains(a));
        }
        return;
    }
    let ghost before = v@;
    v.insert(p, a);
    proof {
        assert(v@ =~= before.subrange(0, p as int).push(a) + before.subrange(p as int, before.len() as int));
        assert forall|x: int, y: int| 0 <= x < y < v@.len() implies v@[x].id() < v@[y].id() by {
            if x < p && y > p {
                assert(v@[y] == before[y - 1]);
            } else if x == p && y > p {
                assert(v@[y] == before[y - 1]);
                if y - 1 > p {
                    assert(before[p as int].id() < before[y - 1].id());
                }
            } else if x > p {
                assert(v@[x] == before[x - 1]);
                assert(v@[y] == before[y - 1]);
            }
        }
        assert forall|x: GroundedAtomId| v@.contains(x) <==> (before.contains(x) || x == a) by {
            if v@.contains(x) {
                let k = choose|k: int| 0 <= k < v@.len() && v@[k] == x;
                if k < p {
                    assert(before[k] == x);
                } else if k > p {
                    assert(before[k - 1] == x);
                }
            }
            if before.contains(x) {
                let k = choose|k: int| 0 <= k < before.len() && before[k] == x;
                if k < p {
                    assert(v@[k] == x);
                } else {
                    assert(v@[k + 1] == x);
                }
            }
            if x == a {
                assert(v@[p as int] == a);
                assert(v@.contains(a));
            }
        }
        assert(old(v)@ == before);
        assert(forall|x: GroundedAtomId| v@.contains(x) <==> (old(v)@.contains(x) || x == a));
    }
}

/// Removes `a` from a strictly sorted atom list if present.
fn remove_sorted_atom(v: &mut Vec<GroundedAtomId>, a: GroundedAtomId)
    requires
        strictly_sorted(old(v)@),
    ensures
        strictly_sorted(final(v)@),
        forall|x: GroundedAtomId| final(v)@.contains(x) <==> (old(v)@.contains(x) && x != a),
{
    let mut p: usize = 0;
    while p < v.len() && v[p].0 != a.0
        invariant
            p <= v.len(),
            forall|k: int| 0 <= k < p ==> v@[k].id() != a.id(),
        decreases v.len() - p,
    {
        p = p + 1;
    }
    let ghost before = v@;
    if p < v.len() {
        proof {
            v@[p as int].lemma_id_injective(a);
        }
        v.remove(p);
        proof {
            assert(v@ =~= before.subrange(0, p as int) + before.subrange(p + 1, before.len() as int));
            assert forall|x: int, y: int| 0 <= x < y < v@.len() implies v@[x].id() < v@[y].id() by {
                if x < p && y >= p {
                    assert(v@[y] == before[y + 1]);
                } else if x >= p {
                    assert(v@[x] == before[x + 1]);
                    assert(v@[y] == before[y + 1]);
                }
            }
            assert forall|x: GroundedAtomId| v@.contains(x) <==> (before.contains(x) && x != a) by {
                if v@.contains(x) {
                    let k = choose|k: int| 0 <= k < v@.len() && v@[k] == x;
                    if k < p {
                        assert(before[k] == x);
                        assert(before[k].id() < before[p as int].id());
                    } else {
                        assert(before[k + 1] == x);
                        assert(before[p as int].id() < before[k + 1].id());
                    }
                }
                if before.contains(x) && x != a {
                    let k = choose|k: int| 0 <= k < before.len() && before[k] == x;
                    if k < p {
                        assert(v@[k] == x);
                    } else {
                        assert(k != p);
                        assert(v@[k - 1] == x);
                    }
                }
            }
        }
    } else {
        proof {
            assert forall|x: GroundedAtomId| v@.contains(x) <==> (before.contains(x) && x != a) by {
                if before.contains(x) && x == a {
                    let k = choose|k: int| 0 <= k < before.len() && before[k] == x;
                    assert(before[k].id() != a.id());
                }
            }
        }
    }
}

/// A batch of seed and rule toggles applied to a program.
#[derive(Debug, PartialEq, Eq)]
pub struct GroundedUpdate {
    pub add_seeds: Vec<GroundedAtomId>,
    pub remove_seeds: Vec<GroundedAtomId>,
    pub enable_rules: Vec<GroundedRuleId>,
    pub disable_rules: Vec<GroundedRuleId>,
}

impl Default for GroundedUpdate {
    fn default() -> (update: Self)
        ensures
            update.add_seeds@.len() == 0,
            update.remove_seeds@.len() == 0,
            update.enable_rules@.len() == 0,
            update.disable_rules@.len() == 0,
    {
        GroundedUpdate { add_seeds: Vec::new(), remove_seeds: Vec::new(), enable_rules: Vec::new(), disable_rules: Vec::new() }
    }
}

pub open spec fn first_rule_outside_ids(rules: Seq<GroundedRuleId>, count: nat, k: int) -> Option<GroundedRuleId>
    decreases rules.len() - k,
{
    if k < 0 || k >= rules.len() {
        None
    } else if rules[k].id() >= count {
        Some(rules[k])
    } else {
        first_rule_outside_ids(rules, count, k + 1)
    }
}

/// Outcome of validating an update: seeds (added, then removed), then rules (enabled, then disabled).
pub open spec fn update_validation(p: GroundedProgram, u: GroundedUpdate) -> Result<(), GroundedClosureError> {
    let n = p.spec_atom_count();
    let rc = p.spec_rules().len();
    match first_outside(u.add_seeds@ + u.remove_seeds@, n, 0) {
        Some(a) => Err(GroundedClosureError::AtomOutsideUniverse(a)),
        None => match first_rule_outside_ids(u.enable_rules@ + u.disable_rules@, rc, 0) {
            Some(r) => Err(GroundedClosureError::RuleOutsideProgram(r)),
            None => Ok(()),
        },
    }
}

pub open spec fn rule_ids_below(s: Seq<GroundedRuleId>, count: nat) -> bool {
    forall|i: int| 0 <= i < s.len() ==> #[trigger] s[i].id() < count
}

pub open spec fn update_in_range(p: GroundedProgram, u: GroundedUpdate) -> bool {
    &&& atoms_below(u.add_seeds@, p.spec_atom_count())
    &&& atoms_below(u.remove_seeds@, p.spec_atom_count())
    &&& rule_ids_below(u.enable_rules@, p.spec_rules().len())
    &&& rule_ids_below(u.disable_rules@, p.spec_rules().len())
}

proof fn lemma_first_rule_outside_ids(rules: Seq<GroundedRuleId>, count: nat, k: int)
    requires
        0 <= k <= rules.len(),
    ensures
        first_rule_outside_ids(rules, count, k) is None <==> (forall|i: int| k <= i < rules.len() ==> #[trigger] rules[i].id() < count),
    decreases rules.len() - k,
{
    if k < rules.len() {
        lemma_first_rule_outside_ids(rules, count, k + 1);
    }
}

pub proof fn lemma_update_validation(p: GroundedProgram, u: GroundedUpdate)
    ensures
        update_validation(p, u) is Ok <==> update_in_range(p, u),
{
    let atoms = u.add_seeds@ + u.remove_seeds@;
    let rules = u.enable_rules@ + u.disable_rules@;
    lemma_first_outside(atoms, p.spec_atom_count(), 0);
    lemma_first_rule_outside_ids(rules, p.spec_rules().len(), 0);
    if forall|i: int| 0 <= i < atoms.len() ==> #[trigger] atoms[i].id() < p.spec_atom_count() {
        assert forall|i: int| 0 <= i < u.add_seeds@.len() implies #[trigger] u.add_seeds@[i].id() < p.spec_atom_count() by {
            assert(atoms[i] == u.add_seeds@[i]);
        }
        assert forall|i: int| 0 <= i < u.remove_seeds@.len() implies #[trigger] u.remove_seeds@[i].id() < p.spec_atom_count() by {
            assert(atoms[i + u.add_seeds@.len()] == u.remove_seeds@[i]);
        }
    }
    if atoms_below(u.add_seeds@, p.spec_atom_count()) && atoms_below(u.remove_seeds@, p.spec_atom_count()) {
        assert forall|i: int| 0 <= i < atoms.len() implies #[trigger] atoms[i].id() < p.spec_atom_count() by {
            if i < u.add_seeds@.len() {
                assert(atoms[i] == u.add_seeds@[i]);
            } else {
                assert(atoms[i] == u.remove_seeds@[i - u.add_seeds@.len()]);
            }
        }
    }
    if forall|i: int| 0 <= i < rules.len() ==> #[trigger] rules[i].id() < p.spec_rules().len() {
        assert forall|i: int| 0 <= i < u.enable_rules@.len() implies #[trigger] u.enable_rules@[i].id() < p.spec_rules().len() by {
            assert(rules[i] == u.enable_rules@[i]);
        }
        assert forall|i: int| 0 <= i < u.disable_rules@.len() implies #[trigger] u.disable_rules@[i].id() < p.spec_rules().len() by {
            assert(rules[i + u.enable_rules@.len()] == u.disable_rules@[i]);
        }
    }
    if rule_ids_below(u.enable_rules@, p.spec_rules().len()) && rule_ids_below(u.disable_rules@, p.spec_rules().len()) {
        assert forall|i: int| 0 <= i < rules.len() implies #[trigger] rules[i].id() < p.spec_rules().len() by {
            if i < u.enable_rules@.len() {
                assert(rules[i] == u.enable_rules@[i]);
            } else {
                assert(rules[i] == u.disable_rules@[i - u.enable_rules@.len()]);
            }
        }
    }
}

fn validate_update(program: &GroundedProgram, update: &GroundedUpdate) -> (result: Result<(), GroundedClosureError>)
    ensures
        result == update_validation(*program, *update),
        result is Ok <==> update_in_range(*program, *update),
{
    proof {
        lemma_update_validation(*program, *update);
    }
    let ghost atoms = update.add_seeds@ + update.remove_seeds@;
    let ghost n = program.spec_atom_count();
    let mut i: usize = 0;
    while i < update.add_seeds.len()
        invariant
            i <= update.add_seeds.len(),
            atoms == update.add_seeds@ + update.remove_seeds@,
            n == program.spec_atom_count(),
            first_outside(atoms, n, 0) == first_outside(atoms, n, i as int),
        decreases update.add_seeds.len() - i,
    {
        assert(atoms[i as int] == update.add_seeds@[i as int]);
        if let Err(e) = program.validate_atom(update.add_seeds[i]) {
            return Err(e);
        }
        i = i + 1;
    }
    let mut i: usize = 0;
    while i < update.remove_seeds.len()
        invariant
            i <= update.remove_seeds.len(),
            atoms == update.add_seeds@ + update.remove_seeds@,
            n == program.spec_atom_count(),
            first_outside(atoms, n, 0) == first_outside(atoms, n, update.add_seeds@.len() + i),
        decreases update.remove_seeds.len() - i,
    {
        assert(atoms[update.add_seeds@.len() + i] == update.remove_seeds@[i as int]);
        if let Err(e) = program.validate_atom(update.remove_seeds[i]) {
            return Err(e);
        }
        i = i + 1;
    }
    let ghost rules = update.enable_rules@ + update.disable_rules@;
    let ghost rc = program.spec_rules().len();
    let mut i: usize = 0;
    while i < update.enable_rules.len()
        invariant
            i <= update.enable_rules.len(),
            rules == update.enable_rules@ + update.disable_rules@,
            rc == program.spec_rules().len(),
            first_outside(atoms, n, 0) is None,
            atoms == update.add_seeds@ + update.remove_seeds@,
            n == program.spec_atom_count(),
            first_rule_outside_ids(rules, rc, 0) == first_rule_outside_ids(rules, rc, i as int),
        decreases update.enable_rules.len() - i,
    {
        assert(rules[i as int] == update.enable_rules@[i as int]);
        if let Err(e) = program.validate_rule(update.enable_rules[i]) {
            return Err(e);
        }
        i = i + 1;
    }
    let mut i: usize = 0;
    while i < update.disable_rules.len()
        invariant
            i <= update.disable_rules.len(),
            rules == update.enable_rules@ + update.disable_rules@,
            rc == program.spec_rules().len(),
            first_outside(atoms, n, 0) is None,
            atoms == update.add_seeds@ + update.remove_seeds@,
            n == program.spec_atom_count(),
            first_rule_outside_ids(rules, rc, 0) == first_rule_outside_ids(rules, rc, update.enable_rules@.len() + i),
        decreases update.disable_rules.len() - i,
    {
        assert(rules[update.enable_rules@.len() + i] == update.disable_rules@[i as int]);
        if let Err(e) = program.validate_rule(update.disable_rules[i]) {
            return Err(e);
        }
        i = i + 1;
    }
    Ok(())
}

/// `rank` is one above the highest rank among the premises in `body`
/// (saturating at `usize::MAX`), or 0 when no premise is ranked.
pub open spec fn rank_above_premises(ranks: Seq<Option<usize>>, body: Seq<GroundedAtomId>, rank: usize) -> bool {
    ||| rank == 0 && forall|k: int| 0 <= k < body.len() ==> ranks[#[trigger] body[k].id() as int] is None
    ||| exists|k0: int| 0 <= k0 < body.len() && (#[trigger] ranks[body[k0].id() as int]) is Some && {
        let m = ranks[body[k0].id() as int]->0;
        &&& forall|k: int| 0 <= k < body.len() ==> (ranks[#[trigger] body[k].id() as int] matches Some(pr) ==> pr <= m)
        &&& rank == (if m == usize::MAX { m } else { (m + 1) as usize })
    }
}

/// Makes the head of `rule_id` live, ranked one above its highest-ranked premise,
/// unless it is live already.
fn derive_from_rule(
    certificate: &mut GroundedCertificate,
    program: &GroundedProgram,
    rule_id: GroundedRuleId,
    queue: &mut Vec<GroundedAtomId>,
)
    requires
        program.wf(),
        shape_ok(*program, *old(certificate)),
        rule_id.id() < program.spec_rules().len(),
    ensures
        shape_ok(*program, *final(certificate)),
        ({
            let h = program.spec_rules()[rule_id.id() as int].spec_head();
            if old(certificate).spec_live()[h.id() as int] {
                &&& *final(certificate) == *old(certificate)
                &&& final(queue)@ == old(queue)@
            } else {
                &&& final(certificate).spec_live() == old(certificate).spec_live().update(h.id() as int, true)
                &&& final(certificate).spec_rank() =~= old(certificate).spec_rank().update(h.id() as int, final(certificate).spec_rank()[h.id() as int])
                &&& final(certificate).spec_rank()[h.id() as int] is Some
                &&& rank_above_premises(old(certificate).spec_rank(), program.spec_rules()[rule_id.id() as int].spec_body(), final(certificate).spec_rank()[h.id() as int]->0)
                &&& final(certificate).spec_witness() == old(certificate).spec_witness().update(h.id() as int, Some(GroundedWitness::Rule(rule_id)))
                &&& final(queue)@ == old(queue)@.push(h)
            }
        }),
{
    let rule = &program.rules[rule_id.0];
    let h = rule.head.0;
    assert(program.spec_rules()[rule_id.id() as int].spec_head().id() < program.spec_atom_count());
    if certificate.live[h] {
        return;
    }
    assert(atoms_below(rule.spec_body(), program.spec_atom_count())) by {
        assert(program.spec_rules()[rule_id.id() as int] == *rule);
    }
    let ghost ranks = certificate.spec_rank();
    let ghost body = rule.spec_body();
    let mut max_rank: Option<usize> = None;
    let mut k: usize = 0;
    while k < rule.body.len()
        invariant
            k <= rule.body.len(),
            body == rule.spec_body(),
            ranks == certificate.spec_rank(),
            ranks.len() == program.spec_atom_count(),
            atoms_below(body, program.spec_atom_count()),
            max_rank is None ==> forall|j: int| 0 <= j < k ==> ranks[#[trigger] body[j].id() as int] is None,
            max_rank matches Some(m) ==> {
                &&& exists|j0: int| 0 <= j0 < k && #[trigger] ranks[body[j0].id() as int] == Some(m)
                &&& forall|j: int| 0 <= j < k ==> (ranks[#[trigger] body[j].id() as int] matches Some(pr) ==> pr <= m)
            },
        decreases rule.body.len() - k,
    {
        if let Some(v) = certificate.rank(rule.body[k]) {
            max_rank = Some(match max_rank {
                None => v,
                Some(m) => if v > m { v } else { m },
            });
        }
        k = k + 1;
    }
    let rank = match max_rank {
        None => 0,
        Some(v) => v.saturating_add(1),
    };
    certificate.live.set(h, true);
    certificate.rank.set(h, Some(rank));
    certificate.witness.set(h, Some(GroundedWitness::Rule(rule_id)));
    queue.push(rule.head);
}

/// Frontier of atoms that became live: distinct, live, inside the universe.
spec fn frontier_ok(n: nat, c: GroundedCertificate, q: Seq<GroundedAtomId>) -> bool {
    &&& forall|i: int, j: int| 0 <= i < j < q.len() ==> q[i] != q[j]
    &&& forall|i: int| 0 <= i < q.len() ==> (#[trigger] q[i]).id() < n && c.spec_live()[q[i].id() as int]
}

/// Live atoms stay live with unchanged proof state.
pub open spec fn keeps_live(before: GroundedCertificate, after: GroundedCertificate) -> bool {
    forall|a: int| 0 <= a < before.spec_live().len() && #[trigger] before.spec_live()[a] ==> {
        &&& after.spec_live()[a]
        &&& after.spec_rank()[a] == before.spec_rank()[a]
        &&& after.spec_witness()[a] == before.spec_witness()[a]
    }
}

proof fn lemma_keeps_live_step(c0: GroundedCertificate, c1: GroundedCertificate, c2: GroundedCertificate, h: int)
    requires
        keeps_live(c0, c1),
        c0.spec_live().len() == c1.spec_live().len(),
        c0.spec_rank().len() == c1.spec_rank().len(),
        c0.spec_witness().len() == c1.spec_witness().len(),
        c0.spec_live().len() == c0.spec_rank().len(),
        c0.spec_live().len() == c0.spec_witness().len(),
        0 <= h < c1.spec_live().len(),
        !c1.spec_live()[h],
        c2.spec_live() == c1.spec_live().update(h, true),
        c2.spec_rank().len() == c1.spec_rank().len(),
        c2.spec_witness().len() == c1.spec_witness().len(),
        forall|a: int| 0 <= a < c1.spec_rank().len() && a != h ==> c2.spec_rank()[a] == c1.spec_rank()[a],
        forall|a: int| 0 <= a < c1.spec_witness().len() && a != h ==> c2.spec_witness()[a] == c1.spec_witness()[a],
    ensures
        keeps_live(c0, c2),
{
    assert forall|a: int| 0 <= a < c0.spec_live().len() && #[trigger] c0.spec_live()[a] implies {
        &&& c2.spec_live()[a]
        &&& c2.spec_rank()[a] == c0.spec_rank()[a]
        &&& c2.spec_witness()[a] == c0.spec_witness()[a]
    } by {
        assert(c1.spec_live()[a]);
        assert(a != h);
    }
}

proof fn lemma_derive_keeps_frontier(p: GroundedProgram, c0: GroundedCertificate, c1: GroundedCertificate, q0: Seq<GroundedAtomId>, q1: Seq<GroundedAtomId>, h: GroundedAtomId)
    requires
        shape_ok(p, c0),
        h.id() < p.spec_atom_count(),
        frontier_ok(p.spec_atom_count(), c0, q0),
        !c0.spec_live()[h.id() as int],
        c1.spec_live() == c0.spec_live().update(h.id() as int, true),
        q1 == q0.push(h),
    ensures
        frontier_ok(p.spec_atom_count(), c1, q1),
{
    assert forall|i: int, j: int| 0 <= i < j < q1.len() implies q1[i] != q1[j] by {
        if j == q0.len() {
            assert(c0.spec_live()[q0[i].id() as int]);
        }
    }
    assert forall|i: int| 0 <= i < q1.len() implies (#[trigger] q1[i]).id() < p.spec_atom_count() && c1.spec_live()[q1[i].id() as int] by {
        if i < q0.len() {
            assert(q1[i] == q0[i]);
        }
    }
}

/// `p` is `p1` with the seeds and the enabled rules that `u` adds.
pub open spec fn inserts_from(p1: GroundedProgram, p: GroundedProgram, u: GroundedUpdate) -> bool {
    &&& same_structure(p1, p)
    &&& forall|a: GroundedAtomId| #[trigger] p.spec_seeds().contains(a) <==> (p1.spec_seeds().contains(a) || u.add_seeds@.contains(a))
    &&& forall|r: int| 0 <= r < p.spec_rules().len() ==> (#[trigger] p.spec_rules()[r]).spec_enabled()
        == (p1.spec_rules()[r].spec_enabled() || u.enable_rules@.contains(rule_at(r)))
}

/// Every live atom of `c` has a rank of at most `bound`.
pub open spec fn ranks_within(c: GroundedCertificate, bound: int) -> bool {
    forall|a: int| 0 <= a < c.spec_live().len() && #[trigger] c.spec_live()[a] ==> (c.spec_rank()[a] matches Some(r) && r <= bound)
}

/// Atom `a` occurs in `q` at or after position `from`.
spec fn queued_from(q: Seq<GroundedAtomId>, from: int, a: int) -> bool {
    exists|i: int| from <= i < q.len() && (#[trigger] q[i]).id() == a
}

/// Some premise of `rule` occurs in `q` at or after position `from`.
spec fn rule_waits(rule: GroundedRule, q: Seq<GroundedAtomId>, from: int) -> bool {
    exists|k: int| 0 <= k < rule.spec_body().len() && queued_from(q, from, #[trigger] rule.spec_body()[k].id() as int)
}

/// Every enabled rule outside `skip` whose premises are all live, none of
/// them still queued from `from` on, has a live head.
spec fn closed_unless_queued(p: GroundedProgram, c: GroundedCertificate, q: Seq<GroundedAtomId>, from: int, skip: spec_fn(int) -> bool) -> bool {
    forall|r: int| 0 <= r < p.spec_rules().len() && #[trigger] p.spec_rules()[r].spec_enabled()
        && body_live(p.spec_rules()[r], c.spec_live()) && !rule_waits(p.spec_rules()[r], q, from) && !skip(r)
        ==> c.spec_live()[p.spec_rules()[r].spec_head().id() as int]
}

/// The atoms live in `c` but not in `c0` are all in `q`.
spec fn fresh_queued(c0: GroundedCertificate, c: GroundedCertificate, q: Seq<GroundedAtomId>) -> bool {
    forall|a: int| 0 <= a < c.spec_live().len() && #[trigger] c.spec_live()[a] && !c0.spec_live()[a] ==> queued_from(q, 0, a)
}

spec fn all_justified(p: GroundedProgram, c: GroundedCertificate) -> bool {
    forall|i: int| 0 <= i < p.spec_atom_count() ==> #[trigger] atom_justified(p, c, i)
}

/// Every atom of `p` that `add` names is live in `c`, as is every seed of `p1`.
spec fn seeds_now_live(p1: GroundedProgram, add: Seq<GroundedAtomId>, upto: int, c: GroundedCertificate) -> bool {
    &&& forall|k: int| 0 <= k < p1.spec_seeds().len() ==>
        (#[trigger] p1.spec_seeds()[k]).id() < c.spec_live().len() && c.spec_live()[p1.spec_seeds()[k].id() as int]
    &&& forall|k: int| 0 <= k < upto ==> (#[trigger] add[k]).id() < c.spec_live().len() && c.spec_live()[add[k].id() as int]
}

proof fn lemma_inserted_seeds_in_range(p1: GroundedProgram, p: GroundedProgram, u: GroundedUpdate)
    requires
        p.wf(),
        inserts_from(p1, p, u),
    ensures
        forall|k: int| 0 <= k < p1.spec_seeds().len() ==> (#[trigger] p1.spec_seeds()[k]).id() < p.spec_atom_count(),
{
    assert forall|k: int| 0 <= k < p1.spec_seeds().len() implies (#[trigger] p1.spec_seeds()[k]).id() < p.spec_atom_count() by {
        let a = p1.spec_seeds()[k];
        assert(p1.spec_seeds().contains(a));
        assert(p.spec_seeds().contains(a));
        let k2 = choose|k2: int| 0 <= k2 < p.spec_seeds().len() && p.spec_seeds()[k2] == a;
        assert(p.spec_seeds()[k2].id() < p.spec_atom_count());
    }
}

proof fn lemma_justified_transfer(p1: GroundedProgram, p: GroundedProgram, u: GroundedUpdate, c: GroundedCertificate)
    requires
        inserts_from(p1, p, u),
        cert_valid(p1, c),
    ensures
        all_justified(p, c),
{
    assert forall|i: int| 0 <= i < p.spec_atom_count() implies #[trigger] atom_justified(p, c, i) by {
        assert(atom_justified(p1, c, i));
        if c.spec_live()[i] {
            match (c.spec_rank()[i], c.spec_witness()[i]) {
                (Some(r), Some(GroundedWitness::Seed)) => {
                    let k = choose|k: int| 0 <= k < p1.spec_seeds().len() && #[trigger] p1.spec_seeds()[k].id() == i;
                    let a = p1.spec_seeds()[k];
                    assert(p1.spec_seeds().contains(a));
                    assert(p.spec_seeds().contains(a));
                    let k2 = choose|k2: int| 0 <= k2 < p.spec_seeds().len() && p.spec_seeds()[k2] == a;
                    assert(p.spec_seeds()[k2].id() == i);
                },
                (Some(r), Some(GroundedWitness::Rule(rid))) => {
                    let j = rid.id() as int;
                    assert(p.spec_rules()[j].spec_enabled());
                    assert(p.spec_rules()[j].spec_body() == p1.spec_rules()[j].spec_body());
                },
                _ => {},
            }
        }
    }
}

/// Making a non-live atom live and queueing it keeps every other rule's closure.
proof fn lemma_push_keeps_closure(p: GroundedProgram, c: GroundedCertificate, c2: GroundedCertificate, q: Seq<GroundedAtomId>, from: int, skip: spec_fn(int) -> bool, h: GroundedAtomId)
    requires
        p.wf(),
        c.spec_live().len() == p.spec_atom_count(),
        closed_unless_queued(p, c, q, from, skip),
        0 <= from <= q.len(),
        0 <= h.id() < c.spec_live().len(),
        !c.spec_live()[h.id() as int],
        c2.spec_live() == c.spec_live().update(h.id() as int, true),
    ensures
        closed_unless_queued(p, c2, q.push(h), from, skip),
{
    let q2 = q.push(h);
    assert forall|r: int| 0 <= r < p.spec_rules().len() && #[trigger] p.spec_rules()[r].spec_enabled()
        && body_live(p.spec_rules()[r], c2.spec_live()) && !rule_waits(p.spec_rules()[r], q2, from) && !skip(r)
        implies c2.spec_live()[p.spec_rules()[r].spec_head().id() as int] by {
        let rule = p.spec_rules()[r];
        assert(rule.spec_head().id() < p.spec_atom_count());
        assert(atoms_below(rule.spec_body(), p.spec_atom_count()));
        assert(body_live(rule, c.spec_live())) by {
            assert forall|k: int| 0 <= k < rule.spec_body().len() implies c.spec_live()[#[trigger] rule.spec_body()[k].id() as int] by {
                assert(c2.spec_live()[rule.spec_body()[k].id() as int]);
                if rule.spec_body()[k].id() == h.id() {
                    assert(q2[q.len() as int] == h);
                    assert(queued_from(q2, from, rule.spec_body()[k].id() as int));
                }
            }
        }
        assert(!rule_waits(rule, q, from)) by {
            if rule_waits(rule, q, from) {
                let k = choose|k: int| 0 <= k < rule.spec_body().len() && queued_from(q, from, #[trigger] rule.spec_body()[k].id() as int);
                let i = choose|i: int| from <= i < q.len() && (#[trigger] q[i]).id() == rule.spec_body()[k].id() as int;
                assert(q2[i] == q[i]);
                assert(queued_from(q2, from, rule.spec_body()[k].id() as int));
            }
        }
    }
}

/// A rule found with all premises live fires: it is justified one rank above them.
proof fn lemma_derive_keeps_justified(p: GroundedProgram, c: GroundedCertificate, c2: GroundedCertificate, rid: GroundedRuleId)
    requires
        p.wf(),
        shape_ok(p, c),
        shape_ok(p, c2),
        all_justified(p, c),
        rid.id() < p.spec_rules().len(),
        p.spec_rules()[rid.id() as int].spec_enabled(),
        body_live(p.spec_rules()[rid.id() as int], c.spec_live()),
        !c.spec_live()[p.spec_rules()[rid.id() as int].spec_head().id() as int],
        ({
            let rule = p.spec_rules()[rid.id() as int];
            let h = rule.spec_head().id() as int;
            &&& c2.spec_live() == c.spec_live().update(h, true)
            &&& c2.spec_rank() == c.spec_rank().update(h, c2.spec_rank()[h])
            &&& c2.spec_rank()[h] is Some
            &&& rank_above_premises(c.spec_rank(), rule.spec_body(), c2.spec_rank()[h]->0)
            &&& c2.spec_witness() == c.spec_witness().update(h, Some(GroundedWitness::Rule(rid)))
        }),
        forall|k: int| 0 <= k < p.spec_rules()[rid.id() as int].spec_body().len() ==>
            (c.spec_rank()[#[trigger] p.spec_rules()[rid.id() as int].spec_body()[k].id() as int] matches Some(pr) && pr < usize::MAX),
    ensures
        all_justified(p, c2),
{
    let rule = p.spec_rules()[rid.id() as int];
    let h = rule.spec_head().id() as int;
    let body = rule.spec_body();
    let new_rank = c2.spec_rank()[h]->0;
    assert(atoms_below(body, p.spec_atom_count())) by {
        assert(p.spec_rules()[rid.id() as int].spec_head().id() < p.spec_atom_count());
    }
    assert forall|k: int| 0 <= k < body.len() implies (c.spec_rank()[#[trigger] body[k].id() as int] matches Some(pr) && pr < new_rank) by {
        if body.len() > 0 {
            if new_rank == 0 && forall|k: int| 0 <= k < body.len() ==> c.spec_rank()[#[trigger] body[k].id() as int] is None {
                assert(c.spec_rank()[body[k].id() as int] is None);
            } else {
                let k0 = choose|k0: int| 0 <= k0 < body.len() && (#[trigger] c.spec_rank()[body[k0].id() as int]) is Some && {
                    let m = c.spec_rank()[body[k0].id() as int]->0;
                    &&& forall|k: int| 0 <= k < body.len() ==> (c.spec_rank()[#[trigger] body[k].id() as int] matches Some(pr) ==> pr <= m)
                    &&& new_rank == (if m == usize::MAX { m } else { (m + 1) as usize })
                };
                assert(c.spec_rank()[body[k0].id() as int]->0 < usize::MAX);
            }
        }
    }
    assert forall|k: int| 0 <= k < body.len() implies #[trigger] body[k].id() != h by {
        assert(c.spec_live()[body[k].id() as int]);
    }
    assert forall|i: int| 0 <= i < p.spec_atom_count() implies #[trigger] atom_justified(p, c2, i) by {
        if i == h {
            assert(premises_ranked_below(c2, rule, new_rank)) by {
                assert forall|k: int| 0 <= k < rule.spec_body().len() implies {
                    let q = #[trigger] rule.spec_body()[k].id() as int;
                    &&& c2.spec_live()[q]
                    &&& c2.spec_rank()[q] matches Some(pr) && pr < new_rank
                } by {
                    let q = rule.spec_body()[k].id() as int;
                    assert(q != h);
                    assert(c.spec_live()[q]);
                }
            }
            assert(rid == rule_at(rid.id() as int)) by {
                lemma_rule_at(rid.id() as int);
            }
        } else {
            assert(atom_justified(p, c, i));
            if c.spec_live()[i] {
                match (c.spec_rank()[i], c.spec_witness()[i]) {
                    (Some(r), Some(GroundedWitness::Rule(wid))) => {
                        let w = p.spec_rules()[wid.id() as int];
                        assert forall|k: int| 0 <= k < w.spec_body().len() implies {
                            let q = #[trigger] w.spec_body()[k].id() as int;
                            &&& c2.spec_live()[q]
                            &&& c2.spec_rank()[q] matches Some(pr) && pr < r
                        } by {
                            let q = w.spec_body()[k].id() as int;
                            assert(c.spec_live()[q]);
                        }
                    },
                    _ => {},
                }
            }
        }
    }
}

/// An added seed made live at rank 0 is justified as a seed.
proof fn lemma_seed_keeps_justified(p: GroundedProgram, c: GroundedCertificate, c2: GroundedCertificate, h: int)
    requires
        p.wf(),
        shape_ok(p, c),
        shape_ok(p, c2),
        all_justified(p, c),
        0 <= h < p.spec_atom_count(),
        p.is_seed(h),
        !c.spec_live()[h],
        c2.spec_live() == c.spec_live().update(h, true),
        c2.spec_rank() == c.spec_rank().update(h, Some(0usize)),
        c2.spec_witness() == c.spec_witness().update(h, Some(GroundedWitness::Seed)),
    ensures
        all_justified(p, c2),
{
    assert forall|i: int| 0 <= i < p.spec_atom_count() implies #[trigger] atom_justified(p, c2, i) by {
        if i != h {
            assert(atom_justified(p, c, i));
            if c.spec_live()[i] {
                match (c.spec_rank()[i], c.spec_witness()[i]) {
                    (Some(r), Some(GroundedWitness::Rule(wid))) => {
                        let w = p.spec_rules()[wid.id() as int];
                        assert forall|k: int| 0 <= k < w.spec_body().len() implies {
                            let q = #[trigger] w.spec_body()[k].id() as int;
                            &&& c2.spec_live()[q]
                            &&& c2.spec_rank()[q] matches Some(pr) && pr < r
                        } by {
                            let q = w.spec_body()[k].id() as int;
                            assert(c.spec_live()[q]);
                        }
                    },
                    _ => {},
                }
            }
        }
    }
}

/// An atom that becomes live is queued, so every atom that became live is queued.
proof fn lemma_fresh_step(c0: GroundedCertificate, c: GroundedCertificate, c2: GroundedCertificate, q: Seq<GroundedAtomId>, h: GroundedAtomId)
    requires
        fresh_queued(c0, c, q),
        0 <= h.id() < c.spec_live().len(),
        c2.spec_live() == c.spec_live().update(h.id() as int, true),
    ensures
        fresh_queued(c0, c2, q.push(h)),
{
    let q2 = q.push(h);
    assert forall|a: int| 0 <= a < c2.spec_live().len() && #[trigger] c2.spec_live()[a] && !c0.spec_live()[a] implies queued_from(q2, 0, a) by {
        if a == h.id() {
            assert(q2[q.len() as int] == h);
        } else {
            assert(c.spec_live()[a]);
            let i = choose|i: int| 0 <= i < q.len() && (#[trigger] q[i]).id() == a;
            assert(q2[i] == q[i]);
        }
    }
}

/// Before any queued atom is processed, the rules enabled before the
/// insertions are closed except where a premise is still queued.
proof fn lemma_initial_closure(p1: GroundedProgram, p: GroundedProgram, u: GroundedUpdate, c0: GroundedCertificate, c: GroundedCertificate, q: Seq<GroundedAtomId>)
    requires
        p.wf(),
        inserts_from(p1, p, u),
        cert_valid(p1, c0),
        shape_ok(p, c),
        keeps_live(c0, c),
        fresh_queued(c0, c, q),
    ensures
        closed_unless_queued(p, c, q, 0, |r: int| !p1.spec_rules()[r].spec_enabled()),
{
    let skip = |r: int| !p1.spec_rules()[r].spec_enabled();
    assert forall|r: int| 0 <= r < p.spec_rules().len() && #[trigger] p.spec_rules()[r].spec_enabled()
        && body_live(p.spec_rules()[r], c.spec_live()) && !rule_waits(p.spec_rules()[r], q, 0) && !skip(r)
        implies c.spec_live()[p.spec_rules()[r].spec_head().id() as int] by {
        let rule = p.spec_rules()[r];
        let rule1 = p1.spec_rules()[r];
        assert(rule.spec_head().id() < p.spec_atom_count());
        assert(atoms_below(rule.spec_body(), p.spec_atom_count()));
        assert(rule1.spec_body() == rule.spec_body());
        assert(body_live(rule1, c0.spec_live())) by {
            assert forall|k: int| 0 <= k < rule1.spec_body().len() implies c0.spec_live()[#[trigger] rule1.spec_body()[k].id() as int] by {
                let a = rule.spec_body()[k].id() as int;
                assert(c.spec_live()[a]);
                if !c0.spec_live()[a] {
                    assert(queued_from(q, 0, a));
                    assert(rule_waits(rule, q, 0));
                }
            }
        }
        assert(p1.spec_rules()[r].spec_enabled());
        assert(c0.spec_live()[rule1.spec_head().id() as int]);
    }
}

/// Moving past the queued atom `q[from]` leaves only the rules that mention it to re-examine.
proof fn lemma_pop_closure(p: GroundedProgram, c: GroundedCertificate, q: Seq<GroundedAtomId>, from: int)
    requires
        closed_unless_queued(p, c, q, from, |r: int| false),
        0 <= from < q.len(),
        forall|i: int, j: int| 0 <= i < j < q.len() ==> q[i] != q[j],
    ensures
        closed_unless_queued(p, c, q, from + 1, |r: int| body_mentions(p.spec_rules()[r], q[from].id() as int)),
{
    let x = q[from];
    let skip = |r: int| body_mentions(p.spec_rules()[r], x.id() as int);
    assert forall|r: int| 0 <= r < p.spec_rules().len() && #[trigger] p.spec_rules()[r].spec_enabled()
        && body_live(p.spec_rules()[r], c.spec_live()) && !rule_waits(p.spec_rules()[r], q, from + 1) && !skip(r)
        implies c.spec_live()[p.spec_rules()[r].spec_head().id() as int] by {
        let rule = p.spec_rules()[r];
        if rule_waits(rule, q, from) {
            let k = choose|k: int| 0 <= k < rule.spec_body().len() && queued_from(q, from, #[trigger] rule.spec_body()[k].id() as int);
            let i = choose|i: int| from <= i < q.len() && (#[trigger] q[i]).id() == rule.spec_body()[k].id() as int;
            if i == from {
                assert(body_mentions(rule, x.id() as int));
            } else {
                assert(queued_from(q, from + 1, rule.spec_body()[k].id() as int));
            }
        }
    }
}

/// Dropping `r0` from the rules left to re-examine, once it satisfies closure.
proof fn lemma_closure_examined(p: GroundedProgram, c: GroundedCertificate, q: Seq<GroundedAtomId>, from: int, skip1: spec_fn(int) -> bool, skip2: spec_fn(int) -> bool, r0: int)
    requires
        closed_unless_queued(p, c, q, from, skip1),
        forall|r: int| 0 <= r < p.spec_rules().len() && #[trigger] skip1(r) && !skip2(r) ==> r == r0,
        0 <= r0 < p.spec_rules().len() && p.spec_rules()[r0].spec_enabled()
            && body_live(p.spec_rules()[r0], c.spec_live()) && !rule_waits(p.spec_rules()[r0], q, from)
            ==> c.spec_live()[p.spec_rules()[r0].spec_head().id() as int],
    ensures
        closed_unless_queued(p, c, q, from, skip2),
{
    assert forall|r: int| 0 <= r < p.spec_rules().len() && #[trigger] p.spec_rules()[r].spec_enabled()
        && body_live(p.spec_rules()[r], c.spec_live()) && !rule_waits(p.spec_rules()[r], q, from) && !skip2(r)
        implies c.spec_live()[p.spec_rules()[r].spec_head().id() as int] by {
        if skip1(r) {
            assert(r == r0);
        }
    }
}

/// Skipping only disabled rules skips nothing.
proof fn lemma_closure_enabled_only(p: GroundedProgram, c: GroundedCertificate, q: Seq<GroundedAtomId>, from: int, skip: spec_fn(int) -> bool)
    requires
        closed_unless_queued(p, c, q, from, skip),
        forall|r: int| 0 <= r < p.spec_rules().len() && #[trigger] p.spec_rules()[r].spec_enabled() ==> !skip(r),
    ensures
        closed_unless_queued(p, c, q, from, |r: int| false),
{
}

/// Past position `j` of the dependents list only its entry `j` drops out.
proof fn lemma_skip_next(deps: Seq<GroundedRuleId>, j: int)
    requires
        0 <= j < deps.len(),
    ensures
        forall|r: int| 0 <= r <= usize::MAX && #[trigger] deps.subrange(j, deps.len() as int).contains(rule_at(r))
            && !deps.subrange(j + 1, deps.len() as int).contains(rule_at(r)) ==> r == deps[j].id(),
{
    assert forall|r: int| 0 <= r <= usize::MAX && #[trigger] deps.subrange(j, deps.len() as int).contains(rule_at(r))
        && !deps.subrange(j + 1, deps.len() as int).contains(rule_at(r)) implies r == deps[j].id() by {
        lemma_rule_at(r);
        let k = choose|k: int| 0 <= k < deps.len() - j && deps.subrange(j, deps.len() as int)[k] == rule_at(r);
        if k > 0 {
            assert(deps.subrange(j + 1, deps.len() as int)[k - 1] == rule_at(r));
        }
    }
}

/// One derivation during the insertions keeps justification, the rank
/// bound, the queue of fresh atoms, the live seeds and the closure.
proof fn lemma_insertion_derive(
    p: GroundedProgram,
    p1: GroundedProgram,
    u: GroundedUpdate,
    c0: GroundedCertificate,
    c: GroundedCertificate,
    c2: GroundedCertificate,
    q: Seq<GroundedAtomId>,
    q2: Seq<GroundedAtomId>,
    rid: GroundedRuleId,
    bound: int,
    from: int,
    skip1: spec_fn(int) -> bool,
    skip2: spec_fn(int) -> bool,
)
    requires
        p.wf(),
        shape_ok(p, c),
        shape_ok(p, c2),
        0 <= bound,
        bound + p.spec_atom_count() + 1 < usize::MAX,
        frontier_ok(p.spec_atom_count(), c2, q2),
        all_justified(p, c),
        ranks_within(c, bound + q.len()),
        seeds_now_live(p1, u.add_seeds@, u.add_seeds@.len() as int, c),
        0 <= from <= q.len(),
        closed_unless_queued(p, c, q, from, skip1),
        forall|r: int| 0 <= r < p.spec_rules().len() && #[trigger] skip1(r) && !skip2(r) ==> r == rid.id(),
        rid.id() < p.spec_rules().len(),
        p.spec_rules()[rid.id() as int].spec_enabled(),
        body_live(p.spec_rules()[rid.id() as int], c.spec_live()),
        !c.spec_live()[p.spec_rules()[rid.id() as int].spec_head().id() as int],
        ({
            let rule = p.spec_rules()[rid.id() as int];
            let h = rule.spec_head().id() as int;
            &&& c2.spec_live() == c.spec_live().update(h, true)
            &&& c2.spec_rank() =~= c.spec_rank().update(h, c2.spec_rank()[h])
            &&& c2.spec_rank()[h] is Some
            &&& rank_above_premises(c.spec_rank(), rule.spec_body(), c2.spec_rank()[h]->0)
            &&& c2.spec_witness() == c.spec_witness().update(h, Some(GroundedWitness::Rule(rid)))
            &&& q2 == q.push(rule.spec_head())
        }),
    ensures
        all_justified(p, c2),
        ranks_within(c2, bound + q2.len()),
        fresh_queued(c0, c, q) ==> fresh_queued(c0, c2, q2),
        seeds_now_live(p1, u.add_seeds@, u.add_seeds@.len() as int, c2),
        closed_unless_queued(p, c2, q2, from, skip2),
{
    let rule = p.spec_rules()[rid.id() as int];
    let head = rule.spec_head();
    let h = head.id() as int;
    let body = rule.spec_body();
    assert(h < p.spec_atom_count());
    assert(atoms_below(body, p.spec_atom_count()));
    lemma_distinct_atoms_bounded(q2, p.spec_atom_count());
    assert forall|k: int| 0 <= k < body.len() implies (c.spec_rank()[#[trigger] body[k].id() as int] matches Some(pr) && pr <= bound + q.len()) by {
        assert(c.spec_live()[body[k].id() as int]);
    }
    lemma_derive_rank_bound(c.spec_rank(), c.spec_live(), body, c2.spec_rank()[h]->0, bound + q.len());
    lemma_derive_keeps_justified(p, c, c2, rid);
    assert(ranks_within(c2, bound + q2.len())) by {
        assert forall|a: int| 0 <= a < c2.spec_live().len() && #[trigger] c2.spec_live()[a]
            implies (c2.spec_rank()[a] matches Some(r) && r <= bound + q2.len()) by {
            if a != h {
                assert(c.spec_live()[a]);
            }
        }
    }
    if fresh_queued(c0, c, q) {
        lemma_fresh_step(c0, c, c2, q, head);
    }
    assert(seeds_now_live(p1, u.add_seeds@, u.add_seeds@.len() as int, c2)) by {
        assert forall|k: int| 0 <= k < p1.spec_seeds().len() implies
            (#[trigger] p1.spec_seeds()[k]).id() < c2.spec_live().len() && c2.spec_live()[p1.spec_seeds()[k].id() as int] by {
            assert(c.spec_live()[p1.spec_seeds()[k].id() as int]);
        }
        assert forall|k: int| 0 <= k < u.add_seeds@.len() implies
            (#[trigger] u.add_seeds@[k]).id() < c2.spec_live().len() && c2.spec_live()[u.add_seeds@[k].id() as int] by {
            assert(c.spec_live()[u.add_seeds@[k].id() as int]);
        }
    }
    lemma_push_keeps_closure(p, c, c2, q, from, skip1, head);
    lemma_closure_examined(p, c2, q2, from, skip1, skip2, rid.id() as int);
}

/// At the end of the insertions the certificate is valid for the new program.
proof fn lemma_insertions_valid(p: GroundedProgram, p1: GroundedProgram, u: GroundedUpdate, c: GroundedCertificate, q: Seq<GroundedAtomId>)
    requires
        p.wf(),
        inserts_from(p1, p, u),
        shape_ok(p, c),
        all_justified(p, c),
        seeds_now_live(p1, u.add_seeds@, u.add_seeds@.len() as int, c),
        closed_unless_queued(p, c, q, q.len() as int, |r: int| false),
    ensures
        cert_valid(p, c),
{
    assert forall|k: int| 0 <= k < p.spec_seeds().len() implies c.spec_live()[#[trigger] p.spec_seeds()[k].id() as int] by {
        let a = p.spec_seeds()[k];
        assert(p.spec_seeds().contains(a));
        if p1.spec_seeds().contains(a) {
            let k1 = choose|k1: int| 0 <= k1 < p1.spec_seeds().len() && p1.spec_seeds()[k1] == a;
            assert(c.spec_live()[p1.spec_seeds()[k1].id() as int]);
        } else {
            let k1 = choose|k1: int| 0 <= k1 < u.add_seeds@.len() && u.add_seeds@[k1] == a;
            assert(c.spec_live()[u.add_seeds@[k1].id() as int]);
        }
    }
    assert forall|r: int| 0 <= r < p.spec_rules().len() && #[trigger] p.spec_rules()[r].spec_enabled()
        && body_live(p.spec_rules()[r], c.spec_live()) implies c.spec_live()[p.spec_rules()[r].spec_head().id() as int] by {
        assert(!rule_waits(p.spec_rules()[r], q, q.len() as int));
    }
}

/// After a derivation from a rule whose premises are live with ranks up to
/// `b`, the new rank is at most `b + 1`.
proof fn lemma_derive_rank_bound(ranks: Seq<Option<usize>>, live: Seq<bool>, body: Seq<GroundedAtomId>, rank: usize, b: int)
    requires
        rank_above_premises(ranks, body, rank),
        0 <= b,
        b + 1 < usize::MAX,
        forall|k: int| 0 <= k < body.len() ==> (ranks[#[trigger] body[k].id() as int] matches Some(pr) && pr <= b),
    ensures
        rank <= b + 1,
        forall|k: int| 0 <= k < body.len() ==> (ranks[#[trigger] body[k].id() as int] matches Some(pr) && pr < usize::MAX),
{
    if !(rank == 0 && forall|k: int| 0 <= k < body.len() ==> ranks[#[trigger] body[k].id() as int] is None) {
        let k0 = choose|k0: int| 0 <= k0 < body.len() && (#[trigger] ranks[body[k0].id() as int]) is Some && {
            let m = ranks[body[k0].id() as int]->0;
            &&& forall|k: int| 0 <= k < body.len() ==> (ranks[#[trigger] body[k].id() as int] matches Some(pr) ==> pr <= m)
            &&& rank == (if m == usize::MAX { m } else { (m + 1) as usize })
        };
        assert(ranks[body[k0].id() as int]->0 <= b);
    }
}

fn incremental_insertions(
    program: &GroundedProgram,
    index: &GroundedIncidenceIndex,
    certificate: &mut GroundedCertificate,
    update: &GroundedUpdate,
    stats: &mut GroundedWorkStats,
    Ghost(p1): Ghost<GroundedProgram>,
    Ghost(bound): Ghost<int>,
)
    requires
        program.wf(),
        index.matches(*program),
        shape_ok(*program, *old(certificate)),
        atoms_below(update.add_seeds@, program.spec_atom_count()),
        rule_ids_below(update.enable_rules@, program.spec_rules().len()),
    ensures
        shape_ok(*program, *final(certificate)),
        keeps_live(*old(certificate), *final(certificate)),
        inserts_from(p1, *program, *update) && cert_valid(p1, *old(certificate)) && ranks_within(*old(certificate), bound)
            && 0 <= bound && bound + program.spec_atom_count() + 1 < usize::MAX ==> cert_valid(*program, *final(certificate)),
        final(stats).affected_atoms == old(stats).affected_atoms,
        final(stats).dependency_walks == old(stats).dependency_walks,
{
    let ghost a0 = stats.affected_atoms;
    let ghost w0 = stats.dependency_walks;
    let ghost n = program.spec_atom_count();
    let ghost c0 = *certificate;
    let ghost pp = *program;
    let ghost tracking = inserts_from(p1, pp, *update) && cert_valid(p1, c0) && ranks_within(c0, bound)
        && 0 <= bound && bound + n + 1 < usize::MAX;
    proof {
        if tracking {
            lemma_justified_transfer(p1, pp, *update, c0);
            lemma_inserted_seeds_in_range(p1, pp, *update);
            assert(fresh_queued(c0, c0, Seq::<GroundedAtomId>::empty()));
            assert forall|k: int| 0 <= k < p1.spec_seeds().len() implies
                (#[trigger] p1.spec_seeds()[k]).id() < c0.spec_live().len() && c0.spec_live()[p1.spec_seeds()[k].id() as int] by {}
        }
    }
    let mut queue: Vec<GroundedAtomId> = Vec::new();
    let mut i: usize = 0;
    while i < update.add_seeds.len()
        invariant
            i <= update.add_seeds.len(),
            program.wf(),
            pp == *program,
            n == program.spec_atom_count(),
            atoms_below(update.add_seeds@, n),
            shape_ok(*program, *certificate),
            frontier_ok(n, *certificate, queue@),
            keeps_live(c0, *certificate),
            stats.affected_atoms == a0 && stats.dependency_walks == w0,
            shape_ok(*program, c0),
            tracking ==> inserts_from(p1, pp, *update) && cert_valid(p1, c0) && 0 <= bound && bound + n + 1 < usize::MAX,
            tracking ==> all_justified(pp, *certificate),
            tracking ==> ranks_within(*certificate, bound + queue@.len()),
            tracking ==> fresh_queued(c0, *certificate, queue@),
            tracking ==> seeds_now_live(p1, update.add_seeds@, i as int, *certificate),
        decreases update.add_seeds.len() - i,
    {
        let seed = update.add_seeds[i];
        assert(update.add_seeds@[i as int].id() < n);
        if !certificate.is_live(seed) {
            let ghost before = *certificate;
            certificate.live.set(seed.0, true);
            certificate.rank.set(seed.0, Some(0));
            certificate.witness.set(seed.0, Some(GroundedWitness::Seed));
            let ghost q0 = queue@;
            queue.push(seed);
            proof {
                lemma_derive_keeps_frontier(*program, before, *certificate, q0, queue@, seed);
                lemma_keeps_live_step(c0, before, *certificate, seed.id() as int);
                if tracking {
                    assert(update.add_seeds@.contains(seed));
                    assert(pp.spec_seeds().contains(seed));
                    let k = choose|k: int| 0 <= k < pp.spec_seeds().len() && pp.spec_seeds()[k] == seed;
                    assert(pp.is_seed(seed.id() as int));
                    lemma_seed_keeps_justified(pp, before, *certificate, seed.id() as int);
                    lemma_fresh_step(c0, before, *certificate, q0, seed);
                    assert(ranks_within(*certificate, bound + queue@.len())) by {
                        assert forall|a: int| 0 <= a < certificate.spec_live().len() && #[trigger] certificate.spec_live()[a]
                            implies (certificate.spec_rank()[a] matches Some(r) && r <= bound + queue@.len()) by {
                            if a != seed.id() {
                                assert(before.spec_live()[a]);
                            }
                        }
                    }
                    assert(seeds_now_live(p1, update.add_seeds@, i + 1, *certificate)) by {
                        assert forall|k: int| 0 <= k < p1.spec_seeds().len() implies
                            (#[trigger] p1.spec_seeds()[k]).id() < certificate.spec_live().len() && certificate.spec_live()[p1.spec_seeds()[k].id() as int] by {
                            assert(before.spec_live()[p1.spec_seeds()[k].id() as int]);
                        }
                        assert forall|k: int| 0 <= k < i + 1 implies
                            (#[trigger] update.add_seeds@[k]).id() < certificate.spec_live().len() && certificate.spec_live()[update.add_seeds@[k].id() as int] by {
                            if k < i {
                                assert(before.spec_live()[update.add_seeds@[k].id() as int]);
                            }
                        }
                    }
                }
            }
        } else {
            proof {
                if tracking {
                    assert(certificate.spec_live()[seed.id() as int]);
                    assert(seeds_now_live(p1, update.add_seeds@, i + 1, *certificate));
                }
            }
        }
        i = i + 1;
    }
    let ghost es = update.enable_rules@;
    proof {
        if tracking {
            lemma_initial_closure(p1, pp, *update, c0, *certificate, queue@);
            let skip0 = |r: int| !(p1.spec_rules()[r].spec_enabled() || es.subrange(0, 0).contains(rule_at(r)));
            lemma_closure_examined(pp, *certificate, queue@, 0, |r: int| !p1.spec_rules()[r].spec_enabled(), skip0, -1);
        }
    }
    let mut i: usize = 0;
    while i < update.enable_rules.len()
        invariant
            i <= update.enable_rules.len(),
            program.wf(),
            pp == *program,
            es == update.enable_rules@,
            n == program.spec_atom_count(),
            rule_ids_below(update.enable_rules@, program.spec_rules().len()),
            shape_ok(*program, *certificate),
            frontier_ok(n, *certificate, queue@),
            keeps_live(c0, *certificate),
            stats.affected_atoms == a0 && stats.dependency_walks == w0,
            shape_ok(*program, c0),
            tracking ==> inserts_from(p1, pp, *update) && cert_valid(p1, c0) && 0 <= bound && bound + n + 1 < usize::MAX,
            tracking ==> all_justified(pp, *certificate),
            tracking ==> ranks_within(*certificate, bound + queue@.len()),
            tracking ==> fresh_queued(c0, *certificate, queue@),
            tracking ==> seeds_now_live(p1, update.add_seeds@, update.add_seeds@.len() as int, *certificate),
            tracking ==> closed_unless_queued(pp, *certificate, queue@, 0,
                |r: int| !(p1.spec_rules()[r].spec_enabled() || es.subrange(0, i as int).contains(rule_at(r)))),
        decreases update.enable_rules.len() - i,
    {
        let rule_id = update.enable_rules[i];
        assert(update.enable_rules@[i as int].id() < program.spec_rules().len());
        let rule = &program.rules[rule_id.0];
        assert(program.spec_rules()[rule_id.id() as int].spec_head().id() < n);
        let ghost r0 = rule_id.id() as int;
        let ghost skip_before = |r: int| !(p1.spec_rules()[r].spec_enabled() || es.subrange(0, i as int).contains(rule_at(r)));
        let ghost skip_after = |r: int| !(p1.spec_rules()[r].spec_enabled() || es.subrange(0, i + 1).contains(rule_at(r)));
        proof {
            lemma_rule_at(r0);
            assert(es.subrange(0, i + 1) =~= es.subrange(0, i as int).push(es[i as int]));
            assert forall|r: int| 0 <= r < pp.spec_rules().len() && #[trigger] skip_before(r) && !skip_after(r) implies r == r0 by {
                lemma_push_contains(es.subrange(0, i as int), es[i as int], rule_at(r));
                lemma_rule_at(r);
            }
        }
        if rule.enabled && !certificate.is_live(rule.head) {
            let all_live = body_all_live(certificate, rule, Ghost(*program));
            if all_live {
                stats.rule_fires = stats.rule_fires.saturating_add(1);
                let ghost before = *certificate;
                let ghost q0 = queue@;
                derive_from_rule(certificate, program, rule_id, &mut queue);
                proof {
                    lemma_derive_keeps_frontier(*program, before, *certificate, q0, queue@, rule.spec_head());
                    lemma_keeps_live_step(c0, before, *certificate, rule.spec_head().id() as int);
                    if tracking {
                        lemma_insertion_derive(pp, p1, *update, c0, before, *certificate, q0, queue@, rule_id, bound, 0, skip_before, skip_after);
                    }
                }
            } else {
                proof {
                    if tracking {
                        lemma_closure_examined(pp, *certificate, queue@, 0, skip_before, skip_after, r0);
                    }
                }
            }
        } else {
            proof {
                if tracking {
                    lemma_closure_examined(pp, *certificate, queue@, 0, skip_before, skip_after, r0);
                }
            }
        }
        i = i + 1;
    }
    proof {
        if tracking {
            let skip_all = |r: int| !(p1.spec_rules()[r].spec_enabled() || es.subrange(0, i as int).contains(rule_at(r)));
            assert(es.subrange(0, i as int) =~= es);
            assert forall|r: int| 0 <= r < pp.spec_rules().len() && #[trigger] pp.spec_rules()[r].spec_enabled() implies !skip_all(r) by {
                assert(pp.spec_rules()[r].spec_enabled() == (p1.spec_rules()[r].spec_enabled() || es.contains(rule_at(r))));
            }
            lemma_closure_enabled_only(pp, *certificate, queue@, 0, skip_all);
        }
    }
    let mut cursor: usize = 0;
    while cursor < queue.len()
        invariant
            cursor <= queue@.len(),
            program.wf(),
            pp == *program,
            index.matches(*program),
            n == program.spec_atom_count(),
            shape_ok(*program, *certificate),
            frontier_ok(n, *certificate, queue@),
            keeps_live(c0, *certificate),
            stats.affected_atoms == a0 && stats.dependency_walks == w0,
            shape_ok(*program, c0),
            tracking ==> inserts_from(p1, pp, *update) && cert_valid(p1, c0) && 0 <= bound && bound + n + 1 < usize::MAX,
            tracking ==> all_justified(pp, *certificate),
            tracking ==> ranks_within(*certificate, bound + queue@.len()),
            tracking ==> seeds_now_live(p1, update.add_seeds@, update.add_seeds@.len() as int, *certificate),
            tracking ==> closed_unless_queued(pp, *certificate, queue@, cursor as int, |r: int| false),
        decreases n - cursor,
    {
        proof {
            lemma_distinct_atoms_bounded(queue@, n);
        }
        let atom = queue[cursor];
        proof {
            if tracking {
                lemma_pop_closure(pp, *certificate, queue@, cursor as int);
            }
        }
        cursor = cursor + 1;
        assert(atom.id() < n);
        let deps = &index.dependents[atom.0];
        proof {
            assert(index.spec_dependents()[atom.id() as int] == deps@);
            if tracking {
                let skip_m = |r: int| body_mentions(pp.spec_rules()[r], atom.id() as int);
                let skip0 = |r: int| deps@.subrange(0, deps@.len() as int).contains(rule_at(r));
                assert(deps@.subrange(0, deps@.len() as int) =~= deps@);
                assert forall|r: int| 0 <= r < pp.spec_rules().len() && #[trigger] skip_m(r) && !skip0(r) implies r == -1 by {
                    assert(deps@.contains(rule_at(r)));
                }
                lemma_closure_examined(pp, *certificate, queue@, cursor as int, skip_m, skip0, -1);
            }
        }
        let mut j: usize = 0;
        while j < deps.len()
            invariant
                j <= deps@.len(),
                cursor <= queue@.len(),
                program.wf(),
                pp == *program,
                index.matches(*program),
                deps@ == index.spec_dependents()[atom.id() as int],
                atom.id() < n,
                n == program.spec_atom_count(),
                shape_ok(*program, *certificate),
                frontier_ok(n, *certificate, queue@),
                keeps_live(c0, *certificate),
                stats.affected_atoms == a0 && stats.dependency_walks == w0,
                shape_ok(*program, c0),
                tracking ==> inserts_from(p1, pp, *update) && cert_valid(p1, c0) && 0 <= bound && bound + n + 1 < usize::MAX,
                tracking ==> all_justified(pp, *certificate),
                tracking ==> ranks_within(*certificate, bound + queue@.len()),
                tracking ==> seeds_now_live(p1, update.add_seeds@, update.add_seeds@.len() as int, *certificate),
                tracking ==> closed_unless_queued(pp, *certificate, queue@, cursor as int,
                    |r: int| deps@.subrange(j as int, deps@.len() as int).contains(rule_at(r))),
            decreases deps@.len() - j,
        {
            let rule_id = deps[j];
            assert(rule_id.id() < program.spec_rules().len());
            let rule = &program.rules[rule_id.0];
            assert(program.spec_rules()[rule_id.id() as int].spec_head().id() < n);
            let ghost r0 = rule_id.id() as int;
            let ghost skip_before = |r: int| deps@.subrange(j as int, deps@.len() as int).contains(rule_at(r));
            let ghost skip_after = |r: int| deps@.subrange(j + 1, deps@.len() as int).contains(rule_at(r));
            proof {
                lemma_skip_next(deps@, j as int);
            }
            if rule.enabled && !certificate.is_live(rule.head) {
                stats.incidence_updates = stats.incidence_updates.saturating_add(1);
                let all_live = body_all_live(certificate, rule, Ghost(*program));
                if all_live {
                    stats.rule_fires = stats.rule_fires.saturating_add(1);
                    let ghost before = *certificate;
                    let ghost q0 = queue@;
                    derive_from_rule(certificate, program, rule_id, &mut queue);
                    proof {
                        lemma_derive_keeps_frontier(*program, before, *certificate, q0, queue@, rule.spec_head());
                        lemma_keeps_live_step(c0, before, *certificate, rule.spec_head().id() as int);
                        if tracking {
                            lemma_insertion_derive(pp, p1, *update, c0, before, *certificate, q0, queue@, rule_id, bound, cursor as int, skip_before, skip_after);
                        }
                    }
                } else {
                    proof {
                        if tracking {
                            lemma_closure_examined(pp, *certificate, queue@, cursor as int, skip_before, skip_after, r0);
                        }
                    }
                }
            } else {
                proof {
                    if tracking {
                        lemma_closure_examined(pp, *certificate, queue@, cursor as int, skip_before, skip_after, r0);
                    }
                }
            }
            j = j + 1;
        }
        proof {
            if tracking {
                let skip_end = |r: int| deps@.subrange(j as int, deps@.len() as int).contains(rule_at(r));
                assert forall|r: int| 0 <= r < pp.spec_rules().len() && #[trigger] skip_end(r) && !(|r: int| false)(r) implies r == -1 by {
                    assert(deps@.subrange(j as int, deps@.len() as int).len() == 0);
                }
                lemma_closure_examined(pp, *certificate, queue@, cursor as int, skip_end, |r: int| false, -1);
            }
        }
    }
    proof {
        if tracking {
            lemma_insertions_valid(pp, p1, *update, *certificate, queue@);
        }
    }
}

/// Every rule witness in `c` names a rule of `p`.
pub open spec fn witnesses_in_range(p: GroundedProgram, c: GroundedCertificate) -> bool {
    forall|a: int| 0 <= a < c.spec_witness().len() ==> (#[trigger] c.spec_witness()[a] matches Some(GroundedWitness::Rule(rid)) ==> rid.id() < p.spec_rules().len())
}

fn empty_lists<T>(n: usize) -> (v: Vec<Vec<T>>)
    ensures
        v@.len() == n,
        forall|i: int| 0 <= i < n ==> (#[trigger] v@[i])@.len() == 0,
{
    let mut v: Vec<Vec<T>> = Vec::new();
    let mut i: usize = 0;
    while i < n
        invariant
            i <= n,
            v@.len() == i,
            forall|k: int| 0 <= k < i ==> (#[trigger] v@[k])@.len() == 0,
        decreases n - i,
    {
        v.push(Vec::new());
        i = i + 1;
    }
    v
}

/// The selected witness of `b` in `c` is a rule of `p` with premise `a`.
pub open spec fn witness_premise(p: GroundedProgram, c: GroundedCertificate, a: int, b: int) -> bool {
    c.spec_witness()[b] matches Some(GroundedWitness::Rule(r)) && r.id() < p.spec_rules().len() && body_mentions(p.spec_rules()[r.id() as int], a)
}

/// `b` is live in `old` and its selected witness is a rule with premise `a`.
pub open spec fn witness_child(p: GroundedProgram, old: GroundedCertificate, a: int, b: int) -> bool {
    old.live_at(b) && witness_premise(p, old, a, b)
}

/// The relation from an atom to the live atoms whose selected witness uses it.
pub open spec fn witness_edges(p: GroundedProgram, old: GroundedCertificate) -> spec_fn(int, int) -> bool {
    |a: int, b: int| witness_child(p, old, a, b)
}

/// `a` is live in `old` and named by `direct`.
pub open spec fn live_direct(old: GroundedCertificate, direct: Seq<GroundedAtomId>, a: int) -> bool {
    old.live_at(a) && exists|k: int| 0 <= k < direct.len() && #[trigger] direct[k].id() == a
}

/// A chain of selected witnesses leads to `b` from a live atom named by `direct`.
pub open spec fn in_witness_cone(p: GroundedProgram, old: GroundedCertificate, direct: Seq<GroundedAtomId>, b: int) -> bool {
    exists|path: Seq<int>| #[trigger] is_path(witness_edges(p, old), path) && live_direct(old, direct, path[0]) && path.last() == b
}

/// `a` has a rank in `c` and a witness that holds there: a seed of `p`, or an
/// enabled rule of `p` with head `a` whose premises are all live in `c`.
pub open spec fn rejustified(p: GroundedProgram, c: GroundedCertificate, a: int) -> bool {
    &&& c.spec_rank()[a] is Some
    &&& match c.spec_witness()[a] {
        Some(GroundedWitness::Seed) => p.is_seed(a),
        Some(GroundedWitness::Rule(r)) => r.id() < p.spec_rules().len() && p.spec_rules()[r.id() as int].spec_enabled()
            && p.spec_rules()[r.id() as int].spec_head().id() == a
            && body_live(p.spec_rules()[r.id() as int], c.spec_live()),
        None => false,
    }
}

proof fn lemma_cone_start(p: GroundedProgram, old: GroundedCertificate, direct: Seq<GroundedAtomId>, d: int)
    requires
        live_direct(old, direct, d),
    ensures
        in_witness_cone(p, old, direct, d),
{
    let path = seq![d];
    assert(is_path(witness_edges(p, old), path));
}

proof fn lemma_cone_step(p: GroundedProgram, old: GroundedCertificate, direct: Seq<GroundedAtomId>, b: int, c: int)
    requires
        in_witness_cone(p, old, direct, b),
        witness_child(p, old, b, c),
    ensures
        in_witness_cone(p, old, direct, c),
{
    let e = witness_edges(p, old);
    let path = choose|path: Seq<int>| #[trigger] is_path(e, path) && live_direct(old, direct, path[0]) && path.last() == b;
    let longer = path.push(c);
    assert(is_path(e, longer)) by {
        assert forall|i: int| 0 <= i < longer.len() - 1 implies #[trigger] path_step(e, longer, i) by {
            if i < path.len() - 1 {
                assert(path_step(e, path, i));
                assert(longer[i] == path[i] && longer[i + 1] == path[i + 1]);
            } else {
                assert(longer[i] == b && longer[i + 1] == c);
            }
        }
    }
    assert(longer[0] == path[0]);
}

/// A set holding the live atoms of `direct` and closed under selected-witness
/// children holds the whole witness cone.
proof fn lemma_cone_within(p: GroundedProgram, old: GroundedCertificate, direct: Seq<GroundedAtomId>, marked: spec_fn(int) -> bool, b: int)
    requires
        in_witness_cone(p, old, direct, b),
        forall|d: int| #[trigger] live_direct(old, direct, d) ==> marked(d),
        forall|x: int, c: int| marked(x) && #[trigger] witness_child(p, old, x, c) ==> marked(c),
    ensures
        marked(b),
{
    let e = witness_edges(p, old);
    let path = choose|path: Seq<int>| #[trigger] is_path(e, path) && live_direct(old, direct, path[0]) && path.last() == b;
    lemma_path_marked(p, old, direct, marked, path, path.len() - 1);
}

proof fn lemma_path_marked(p: GroundedProgram, old: GroundedCertificate, direct: Seq<GroundedAtomId>, marked: spec_fn(int) -> bool, path: Seq<int>, i: int)
    requires
        is_path(witness_edges(p, old), path),
        live_direct(old, direct, path[0]),
        0 <= i < path.len(),
        forall|d: int| #[trigger] live_direct(old, direct, d) ==> marked(d),
        forall|x: int, c: int| marked(x) && #[trigger] witness_child(p, old, x, c) ==> marked(c),
    ensures
        marked(path[i]),
    decreases i,
{
    if i > 0 {
        lemma_path_marked(p, old, direct, marked, path, i - 1);
        assert(path_step(witness_edges(p, old), path, i - 1));
        assert(witness_child(p, old, path[i - 1], path[i]));
    }
}

/// `lists[a]` names `b`.
spec fn listed(lists: Seq<Vec<GroundedAtomId>>, a: int, b: int) -> bool {
    exists|j: int| 0 <= j < lists[a]@.len() && #[trigger] lists[a]@[j].id() == b
}

proof fn lemma_listed_push(before: Seq<Vec<GroundedAtomId>>, after: Seq<Vec<GroundedAtomId>>, x: int, item: GroundedAtomId)
    requires
        0 <= x < before.len(),
        after.len() == before.len(),
        after[x]@ == before[x]@.push(item),
        forall|y: int| 0 <= y < before.len() && y != x ==> after[y] == before[y],
    ensures
        forall|a: int, b: int| 0 <= a < before.len() && #[trigger] listed(before, a, b) ==> listed(after, a, b),
        listed(after, x, item.id() as int),
        forall|a: int, b: int| 0 <= a < before.len() && #[trigger] listed(after, a, b) ==> listed(before, a, b) || (a == x && b == item.id()),
{
    assert forall|a: int, b: int| 0 <= a < before.len() && #[trigger] listed(before, a, b) implies listed(after, a, b) by {
        let j = choose|j: int| 0 <= j < before[a]@.len() && #[trigger] before[a]@[j].id() == b;
        if a == x {
            assert(after[a]@[j] == before[a]@[j]);
        } else {
            assert(after[a] == before[a]);
        }
    }
    assert(after[x]@[before[x]@.len() as int] == item);
    assert forall|a: int, b: int| 0 <= a < before.len() && #[trigger] listed(after, a, b) implies listed(before, a, b) || (a == x && b == item.id()) by {
        let j = choose|j: int| 0 <= j < after[a]@.len() && #[trigger] after[a]@[j].id() == b;
        if a == x {
            if j < before[x]@.len() {
                assert(after[a]@[j] == before[a]@[j]);
            }
        } else {
            assert(after[a] == before[a]);
        }
    }
}

/// Some entry of `q` is atom `x`.
spec fn queued(q: Seq<GroundedAtomId>, x: int) -> bool {
    exists|i: int| 0 <= i < q.len() && #[trigger] q[i].id() == x
}

proof fn lemma_queued_push(q: Seq<GroundedAtomId>, item: GroundedAtomId)
    ensures
        forall|x: int| #[trigger] queued(q.push(item), x) <==> queued(q, x) || x == item.id(),
{
    assert forall|x: int| #[trigger] queued(q.push(item), x) implies queued(q, x) || x == item.id() by {
        let i = choose|i: int| 0 <= i < q.push(item).len() && #[trigger] q.push(item)[i].id() == x;
        if i < q.len() {
            assert(q[i] == q.push(item)[i]);
        }
    }
    assert forall|x: int| queued(q, x) || x == item.id() implies #[trigger] queued(q.push(item), x) by {
        if queued(q, x) {
            let i = choose|i: int| 0 <= i < q.len() && #[trigger] q[i].id() == x;
            assert(q.push(item)[i] == q[i]);
        } else {
            assert(q.push(item)[q.len() as int] == item);
        }
    }
}

/// `c` holds at `a` the liveness, rank and witness that `before` holds there.
pub open spec fn kept_at(before: GroundedCertificate, c: GroundedCertificate, a: int) -> bool {
    &&& c.spec_live()[a] == before.spec_live()[a]
    &&& c.spec_rank()[a] == before.spec_rank()[a]
    &&& c.spec_witness()[a] == before.spec_witness()[a]
}

/// `a` is live in `c` again by a seed or an enabled rule with head `a`, or
/// it is dead in `c` with no rank and no witness.
pub open spec fn recomputed_at(p: GroundedProgram, c: GroundedCertificate, a: int) -> bool {
    if c.spec_live()[a] {
        rejustified(p, c, a)
    } else {
        c.spec_rank()[a] is None && c.spec_witness()[a] is None
    }
}

spec fn untouched_outside(before: GroundedCertificate, c: GroundedCertificate, marks: Seq<bool>) -> bool {
    forall|a: int| 0 <= a < marks.len() && !(#[trigger] marks[a]) ==> kept_at(before, c, a)
}

spec fn recomputed_inside(p: GroundedProgram, c: GroundedCertificate, marks: Seq<bool>) -> bool {
    forall|a: int| 0 <= a < marks.len() && #[trigger] marks[a] ==> recomputed_at(p, c, a)
}

proof fn lemma_derive_recomputed(
    p: GroundedProgram,
    before_all: GroundedCertificate,
    before: GroundedCertificate,
    after: GroundedCertificate,
    marks: Seq<bool>,
    rule_id: GroundedRuleId,
    h: int,
)
    requires
        p.wf(),
        shape_ok(p, before),
        marks.len() == p.spec_atom_count(),
        rule_id.id() < p.spec_rules().len(),
        h == p.spec_rules()[rule_id.id() as int].spec_head().id(),
        0 <= h < p.spec_atom_count(),
        p.spec_rules()[rule_id.id() as int].spec_enabled(),
        marks[h],
        body_live(p.spec_rules()[rule_id.id() as int], before.spec_live()),
        after.spec_live() == before.spec_live().update(h, true),
        after.spec_rank() =~= before.spec_rank().update(h, after.spec_rank()[h]),
        after.spec_rank()[h] is Some,
        after.spec_witness() == before.spec_witness().update(h, Some(GroundedWitness::Rule(rule_id))),
        untouched_outside(before_all, before, marks),
        recomputed_inside(p, before, marks),
    ensures
        untouched_outside(before_all, after, marks),
        recomputed_inside(p, after, marks),
{
    assert forall|a: int| 0 <= a < marks.len() && !(#[trigger] marks[a]) implies kept_at(before_all, after, a) by {
        assert(a != h);
        assert(kept_at(before_all, before, a));
    }
    assert forall|a: int| 0 <= a < marks.len() && #[trigger] marks[a] implies recomputed_at(p, after, a) by {
        if a != h {
            assert(recomputed_at(p, before, a));
            lemma_live_grows_body(p, before, after, a);
        } else {
            lemma_live_grows_body(p, before, after, a);
        }
    }
}

proof fn lemma_live_grows_body(p: GroundedProgram, before: GroundedCertificate, after: GroundedCertificate, a: int)
    requires
        after.spec_live().len() == before.spec_live().len(),
        forall|x: int| 0 <= x < before.spec_live().len() && #[trigger] before.spec_live()[x] ==> after.spec_live()[x],
        p.wf(),
        before.spec_live().len() == p.spec_atom_count(),
    ensures
        forall|r: int| 0 <= r < p.spec_rules().len() && #[trigger] body_live(p.spec_rules()[r], before.spec_live()) ==> body_live(p.spec_rules()[r], after.spec_live()),
{
    assert forall|r: int| 0 <= r < p.spec_rules().len() && #[trigger] body_live(p.spec_rules()[r], before.spec_live()) implies body_live(p.spec_rules()[r], after.spec_live()) by {
        let body = p.spec_rules()[r].spec_body();
        assert(p.spec_rules()[r].spec_head().id() < p.spec_atom_count());
        assert(atoms_below(body, p.spec_atom_count()));
        assert forall|k: int| 0 <= k < body.len() implies after.spec_live()[#[trigger] body[k].id() as int] by {
            assert(before.spec_live()[body[k].id() as int]);
        }
    }
}

proof fn lemma_seed_recomputed(
    p: GroundedProgram,
    before_all: GroundedCertificate,
    before: GroundedCertificate,
    after: GroundedCertificate,
    marks: Seq<bool>,
    a0: int,
)
    requires
        p.wf(),
        shape_ok(p, before),
        marks.len() == p.spec_atom_count(),
        0 <= a0 < p.spec_atom_count(),
        p.is_seed(a0),
        marks[a0],
        after.spec_live() == before.spec_live().update(a0, true),
        after.spec_rank() == before.spec_rank().update(a0, Some(0usize)),
        after.spec_witness() == before.spec_witness().update(a0, Some(GroundedWitness::Seed)),
        untouched_outside(before_all, before, marks),
        recomputed_inside(p, before, marks),
    ensures
        untouched_outside(before_all, after, marks),
        recomputed_inside(p, after, marks),
{
    assert forall|a: int| 0 <= a < marks.len() && !(#[trigger] marks[a]) implies kept_at(before_all, after, a) by {
        assert(kept_at(before_all, before, a));
    }
    assert forall|a: int| 0 <= a < marks.len() && #[trigger] marks[a] implies recomputed_at(p, after, a) by {
        lemma_live_grows_body(p, before, after, a);
        if a != a0 {
            assert(recomputed_at(p, before, a));
        }
    }
}

/// Number of atoms of `body` dead in `live0` and not yet in `done`.
spec fn count_unsettled(body: Seq<GroundedAtomId>, live0: Seq<bool>, done: Seq<GroundedAtomId>) -> nat
    decreases body.len(),
{
    if body.len() == 0 {
        0
    } else {
        count_unsettled(body.drop_last(), live0, done)
            + if !live0[body.last().id() as int] && !queued(done, body.last().id() as int) { 1nat } else { 0nat }
    }
}

proof fn lemma_count_unsettled_absent(body: Seq<GroundedAtomId>, live0: Seq<bool>, done: Seq<GroundedAtomId>, x: GroundedAtomId)
    requires
        forall|k: int| 0 <= k < body.len() ==> (#[trigger] body[k]).id() != x.id(),
    ensures
        count_unsettled(body, live0, done.push(x)) == count_unsettled(body, live0, done),
    decreases body.len(),
{
    lemma_queued_push(done, x);
    if body.len() > 0 {
        assert forall|k: int| 0 <= k < body.drop_last().len() implies (#[trigger] body.drop_last()[k]).id() != x.id() by {
            assert(body.drop_last()[k] == body[k]);
        }
        lemma_count_unsettled_absent(body.drop_last(), live0, done, x);
        assert(body.last() == body[body.len() - 1]);
        assert(queued(done.push(x), body.last().id() as int) == queued(done, body.last().id() as int));
    }
}

proof fn lemma_count_unsettled_present(body: Seq<GroundedAtomId>, live0: Seq<bool>, done: Seq<GroundedAtomId>, x: GroundedAtomId, k0: int)
    requires
        strictly_sorted(body),
        0 <= k0 < body.len(),
        body[k0].id() == x.id(),
        !live0[x.id() as int],
        !queued(done, x.id() as int),
    ensures
        count_unsettled(body, live0, done.push(x)) + 1 == count_unsettled(body, live0, done),
    decreases body.len(),
{
    lemma_queued_push(done, x);
    let rest = body.drop_last();
    assert(body.last() == body[body.len() - 1]);
    if k0 == body.len() - 1 {
        assert forall|k: int| 0 <= k < rest.len() implies (#[trigger] rest[k]).id() != x.id() by {
            assert(rest[k] == body[k]);
            assert(body[k].id() < body[k0].id());
        }
        lemma_count_unsettled_absent(rest, live0, done, x);
    } else {
        assert(rest[k0] == body[k0]);
        assert(strictly_sorted(rest)) by {
            assert forall|i: int, j: int| 0 <= i < j < rest.len() implies (#[trigger] rest[i]).id() < (#[trigger] rest[j]).id() by {
                assert(rest[i] == body[i] && rest[j] == body[j]);
            }
        }
        lemma_count_unsettled_present(rest, live0, done, x, k0);
        assert(body[k0].id() < body[body.len() - 1].id());
        assert(queued(done.push(x), body.last().id() as int) == queued(done, body.last().id() as int));
    }
}

proof fn lemma_count_unsettled_zero(body: Seq<GroundedAtomId>, live0: Seq<bool>, done: Seq<GroundedAtomId>)
    ensures
        count_unsettled(body, live0, done) == 0 <==>
            (forall|k: int| 0 <= k < body.len() ==> live0[(#[trigger] body[k]).id() as int] || queued(done, body[k].id() as int)),
    decreases body.len(),
{
    if body.len() > 0 {
        let rest = body.drop_last();
        lemma_count_unsettled_zero(rest, live0, done);
        assert(body.last() == body[body.len() - 1]);
        if count_unsettled(body, live0, done) == 0 {
            assert forall|k: int| 0 <= k < body.len() implies live0[(#[trigger] body[k]).id() as int] || queued(done, body[k].id() as int) by {
                if k < body.len() - 1 {
                    assert(rest[k] == body[k]);
                }
            }
        }
        if forall|k: int| 0 <= k < body.len() ==> live0[(#[trigger] body[k]).id() as int] || queued(done, body[k].id() as int) {
            assert forall|k: int| 0 <= k < rest.len() implies live0[(#[trigger] rest[k]).id() as int] || queued(done, rest[k].id() as int) by {
                assert(rest[k] == body[k]);
            }
            assert(live0[body[body.len() - 1].id() as int] || queued(done, body[body.len() - 1].id() as int));
        }
    }
}

/// `lists[a]` names rule `r`.
spec fn registered(lists: Seq<Vec<GroundedRuleId>>, a: int, r: int) -> bool {
    exists|j: int| 0 <= j < lists[a]@.len() && #[trigger] lists[a]@[j].id() == r
}

/// One of the first `m` premises of `rule` is `a`.
spec fn mentions_before(rule: GroundedRule, m: int, a: int) -> bool {
    exists|k: int| 0 <= k < m && #[trigger] rule.spec_body()[k].id() == a
}

/// The bookkeeping of the re-derivation phase: liveness only grows from
/// `live0`, fresh atoms are queued, queued atoms are affected atoms that were
/// dead in `live0`, fired rules are counted with a live head, and the lists of
/// local dependents name rules below `rule_count`, each at most once.
spec fn rederive_core(
    p: GroundedProgram,
    c: GroundedCertificate,
    live0: Seq<bool>,
    marks: Seq<bool>,
    seen: Seq<bool>,
    fired: Seq<bool>,
    remaining: Seq<usize>,
    ld: Seq<Vec<GroundedRuleId>>,
    work: Seq<GroundedAtomId>,
) -> bool {
    let n = p.spec_atom_count();
    let rc = p.spec_rules().len();
    &&& marks.len() == n
    &&& live0.len() == n
    &&& seen.len() == rc
    &&& fired.len() == rc
    &&& remaining.len() == rc
    &&& ld.len() == n
    &&& forall|a: int, j: int| 0 <= a < n && 0 <= j < ld[a]@.len() ==> (#[trigger] ld[a]@[j]).id() < rc
    &&& forall|a: int, i: int, j: int| 0 <= a < n && 0 <= i < j < ld[a]@.len() ==> (#[trigger] ld[a]@[i]) != (#[trigger] ld[a]@[j])
    &&& forall|a: int| 0 <= a < n && #[trigger] live0[a] ==> c.spec_live()[a]
    &&& forall|a: int| 0 <= a < n && #[trigger] c.spec_live()[a] && !live0[a] ==> queued(work, a)
    &&& forall|i: int| 0 <= i < work.len() ==> marks[(#[trigger] work[i]).id() as int] && !live0[work[i].id() as int]
    &&& forall|r: int| 0 <= r < rc && #[trigger] fired[r] ==> seen[r] && p.spec_rules()[r].spec_enabled()
        && c.spec_live()[p.spec_rules()[r].spec_head().id() as int]
    &&& forall|r: int| 0 <= r < rc && #[trigger] seen[r] ==> marks[p.spec_rules()[r].spec_head().id() as int]
}

/// `ld[a]` names exactly the counted rules (seen and enabled) with premise
/// `a`, when `a` is affected and was dead in `live0`; of rule `cur` only its
/// first `m` premises count so far.
spec fn registration_ok(p: GroundedProgram, ld: Seq<Vec<GroundedRuleId>>, seen: Seq<bool>, marks: Seq<bool>, live0: Seq<bool>, cur: int, m: int) -> bool {
    forall|a: int, r: int| 0 <= a < p.spec_atom_count() && 0 <= r < p.spec_rules().len() ==>
        (#[trigger] registered(ld, a, r) <==> (seen[r] && p.spec_rules()[r].spec_enabled() && marks[a] && !live0[a]
            && (if r == cur { mentions_before(p.spec_rules()[r], m, a) } else { body_mentions(p.spec_rules()[r], a) })))
}

/// A counted rule (other than `cur`) that has not fired waits for its
/// unsettled premises, plus one while it is still listed in `deps[j..]`.
spec fn waits_ok(p: GroundedProgram, seen: Seq<bool>, fired: Seq<bool>, remaining: Seq<usize>, live0: Seq<bool>, done: Seq<GroundedAtomId>, deps: Seq<GroundedRuleId>, j: int, cur: int) -> bool {
    forall|r: int| 0 <= r < p.spec_rules().len() && r != cur && #[trigger] seen[r] && p.spec_rules()[r].spec_enabled() && !fired[r] ==>
        remaining[r] == count_unsettled(p.spec_rules()[r].spec_body(), live0, done) + (if in_tail(deps, j, r) { 1int } else { 0int })
        && remaining[r] > 0
}

proof fn lemma_ld_push(
    p: GroundedProgram,
    c: GroundedCertificate,
    live0: Seq<bool>,
    marks: Seq<bool>,
    seen: Seq<bool>,
    fired: Seq<bool>,
    remaining: Seq<usize>,
    before: Seq<Vec<GroundedRuleId>>,
    after: Seq<Vec<GroundedRuleId>>,
    work: Seq<GroundedAtomId>,
    x: int,
    item: GroundedRuleId,
)
    requires
        rederive_core(p, c, live0, marks, seen, fired, remaining, before, work),
        0 <= x < before.len(),
        item.id() < p.spec_rules().len(),
        !registered(before, x, item.id() as int),
        after.len() == before.len(),
        after[x]@ == before[x]@.push(item),
        forall|y: int| 0 <= y < before.len() && y != x ==> after[y] == before[y],
    ensures
        rederive_core(p, c, live0, marks, seen, fired, remaining, after, work),
        forall|a: int, r: int| 0 <= a < before.len() ==>
            (#[trigger] registered(after, a, r) <==> (registered(before, a, r) || (a == x && r == item.id()))),
{
    let n = p.spec_atom_count();
    assert forall|a: int, j: int| 0 <= a < n && 0 <= j < after[a]@.len() implies (#[trigger] after[a]@[j]).id() < p.spec_rules().len() by {
        if a == x && j < before[x]@.len() {
            assert(after[a]@[j] == before[a]@[j]);
        } else if a != x {
            assert(after[a] == before[a]);
        }
    }
    assert forall|a: int, i: int, j: int| 0 <= a < n && 0 <= i < j < after[a]@.len() implies (#[trigger] after[a]@[i]) != (#[trigger] after[a]@[j]) by {
        if a == x {
            assert(after[a]@[i] == before[a]@[i]);
            if j < before[x]@.len() {
                assert(after[a]@[j] == before[a]@[j]);
            } else {
                assert(after[a]@[j] == item);
                if before[a]@[i] == item {
                    assert(before[x]@[i].id() == item.id());
                }
            }
        } else {
            assert(after[a] == before[a]);
        }
    }
    assert forall|a: int, r: int| 0 <= a < before.len() implies
        (#[trigger] registered(after, a, r) <==> (registered(before, a, r) || (a == x && r == item.id()))) by {
        if registered(after, a, r) {
            let j = choose|j: int| 0 <= j < after[a]@.len() && #[trigger] after[a]@[j].id() == r;
            if a == x {
                if j < before[x]@.len() {
                    assert(after[a]@[j] == before[a]@[j]);
                }
            } else {
                assert(after[a] == before[a]);
            }
        }
        if registered(before, a, r) {
            let j = choose|j: int| 0 <= j < before[a]@.len() && #[trigger] before[a]@[j].id() == r;
            if a == x {
                assert(after[a]@[j] == before[a]@[j]);
            } else {
                assert(after[a] == before[a]);
            }
        }
        if a == x && r == item.id() {
            assert(after[x]@[before[x]@.len() as int] == item);
        }
    }
}

proof fn lemma_registration_step(p: GroundedProgram, ld: Seq<Vec<GroundedRuleId>>, seen: Seq<bool>, marks: Seq<bool>, live0: Seq<bool>, rule: GroundedRule, r: int, m: int)
    requires
        registration_ok(p, ld, seen, marks, live0, r, m),
        0 <= r < p.spec_rules().len(),
        rule == p.spec_rules()[r],
        0 <= m < rule.spec_body().len(),
        live0[rule.spec_body()[m].id() as int] || !marks[rule.spec_body()[m].id() as int],
    ensures
        registration_ok(p, ld, seen, marks, live0, r, m + 1),
{
    assert forall|a: int, r2: int| 0 <= a < p.spec_atom_count() && 0 <= r2 < p.spec_rules().len() implies
        (#[trigger] registered(ld, a, r2) <==> (seen[r2] && p.spec_rules()[r2].spec_enabled() && marks[a] && !live0[a]
            && (if r2 == r { mentions_before(p.spec_rules()[r2], m + 1, a) } else { body_mentions(p.spec_rules()[r2], a) }))) by {
        if r2 == r {
            if mentions_before(rule, m + 1, a) && !mentions_before(rule, m, a) {
                let k = choose|k: int| 0 <= k < m + 1 && #[trigger] rule.spec_body()[k].id() == a;
                assert(k == m);
            }
            if mentions_before(rule, m, a) {
                let k = choose|k: int| 0 <= k < m && #[trigger] rule.spec_body()[k].id() == a;
                assert(mentions_before(rule, m + 1, a));
            }
        }
    }
}

proof fn lemma_rederive_core_derive(
    p: GroundedProgram,
    c: GroundedCertificate,
    c2: GroundedCertificate,
    live0: Seq<bool>,
    marks: Seq<bool>,
    seen: Seq<bool>,
    fired: Seq<bool>,
    remaining: Seq<usize>,
    ld: Seq<Vec<GroundedRuleId>>,
    q: Seq<GroundedAtomId>,
    q2: Seq<GroundedAtomId>,
    h: int,
)
    requires
        p.wf(),
        rederive_core(p, c, live0, marks, seen, fired, remaining, ld, q),
        shape_ok(p, c),
        0 <= h < p.spec_atom_count(),
        marks[h],
        !c.spec_live()[h],
        c2.spec_live() == c.spec_live().update(h, true),
        q2.len() == q.len() + 1,
        q2.subrange(0, q.len() as int) == q,
        q2[q.len() as int].id() == h,
    ensures
        rederive_core(p, c2, live0, marks, seen, fired, remaining, ld, q2),
{
    let n = p.spec_atom_count();
    assert(q2 == q.push(q2[q.len() as int])) by {
        assert forall|i: int| 0 <= i < q.len() implies q2[i] == q[i] by {
            assert(q2.subrange(0, q.len() as int)[i] == q2[i]);
        }
        assert(q2 =~= q.push(q2[q.len() as int]));
    }
    lemma_queued_push(q, q2[q.len() as int]);
    assert forall|a: int| 0 <= a < n && #[trigger] c2.spec_live()[a] && !live0[a] implies queued(q2, a) by {
        if a != h {
            assert(c.spec_live()[a]);
        }
    }
    assert forall|i: int| 0 <= i < q2.len() implies marks[(#[trigger] q2[i]).id() as int] && !live0[q2[i].id() as int] by {
        if i < q.len() {
            assert(q2[i] == q[i]);
        } else {
            assert(!live0[h]) by {
                if live0[h] {
                    assert(c.spec_live()[h]);
                }
            }
        }
    }
    assert forall|r: int| 0 <= r < p.spec_rules().len() && #[trigger] fired[r] implies seen[r] && p.spec_rules()[r].spec_enabled()
        && c2.spec_live()[p.spec_rules()[r].spec_head().id() as int] by {
        assert(p.spec_rules()[r].spec_head().id() < n);
        assert(c.spec_live()[p.spec_rules()[r].spec_head().id() as int]);
    }
    assert forall|a: int| 0 <= a < n && #[trigger] live0[a] implies c2.spec_live()[a] by {
        assert(c.spec_live()[a]);
    }
}

/// Outside the live atoms named in `direct`, `old` is a valid certificate for
/// `p`: every other atom is justified, every seed is live and the live set is
/// closed under the enabled rules.
pub open spec fn valid_except_named(p: GroundedProgram, old: GroundedCertificate, direct: Seq<GroundedAtomId>) -> bool {
    &&& shape_ok(p, old)
    &&& forall|a: int| 0 <= a < p.spec_atom_count() ==> #[trigger] atom_justified(p, old, a) || live_direct(old, direct, a)
    &&& forall|k: int| 0 <= k < p.spec_seeds().len() ==> old.spec_live()[#[trigger] p.spec_seeds()[k].id() as int]
    &&& forall|r: int| 0 <= r < p.spec_rules().len() && #[trigger] p.spec_rules()[r].spec_enabled()
        && body_live(p.spec_rules()[r], old.spec_live()) ==> old.spec_live()[p.spec_rules()[r].spec_head().id() as int]
}

/// An atom outside a set that holds the named live atoms and is closed under
/// selected-witness children keeps its justification.
proof fn lemma_kept_justified(p: GroundedProgram, old: GroundedCertificate, c: GroundedCertificate, marks: Seq<bool>, direct: Seq<GroundedAtomId>, a: int)
    requires
        p.wf(),
        valid_except_named(p, old, direct),
        shape_ok(p, c),
        marks.len() == p.spec_atom_count(),
        0 <= a < p.spec_atom_count(),
        !marks[a],
        untouched_outside(old, c, marks),
        forall|d: int| #[trigger] live_direct(old, direct, d) ==> marks[d],
        forall|x: int, b: int| 0 <= x < p.spec_atom_count() && marks[x] && #[trigger] witness_child(p, old, x, b) ==> marks[b],
    ensures
        atom_justified(p, c, a),
{
    assert(atom_justified(p, old, a));
    assert(kept_at(old, c, a));
    if old.spec_live()[a] {
        match (old.spec_rank()[a], old.spec_witness()[a]) {
            (Some(r), Some(GroundedWitness::Rule(rid))) => {
                let rule = p.spec_rules()[rid.id() as int];
                assert(rule.spec_head().id() < p.spec_atom_count());
                assert(atoms_below(rule.spec_body(), p.spec_atom_count()));
                assert forall|k: int| 0 <= k < rule.spec_body().len() implies {
                    let q = #[trigger] rule.spec_body()[k].id() as int;
                    &&& c.spec_live()[q]
                    &&& c.spec_rank()[q] matches Some(pr) && pr < r
                } by {
                    let q = rule.spec_body()[k].id() as int;
                    assert(body_mentions(rule, q));
                    assert(witness_child(p, old, q, a));
                    assert(!marks[q]);
                    assert(kept_at(old, c, q));
                }
            },
            _ => {},
        }
    }
}

/// One derivation keeps every atom justified and the ranks within `rmax`
/// plus the length of the work queue.
proof fn lemma_rederive_tracked(
    p: GroundedProgram,
    c: GroundedCertificate,
    c2: GroundedCertificate,
    q: Seq<GroundedAtomId>,
    q2: Seq<GroundedAtomId>,
    rid: GroundedRuleId,
    rmax: int,
)
    requires
        p.wf(),
        shape_ok(p, c),
        shape_ok(p, c2),
        0 <= rmax,
        rmax + p.spec_atom_count() + 1 < usize::MAX,
        frontier_ok(p.spec_atom_count(), c2, q2),
        all_justified(p, c),
        ranks_within(c, rmax + q.len()),
        rid.id() < p.spec_rules().len(),
        p.spec_rules()[rid.id() as int].spec_enabled(),
        body_live(p.spec_rules()[rid.id() as int], c.spec_live()),
        !c.spec_live()[p.spec_rules()[rid.id() as int].spec_head().id() as int],
        ({
            let rule = p.spec_rules()[rid.id() as int];
            let h = rule.spec_head().id() as int;
            &&& c2.spec_live() == c.spec_live().update(h, true)
            &&& c2.spec_rank() =~= c.spec_rank().update(h, c2.spec_rank()[h])
            &&& c2.spec_rank()[h] is Some
            &&& rank_above_premises(c.spec_rank(), rule.spec_body(), c2.spec_rank()[h]->0)
            &&& c2.spec_witness() == c.spec_witness().update(h, Some(GroundedWitness::Rule(rid)))
            &&& q2 == q.push(rule.spec_head())
        }),
    ensures
        all_justified(p, c2),
        ranks_within(c2, rmax + q2.len()),
{
    let rule = p.spec_rules()[rid.id() as int];
    let h = rule.spec_head().id() as int;
    let body = rule.spec_body();
    assert(h < p.spec_atom_count());
    assert(atoms_below(body, p.spec_atom_count()));
    lemma_distinct_atoms_bounded(q2, p.spec_atom_count());
    assert forall|k: int| 0 <= k < body.len() implies (c.spec_rank()[#[trigger] body[k].id() as int] matches Some(pr) && pr <= rmax + q.len()) by {
        assert(c.spec_live()[body[k].id() as int]);
    }
    lemma_derive_rank_bound(c.spec_rank(), c.spec_live(), body, c2.spec_rank()[h]->0, rmax + q.len());
    lemma_derive_keeps_justified(p, c, c2, rid);
    assert forall|a: int| 0 <= a < c2.spec_live().len() && #[trigger] c2.spec_live()[a]
        implies (c2.spec_rank()[a] matches Some(r) && r <= rmax + q2.len()) by {
        if a != h {
            assert(c.spec_live()[a]);
        }
    }
}

/// Number of atoms below `k` in the witness cone of `direct`.
pub open spec fn cone_count(p: GroundedProgram, old: GroundedCertificate, direct: Seq<GroundedAtomId>, k: int) -> nat
    decreases k,
{
    if k <= 0 {
        0
    } else {
        cone_count(p, old, direct, k - 1) + if in_witness_cone(p, old, direct, k - 1) { 1nat } else { 0nat }
    }
}

/// Every atom live in `after` was live in `before`.
pub open spec fn live_within(before: GroundedCertificate, after: GroundedCertificate) -> bool {
    forall|a: int| 0 <= a < after.spec_live().len() && #[trigger] after.spec_live()[a] ==> a < before.spec_live().len() && before.spec_live()[a]
}

/// Every marked atom is live in `c`.
spec fn marks_within(marks: Seq<bool>, c: GroundedCertificate) -> bool {
    forall|a: int| 0 <= a < marks.len() && #[trigger] marks[a] ==> a < c.spec_live().len() && c.spec_live()[a]
}

proof fn lemma_mark_within(marks: Seq<bool>, c: GroundedCertificate, a: int)
    requires
        marks_within(marks, c),
        0 <= a < marks.len(),
        a < c.spec_live().len(),
        c.spec_live()[a],
    ensures
        marks_within(marks.update(a, true), c),
{
    assert forall|x: int| 0 <= x < marks.update(a, true).len() && #[trigger] marks.update(a, true)[x] implies x < c.spec_live().len() && c.spec_live()[x] by {
        if x != a {
            assert(marks[x]);
        }
    }
}

proof fn lemma_live_within_set(before: GroundedCertificate, c: GroundedCertificate, a: int, v: bool)
    requires
        live_within(before, c),
        0 <= a < c.spec_live().len(),
        v ==> a < before.spec_live().len() && before.spec_live()[a],
    ensures
        forall|c2: GroundedCertificate| #[trigger] c2.spec_live() == c.spec_live().update(a, v) ==> live_within(before, c2),
{
    assert forall|c2: GroundedCertificate| #[trigger] c2.spec_live() == c.spec_live().update(a, v) implies live_within(before, c2) by {
        assert forall|x: int| 0 <= x < c2.spec_live().len() && #[trigger] c2.spec_live()[x] implies x < before.spec_live().len() && before.spec_live()[x] by {
            if x != a {
                assert(c.spec_live()[x]);
            }
        }
    }
}

/// Invalidates the witness cone of the atoms in `direct` (their live dependents
/// through selected witnesses), re-seeds affected seeds, and re-derives affected
/// atoms from the rules whose heads they are. A rule waits for the premises that
/// were dead when re-derivation began; each of them counts once, when it is
/// taken from the work queue.
pub fn local_recompute_after_deletion(
    program: &GroundedProgram,
    old: &GroundedCertificate,
    direct: &Vec<GroundedAtomId>,
) -> (result: (GroundedCertificate, GroundedWorkStats))
    requires
        program.wf(),
        shape_ok(*program, *old),
        witnesses_in_range(*program, *old),
    ensures
        shape_ok(*program, result.0),
        live_within(*old, result.0),
        forall|a: int| 0 <= a < program.spec_atom_count() && !in_witness_cone(*program, *old, direct@, a) ==> #[trigger] kept_at(*old, result.0, a),
        forall|a: int| 0 <= a < program.spec_atom_count() && #[trigger] in_witness_cone(*program, *old, direct@, a) ==> recomputed_at(*program, result.0, a),
        valid_except_named(*program, *old, direct@) && program.spec_atom_count() + 2 <= usize::MAX
            && ranks_within(*old, usize::MAX - program.spec_atom_count() - 2)
            ==> cert_valid(*program, result.0) && is_least_model(*program, result.0.spec_live()),
        valid_except_named(*program, *old, direct@) && 2 * program.spec_atom_count() + 2 <= usize::MAX
            && ranks_within(*old, usize::MAX - 2 * program.spec_atom_count() - 2)
            ==> ranks_within(result.0, usize::MAX - program.spec_atom_count() - 2),
        result.1.affected_atoms == cone_count(*program, *old, direct@, program.spec_atom_count() as int),
{
    let index = GroundedIncidenceIndex::compile(program);
    local_recompute_after_deletion_indexed(program, &index, old, direct)
}

#[verifier::spinoff_prover]
#[verifier::rlimit(60)]
pub fn local_recompute_after_deletion_indexed(
    program: &GroundedProgram,
    index: &GroundedIncidenceIndex,
    old: &GroundedCertificate,
    direct: &Vec<GroundedAtomId>,
) -> (result: (GroundedCertificate, GroundedWorkStats))
    requires
        program.wf(),
        index.matches(*program),
        shape_ok(*program, *old),
        witnesses_in_range(*program, *old),
    ensures
        shape_ok(*program, result.0),
        live_within(*old, result.0),
        forall|a: int| 0 <= a < program.spec_atom_count() && !in_witness_cone(*program, *old, direct@, a) ==> #[trigger] kept_at(*old, result.0, a),
        forall|a: int| 0 <= a < program.spec_atom_count() && #[trigger] in_witness_cone(*program, *old, direct@, a) ==> recomputed_at(*program, result.0, a),
        valid_except_named(*program, *old, direct@) && program.spec_atom_count() + 2 <= usize::MAX
            && ranks_within(*old, usize::MAX - program.spec_atom_count() - 2)
            ==> cert_valid(*program, result.0) && is_least_model(*program, result.0.spec_live()),
        valid_except_named(*program, *old, direct@) && 2 * program.spec_atom_count() + 2 <= usize::MAX
            && ranks_within(*old, usize::MAX - 2 * program.spec_atom_count() - 2)
            ==> ranks_within(result.0, usize::MAX - program.spec_atom_count() - 2),
        result.1.affected_atoms == cone_count(*program, *old, direct@, program.spec_atom_count() as int),
{
    let ghost p = *program;
    let ghost named = direct@;
    let n = program.atom_count;
    let rule_count = program.rules.len();
    let direct = sorted_unique_atoms(direct);
    let mut witness_children: Vec<Vec<GroundedAtomId>> = empty_lists(n);
    let mut atom_index: usize = 0;
    while atom_index < n
        invariant
            atom_index <= n,
            p == *program,
            program.wf(),
            n == p.spec_atom_count(),
            shape_ok(p, *old),
            witnesses_in_range(p, *old),
            witness_children@.len() == n,
            forall|a: int, j: int| 0 <= a < n && 0 <= j < witness_children@[a]@.len() ==> (#[trigger] witness_children@[a]@[j]).id() < n,
            forall|a: int, b: int| 0 <= a < n && #[trigger] listed(witness_children@, a, b) ==> 0 <= b < atom_index && witness_premise(p, *old, a, b),
            forall|a: int, b: int| 0 <= a < n && 0 <= b < atom_index && #[trigger] witness_premise(p, *old, a, b) ==> listed(witness_children@, a, b),
        decreases n - atom_index,
    {
        if let Some(GroundedWitness::Rule(rule_id)) = old.witness[atom_index] {
            assert(rule_id.id() < p.spec_rules().len());
            let rule = &program.rules[rule_id.0];
            assert(atoms_below(rule.spec_body(), n as nat)) by {
                assert(p.spec_rules()[rule_id.id() as int].spec_head().id() < n);
            }
            let mut k: usize = 0;
            while k < rule.body.len()
                invariant
                    k <= rule.body.len(),
                    atom_index < n,
                    atoms_below(rule.spec_body(), n as nat),
                    witness_children@.len() == n,
                    forall|a: int, j: int| 0 <= a < n && 0 <= j < witness_children@[a]@.len() ==> (#[trigger] witness_children@[a]@[j]).id() < n,
                    old.spec_witness()[atom_index as int] == Some(GroundedWitness::Rule(rule_id)),
                    rule_id.id() < p.spec_rules().len(),
                    *rule == p.spec_rules()[rule_id.id() as int],
                    n == p.spec_atom_count(),
                    forall|a: int, b: int| 0 <= a < n && #[trigger] listed(witness_children@, a, b) ==> 0 <= b <= atom_index && witness_premise(p, *old, a, b),
                    forall|a: int, b: int| 0 <= a < n && 0 <= b < atom_index && #[trigger] witness_premise(p, *old, a, b) ==> listed(witness_children@, a, b),
                    forall|q: int| 0 <= q < k ==> #[trigger] listed(witness_children@, rule.spec_body()[q].id() as int, atom_index as int),
                decreases rule.body.len() - k,
            {
                let premise = rule.body[k].0;
                assert(rule.spec_body()[k as int].id() < n);
                let ghost before = witness_children@;
                witness_children[premise].push(GroundedAtomId(atom_index));
                proof {
                    lemma_listed_push(before, witness_children@, premise as int, GroundedAtomId(atom_index));
                    assert(body_mentions(p.spec_rules()[rule_id.id() as int], premise as int)) by {
                        assert(rule.spec_body()[k as int].id() == premise);
                    }
                    assert forall|q: int| 0 <= q < k + 1 implies #[trigger] listed(witness_children@, rule.spec_body()[q].id() as int, atom_index as int) by {
                        if q < k {
                            assert(listed(before, rule.spec_body()[q].id() as int, atom_index as int));
                        }
                    }
                    assert forall|a: int, j: int| 0 <= a < n && 0 <= j < witness_children@[a]@.len() implies (#[trigger] witness_children@[a]@[j]).id() < n by {
                        if a == premise {
                            assert(witness_children@[a]@ == before[a]@.push(GroundedAtomId(atom_index)));
                            if j < before[a]@.len() {
                                assert(witness_children@[a]@[j] == before[a]@[j]);
                            }
                        } else {
                            assert(witness_children@[a] == before[a]);
                        }
                    }
                }
                k = k + 1;
            }
            proof {
                assert forall|a: int| 0 <= a < n && #[trigger] witness_premise(p, *old, a, atom_index as int) implies listed(witness_children@, a, atom_index as int) by {
                    let q = choose|q: int| 0 <= q < rule.spec_body().len() && #[trigger] rule.spec_body()[q].id() == a;
                    assert(listed(witness_children@, rule.spec_body()[q].id() as int, atom_index as int));
                }
            }
        }
        atom_index = atom_index + 1;
    }

    let mut affected = filled(false, n);
    let mut queue: Vec<GroundedAtomId> = Vec::new();
    let mut stats = GroundedWorkStats::default();
    let mut i: usize = 0;
    while i < direct.len()
        invariant
            i <= direct.len(),
            n == p.spec_atom_count(),
            shape_ok(p, *old),
            affected@.len() == n,
            marks_within(affected@, *old),
            forall|x: int, y: int| 0 <= x < y < queue@.len() ==> queue@[x] != queue@[y],
            forall|x: int| 0 <= x < queue@.len() ==> (#[trigger] queue@[x]).id() < n && affected@[queue@[x].id() as int],
            same_atoms(direct@, named),
            forall|x: int| 0 <= x < n && #[trigger] affected@[x] ==> in_witness_cone(p, *old, named, x) && queued(queue@, x),
            forall|k: int| 0 <= k < i && old.live_at(#[trigger] direct@[k].id() as int) ==> affected@[direct@[k].id() as int],
        decreases direct.len() - i,
    {
        let atom = direct[i];
        if old.is_live(atom) && !affected[atom.0] {
            let ghost q0 = queue@;
            proof {
                lemma_mark_within(affected@, *old, atom.id() as int);
                assert(direct@.contains(atom));
                let k = choose|k: int| 0 <= k < named.len() && named[k] == atom;
                assert(named[k].id() == atom.id());
                lemma_cone_start(p, *old, named, atom.id() as int);
                lemma_queued_push(q0, atom);
            }
            affected.set(atom.0, true);
            queue.push(atom);
            proof {
                assert forall|x: int, y: int| 0 <= x < y < queue@.len() implies queue@[x] != queue@[y] by {
                    if y == q0.len() {
                        assert(affected@[q0[x].id() as int]);
                    }
                }
                assert forall|x: int| 0 <= x < queue@.len() implies (#[trigger] queue@[x]).id() < n && affected@[queue@[x].id() as int] by {
                    if x < q0.len() {
                        assert(queue@[x] == q0[x]);
                    }
                }
            }
        }
        i = i + 1;
    }
    proof {
        assert forall|d: int| #[trigger] live_direct(*old, named, d) implies affected@[d] by {
            let k = choose|k: int| 0 <= k < named.len() && #[trigger] named[k].id() == d;
            assert(named.contains(named[k]));
            let k2 = choose|k2: int| 0 <= k2 < direct@.len() && direct@[k2] == named[k];
            assert(old.live_at(direct@[k2].id() as int));
        }
    }
    let mut cursor: usize = 0;
    while cursor < queue.len()
        invariant
            cursor <= queue@.len(),
            n == p.spec_atom_count(),
            shape_ok(p, *old),
            affected@.len() == n,
            marks_within(affected@, *old),
            witness_children@.len() == n,
            forall|a: int, j: int| 0 <= a < n && 0 <= j < witness_children@[a]@.len() ==> (#[trigger] witness_children@[a]@[j]).id() < n,
            forall|x: int, y: int| 0 <= x < y < queue@.len() ==> queue@[x] != queue@[y],
            forall|x: int| 0 <= x < queue@.len() ==> (#[trigger] queue@[x]).id() < n && affected@[queue@[x].id() as int],
            forall|a: int, b: int| 0 <= a < n && #[trigger] listed(witness_children@, a, b) ==> 0 <= b < n && witness_premise(p, *old, a, b),
            forall|a: int, b: int| 0 <= a < n && 0 <= b < n && #[trigger] witness_premise(p, *old, a, b) ==> listed(witness_children@, a, b),
            forall|x: int| 0 <= x < n && #[trigger] affected@[x] ==> in_witness_cone(p, *old, named, x) && queued(queue@, x),
            forall|d: int| #[trigger] live_direct(*old, named, d) ==> affected@[d],
            forall|i: int, c: int| 0 <= i < cursor && #[trigger] witness_child(p, *old, queue@[i].id() as int, c) ==> affected@[c],
        decreases n - cursor,
    {
        proof {
            lemma_distinct_atoms_bounded(queue@, n as nat);
        }
        let atom = queue[cursor];
        cursor = cursor + 1;
        let children = &witness_children[atom.0];
        let mut j: usize = 0;
        while j < children.len()
            invariant
                j <= children@.len(),
                1 <= cursor <= queue@.len(),
                atom.id() < n,
                atom == queue@[cursor - 1],
                children@ == witness_children@[atom.id() as int]@,
                n == p.spec_atom_count(),
                shape_ok(p, *old),
                affected@.len() == n,
                marks_within(affected@, *old),
                witness_children@.len() == n,
                forall|a: int, j: int| 0 <= a < n && 0 <= j < witness_children@[a]@.len() ==> (#[trigger] witness_children@[a]@[j]).id() < n,
                forall|x: int, y: int| 0 <= x < y < queue@.len() ==> queue@[x] != queue@[y],
                forall|x: int| 0 <= x < queue@.len() ==> (#[trigger] queue@[x]).id() < n && affected@[queue@[x].id() as int],
                forall|a: int, b: int| 0 <= a < n && #[trigger] listed(witness_children@, a, b) ==> 0 <= b < n && witness_premise(p, *old, a, b),
                forall|a: int, b: int| 0 <= a < n && 0 <= b < n && #[trigger] witness_premise(p, *old, a, b) ==> listed(witness_children@, a, b),
                forall|x: int| 0 <= x < n && #[trigger] affected@[x] ==> in_witness_cone(p, *old, named, x) && queued(queue@, x),
                forall|d: int| #[trigger] live_direct(*old, named, d) ==> affected@[d],
                forall|i: int, c: int| 0 <= i < cursor - 1 && #[trigger] witness_child(p, *old, queue@[i].id() as int, c) ==> affected@[c],
                forall|q: int| 0 <= q < j && old.live_at(#[trigger] children@[q].id() as int) ==> affected@[children@[q].id() as int],
            decreases children@.len() - j,
        {
            let child = children[j];
            assert(witness_children@[atom.id() as int]@[j as int].id() < n);
            stats.dependency_walks = stats.dependency_walks.saturating_add(1);
            if old.is_live(child) && !affected[child.0] {
                let ghost q0 = queue@;
                proof {
                    lemma_mark_within(affected@, *old, child.id() as int);
                    assert(listed(witness_children@, atom.id() as int, child.id() as int));
                    assert(queue@[cursor - 1].id() < n && affected@[queue@[cursor - 1].id() as int]);
                    assert(affected@[atom.id() as int]);
                    assert(in_witness_cone(p, *old, named, atom.id() as int));
                    lemma_cone_step(p, *old, named, atom.id() as int, child.id() as int);
                    lemma_queued_push(q0, child);
                }
                affected.set(child.0, true);
                queue.push(child);
                proof {
                    assert(queue@[cursor - 1] == q0[cursor - 1]);
                    assert forall|x: int, y: int| 0 <= x < y < queue@.len() implies queue@[x] != queue@[y] by {
                        if y == q0.len() {
                            assert(affected@[q0[x].id() as int]);
                        }
                    }
                    assert forall|x: int| 0 <= x < queue@.len() implies (#[trigger] queue@[x]).id() < n && affected@[queue@[x].id() as int] by {
                        if x < q0.len() {
                            assert(queue@[x] == q0[x]);
                        }
                    }
                }
            }
            j = j + 1;
        }
        proof {
            assert forall|i: int, c: int| 0 <= i < cursor && #[trigger] witness_child(p, *old, queue@[i].id() as int, c) implies affected@[c] by {
                if i == cursor - 1 {
                    assert(listed(witness_children@, atom.id() as int, c));
                    let q = choose|q: int| 0 <= q < witness_children@[atom.id() as int]@.len() && #[trigger] witness_children@[atom.id() as int]@[q].id() == c;
                    assert(children@[q].id() == c);
                }
            }
        }
    }
    proof {
        let marked = |x: int| 0 <= x < n && affected@[x];
        assert forall|x: int, c: int| marked(x) && #[trigger] witness_child(p, *old, x, c) implies marked(c) by {
            let i = choose|i: int| 0 <= i < queue@.len() && #[trigger] queue@[i].id() == x;
            assert(witness_child(p, *old, queue@[i].id() as int, c));
        }
        assert forall|b: int| 0 <= b < n implies (#[trigger] affected@[b] <==> in_witness_cone(p, *old, named, b)) by {
            if in_witness_cone(p, *old, named, b) {
                lemma_cone_within(p, *old, named, marked, b);
            }
        }
        assert forall|x: int, b: int| 0 <= x < n && affected@[x] && #[trigger] witness_child(p, *old, x, b) implies affected@[b] by {
            assert(marked(x));
        }
    }
    let ghost rmax: int = if 2 * n + 2 <= usize::MAX && ranks_within(*old, usize::MAX - 2 * n - 2) {
        usize::MAX - 2 * n - 2
    } else {
        usize::MAX - n - 2
    };
    let ghost tracking = valid_except_named(p, *old, named) && n + 2 <= usize::MAX && ranks_within(*old, rmax);

    let mut certificate = old.clone();
    let mut k: usize = 0;
    while k < n
        invariant
            k <= n,
            n == p.spec_atom_count(),
            shape_ok(p, certificate),
            shape_ok(p, *old),
            affected@.len() == n,
            marks_within(affected@, *old),
            live_within(*old, certificate),
            forall|a: int| 0 <= a < n && (a >= k || !affected@[a]) ==> #[trigger] kept_at(*old, certificate, a),
            forall|a: int| 0 <= a < k && #[trigger] affected@[a] ==> recomputed_at(p, certificate, a) && !certificate.spec_live()[a],
        decreases n - k,
    {
        if affected[k] {
            proof {
                lemma_live_within_set(*old, certificate, k as int, false);
            }
            let ghost before = certificate;
            certificate.live.set(k, false);
            certificate.rank.set(k, None);
            certificate.witness.set(k, None);
            proof {
                assert forall|a: int| 0 <= a < n && (a >= k + 1 || !affected@[a]) implies #[trigger] kept_at(*old, certificate, a) by {
                    assert(a != k);
                    assert(kept_at(*old, before, a));
                }
                assert forall|a: int| 0 <= a < k + 1 && #[trigger] affected@[a] implies recomputed_at(p, certificate, a) && !certificate.spec_live()[a] by {
                    if a < k {
                        assert(recomputed_at(p, before, a));
                    }
                }
            }
        }
        k = k + 1;
    }
    assert(untouched_outside(*old, certificate, affected@)) by {
        assert forall|a: int| 0 <= a < affected@.len() && !(#[trigger] affected@[a]) implies kept_at(*old, certificate, a) by {
            assert(kept_at(*old, certificate, a));
        }
    }
    assert(recomputed_inside(p, certificate, affected@));
    proof {
        if tracking {
            assert forall|a: int| 0 <= a < n implies #[trigger] atom_justified(p, certificate, a) by {
                if affected@[a] {
                    assert(recomputed_at(p, certificate, a));
                } else {
                    lemma_kept_justified(p, *old, certificate, affected@, named, a);
                }
            }
            assert forall|a: int| 0 <= a < certificate.spec_live().len() && #[trigger] certificate.spec_live()[a]
                implies (certificate.spec_rank()[a] matches Some(r) && r <= rmax) by {
                assert(!affected@[a]);
                assert(kept_at(*old, certificate, a));
            }
        }
    }
    let mut k: usize = 0;
    while k < program.seeds.len()
        invariant
            k <= program.seeds.len(),
            p == *program,
            program.wf(),
            n == p.spec_atom_count(),
            shape_ok(p, certificate),
            shape_ok(p, *old),
            affected@.len() == n,
            marks_within(affected@, *old),
            live_within(*old, certificate),
            untouched_outside(*old, certificate, affected@),
            recomputed_inside(p, certificate, affected@),
            forall|a: int| 0 <= a < n && #[trigger] affected@[a] && certificate.spec_live()[a] ==>
                certificate.spec_rank()[a] == Some(0usize) && certificate.spec_witness()[a] == Some(GroundedWitness::Seed),
            forall|kk: int| 0 <= kk < k && affected@[#[trigger] p.spec_seeds()[kk].id() as int] ==> certificate.spec_live()[p.spec_seeds()[kk].id() as int],
            tracking ==> valid_except_named(p, *old, named) && 0 <= rmax && rmax + n + 1 < usize::MAX,
            tracking ==> all_justified(p, certificate) && ranks_within(certificate, rmax),
        decreases program.seeds.len() - k,
    {
        let seed = program.seeds[k].0;
        assert(p.spec_seeds()[k as int].id() < n);
        if affected[seed] {
            proof {
                lemma_live_within_set(*old, certificate, seed as int, true);
            }
            let ghost before = certificate;
            certificate.live.set(seed, true);
            certificate.rank.set(seed, Some(0));
            certificate.witness.set(seed, Some(GroundedWitness::Seed));
            proof {
                assert(p.spec_seeds()[k as int].id() == seed);
                assert(p.is_seed(seed as int));
                lemma_seed_recomputed(p, *old, before, certificate, affected@, seed as int);
                if tracking {
                    if before.spec_live()[seed as int] {
                        assert(before.spec_rank()[seed as int] == Some(0usize));
                        assert(certificate.spec_live() =~= before.spec_live());
                        assert(certificate.spec_rank() =~= before.spec_rank());
                        assert(certificate.spec_witness() =~= before.spec_witness());
                        assert forall|i: int| 0 <= i < n implies #[trigger] atom_justified(p, certificate, i) by {
                            assert(atom_justified(p, before, i));
                        }
                    } else {
                        lemma_seed_keeps_justified(p, before, certificate, seed as int);
                    }
                    assert(all_justified(p, certificate));
                    assert forall|a: int| 0 <= a < certificate.spec_live().len() && #[trigger] certificate.spec_live()[a]
                        implies (certificate.spec_rank()[a] matches Some(r) && r <= rmax) by {
                        if a != seed {
                            assert(before.spec_live()[a]);
                        }
                    }
                }
            }
        }
        k = k + 1;
    }

    let mut local_dependents: Vec<Vec<GroundedRuleId>> = empty_lists(n);
    let mut remaining = filled(usize::MAX, rule_count);
    let mut fired = filled(false, rule_count);
    let mut work: Vec<GroundedAtomId> = Vec::new();
    let mut count: usize = 0;
    let mut k: usize = 0;
    while k < n
        invariant
            k <= n,
            count <= k,
            affected@.len() == n,
            count == cone_count(p, *old, named, k as int),
            forall|b: int| 0 <= b < n ==> (#[trigger] affected@[b] <==> in_witness_cone(p, *old, named, b)),
        decreases n - k,
    {
        if affected[k] {
            count = count + 1;
        }
        k = k + 1;
    }

    proof {
        assert forall|kk: int| 0 <= kk < p.spec_seeds().len() && affected@[#[trigger] p.spec_seeds()[kk].id() as int]
            implies certificate.spec_live()[p.spec_seeds()[kk].id() as int] by {}
        if tracking {
            assert forall|kk: int| 0 <= kk < p.spec_seeds().len() implies certificate.spec_live()[#[trigger] p.spec_seeds()[kk].id() as int] by {
                let a = p.spec_seeds()[kk].id() as int;
                assert(a < n);
                if !affected@[a] {
                    assert(kept_at(*old, certificate, a));
                    assert(old.spec_live()[a]);
                }
            }
        }
    }
    let live0 = copy_seq(certificate.live.as_slice());
    let mut seen_rule = filled(false, rule_count);
    proof {
        assert(live0@ == certificate.spec_live());
        assert(registration_ok(p, local_dependents@, seen_rule@, affected@, live0@, -1, 0)) by {
            assert forall|a: int, r: int| 0 <= a < n && 0 <= r < rule_count implies
                !(#[trigger] registered(local_dependents@, a, r)) by {}
        }
    }
    let mut head_index: usize = 0;
    while head_index < n
        invariant
            head_index <= n,
            p == *program,
            program.wf(),
            index.matches(p),
            n == p.spec_atom_count(),
            rule_count == p.spec_rules().len(),
            shape_ok(p, certificate),
            frontier_ok(n as nat, certificate, work@),
            shape_ok(p, *old),
            marks_within(affected@, *old),
            live_within(*old, certificate),
            untouched_outside(*old, certificate, affected@),
            recomputed_inside(p, certificate, affected@),
            rederive_core(p, certificate, live0@, affected@, seen_rule@, fired@, remaining@, local_dependents@, work@),
            tracking ==> valid_except_named(p, *old, named) && 0 <= rmax && rmax + n + 1 < usize::MAX,
            tracking ==> all_justified(p, certificate) && ranks_within(certificate, rmax + work@.len()),
            tracking ==> forall|kk: int| 0 <= kk < p.spec_seeds().len() ==> live0@[#[trigger] p.spec_seeds()[kk].id() as int],
            registration_ok(p, local_dependents@, seen_rule@, affected@, live0@, -1, 0),
            waits_ok(p, seen_rule@, fired@, remaining@, live0@, Seq::empty(), Seq::empty(), 0, -1),
            forall|r: int| 0 <= r < rule_count && p.spec_rules()[r].spec_head().id() < head_index
                && #[trigger] affected@[p.spec_rules()[r].spec_head().id() as int] ==> seen_rule@[r],
        decreases n - head_index,
    {
        if affected[head_index] {
            let heads = &index.by_head[head_index];
            proof {
                assert(index.spec_by_head()[head_index as int] == heads@);
            }
            let mut j: usize = 0;
            while j < heads.len()
                invariant
                    j <= heads@.len(),
                    head_index < n,
                    heads@ == index.spec_by_head()[head_index as int],
                    p == *program,
                    program.wf(),
                    index.matches(p),
                    n == p.spec_atom_count(),
                    rule_count == p.spec_rules().len(),
                    shape_ok(p, certificate),
                    frontier_ok(n as nat, certificate, work@),
                    shape_ok(p, *old),
                    marks_within(affected@, *old),
                    live_within(*old, certificate),
                    untouched_outside(*old, certificate, affected@),
                    recomputed_inside(p, certificate, affected@),
                    affected@[head_index as int],
                    rederive_core(p, certificate, live0@, affected@, seen_rule@, fired@, remaining@, local_dependents@, work@),
                    tracking ==> valid_except_named(p, *old, named) && 0 <= rmax && rmax + n + 1 < usize::MAX,
                    tracking ==> all_justified(p, certificate) && ranks_within(certificate, rmax + work@.len()),
                    tracking ==> forall|kk: int| 0 <= kk < p.spec_seeds().len() ==> live0@[#[trigger] p.spec_seeds()[kk].id() as int],
                    registration_ok(p, local_dependents@, seen_rule@, affected@, live0@, -1, 0),
                    waits_ok(p, seen_rule@, fired@, remaining@, live0@, Seq::empty(), Seq::empty(), 0, -1),
                    forall|r: int| 0 <= r < rule_count && p.spec_rules()[r].spec_head().id() < head_index
                        && #[trigger] affected@[p.spec_rules()[r].spec_head().id() as int] ==> seen_rule@[r],
                    forall|jj: int| 0 <= jj < j ==> seen_rule@[(#[trigger] heads@[jj]).id() as int],
                decreases heads@.len() - j,
            {
                let rule_id = heads[j];
                let r = rule_id.0;
                assert(r < rule_count);
                assert(p.spec_rules()[r as int].spec_head().id() == head_index);
                if !seen_rule[r] {
                    proof {
                        assert forall|a: int| 0 <= a < n implies !(#[trigger] registered(local_dependents@, a, r as int)) by {}
                    }
                    let ghost seen_before = seen_rule@;
                    seen_rule.set(r, true);
                    let rule = &program.rules[r];
                    proof {
                        assert(rederive_core(p, certificate, live0@, affected@, seen_rule@, fired@, remaining@, local_dependents@, work@)) by {
                            assert forall|r2: int| 0 <= r2 < rule_count && #[trigger] seen_rule@[r2] implies affected@[p.spec_rules()[r2].spec_head().id() as int] by {
                                if r2 != r {
                                    assert(seen_before[r2]);
                                }
                            }
                            assert forall|r2: int| 0 <= r2 < rule_count && #[trigger] fired@[r2] implies seen_rule@[r2] && p.spec_rules()[r2].spec_enabled()
                                && certificate.spec_live()[p.spec_rules()[r2].spec_head().id() as int] by {
                                assert(seen_before[r2]);
                            }
                        }
                        assert(!fired@[r as int]);
                        assert(waits_ok(p, seen_rule@, fired@, remaining@, live0@, Seq::empty(), Seq::empty(), 0, r as int)) by {
                            assert forall|r2: int| 0 <= r2 < rule_count && r2 != r && #[trigger] seen_rule@[r2] && p.spec_rules()[r2].spec_enabled() && !fired@[r2] implies
                                remaining@[r2] == count_unsettled(p.spec_rules()[r2].spec_body(), live0@, Seq::empty()) + (if in_tail(Seq::<GroundedRuleId>::empty(), 0, r2) { 1int } else { 0int })
                                && remaining@[r2] > 0 by {
                                assert(seen_before[r2]);
                            }
                        }
                        assert(registration_ok(p, local_dependents@, seen_rule@, affected@, live0@, r as int, 0)) by {
                            assert forall|a: int, r2: int| 0 <= a < n && 0 <= r2 < rule_count implies
                                (#[trigger] registered(local_dependents@, a, r2) <==> (seen_rule@[r2] && p.spec_rules()[r2].spec_enabled() && affected@[a] && !live0@[a]
                                    && (if r2 == r { mentions_before(p.spec_rules()[r2], 0, a) } else { body_mentions(p.spec_rules()[r2], a) }))) by {
                                if r2 == r {
                                    assert(!registered(local_dependents@, a, r2));
                                }
                            }
                        }
                    }
                    if rule.enabled {
                        assert(atoms_below(rule.spec_body(), n as nat)) by {
                            assert(p.spec_rules()[r as int].spec_head().id() < n);
                        }
                        assert(strictly_sorted(rule.spec_body())) by {
                            assert(rules_sorted(p.spec_rules()));
                        }
                        let mut dead: usize = 0;
                        let mut m: usize = 0;
                        while m < rule.body.len()
                            invariant
                                m <= rule.body.len(),
                                dead <= m,
                                *rule == p.spec_rules()[r as int],
                                rule.spec_enabled(),
                                strictly_sorted(rule.spec_body()),
                                atoms_below(rule.spec_body(), n as nat),
                                n == p.spec_atom_count(),
                                rule_count == p.spec_rules().len(),
                                r < rule_count,
                                rule_id.id() == r,
                                seen_rule@[r as int],
                                !fired@[r as int],
                                dead == count_unsettled(rule.spec_body().subrange(0, m as int), live0@, Seq::empty()),
                                rederive_core(p, certificate, live0@, affected@, seen_rule@, fired@, remaining@, local_dependents@, work@),
                                registration_ok(p, local_dependents@, seen_rule@, affected@, live0@, r as int, m as int),
                            decreases rule.body.len() - m,
                        {
                            let premise = rule.body[m];
                            assert(rule.spec_body()[m as int].id() < n);
                            let ghost sub = rule.spec_body().subrange(0, m + 1);
                            proof {
                                assert(sub.drop_last() =~= rule.spec_body().subrange(0, m as int));
                                assert(sub.last() == premise);
                                assert(!queued(Seq::<GroundedAtomId>::empty(), premise.id() as int));
                            }
                            if !live0[premise.0] {
                                dead = dead + 1;
                                if affected[premise.0] {
                                    let ghost before = local_dependents@;
                                    proof {
                                        assert(!registered(before, premise.id() as int, r as int)) by {
                                            if mentions_before(*rule, m as int, premise.id() as int) {
                                                let k = choose|k: int| 0 <= k < m && #[trigger] rule.spec_body()[k].id() == premise.id();
                                                assert(rule.spec_body()[k].id() < rule.spec_body()[m as int].id());
                                            }
                                        }
                                    }
                                    local_dependents[premise.0].push(rule_id);
                                    proof {
                                        lemma_ld_push(p, certificate, live0@, affected@, seen_rule@, fired@, remaining@, before, local_dependents@, work@, premise.id() as int, rule_id);
                                        assert(registration_ok(p, local_dependents@, seen_rule@, affected@, live0@, r as int, m + 1)) by {
                                            assert forall|a: int, r2: int| 0 <= a < n && 0 <= r2 < rule_count implies
                                                (#[trigger] registered(local_dependents@, a, r2) <==> (seen_rule@[r2] && p.spec_rules()[r2].spec_enabled() && affected@[a] && !live0@[a]
                                                    && (if r2 == r { mentions_before(p.spec_rules()[r2], m + 1, a) } else { body_mentions(p.spec_rules()[r2], a) }))) by {
                                                assert(registered(before, a, r2) <==> (seen_rule@[r2] && p.spec_rules()[r2].spec_enabled() && affected@[a] && !live0@[a]
                                                    && (if r2 == r { mentions_before(p.spec_rules()[r2], m as int, a) } else { body_mentions(p.spec_rules()[r2], a) })));
                                                if r2 == r {
                                                    if mentions_before(*rule, m + 1, a) && !mentions_before(*rule, m as int, a) {
                                                        let k = choose|k: int| 0 <= k < m + 1 && #[trigger] rule.spec_body()[k].id() == a;
                                                        assert(k == m);
                                                    }
                                                    if mentions_before(*rule, m as int, a) {
                                                        let k = choose|k: int| 0 <= k < m && #[trigger] rule.spec_body()[k].id() == a;
                                                        assert(mentions_before(*rule, m + 1, a));
                                                    }
                                                    if a == premise.id() {
                                                        assert(rule.spec_body()[m as int].id() == a);
                                                    }
                                                }
                                            }
                                        }
                                    }
                                } else {
                                    proof {
                                        lemma_registration_step(p, local_dependents@, seen_rule@, affected@, live0@, *rule, r as int, m as int);
                                    }
                                }
                            } else {
                                proof {
                                    lemma_registration_step(p, local_dependents@, seen_rule@, affected@, live0@, *rule, r as int, m as int);
                                }
                            }
                            m = m + 1;
                        }
                        proof {
                            assert(rule.spec_body().subrange(0, m as int) =~= rule.spec_body());
                            assert forall|a: int| mentions_before(*rule, m as int, a) <==> #[trigger] body_mentions(*rule, a) by {}
                        }
                        let ghost rem_before = remaining@;
                        remaining.set(r, dead);
                        proof {
                            assert(rederive_core(p, certificate, live0@, affected@, seen_rule@, fired@, remaining@, local_dependents@, work@));
                        }
                        if dead == 0 {
                            stats.rule_fires = stats.rule_fires.saturating_add(1);
                            assert(p.spec_rules()[r as int].spec_head().id() < n);
                            proof {
                                lemma_count_unsettled_zero(rule.spec_body(), live0@, Seq::empty());
                            }
                            if !certificate.is_live(rule.head) {
                                let ghost before = certificate;
                                let ghost q0 = work@;
                                proof {
                                    assert(body_live(*rule, certificate.spec_live())) by {
                                        assert forall|k: int| 0 <= k < rule.spec_body().len() implies certificate.spec_live()[#[trigger] rule.spec_body()[k].id() as int] by {
                                            assert(live0@[rule.spec_body()[k].id() as int] || queued(Seq::<GroundedAtomId>::empty(), rule.spec_body()[k].id() as int));
                                        }
                                    }
                                }
                                derive_from_rule(&mut certificate, program, rule_id, &mut work);
                                proof {
                                    lemma_derive_keeps_frontier(p, before, certificate, q0, work@, rule.spec_head());
                                    if tracking {
                                        lemma_rederive_tracked(p, before, certificate, q0, work@, rule_id, rmax);
                                    }
                                    lemma_live_within_set(*old, before, rule.spec_head().id() as int, true);
                                    lemma_derive_recomputed(p, *old, before, certificate, affected@, rule_id, rule.spec_head().id() as int);
                                    assert(work@.subrange(0, q0.len() as int) =~= q0);
                                    lemma_rederive_core_derive(p, before, certificate, live0@, affected@, seen_rule@, fired@, remaining@, local_dependents@, q0, work@, rule.spec_head().id() as int);
                                }
                            }
                            let ghost fired_before = fired@;
                            fired.set(r, true);
                            proof {
                                assert(rederive_core(p, certificate, live0@, affected@, seen_rule@, fired@, remaining@, local_dependents@, work@)) by {
                                    assert forall|r2: int| 0 <= r2 < rule_count && #[trigger] fired@[r2] implies seen_rule@[r2] && p.spec_rules()[r2].spec_enabled()
                                        && certificate.spec_live()[p.spec_rules()[r2].spec_head().id() as int] by {
                                        if r2 != r {
                                            assert(fired_before[r2]);
                                        }
                                    }
                                }
                            }
                        }
                        proof {
                            assert(waits_ok(p, seen_rule@, fired@, remaining@, live0@, Seq::empty(), Seq::empty(), 0, -1)) by {
                                assert forall|r2: int| 0 <= r2 < rule_count && r2 != -1 && #[trigger] seen_rule@[r2] && p.spec_rules()[r2].spec_enabled() && !fired@[r2] implies
                                    remaining@[r2] == count_unsettled(p.spec_rules()[r2].spec_body(), live0@, Seq::empty()) + (if in_tail(Seq::<GroundedRuleId>::empty(), 0, r2) { 1int } else { 0int })
                                    && remaining@[r2] > 0 by {
                                    if r2 != r {
                                        assert(rem_before[r2] == remaining@[r2]);
                                    }
                                }
                            }
                            assert(registration_ok(p, local_dependents@, seen_rule@, affected@, live0@, -1, 0)) by {
                                assert forall|a: int, r2: int| 0 <= a < n && 0 <= r2 < rule_count implies
                                    (#[trigger] registered(local_dependents@, a, r2) <==> (seen_rule@[r2] && p.spec_rules()[r2].spec_enabled() && affected@[a] && !live0@[a]
                                        && body_mentions(p.spec_rules()[r2], a))) by {
                                    if r2 == r {
                                        assert(mentions_before(*rule, m as int, a) <==> body_mentions(*rule, a));
                                    }
                                }
                            }
                        }
                    } else {
                        proof {
                            assert(registration_ok(p, local_dependents@, seen_rule@, affected@, live0@, -1, 0)) by {
                                assert forall|a: int, r2: int| 0 <= a < n && 0 <= r2 < rule_count implies
                                    (#[trigger] registered(local_dependents@, a, r2) <==> (seen_rule@[r2] && p.spec_rules()[r2].spec_enabled() && affected@[a] && !live0@[a]
                                        && body_mentions(p.spec_rules()[r2], a))) by {
                                    if r2 == r {
                                        assert(!registered(local_dependents@, a, r2));
                                    }
                                }
                            }
                            assert(waits_ok(p, seen_rule@, fired@, remaining@, live0@, Seq::empty(), Seq::empty(), 0, -1));
                        }
                    }
                }
                proof {
                    assert(seen_rule@[heads@[j as int].id() as int]);
                }
                j = j + 1;
            }
            proof {
                assert forall|r: int| 0 <= r < rule_count && p.spec_rules()[r].spec_head().id() < head_index + 1
                    && #[trigger] affected@[p.spec_rules()[r].spec_head().id() as int] implies seen_rule@[r] by {
                    if p.spec_rules()[r].spec_head().id() == head_index {
                        assert(heads@.contains(rule_at(r)));
                        lemma_rule_at(r);
                        let jj = choose|jj: int| 0 <= jj < heads@.len() && heads@[jj] == rule_at(r);
                        assert(seen_rule@[heads@[jj].id() as int]);
                    }
                }
            }
        }
        head_index = head_index + 1;
    }

    let mut cursor: usize = 0;
    proof {
        assert(work@.subrange(0, 0) =~= Seq::<GroundedAtomId>::empty());
    }
    while cursor < work.len()
        invariant
            cursor <= work@.len(),
            p == *program,
            program.wf(),
            n == p.spec_atom_count(),
            rule_count == p.spec_rules().len(),
            shape_ok(p, certificate),
            frontier_ok(n as nat, certificate, work@),
            shape_ok(p, *old),
            marks_within(affected@, *old),
            live_within(*old, certificate),
            untouched_outside(*old, certificate, affected@),
            recomputed_inside(p, certificate, affected@),
            rederive_core(p, certificate, live0@, affected@, seen_rule@, fired@, remaining@, local_dependents@, work@),
            tracking ==> valid_except_named(p, *old, named) && 0 <= rmax && rmax + n + 1 < usize::MAX,
            tracking ==> all_justified(p, certificate) && ranks_within(certificate, rmax + work@.len()),
            tracking ==> forall|kk: int| 0 <= kk < p.spec_seeds().len() ==> live0@[#[trigger] p.spec_seeds()[kk].id() as int],
            registration_ok(p, local_dependents@, seen_rule@, affected@, live0@, -1, 0),
            waits_ok(p, seen_rule@, fired@, remaining@, live0@, work@.subrange(0, cursor as int), Seq::empty(), 0, -1),
            forall|r: int| 0 <= r < rule_count && #[trigger] affected@[p.spec_rules()[r].spec_head().id() as int] ==> seen_rule@[r],
        decreases n - cursor,
    {
        proof {
            lemma_distinct_atoms_bounded(work@, n as nat);
        }
        let atom = work[cursor];
        let ghost done = work@.subrange(0, cursor as int);
        let ghost done2 = work@.subrange(0, cursor + 1);
        cursor = cursor + 1;
        let deps = &local_dependents[atom.0];
        proof {
            assert(done2 =~= done.push(atom));
            assert(affected@[atom.id() as int] && !live0@[atom.id() as int]);
            assert(!queued(done, atom.id() as int)) by {
                if queued(done, atom.id() as int) {
                    let i = choose|i: int| 0 <= i < done.len() && #[trigger] done[i].id() == atom.id();
                    assert(done[i] == work@[i]);
                    work@[i].lemma_id_injective(atom);
                }
            }
            assert(waits_ok(p, seen_rule@, fired@, remaining@, live0@, done2, deps@, 0, -1)) by {
                assert forall|r: int| 0 <= r < rule_count && r != -1 && #[trigger] seen_rule@[r] && p.spec_rules()[r].spec_enabled() && !fired@[r] implies
                    remaining@[r] == count_unsettled(p.spec_rules()[r].spec_body(), live0@, done2) + (if in_tail(deps@, 0, r) { 1int } else { 0int })
                    && remaining@[r] > 0 by {
                    let rule = p.spec_rules()[r];
                    assert(in_tail(Seq::<GroundedRuleId>::empty(), 0, r) == false);
                    assert(strictly_sorted(rule.spec_body())) by {
                        assert(rules_sorted(p.spec_rules()));
                    }
                    if body_mentions(rule, atom.id() as int) {
                        let k = choose|k: int| 0 <= k < rule.spec_body().len() && #[trigger] rule.spec_body()[k].id() == atom.id();
                        lemma_count_unsettled_present(rule.spec_body(), live0@, done, atom, k);
                        assert(registered(local_dependents@, atom.id() as int, r));
                        let jj = choose|jj: int| 0 <= jj < local_dependents@[atom.id() as int]@.len() && #[trigger] local_dependents@[atom.id() as int]@[jj].id() == r;
                        assert(deps@[jj].id() == r);
                    } else {
                        assert forall|k: int| 0 <= k < rule.spec_body().len() implies (#[trigger] rule.spec_body()[k]).id() != atom.id() by {}
                        lemma_count_unsettled_absent(rule.spec_body(), live0@, done, atom);
                        assert(!in_tail(deps@, 0, r)) by {
                            if in_tail(deps@, 0, r) {
                                let jj = choose|jj: int| 0 <= jj < deps@.len() && #[trigger] deps@[jj].id() == r;
                                assert(local_dependents@[atom.id() as int]@[jj].id() == r);
                                assert(registered(local_dependents@, atom.id() as int, r));
                            }
                        }
                    }
                }
            }
        }
        let mut j: usize = 0;
        while j < deps.len()
            invariant
                j <= deps@.len(),
                1 <= cursor <= work@.len(),
                atom == work@[cursor - 1],
                atom.id() < n,
                deps@ == local_dependents@[atom.id() as int]@,
                done2 == work@.subrange(0, cursor as int),
                p == *program,
                program.wf(),
                n == p.spec_atom_count(),
                rule_count == p.spec_rules().len(),
                shape_ok(p, certificate),
                frontier_ok(n as nat, certificate, work@),
                shape_ok(p, *old),
                marks_within(affected@, *old),
                live_within(*old, certificate),
                untouched_outside(*old, certificate, affected@),
                recomputed_inside(p, certificate, affected@),
                rederive_core(p, certificate, live0@, affected@, seen_rule@, fired@, remaining@, local_dependents@, work@),
                tracking ==> valid_except_named(p, *old, named) && 0 <= rmax && rmax + n + 1 < usize::MAX,
                tracking ==> all_justified(p, certificate) && ranks_within(certificate, rmax + work@.len()),
                tracking ==> forall|kk: int| 0 <= kk < p.spec_seeds().len() ==> live0@[#[trigger] p.spec_seeds()[kk].id() as int],
                registration_ok(p, local_dependents@, seen_rule@, affected@, live0@, -1, 0),
                waits_ok(p, seen_rule@, fired@, remaining@, live0@, done2, deps@, j as int, -1),
                forall|r: int| 0 <= r < rule_count && #[trigger] affected@[p.spec_rules()[r].spec_head().id() as int] ==> seen_rule@[r],
            decreases deps@.len() - j,
        {
            let rule_id = deps[j];
            let r = rule_id.0;
            assert(local_dependents@[atom.id() as int]@[j as int].id() < rule_count);
            proof {
                assert(registered(local_dependents@, atom.id() as int, r as int));
                assert(in_tail(deps@, j as int, r as int));
            }
            let ghost rem_before = remaining@;
            let ghost fired_before = fired@;
            if !fired[r] && remaining[r] != 0 {
                stats.incidence_updates = stats.incidence_updates.saturating_add(1);
                let left = remaining[r] - 1;
                remaining.set(r, left);
                proof {
                    assert(!in_tail(deps@, j + 1, r as int)) by {
                        if in_tail(deps@, j + 1, r as int) {
                            let mm = choose|mm: int| j + 1 <= mm < deps@.len() && #[trigger] deps@[mm].id() == r;
                            deps@[mm].lemma_id_injective(deps@[j as int]);
                            assert(local_dependents@[atom.id() as int]@[mm] == local_dependents@[atom.id() as int]@[j as int]);
                        }
                    }
                    assert(rederive_core(p, certificate, live0@, affected@, seen_rule@, fired@, remaining@, local_dependents@, work@));
                }
                if left == 0 {
                    stats.rule_fires = stats.rule_fires.saturating_add(1);
                    let head = program.rules[r].head;
                    assert(p.spec_rules()[r as int].spec_head().id() < n);
                    if !certificate.is_live(head) {
                        let ghost before = certificate;
                        let ghost q0 = work@;
                        proof {
                            let body = p.spec_rules()[r as int].spec_body();
                            lemma_count_unsettled_zero(body, live0@, done2);
                            assert(body_live(p.spec_rules()[r as int], certificate.spec_live())) by {
                                assert forall|k: int| 0 <= k < body.len() implies certificate.spec_live()[#[trigger] body[k].id() as int] by {
                                    assert(atoms_below(body, n as nat));
                                    if !live0@[body[k].id() as int] {
                                        assert(queued(done2, body[k].id() as int));
                                        let i = choose|i: int| 0 <= i < done2.len() && #[trigger] done2[i].id() == body[k].id();
                                        assert(done2[i] == work@[i]);
                                    }
                                }
                            }
                        }
                        derive_from_rule(&mut certificate, program, rule_id, &mut work);
                        proof {
                            lemma_derive_keeps_frontier(p, before, certificate, q0, work@, head);
                            if tracking {
                                lemma_rederive_tracked(p, before, certificate, q0, work@, rule_id, rmax);
                            }
                            assert(affected@[head.id() as int]);
                            lemma_live_within_set(*old, before, head.id() as int, true);
                            lemma_derive_recomputed(p, *old, before, certificate, affected@, rule_id, head.id() as int);
                            assert(work@.subrange(0, q0.len() as int) =~= q0);
                            lemma_rederive_core_derive(p, before, certificate, live0@, affected@, seen_rule@, fired@, remaining@, local_dependents@, q0, work@, head.id() as int);
                            assert(work@.subrange(0, cursor as int) =~= done2) by {
                                assert forall|i: int| 0 <= i < cursor implies work@[i] == q0[i] by {
                                    assert(work@.subrange(0, q0.len() as int)[i] == work@[i]);
                                }
                            }
                        }
                    }
                    fired.set(r, true);
                    proof {
                        assert(rederive_core(p, certificate, live0@, affected@, seen_rule@, fired@, remaining@, local_dependents@, work@)) by {
                            assert forall|r2: int| 0 <= r2 < rule_count && #[trigger] fired@[r2] implies seen_rule@[r2] && p.spec_rules()[r2].spec_enabled()
                                && certificate.spec_live()[p.spec_rules()[r2].spec_head().id() as int] by {
                                if r2 != r {
                                    assert(fired_before[r2]);
                                }
                            }
                        }
                    }
                }
                proof {
                    assert forall|r2: int| 0 <= r2 < rule_count && r2 != -1 && #[trigger] seen_rule@[r2] && p.spec_rules()[r2].spec_enabled() && !fired@[r2] implies
                        remaining@[r2] == count_unsettled(p.spec_rules()[r2].spec_body(), live0@, done2) + (if in_tail(deps@, j + 1, r2) { 1int } else { 0int })
                        && remaining@[r2] > 0 by {
                        if r2 != r {
                            assert(fired_before[r2] == fired@[r2]);
                            assert(in_tail(deps@, j as int, r2) == in_tail(deps@, j + 1, r2)) by {
                                if in_tail(deps@, j as int, r2) {
                                    let mm = choose|mm: int| j <= mm < deps@.len() && #[trigger] deps@[mm].id() == r2;
                                    assert(mm != j);
                                }
                            }
                        }
                    }
                }
            } else {
                proof {
                    assert(fired@[r as int]);
                    assert forall|r2: int| 0 <= r2 < rule_count && r2 != -1 && #[trigger] seen_rule@[r2] && p.spec_rules()[r2].spec_enabled() && !fired@[r2] implies
                        remaining@[r2] == count_unsettled(p.spec_rules()[r2].spec_body(), live0@, done2) + (if in_tail(deps@, j + 1, r2) { 1int } else { 0int })
                        && remaining@[r2] > 0 by {
                        assert(in_tail(deps@, j as int, r2) == in_tail(deps@, j + 1, r2)) by {
                            if in_tail(deps@, j as int, r2) {
                                let mm = choose|mm: int| j <= mm < deps@.len() && #[trigger] deps@[mm].id() == r2;
                                assert(mm != j);
                            }
                        }
                    }
                }
            }
            j = j + 1;
        }
        proof {
            assert forall|r2: int| 0 <= r2 < rule_count && r2 != -1 && #[trigger] seen_rule@[r2] && p.spec_rules()[r2].spec_enabled() && !fired@[r2] implies
                remaining@[r2] == count_unsettled(p.spec_rules()[r2].spec_body(), live0@, work@.subrange(0, cursor as int)) + (if in_tail(Seq::<GroundedRuleId>::empty(), 0, r2) { 1int } else { 0int })
                && remaining@[r2] > 0 by {
                assert(!in_tail(deps@, j as int, r2));
            }
        }
    }
    proof {
        assert(work@.subrange(0, cursor as int) =~= work@);
        assert forall|r: int| 0 <= r < rule_count && #[trigger] p.spec_rules()[r].spec_enabled()
            && affected@[p.spec_rules()[r].spec_head().id() as int]
            && body_live(p.spec_rules()[r], certificate.spec_live()) implies certificate.spec_live()[p.spec_rules()[r].spec_head().id() as int] by {
            assert(seen_rule@[r]);
            if !fired@[r] {
                let body = p.spec_rules()[r].spec_body();
                lemma_count_unsettled_zero(body, live0@, work@);
                let k = choose|k: int| 0 <= k < body.len() && !(live0@[(#[trigger] body[k]).id() as int] || queued(work@, body[k].id() as int));
                assert(certificate.spec_live()[body[k].id() as int]);
                assert(atoms_below(body, n as nat));
            }
        }
    }
    stats.affected_atoms = count;
    proof {
        if tracking {
            assert forall|k: int| 0 <= k < p.spec_seeds().len() implies certificate.spec_live()[#[trigger] p.spec_seeds()[k].id() as int] by {
                assert(live0@[p.spec_seeds()[k].id() as int]);
                assert(p.spec_seeds()[k].id() < n);
            }
            assert forall|r: int| 0 <= r < rule_count && #[trigger] p.spec_rules()[r].spec_enabled()
                && body_live(p.spec_rules()[r], certificate.spec_live()) implies certificate.spec_live()[p.spec_rules()[r].spec_head().id() as int] by {
                let rule = p.spec_rules()[r];
                let h = rule.spec_head().id() as int;
                assert(h < n);
                if !affected@[h] {
                    assert(atoms_below(rule.spec_body(), n as nat));
                    assert(body_live(rule, old.spec_live())) by {
                        assert forall|k: int| 0 <= k < rule.spec_body().len() implies old.spec_live()[#[trigger] rule.spec_body()[k].id() as int] by {
                            assert(certificate.spec_live()[rule.spec_body()[k].id() as int]);
                        }
                    }
                    assert(kept_at(*old, certificate, h));
                }
            }
            assert(cert_valid(p, certificate));
            lemma_distinct_atoms_bounded(work@, n as nat);
            assert(ranks_within(certificate, rmax + n)) by {
                assert forall|a: int| 0 <= a < certificate.spec_live().len() && #[trigger] certificate.spec_live()[a]
                    implies (certificate.spec_rank()[a] matches Some(r) && r <= rmax + n) by {}
            }
            lemma_valid_certificate_is_least_model(p, certificate);
        }
        assert forall|a: int| 0 <= a < n && !in_witness_cone(p, *old, named, a) implies #[trigger] kept_at(*old, certificate, a) by {
            assert(!affected@[a]);
        }
        assert forall|a: int| 0 <= a < n && #[trigger] in_witness_cone(p, *old, named, a) implies recomputed_at(p, certificate, a) by {
            assert(affected@[a]);
        }
    }
    (certificate, stats)
}


/// `q` has the universe, rule bodies and heads of `p` (seeds and enabled flags may differ).
pub open spec fn same_structure(p: GroundedProgram, q: GroundedProgram) -> bool {
    &&& q.spec_atom_count() == p.spec_atom_count()
    &&& q.spec_rules().len() == p.spec_rules().len()
    &&& forall|r: int| 0 <= r < p.spec_rules().len() ==> {
        &&& (#[trigger] q.spec_rules()[r]).spec_body() == p.spec_rules()[r].spec_body()
        &&& q.spec_rules()[r].spec_head() == p.spec_rules()[r].spec_head()
    }
}

pub proof fn lemma_same_structure_index(p: GroundedProgram, q: GroundedProgram, index: GroundedIncidenceIndex)
    requires
        same_structure(p, q),
        index.matches(p),
    ensures
        index.matches(q),
{
    let n = p.spec_atom_count();
    let rc = p.spec_rules().len();
    let d = index.spec_dependents();
    let b = index.spec_by_head();
    assert forall|a: int, j: int| 0 <= a < n && 0 <= j < d[a].len() implies {
        &&& (#[trigger] d[a][j]).id() < rc
        &&& body_mentions(q.spec_rules()[d[a][j].id() as int], a)
    } by {
        assert(q.spec_rules()[d[a][j].id() as int].spec_body() == p.spec_rules()[d[a][j].id() as int].spec_body());
    }
    assert forall|a: int, r: int| 0 <= a < n && 0 <= r < rc && body_mentions(q.spec_rules()[r], a) implies #[trigger] d[a].contains(rule_at(r)) by {
        assert(q.spec_rules()[r].spec_body() == p.spec_rules()[r].spec_body());
        assert(body_mentions(p.spec_rules()[r], a));
    }
    assert forall|a: int, j: int| 0 <= a < n && 0 <= j < b[a].len() implies {
        &&& (#[trigger] b[a][j]).id() < rc
        &&& q.spec_rules()[b[a][j].id() as int].spec_head().id() == a
    } by {
        assert(q.spec_rules()[b[a][j].id() as int].spec_head() == p.spec_rules()[b[a][j].id() as int].spec_head());
    }
    assert forall|a: int, r: int| 0 <= a < n && 0 <= r < rc && q.spec_rules()[r].spec_head().id() == a implies #[trigger] b[a].contains(rule_at(r)) by {
        assert(q.spec_rules()[r].spec_head() == p.spec_rules()[r].spec_head());
    }
}

impl GroundedProgram {
    fn set_rule_enabled(&mut self, r: usize, enabled: bool)
        requires
            old(self).wf(),
            r < old(self).spec_rules().len(),
        ensures
            final(self).wf(),
            same_structure(*old(self), *final(self)),
            final(self).spec_seeds() == old(self).spec_seeds(),
            final(self).spec_rules()[r as int].spec_enabled() == enabled,
            forall|q: int| 0 <= q < old(self).spec_rules().len() && q != r ==> #[trigger] final(self).spec_rules()[q] == old(self).spec_rules()[q],
    {
        let ghost before = self.rules@;
        assert(strictly_sorted(self.rules@[r as int].spec_body()));
        self.rules[r].enabled = enabled;
        proof {
            assert forall|q: int| 0 <= q < before.len() implies #[trigger] self.rules@[q].spec_body() == before[q].spec_body()
                && self.rules@[q].spec_head() == before[q].spec_head() by {
                if q != r {
                    assert(self.rules@[q] == before[q]);
                }
            }
            assert(rules_sorted(self.spec_rules())) by {
                assert forall|q: int| 0 <= q < self.rules@.len() implies strictly_sorted(#[trigger] self.rules@[q].spec_body()) by {
                    assert(self.rules@[q].spec_body() == before[q].spec_body());
                    assert(strictly_sorted(before[q].spec_body()));
                }
            }
            assert(rules_below(self.spec_rules(), self.spec_atom_count())) by {
                assert forall|q: int| 0 <= q < self.rules@.len() implies {
                    &&& #[trigger] self.rules@[q].spec_head().id() < self.spec_atom_count()
                    &&& atoms_below(self.rules@[q].spec_body(), self.spec_atom_count())
                } by {
                    assert(self.rules@[q].spec_body() == before[q].spec_body());
                    assert(before[q].spec_head().id() < self.spec_atom_count());
                }
            }
        }
    }

    fn add_seed(&mut self, a: GroundedAtomId)
        requires
            old(self).wf(),
            a.id() < old(self).spec_atom_count(),
        ensures
            final(self).wf(),
            same_structure(*old(self), *final(self)),
            final(self).spec_rules() == old(self).spec_rules(),
            forall|x: GroundedAtomId| final(self).spec_seeds().contains(x) <==> (old(self).spec_seeds().contains(x) || x == a),
    {
        insert_sorted_atom(&mut self.seeds, a);
        proof {
            assert forall|i: int| 0 <= i < self.seeds@.len() implies #[trigger] self.seeds@[i].id() < self.atom_count by {
                assert(self.seeds@.contains(self.seeds@[i]));
                if self.seeds@[i] != a {
                    assert(old(self).seeds@.contains(self.seeds@[i]));
                    let k = choose|k: int| 0 <= k < old(self).seeds@.len() && old(self).seeds@[k] == self.seeds@[i];
                    assert(old(self).seeds@[k].id() < self.atom_count);
                }
            }
        }
    }

    fn remove_seed(&mut self, a: GroundedAtomId)
        requires
            old(self).wf(),
        ensures
            final(self).wf(),
            same_structure(*old(self), *final(self)),
            final(self).spec_rules() == old(self).spec_rules(),
            forall|x: GroundedAtomId| final(self).spec_seeds().contains(x) <==> (old(self).spec_seeds().contains(x) && x != a),
    {
        remove_sorted_atom(&mut self.seeds, a);
        proof {
            assert forall|i: int| 0 <= i < self.seeds@.len() implies #[trigger] self.seeds@[i].id() < self.atom_count by {
                assert(self.seeds@.contains(self.seeds@[i]));
                assert(old(self).seeds@.contains(self.seeds@[i]));
                let k = choose|k: int| 0 <= k < old(self).seeds@.len() && old(self).seeds@[k] == self.seeds@[i];
                assert(old(self).seeds@[k].id() < self.atom_count);
            }
        }
    }
}

/// `q` is `p` after `u`: seeds removed then added, rules disabled then enabled.
pub open spec fn updated_program(p: GroundedProgram, q: GroundedProgram, u: GroundedUpdate) -> bool {
    &&& same_structure(p, q)
    &&& forall|a: GroundedAtomId| q.spec_seeds().contains(a) <==>
        ((p.spec_seeds().contains(a) && !u.remove_seeds@.contains(a)) || u.add_seeds@.contains(a))
    &&& forall|r: int| 0 <= r < p.spec_rules().len() ==> (#[trigger] q.spec_rules()[r]).spec_enabled() ==
        (u.enable_rules@.contains(rule_at(r)) || (p.spec_rules()[r].spec_enabled() && !u.disable_rules@.contains(rule_at(r))))
}

pub proof fn lemma_push_contains<T>(s: Seq<T>, x: T, a: T)
    ensures
        s.push(x).contains(a) <==> (s.contains(a) || a == x),
{
    if s.push(x).contains(a) && a != x {
        let k = choose|k: int| 0 <= k < s.push(x).len() && s.push(x)[k] == a;
        assert(s[k] == a);
    }
    if s.contains(a) {
        let k = choose|k: int| 0 <= k < s.len() && s[k] == a;
        assert(s.push(x)[k] == a);
    }
    if a == x {
        assert(s.push(x)[s.len() as int] == a);
    }
}

pub proof fn lemma_valid_witnesses_in_range(p: GroundedProgram, q: GroundedProgram, c: GroundedCertificate)
    requires
        cert_valid(p, c),
        q.spec_rules().len() == p.spec_rules().len(),
    ensures
        witnesses_in_range(q, c),
{
    assert forall|a: int| 0 <= a < c.spec_witness().len() implies (#[trigger] c.spec_witness()[a] matches Some(GroundedWitness::Rule(rid)) ==> rid.id() < q.spec_rules().len()) by {
        assert(atom_justified(p, c, a));
    }
}

pub proof fn lemma_same_structure_trans(p: GroundedProgram, q: GroundedProgram, r: GroundedProgram)
    requires
        same_structure(p, q),
        same_structure(q, r),
    ensures
        same_structure(p, r),
{
    assert forall|i: int| 0 <= i < p.spec_rules().len() implies {
        &&& (#[trigger] r.spec_rules()[i]).spec_body() == p.spec_rules()[i].spec_body()
        &&& r.spec_rules()[i].spec_head() == p.spec_rules()[i].spec_head()
    } by {
        assert(q.spec_rules()[i].spec_body() == p.spec_rules()[i].spec_body());
    }
}

/// Validity reads a certificate only through its views.
proof fn lemma_valid_same_views(p: GroundedProgram, c1: GroundedCertificate, c2: GroundedCertificate)
    requires
        cert_valid(p, c1),
        c2.spec_live() == c1.spec_live(),
        c2.spec_rank() == c1.spec_rank(),
        c2.spec_witness() == c1.spec_witness(),
    ensures
        cert_valid(p, c2),
        forall|b: int| ranks_within(c1, b) ==> #[trigger] ranks_within(c2, b),
{
    assert forall|i: int| 0 <= i < p.spec_atom_count() implies #[trigger] atom_justified(p, c2, i) by {
        assert(atom_justified(p, c1, i));
    }
}

pub proof fn lemma_same_structure_sym(p: GroundedProgram, q: GroundedProgram)
    requires
        same_structure(p, q),
    ensures
        same_structure(q, p),
{
    assert forall|r: int| 0 <= r < q.spec_rules().len() implies {
        &&& (#[trigger] p.spec_rules()[r]).spec_body() == q.spec_rules()[r].spec_body()
        &&& p.spec_rules()[r].spec_head() == q.spec_rules()[r].spec_head()
    } by {
        assert(q.spec_rules()[r].spec_body() == p.spec_rules()[r].spec_body());
    }
}

/// The removed seeds of `rs[..i]` that are the selected witness of their live atom.
pub open spec fn seed_roots(c: GroundedCertificate, rs: Seq<GroundedAtomId>, i: int) -> Seq<GroundedAtomId>
    decreases i,
{
    if i <= 0 {
        Seq::empty()
    } else {
        let prev = seed_roots(c, rs, i - 1);
        let a = rs[i - 1];
        if c.live_at(a.id() as int) && c.spec_witness()[a.id() as int] == Some(GroundedWitness::Seed) {
            prev.push(a)
        } else {
            prev
        }
    }
}

/// The heads of the disabled rules of `ds[..i]` that are the selected witness
/// of their live head.
pub open spec fn rule_roots(p: GroundedProgram, c: GroundedCertificate, ds: Seq<GroundedRuleId>, i: int) -> Seq<GroundedAtomId>
    decreases i,
{
    if i <= 0 {
        Seq::empty()
    } else {
        let prev = rule_roots(p, c, ds, i - 1);
        let rule = p.spec_rules()[ds[i - 1].id() as int];
        if rule.spec_enabled() && c.live_at(rule.spec_head().id() as int)
            && c.spec_witness()[rule.spec_head().id() as int] == Some(GroundedWitness::Rule(ds[i - 1])) {
            prev.push(rule.spec_head())
        } else {
            prev
        }
    }
}

/// The atoms whose selected witness `u` removes from `p`: the roots of the
/// witness cone that an update invalidates.
pub open spec fn removal_roots(p: GroundedProgram, c: GroundedCertificate, u: GroundedUpdate) -> Seq<GroundedAtomId> {
    seed_roots(c, u.remove_seeds@, u.remove_seeds@.len() as int) + rule_roots(p, c, u.disable_rules@, u.disable_rules@.len() as int)
}

/// The witness cone depends only on the rules' bodies.
pub proof fn lemma_cone_count_same_structure(p: GroundedProgram, q: GroundedProgram, old: GroundedCertificate, direct: Seq<GroundedAtomId>, k: int)
    requires
        same_structure(p, q),
    ensures
        cone_count(p, old, direct, k) == cone_count(q, old, direct, k),
    decreases k,
{
    assert(witness_edges(p, old) =~= witness_edges(q, old)) by {
        assert forall|a: int, b: int| #[trigger] witness_edges(p, old)(a, b) == witness_edges(q, old)(a, b) by {
            match old.spec_witness()[b] {
                Some(GroundedWitness::Rule(r)) => {
                    if r.id() < p.spec_rules().len() {
                        assert(p.spec_rules()[r.id() as int].spec_body() == q.spec_rules()[r.id() as int].spec_body());
                    }
                },
                _ => {},
            }
        }
    }
    if k > 0 {
        lemma_cone_count_same_structure(p, q, old, direct, k - 1);
        assert(in_witness_cone(p, old, direct, k - 1) == in_witness_cone(q, old, direct, k - 1));
    }
}

/// With no roots the witness cone is empty.
pub proof fn lemma_cone_count_no_roots(p: GroundedProgram, old: GroundedCertificate, direct: Seq<GroundedAtomId>, k: int)
    requires
        direct.len() == 0,
    ensures
        cone_count(p, old, direct, k) == 0,
    decreases k,
{
    if k > 0 {
        lemma_cone_count_no_roots(p, old, direct, k - 1);
        assert(!in_witness_cone(p, old, direct, k - 1));
    }
}

/// A valid certificate of `p0` is valid for `pd` (`p0` without the removed
/// seeds and disabled rules) except at the atoms whose selected witness was
/// removed, provided `direct` names each of them.
proof fn lemma_removals_named(p0: GroundedProgram, pd: GroundedProgram, c: GroundedCertificate, u: GroundedUpdate, direct: Seq<GroundedAtomId>)
    requires
        p0.wf(),
        cert_valid(p0, c),
        same_structure(p0, pd),
        forall|a: GroundedAtomId| pd.spec_seeds().contains(a) <==> (p0.spec_seeds().contains(a) && !u.remove_seeds@.contains(a)),
        forall|r: int| 0 <= r < p0.spec_rules().len() ==> (#[trigger] pd.spec_rules()[r]).spec_enabled() ==
            (p0.spec_rules()[r].spec_enabled() && !u.disable_rules@.contains(rule_at(r))),
        forall|k: int| 0 <= k < u.remove_seeds@.len() && c.live_at((#[trigger] u.remove_seeds@[k]).id() as int)
            && c.spec_witness()[u.remove_seeds@[k].id() as int] == Some(GroundedWitness::Seed)
            ==> exists|j: int| 0 <= j < direct.len() && #[trigger] direct[j].id() == u.remove_seeds@[k].id(),
        forall|k: int| 0 <= k < u.disable_rules@.len() ==> {
            let rule = p0.spec_rules()[(#[trigger] u.disable_rules@[k]).id() as int];
            rule.spec_enabled() && c.live_at(rule.spec_head().id() as int)
                && c.spec_witness()[rule.spec_head().id() as int] == Some(GroundedWitness::Rule(u.disable_rules@[k]))
                ==> exists|j: int| 0 <= j < direct.len() && #[trigger] direct[j].id() == rule.spec_head().id()
        },
    ensures
        valid_except_named(pd, c, direct),
{
    assert forall|i: int| 0 <= i < pd.spec_atom_count() implies #[trigger] atom_justified(pd, c, i) || live_direct(c, direct, i) by {
        assert(atom_justified(p0, c, i));
        if c.spec_live()[i] {
            match (c.spec_rank()[i], c.spec_witness()[i]) {
                (Some(r), Some(GroundedWitness::Seed)) => {
                    let k = choose|k: int| 0 <= k < p0.spec_seeds().len() && #[trigger] p0.spec_seeds()[k].id() == i;
                    let a = p0.spec_seeds()[k];
                    assert(p0.spec_seeds().contains(a));
                    if u.remove_seeds@.contains(a) {
                        let kr = choose|kr: int| 0 <= kr < u.remove_seeds@.len() && u.remove_seeds@[kr] == a;
                        assert(c.live_at(u.remove_seeds@[kr].id() as int));
                        let j = choose|j: int| 0 <= j < direct.len() && #[trigger] direct[j].id() == u.remove_seeds@[kr].id();
                        assert(live_direct(c, direct, i));
                    } else {
                        assert(pd.spec_seeds().contains(a));
                        let k2 = choose|k2: int| 0 <= k2 < pd.spec_seeds().len() && pd.spec_seeds()[k2] == a;
                        assert(pd.spec_seeds()[k2].id() == i);
                    }
                },
                (Some(r), Some(GroundedWitness::Rule(rid))) => {
                    let j = rid.id() as int;
                    lemma_rule_at(j);
                    if u.disable_rules@.contains(rule_at(j)) {
                        let kd = choose|kd: int| 0 <= kd < u.disable_rules@.len() && u.disable_rules@[kd] == rule_at(j);
                        assert(u.disable_rules@[kd] == rid);
                        assert(p0.spec_rules()[u.disable_rules@[kd].id() as int].spec_head().id() == i);
                        let jj = choose|jj: int| 0 <= jj < direct.len() && #[trigger] direct[jj].id() == p0.spec_rules()[u.disable_rules@[kd].id() as int].spec_head().id();
                        assert(live_direct(c, direct, i));
                    } else {
                        assert(pd.spec_rules()[j].spec_enabled());
                        assert(pd.spec_rules()[j].spec_body() == p0.spec_rules()[j].spec_body());
                    }
                },
                _ => {},
            }
        }
    }
    assert forall|k: int| 0 <= k < pd.spec_seeds().len() implies c.spec_live()[#[trigger] pd.spec_seeds()[k].id() as int] by {
        let a = pd.spec_seeds()[k];
        assert(pd.spec_seeds().contains(a));
        let k0 = choose|k0: int| 0 <= k0 < p0.spec_seeds().len() && p0.spec_seeds()[k0] == a;
        assert(c.spec_live()[p0.spec_seeds()[k0].id() as int]);
    }
    assert forall|r: int| 0 <= r < pd.spec_rules().len() && #[trigger] pd.spec_rules()[r].spec_enabled()
        && body_live(pd.spec_rules()[r], c.spec_live()) implies c.spec_live()[pd.spec_rules()[r].spec_head().id() as int] by {
        assert(p0.spec_rules()[r].spec_enabled());
        assert(body_live(p0.spec_rules()[r], c.spec_live())) by {
            assert(pd.spec_rules()[r].spec_body() == p0.spec_rules()[r].spec_body());
        }
    }
}

/// With nothing named, validity except at the named atoms is validity.
proof fn lemma_nothing_named(p: GroundedProgram, c: GroundedCertificate, direct: Seq<GroundedAtomId>)
    requires
        valid_except_named(p, c, direct),
        direct.len() == 0,
    ensures
        cert_valid(p, c),
{
    assert forall|i: int| 0 <= i < p.spec_atom_count() implies #[trigger] atom_justified(p, c, i) by {
        assert(!live_direct(c, direct, i));
    }
}

/// Applies `update` to `program` and repairs `old` (a certificate of the program
/// before the update): deletions invalidate only the affected witness cone,
/// insertions extend the closure forward; the result is checked before it is returned.
#[verifier::spinoff_prover]
pub fn apply_update_indexed(
    program: &mut GroundedProgram,
    index: &GroundedIncidenceIndex,
    certificate_before: &GroundedCertificate,
    update: &GroundedUpdate,
) -> (result: Result<(GroundedCertificate, GroundedWorkStats), GroundedClosureError>)
    requires
        old(program).wf(),
        index.matches(*old(program)),
    ensures
        final(program).wf(),
        update_validation(*old(program), *update) matches Err(e) ==> result == Err::<(GroundedCertificate, GroundedWorkStats), GroundedClosureError>(e) && *final(program) == *old(program),
        update_validation(*old(program), *update) is Ok ==> (check_result(*old(program), *certificate_before) matches Err(e) ==>
            result == Err::<(GroundedCertificate, GroundedWorkStats), GroundedClosureError>(e) && *final(program) == *old(program)),
        update_validation(*old(program), *update) is Ok && check_result(*old(program), *certificate_before) is Ok ==> updated_program(*old(program), *final(program), *update),
        result matches Ok((c, _)) ==> cert_valid(*final(program), c) && is_least_model(*final(program), c.spec_live()),
        update_validation(*old(program), *update) is Ok && cert_valid(*old(program), *certificate_before)
            && 2 * old(program).spec_atom_count() + 2 <= usize::MAX
            && ranks_within(*certificate_before, usize::MAX - 2 * old(program).spec_atom_count() - 2) ==> result is Ok,
        result matches Ok((_, s)) ==> s.affected_atoms == cone_count(*old(program), *certificate_before,
            removal_roots(*old(program), *certificate_before, *update), old(program).spec_atom_count() as int),
{
    let ghost p0 = *program;
    match validate_update(program, update) {
        Ok(()) => {},
        Err(e) => {
            return Err(e);
        },
    }
    match check(program, certificate_before) {
        Ok(()) => {},
        Err(e) => {
            return Err(e);
        },
    }
    let ghost c0 = *certificate_before;
    proof {
        lemma_check_result_ok(p0, c0);
    }
    let ghost rs = update.remove_seeds@;
    let ghost ds = update.disable_rules@;
    let n = program.atom_count;
    let mut direct: Vec<GroundedAtomId> = Vec::new();
    let mut i: usize = 0;
    while i < update.remove_seeds.len()
        invariant
            i <= update.remove_seeds.len(),
            rs == update.remove_seeds@,
            c0 == *certificate_before,
            shape_ok(p0, c0),
            direct@ == seed_roots(c0, rs, i as int),
            forall|k: int| 0 <= k < i && c0.live_at((#[trigger] rs[k]).id() as int)
                && c0.spec_witness()[rs[k].id() as int] == Some(GroundedWitness::Seed)
                ==> exists|j: int| 0 <= j < direct@.len() && #[trigger] direct@[j].id() == rs[k].id(),
        decreases update.remove_seeds.len() - i,
    {
        let seed = update.remove_seeds[i];
        let ghost d0 = direct@;
        let live = certificate_before.is_live(seed);
        let w = certificate_before.witness(seed);
        let by_seed = match w {
            Some(GroundedWitness::Seed) => true,
            _ => false,
        };
        let take = live && by_seed;
        proof {
            assert(rs[i as int] == seed);
            assert(take == (c0.live_at(seed.id() as int) && c0.spec_witness()[seed.id() as int] == Some(GroundedWitness::Seed)));
        }
        if take {
            direct.push(seed);
            proof {
                assert(direct@[d0.len() as int] == seed);
            }
        }
        proof {
            assert forall|k: int| 0 <= k < i + 1 && c0.live_at((#[trigger] rs[k]).id() as int)
                && c0.spec_witness()[rs[k].id() as int] == Some(GroundedWitness::Seed)
                implies exists|j: int| 0 <= j < direct@.len() && #[trigger] direct@[j].id() == rs[k].id() by {
                if k < i {
                    let j = choose|j: int| 0 <= j < d0.len() && #[trigger] d0[j].id() == rs[k].id();
                    assert(direct@[j] == d0[j]);
                } else {
                    assert(direct@[d0.len() as int].id() == rs[k].id());
                }
            }
        }
        i = i + 1;
    }
    proof {
        assert(direct@ == seed_roots(c0, rs, rs.len() as int) + rule_roots(p0, c0, ds, 0));
    }
    let mut i: usize = 0;
    while i < update.disable_rules.len()
        invariant
            i <= update.disable_rules.len(),
            *program == p0,
            program.wf(),
            n == p0.spec_atom_count(),
            update_in_range(p0, *update),
            rs == update.remove_seeds@,
            ds == update.disable_rules@,
            c0 == *certificate_before,
            shape_ok(p0, c0),
            direct@ == seed_roots(c0, rs, rs.len() as int) + rule_roots(p0, c0, ds, i as int),
            forall|k: int| 0 <= k < rs.len() && c0.live_at((#[trigger] rs[k]).id() as int)
                && c0.spec_witness()[rs[k].id() as int] == Some(GroundedWitness::Seed)
                ==> exists|j: int| 0 <= j < direct@.len() && #[trigger] direct@[j].id() == rs[k].id(),
            forall|k: int| 0 <= k < i ==> {
                let rule = p0.spec_rules()[(#[trigger] ds[k]).id() as int];
                rule.spec_enabled() && c0.live_at(rule.spec_head().id() as int)
                    && c0.spec_witness()[rule.spec_head().id() as int] == Some(GroundedWitness::Rule(ds[k]))
                    ==> exists|j: int| 0 <= j < direct@.len() && #[trigger] direct@[j].id() == rule.spec_head().id()
            },
        decreases update.disable_rules.len() - i,
    {
        let rule_id = update.disable_rules[i];
        assert(update.disable_rules@[i as int].id() < p0.spec_rules().len());
        let rule = &program.rules[rule_id.0];
        let ghost d0 = direct@;
        proof {
            assert(ds[i as int] == rule_id);
            assert(p0.spec_rules()[rule_id.id() as int] == *rule);
        }
        let live = certificate_before.is_live(rule.head);
        let by_rule = match certificate_before.witness(rule.head) {
            Some(GroundedWitness::Rule(w)) => w.0 == rule_id.0,
            _ => false,
        };
        proof {
            assert(by_rule == (c0.spec_witness()[rule.spec_head().id() as int] == Some(GroundedWitness::Rule(rule_id)))) by {
                assert(rule.spec_head().id() < n);
                match c0.spec_witness()[rule.spec_head().id() as int] {
                    Some(GroundedWitness::Rule(w)) => {
                        assert(w.0 == rule_id.0 <==> w == rule_id);
                    },
                    _ => {},
                }
            }
        }
        if rule.enabled && live && by_rule {
            direct.push(rule.head);
            proof {
                assert(direct@[d0.len() as int] == rule.head);
            }
        }
        proof {
            assert(direct@ =~= seed_roots(c0, rs, rs.len() as int) + rule_roots(p0, c0, ds, i + 1));
        }
        proof {
            assert forall|k: int| 0 <= k < rs.len() && c0.live_at((#[trigger] rs[k]).id() as int)
                && c0.spec_witness()[rs[k].id() as int] == Some(GroundedWitness::Seed)
                implies exists|j: int| 0 <= j < direct@.len() && #[trigger] direct@[j].id() == rs[k].id() by {
                let j = choose|j: int| 0 <= j < d0.len() && #[trigger] d0[j].id() == rs[k].id();
                assert(direct@[j] == d0[j]);
            }
            assert forall|k: int| 0 <= k < i + 1 implies {
                let rule = p0.spec_rules()[(#[trigger] ds[k]).id() as int];
                rule.spec_enabled() && c0.live_at(rule.spec_head().id() as int)
                    && c0.spec_witness()[rule.spec_head().id() as int] == Some(GroundedWitness::Rule(ds[k]))
                    ==> exists|j: int| 0 <= j < direct@.len() && #[trigger] direct@[j].id() == rule.spec_head().id()
            } by {
                let rule_k = p0.spec_rules()[ds[k].id() as int];
                if rule_k.spec_enabled() && c0.live_at(rule_k.spec_head().id() as int)
                    && c0.spec_witness()[rule_k.spec_head().id() as int] == Some(GroundedWitness::Rule(ds[k])) {
                    if k < i {
                        let j = choose|j: int| 0 <= j < d0.len() && #[trigger] d0[j].id() == rule_k.spec_head().id();
                        assert(direct@[j] == d0[j]);
                    } else {
                        assert(ds[k] == rule_id);
                        assert(p0.spec_rules()[rule_id.id() as int] == *rule);
                        assert(rule_id.0 == rule_id.id());
                        assert(direct@[d0.len() as int].id() == rule_k.spec_head().id());
                    }
                }
            }
        }
        i = i + 1;
    }

    let mut i: usize = 0;
    while i < update.remove_seeds.len()
        invariant
            i <= update.remove_seeds.len(),
            program.wf(),
            same_structure(p0, *program),
            forall|r: int| 0 <= r < p0.spec_rules().len() ==> #[trigger] program.spec_rules()[r] == p0.spec_rules()[r],
            forall|a: GroundedAtomId| program.spec_seeds().contains(a) <==>
                (p0.spec_seeds().contains(a) && !update.remove_seeds@.subrange(0, i as int).contains(a)),
        decreases update.remove_seeds.len() - i,
    {
        let ghost before = *program;
        program.remove_seed(update.remove_seeds[i]);
        proof {
            lemma_same_structure_trans(p0, before, *program);
            let rs = update.remove_seeds@;
            let rs1 = rs.subrange(0, i as int);
            let rs2 = rs.subrange(0, i + 1);
            assert(rs2 =~= rs1.push(rs[i as int]));
            assert forall|a: GroundedAtomId| program.spec_seeds().contains(a) <==>
                (p0.spec_seeds().contains(a) && !rs2.contains(a)) by {
                lemma_push_contains(rs1, rs[i as int], a);
                assert(before.spec_seeds().contains(a) <==> (p0.spec_seeds().contains(a) && !rs1.contains(a)));
                assert(program.spec_seeds().contains(a) <==> (before.spec_seeds().contains(a) && a != rs[i as int]));
            }
        }
        i = i + 1;
    }
    proof {
        let rs = update.remove_seeds@;
        assert(rs.subrange(0, i as int) =~= rs);
        assert forall|a: GroundedAtomId| program.spec_seeds().contains(a) <==>
            (p0.spec_seeds().contains(a) && !rs.contains(a)) by {
            assert(program.spec_seeds().contains(a) <==> (p0.spec_seeds().contains(a) && !rs.subrange(0, i as int).contains(a)));
        }
    }
    let mut i: usize = 0;
    while i < update.disable_rules.len()
        invariant
            i <= update.disable_rules.len(),
            program.wf(),
            update_in_range(p0, *update),
            same_structure(p0, *program),
            forall|a: GroundedAtomId| program.spec_seeds().contains(a) <==>
                (p0.spec_seeds().contains(a) && !update.remove_seeds@.contains(a)),
            forall|r: int| 0 <= r < p0.spec_rules().len() ==> (#[trigger] program.spec_rules()[r]).spec_enabled() ==
                (p0.spec_rules()[r].spec_enabled() && !update.disable_rules@.subrange(0, i as int).contains(rule_at(r))),
        decreases update.disable_rules.len() - i,
    {
        let rule_id = update.disable_rules[i];
        assert(update.disable_rules@[i as int].id() < p0.spec_rules().len());
        let ghost before = *program;
        program.set_rule_enabled(rule_id.0, false);
        proof {
            lemma_same_structure_trans(p0, before, *program);
            let ds = update.disable_rules@;
            let ds1 = ds.subrange(0, i as int);
            let ds2 = ds.subrange(0, i + 1);
            lemma_rule_at(rule_id.id() as int);
            assert(ds2 =~= ds1.push(ds[i as int]));
            assert forall|r: int| 0 <= r < p0.spec_rules().len() implies (#[trigger] program.spec_rules()[r]).spec_enabled() ==
                (p0.spec_rules()[r].spec_enabled() && !ds2.contains(rule_at(r))) by {
                lemma_rule_at(r);
                if r != rule_id.id() {
                    assert(program.spec_rules()[r] == before.spec_rules()[r]);
                    if ds2.contains(rule_at(r)) {
                        let k = choose|k: int| 0 <= k < i + 1 && ds2[k] == rule_at(r);
                        if k == i {
                            assert(ds[i as int] == rule_at(r));
                        }
                        assert(ds1[k] == rule_at(r));
                    }
                    if ds1.contains(rule_at(r)) {
                        let k = choose|k: int| 0 <= k < i && ds1[k] == rule_at(r);
                        assert(ds2[k] == rule_at(r));
                    }
                } else {
                    assert(ds2[i as int] == rule_at(r));
                }
            }
        }
        i = i + 1;
    }
    proof {
        let ds = update.disable_rules@;
        assert(ds.subrange(0, i as int) =~= ds);
        assert forall|r: int| 0 <= r < p0.spec_rules().len() implies (#[trigger] program.spec_rules()[r]).spec_enabled() ==
            (p0.spec_rules()[r].spec_enabled() && !ds.contains(rule_at(r))) by {
            assert(program.spec_rules()[r].spec_enabled() == (p0.spec_rules()[r].spec_enabled() && !ds.subrange(0, i as int).contains(rule_at(r))));
        }
        lemma_same_structure_index(p0, *program, *index);
        lemma_valid_witnesses_in_range(p0, *program, *certificate_before);
    }
    let ghost law = update_validation(p0, *update) is Ok && cert_valid(p0, *certificate_before)
        && 2 * p0.spec_atom_count() + 2 <= usize::MAX
        && ranks_within(*certificate_before, usize::MAX - 2 * p0.spec_atom_count() - 2);
    proof {
        if law {
            lemma_removals_named(p0, *program, *certificate_before, *update, direct@);
        }
    }
    let (mut certificate, mut stats) = if direct.len() == 0 {
        (certificate_before.clone(), GroundedWorkStats::default())
    } else {
        local_recompute_after_deletion_indexed(program, index, certificate_before, &direct)
    };
    proof {
        assert(direct@ == removal_roots(p0, c0, *update));
        if direct@.len() == 0 {
            lemma_cone_count_no_roots(p0, c0, direct@, n as int);
        } else {
            lemma_same_structure_sym(p0, *program);
            lemma_cone_count_same_structure(*program, p0, c0, direct@, n as int);
        }
        assert(stats.affected_atoms == cone_count(p0, c0, removal_roots(p0, c0, *update), n as int));
    }
    let ghost affected = stats.affected_atoms;

    let ghost p1 = *program;
    proof {
        if law {
            if direct@.len() == 0 {
                lemma_nothing_named(p1, *certificate_before, direct@);
                lemma_valid_same_views(p1, *certificate_before, certificate);
                assert(ranks_within(certificate, usize::MAX - p0.spec_atom_count() - 2)) by {
                    assert(ranks_within(*certificate_before, usize::MAX - p0.spec_atom_count() - 2)) by {
                        assert forall|a: int| 0 <= a < certificate_before.spec_live().len() && #[trigger] certificate_before.spec_live()[a]
                            implies (certificate_before.spec_rank()[a] matches Some(r) && r <= usize::MAX - p0.spec_atom_count() - 2) by {}
                    }
                }
            }
            assert(cert_valid(p1, certificate));
            assert(ranks_within(certificate, usize::MAX - p0.spec_atom_count() - 2));
        }
    }
    let mut i: usize = 0;
    while i < update.add_seeds.len()
        invariant
            i <= update.add_seeds.len(),
            program.wf(),
            update_in_range(p0, *update),
            same_structure(p0, *program),
            program.spec_rules() == p1.spec_rules(),
            forall|r: int| 0 <= r < p0.spec_rules().len() ==> (#[trigger] p1.spec_rules()[r]).spec_enabled() ==
                (p0.spec_rules()[r].spec_enabled() && !update.disable_rules@.contains(rule_at(r))),
            forall|a: GroundedAtomId| program.spec_seeds().contains(a) <==>
                ((p0.spec_seeds().contains(a) && !update.remove_seeds@.contains(a)) || update.add_seeds@.subrange(0, i as int).contains(a)),
        decreases update.add_seeds.len() - i,
    {
        assert(update.add_seeds@[i as int].id() < p0.spec_atom_count());
        let ghost before = *program;
        program.add_seed(update.add_seeds[i]);
        proof {
            lemma_same_structure_trans(p0, before, *program);
            let xs = update.add_seeds@;
            let xs1 = xs.subrange(0, i as int);
            let xs2 = xs.subrange(0, i + 1);
            assert(xs2 =~= xs1.push(xs[i as int]));
            assert forall|a: GroundedAtomId| program.spec_seeds().contains(a) <==>
                ((p0.spec_seeds().contains(a) && !update.remove_seeds@.contains(a)) || xs2.contains(a)) by {
                lemma_push_contains(xs1, xs[i as int], a);
            }
        }
        i = i + 1;
    }
    proof {
        let xs = update.add_seeds@;
        assert(xs.subrange(0, i as int) =~= xs);
        assert forall|a: GroundedAtomId| program.spec_seeds().contains(a) <==>
            ((p0.spec_seeds().contains(a) && !update.remove_seeds@.contains(a)) || xs.contains(a)) by {
            assert(program.spec_seeds().contains(a) <==>
                ((p0.spec_seeds().contains(a) && !update.remove_seeds@.contains(a)) || xs.subrange(0, i as int).contains(a)));
        }
    }
    let ghost p2 = *program;
    let mut i: usize = 0;
    while i < update.enable_rules.len()
        invariant
            i <= update.enable_rules.len(),
            program.wf(),
            update_in_range(p0, *update),
            same_structure(p0, *program),
            program.spec_seeds() == p2.spec_seeds(),
            p1.spec_rules().len() == p0.spec_rules().len(),
            forall|a: GroundedAtomId| p2.spec_seeds().contains(a) <==>
                ((p0.spec_seeds().contains(a) && !update.remove_seeds@.contains(a)) || update.add_seeds@.contains(a)),
            forall|r: int| 0 <= r < p0.spec_rules().len() ==> (#[trigger] p1.spec_rules()[r]).spec_enabled() ==
                (p0.spec_rules()[r].spec_enabled() && !update.disable_rules@.contains(rule_at(r))),
            forall|r: int| 0 <= r < p0.spec_rules().len() ==> (#[trigger] program.spec_rules()[r]).spec_enabled() ==
                (update.enable_rules@.subrange(0, i as int).contains(rule_at(r)) || p1.spec_rules()[r].spec_enabled()),
            p2.spec_rules() == p1.spec_rules(),
        decreases update.enable_rules.len() - i,
    {
        let rule_id = update.enable_rules[i];
        assert(update.enable_rules@[i as int].id() < p0.spec_rules().len());
        let ghost before = *program;
        program.set_rule_enabled(rule_id.0, true);
        proof {
            lemma_same_structure_trans(p0, before, *program);
            let es = update.enable_rules@;
            let es1 = es.subrange(0, i as int);
            let es2 = es.subrange(0, i + 1);
            lemma_rule_at(rule_id.id() as int);
            assert(es2 =~= es1.push(es[i as int]));
            assert forall|r: int| 0 <= r < p0.spec_rules().len() implies (#[trigger] program.spec_rules()[r]).spec_enabled() ==
                (es2.contains(rule_at(r)) || p1.spec_rules()[r].spec_enabled()) by {
                lemma_rule_at(r);
                if r != rule_id.id() {
                    assert(program.spec_rules()[r] == before.spec_rules()[r]);
                    if es2.contains(rule_at(r)) {
                        let k = choose|k: int| 0 <= k < i + 1 && es2[k] == rule_at(r);
                        if k == i {
                            assert(es[i as int] == rule_at(r));
                        }
                        assert(es1[k] == rule_at(r));
                    }
                    if es1.contains(rule_at(r)) {
                        let k = choose|k: int| 0 <= k < i && es1[k] == rule_at(r);
                        assert(es2[k] == rule_at(r));
                    }
                } else {
                    assert(es2[i as int] == rule_at(r));
                }
            }
        }
        i = i + 1;
    }
    proof {
        let es = update.enable_rules@;
        assert(es.subrange(0, i as int) =~= es);
        assert forall|r: int| 0 <= r < p0.spec_rules().len() implies (#[trigger] program.spec_rules()[r]).spec_enabled() ==
            (es.contains(rule_at(r)) || (p0.spec_rules()[r].spec_enabled() && !update.disable_rules@.contains(rule_at(r)))) by {
            assert(program.spec_rules()[r].spec_enabled() == (es.subrange(0, i as int).contains(rule_at(r)) || p1.spec_rules()[r].spec_enabled()));
            assert(p1.spec_rules()[r].spec_enabled() == (p0.spec_rules()[r].spec_enabled() && !update.disable_rules@.contains(rule_at(r))));
        }
        lemma_same_structure_index(p0, *program, *index);
        if law {
            lemma_same_structure_sym(p0, p1);
            lemma_same_structure_trans(p1, p0, *program);
            assert(inserts_from(p1, *program, *update)) by {
                assert forall|a: GroundedAtomId| #[trigger] program.spec_seeds().contains(a) <==> (p1.spec_seeds().contains(a) || update.add_seeds@.contains(a)) by {}
                assert forall|r: int| 0 <= r < program.spec_rules().len() implies (#[trigger] program.spec_rules()[r]).spec_enabled()
                    == (p1.spec_rules()[r].spec_enabled() || update.enable_rules@.contains(rule_at(r))) by {
                    assert(p1.spec_rules()[r].spec_enabled() == (p0.spec_rules()[r].spec_enabled() && !update.disable_rules@.contains(rule_at(r))));
                }
            }
        }
    }
    incremental_insertions(program, index, &mut certificate, update, &mut stats, Ghost(p1), Ghost(usize::MAX - p0.spec_atom_count() - 2));
    match check(program, &certificate) {
        Ok(()) => Ok((certificate, stats)),
        Err(e) => Err(e),
    }
}

/// Applies `update` to `program`, repairing the certificate `old`; see `apply_update_indexed`.
pub fn apply_update(
    program: &mut GroundedProgram,
    certificate_before: &GroundedCertificate,
    update: &GroundedUpdate,
) -> (result: Result<(GroundedCertificate, GroundedWorkStats), GroundedClosureError>)
    requires
        old(program).wf(),
    ensures
        final(program).wf(),
        update_validation(*old(program), *update) matches Err(e) ==> result == Err::<(GroundedCertificate, GroundedWorkStats), GroundedClosureError>(e) && *final(program) == *old(program),
        update_validation(*old(program), *update) is Ok ==> (check_result(*old(program), *certificate_before) matches Err(e) ==>
            result == Err::<(GroundedCertificate, GroundedWorkStats), GroundedClosureError>(e) && *final(program) == *old(program)),
        update_validation(*old(program), *update) is Ok && check_result(*old(program), *certificate_before) is Ok ==> updated_program(*old(program), *final(program), *update),
        result matches Ok((c, _)) ==> cert_valid(*final(program), c) && is_least_model(*final(program), c.spec_live()),
        update_validation(*old(program), *update) is Ok && cert_valid(*old(program), *certificate_before)
            && 2 * old(program).spec_atom_count() + 2 <= usize::MAX
            && ranks_within(*certificate_before, usize::MAX - 2 * old(program).spec_atom_count() - 2) ==> result is Ok,
        result matches Ok((_, s)) ==> s.affected_atoms == cone_count(*old(program), *certificate_before,
            removal_roots(*old(program), *certificate_before, *update), old(program).spec_atom_count() as int),
{
    match validate_update(program, update) {
        Ok(()) => {},
        Err(e) => {
            return Err(e);
        },
    }
    match check(program, certificate_before) {
        Ok(()) => {},
        Err(e) => {
            return Err(e);
        },
    }
    let index = GroundedIncidenceIndex::compile(program);
    apply_update_indexed(program, &index, certificate_before, update)
}


/// Two rules with the same head, body and enabled flag.
pub open spec fn same_rule(a: GroundedRule, b: GroundedRule) -> bool {
    &&& a.spec_head() == b.spec_head()
    &&& a.spec_body() == b.spec_body()
    &&& a.spec_enabled() == b.spec_enabled()
}

/// Some entry of `direct` is atom `a`.
spec fn named_in(direct: Seq<GroundedAtomId>, a: int) -> bool {
    exists|j: int| 0 <= j < direct.len() && #[trigger] direct[j].id() == a
}

/// Atom `k` of `rem` carries the witness of `old` carried over to the new
/// program, or none when that witness did not carry over and `direct` names `k`.
spec fn carried_at(po: GroundedProgram, pn: GroundedProgram, old: GroundedCertificate, rem: GroundedCertificate, o2n: Seq<Option<GroundedRuleId>>, direct: Seq<GroundedAtomId>, k: int) -> bool {
    if old.spec_live()[k] {
        match old.spec_witness()[k] {
            Some(GroundedWitness::Seed) => if pn.is_seed(k) {
                rem.spec_witness()[k] == Some(GroundedWitness::Seed)
            } else {
                rem.spec_witness()[k] is None && named_in(direct, k)
            },
            Some(GroundedWitness::Rule(o)) => match o2n[o.id() as int] {
                Some(nr) => rem.spec_witness()[k] == Some(GroundedWitness::Rule(nr)),
                None => rem.spec_witness()[k] is None && named_in(direct, k),
            },
            None => false,
        }
    } else {
        rem.spec_witness()[k] is None
    }
}

proof fn lemma_named_push(d: Seq<GroundedAtomId>, x: GroundedAtomId)
    ensures
        forall|a: int| #[trigger] named_in(d.push(x), a) <== named_in(d, a) || a == x.id(),
{
    assert forall|a: int| named_in(d, a) || a == x.id() implies #[trigger] named_in(d.push(x), a) by {
        if named_in(d, a) {
            let j = choose|j: int| 0 <= j < d.len() && #[trigger] d[j].id() == a;
            assert(d.push(x)[j] == d[j]);
        } else {
            assert(d.push(x)[d.len() as int] == x);
        }
    }
}

/// The carried-over certificate is valid for the program that keeps only the
/// old seeds and the matched rules, except at the atoms named in `direct`.
proof fn lemma_carried_valid(
    po: GroundedProgram,
    pn: GroundedProgram,
    base: GroundedProgram,
    old: GroundedCertificate,
    rem: GroundedCertificate,
    o2n: Seq<Option<GroundedRuleId>>,
    matched: Seq<bool>,
    direct: Seq<GroundedAtomId>,
)
    requires
        po.wf(),
        pn.wf(),
        base.wf(),
        cert_valid(po, old),
        po.spec_atom_count() <= pn.spec_atom_count(),
        same_structure(pn, base),
        forall|a: int| #[trigger] base.is_seed(a) <==> pn.is_seed(a) && po.is_seed(a),
        forall|r: int| 0 <= r < pn.spec_rules().len() ==> (#[trigger] base.spec_rules()[r]).spec_enabled() == (pn.spec_rules()[r].spec_enabled() && matched[r]),
        o2n.len() == po.spec_rules().len(),
        matched.len() == pn.spec_rules().len(),
        forall|k: int| 0 <= k < po.spec_rules().len() ==> (#[trigger] o2n[k] matches Some(x) ==>
            x.id() < pn.spec_rules().len() && matched[x.id() as int] && same_rule(po.spec_rules()[k], pn.spec_rules()[x.id() as int])),
        forall|x: int| 0 <= x < pn.spec_rules().len() && #[trigger] matched[x] ==>
            exists|k: int| 0 <= k < po.spec_rules().len() && o2n[k] == Some(rule_at(x)),
        shape_ok(pn, rem),
        forall|k: int| 0 <= k < po.spec_atom_count() ==> #[trigger] rem.spec_live()[k] == old.spec_live()[k] && rem.spec_rank()[k] == old.spec_rank()[k],
        forall|k: int| po.spec_atom_count() <= k < pn.spec_atom_count() ==> !(#[trigger] rem.spec_live()[k]) && rem.spec_rank()[k] is None && rem.spec_witness()[k] is None,
        forall|k: int| 0 <= k < po.spec_atom_count() ==> #[trigger] carried_at(po, pn, old, rem, o2n, direct, k),
    ensures
        valid_except_named(base, rem, direct),
{
    let on = po.spec_atom_count();
    assert forall|a: int| 0 <= a < base.spec_atom_count() implies #[trigger] atom_justified(base, rem, a) || live_direct(rem, direct, a) by {
        if a < on {
            assert(atom_justified(po, old, a));
            assert(carried_at(po, pn, old, rem, o2n, direct, a));
            if old.spec_live()[a] {
                match (old.spec_rank()[a], old.spec_witness()[a]) {
                    (Some(r), Some(GroundedWitness::Seed)) => {
                        if pn.is_seed(a) {
                            assert(base.is_seed(a));
                        }
                    },
                    (Some(r), Some(GroundedWitness::Rule(o))) => {
                        match o2n[o.id() as int] {
                            Some(nr) => {
                                let rule = pn.spec_rules()[nr.id() as int];
                                assert(same_rule(po.spec_rules()[o.id() as int], rule));
                                assert(base.spec_rules()[nr.id() as int].spec_enabled());
                                assert(base.spec_rules()[nr.id() as int].spec_body() == rule.spec_body());
                                assert(atoms_below(po.spec_rules()[o.id() as int].spec_body(), on)) by {
                                    assert(po.spec_rules()[o.id() as int].spec_head().id() < on);
                                }
                                assert forall|k: int| 0 <= k < rule.spec_body().len() implies {
                                    let q = #[trigger] rule.spec_body()[k].id() as int;
                                    &&& rem.spec_live()[q]
                                    &&& rem.spec_rank()[q] matches Some(pr) && pr < r
                                } by {
                                    let q = rule.spec_body()[k].id() as int;
                                    assert(po.spec_rules()[o.id() as int].spec_body()[k].id() == q);
                                    assert(rem.spec_live()[q] == old.spec_live()[q] && rem.spec_rank()[q] == old.spec_rank()[q]);
                                }
                            },
                            None => {},
                        }
                    },
                    _ => {},
                }
            }
        }
    }
    assert forall|k: int| 0 <= k < base.spec_seeds().len() implies rem.spec_live()[#[trigger] base.spec_seeds()[k].id() as int] by {
        let a = base.spec_seeds()[k].id() as int;
        assert(base.is_seed(a));
        assert(po.is_seed(a));
        let k0 = choose|k0: int| 0 <= k0 < po.spec_seeds().len() && #[trigger] po.spec_seeds()[k0].id() == a;
        assert(old.spec_live()[po.spec_seeds()[k0].id() as int]);
        assert(a < on);
    }
    assert forall|r: int| 0 <= r < base.spec_rules().len() && #[trigger] base.spec_rules()[r].spec_enabled()
        && body_live(base.spec_rules()[r], rem.spec_live()) implies rem.spec_live()[base.spec_rules()[r].spec_head().id() as int] by {
        assert(matched[r]);
        let k = choose|k: int| 0 <= k < po.spec_rules().len() && o2n[k] == Some(rule_at(r));
        lemma_rule_at(r);
        let ro = po.spec_rules()[k];
        assert(same_rule(ro, pn.spec_rules()[r]));
        assert(ro.spec_enabled());
        assert(ro.spec_head().id() < on);
        assert(atoms_below(ro.spec_body(), on));
        assert(body_live(ro, old.spec_live())) by {
            assert forall|j: int| 0 <= j < ro.spec_body().len() implies old.spec_live()[#[trigger] ro.spec_body()[j].id() as int] by {
                assert(base.spec_rules()[r].spec_body()[j] == ro.spec_body()[j]);
                assert(rem.spec_live()[ro.spec_body()[j].id() as int]);
            }
        }
    }
}

/// The first new rule at or after `j`, not yet matched, with the head, body
/// and enabled flag of `rule`.
pub open spec fn first_unmatched(pn: GroundedProgram, matched: Seq<bool>, rule: GroundedRule, j: int) -> Option<int>
    decreases pn.spec_rules().len() - j,
{
    if j < 0 || j >= pn.spec_rules().len() {
        None
    } else if !matched[j] && same_rule(pn.spec_rules()[j], rule) {
        Some(j)
    } else {
        first_unmatched(pn, matched, rule, j + 1)
    }
}

/// The matching of the first `i` old rules to new ones: each old rule takes
/// the first unmatched new rule that is the same rule, if any.
pub open spec fn rule_matching(po: GroundedProgram, pn: GroundedProgram, i: int) -> (Seq<Option<int>>, Seq<bool>)
    decreases i,
{
    if i <= 0 {
        (Seq::empty(), Seq::new(pn.spec_rules().len(), |x: int| false))
    } else {
        let (o, m) = rule_matching(po, pn, i - 1);
        match first_unmatched(pn, m, po.spec_rules()[i - 1], 0) {
            Some(x) => (o.push(Some(x)), m.update(x, true)),
            None => (o.push(None), m),
        }
    }
}

/// Atom `a`, live in `old`, loses its witness in the new program: a seed
/// that the new program drops, or a rule that no new rule matches.
pub open spec fn witness_lost(pn: GroundedProgram, old: GroundedCertificate, o2n: Seq<Option<int>>, a: int) -> bool {
    match old.spec_witness()[a] {
        Some(GroundedWitness::Seed) => !pn.is_seed(a),
        Some(GroundedWitness::Rule(o)) => o2n[o.id() as int] is None,
        None => false,
    }
}

/// The live atoms below `k` that lose their witness, in increasing order.
pub open spec fn carried_roots(pn: GroundedProgram, old: GroundedCertificate, o2n: Seq<Option<int>>, k: int) -> Seq<GroundedAtomId>
    decreases k,
{
    if k <= 0 {
        Seq::empty()
    } else {
        let prev = carried_roots(pn, old, o2n, k - 1);
        if old.spec_live()[k - 1] && witness_lost(pn, old, o2n, k - 1) {
            prev.push(atom_at(k - 1))
        } else {
            prev
        }
    }
}

/// An atom of a witness cone is live.
proof fn lemma_cone_live(p: GroundedProgram, c: GroundedCertificate, direct: Seq<GroundedAtomId>, b: int)
    requires
        in_witness_cone(p, c, direct, b),
    ensures
        c.live_at(b),
{
    let path = choose|path: Seq<int>| #[trigger] is_path(witness_edges(p, c), path) && live_direct(c, direct, path[0]) && path.last() == b;
    if path.len() > 1 {
        assert(path_step(witness_edges(p, c), path, path.len() - 2));
    }
}

/// The selected-witness edges of the carried-over certificate are those of
/// the old certificate, except the edges into the atoms that lost their witness.
proof fn lemma_carried_edges(
    po: GroundedProgram,
    pn: GroundedProgram,
    base: GroundedProgram,
    old: GroundedCertificate,
    rem: GroundedCertificate,
    o2n: Seq<Option<GroundedRuleId>>,
    direct: Seq<GroundedAtomId>,
)
    requires
        po.wf(),
        pn.wf(),
        cert_valid(po, old),
        po.spec_atom_count() <= pn.spec_atom_count(),
        same_structure(pn, base),
        o2n.len() == po.spec_rules().len(),
        forall|k: int| 0 <= k < po.spec_rules().len() ==> (#[trigger] o2n[k] matches Some(x) ==>
            x.id() < pn.spec_rules().len() && same_rule(po.spec_rules()[k], pn.spec_rules()[x.id() as int])),
        shape_ok(pn, rem),
        forall|k: int| 0 <= k < po.spec_atom_count() ==> #[trigger] rem.spec_live()[k] == old.spec_live()[k] && rem.spec_rank()[k] == old.spec_rank()[k],
        forall|k: int| po.spec_atom_count() <= k < pn.spec_atom_count() ==> !(#[trigger] rem.spec_live()[k]) && rem.spec_rank()[k] is None && rem.spec_witness()[k] is None,
        forall|k: int| 0 <= k < po.spec_atom_count() ==> #[trigger] carried_at(po, pn, old, rem, o2n, direct, k),
    ensures
        forall|d: int| #[trigger] live_direct(rem, direct, d) <==> live_direct(old, direct, d),
        forall|a: int, b: int| #[trigger] witness_child(base, rem, a, b) ==> witness_child(po, old, a, b),
        forall|a: int, b: int| !live_direct(old, direct, b) && #[trigger] witness_child(po, old, a, b) ==> witness_child(base, rem, a, b),
{
    let on = po.spec_atom_count();
    assert forall|d: int| #[trigger] live_direct(rem, direct, d) <==> live_direct(old, direct, d) by {
        if 0 <= d < on {
            assert(rem.spec_live()[d] == old.spec_live()[d]);
        }
    }
    assert forall|a: int, b: int| #[trigger] witness_child(base, rem, a, b) implies witness_child(po, old, a, b) by {
        assert(0 <= b < on) by {
            if b >= on {
                assert(!rem.spec_live()[b]);
            }
        }
        assert(carried_at(po, pn, old, rem, o2n, direct, b));
        assert(atom_justified(po, old, b));
        match old.spec_witness()[b] {
            Some(GroundedWitness::Rule(o)) => {
                let x = o2n[o.id() as int]->0;
                assert(same_rule(po.spec_rules()[o.id() as int], pn.spec_rules()[x.id() as int]));
                assert(base.spec_rules()[x.id() as int].spec_body() == pn.spec_rules()[x.id() as int].spec_body());
            },
            _ => {},
        }
    }
    assert forall|a: int, b: int| !live_direct(old, direct, b) && #[trigger] witness_child(po, old, a, b) implies witness_child(base, rem, a, b) by {
        assert(0 <= b < on);
        assert(carried_at(po, pn, old, rem, o2n, direct, b));
        assert(atom_justified(po, old, b));
        match old.spec_witness()[b] {
            Some(GroundedWitness::Rule(o)) => {
                if o2n[o.id() as int] is None {
                    assert(named_in(direct, b));
                    assert(live_direct(old, direct, b));
                }
                let x = o2n[o.id() as int]->0;
                assert(same_rule(po.spec_rules()[o.id() as int], pn.spec_rules()[x.id() as int]));
                assert(base.spec_rules()[x.id() as int].spec_body() == pn.spec_rules()[x.id() as int].spec_body());
            },
            _ => {},
        }
    }
}

proof fn lemma_cone_into_old(po: GroundedProgram, base: GroundedProgram, old: GroundedCertificate, rem: GroundedCertificate, direct: Seq<GroundedAtomId>, b: int)
    requires
        forall|d: int| #[trigger] live_direct(rem, direct, d) ==> live_direct(old, direct, d),
        forall|a: int, c: int| #[trigger] witness_child(base, rem, a, c) ==> witness_child(po, old, a, c),
        in_witness_cone(base, rem, direct, b),
    ensures
        in_witness_cone(po, old, direct, b),
{
    let in_old = |x: int| in_witness_cone(po, old, direct, x);
    assert forall|d: int| #[trigger] live_direct(rem, direct, d) implies in_old(d) by {
        lemma_cone_start(po, old, direct, d);
    }
    assert forall|x: int, c: int| in_old(x) && #[trigger] witness_child(base, rem, x, c) implies in_old(c) by {
        lemma_cone_step(po, old, direct, x, c);
    }
    lemma_cone_within(base, rem, direct, in_old, b);
}

proof fn lemma_cone_into_carried(po: GroundedProgram, base: GroundedProgram, old: GroundedCertificate, rem: GroundedCertificate, direct: Seq<GroundedAtomId>, b: int)
    requires
        forall|d: int| #[trigger] live_direct(old, direct, d) ==> live_direct(rem, direct, d),
        forall|a: int, c: int| !live_direct(old, direct, c) && #[trigger] witness_child(po, old, a, c) ==> witness_child(base, rem, a, c),
        in_witness_cone(po, old, direct, b),
    ensures
        in_witness_cone(base, rem, direct, b),
{
    let in_rem = |x: int| in_witness_cone(base, rem, direct, x);
    assert forall|d: int| #[trigger] live_direct(old, direct, d) implies in_rem(d) by {
        lemma_cone_start(base, rem, direct, d);
    }
    assert forall|x: int, c: int| in_rem(x) && #[trigger] witness_child(po, old, x, c) implies in_rem(c) by {
        if live_direct(old, direct, c) {
            lemma_cone_start(base, rem, direct, c);
        } else {
            lemma_cone_step(base, rem, direct, x, c);
        }
    }
    lemma_cone_within(po, old, direct, in_rem, b);
}

proof fn lemma_cone_count_equal(p: GroundedProgram, c: GroundedCertificate, q: GroundedProgram, d: GroundedCertificate, direct: Seq<GroundedAtomId>, k: int)
    requires
        forall|b: int| 0 <= b < k ==> (#[trigger] in_witness_cone(p, c, direct, b) <==> in_witness_cone(q, d, direct, b)),
    ensures
        cone_count(p, c, direct, k) == cone_count(q, d, direct, k),
    decreases k,
{
    if k > 0 {
        lemma_cone_count_equal(p, c, q, d, direct, k - 1);
        assert(in_witness_cone(p, c, direct, k - 1) <==> in_witness_cone(q, d, direct, k - 1));
    }
}

proof fn lemma_cone_count_tail(p: GroundedProgram, c: GroundedCertificate, direct: Seq<GroundedAtomId>, lo: int, k: int)
    requires
        0 <= lo <= k,
        forall|b: int| lo <= b < k ==> !#[trigger] in_witness_cone(p, c, direct, b),
    ensures
        cone_count(p, c, direct, k) == cone_count(p, c, direct, lo),
    decreases k,
{
    if k > lo {
        lemma_cone_count_tail(p, c, direct, lo, k - 1);
    }
}

/// Two rules have the same head, body and enabled flag.
fn same_rule_key(a: &GroundedRule, b: &GroundedRule) -> (same: bool)
    ensures
        same <==> (a.spec_head() == b.spec_head() && a.spec_body() == b.spec_body() && a.spec_enabled() == b.spec_enabled()),
{
    if a.head.0 != b.head.0 || a.enabled != b.enabled || a.body.len() != b.body.len() {
        proof {
            if a.spec_head() == b.spec_head() {
                assert(a.head.0 == b.head.0);
            }
        }
        return false;
    }
    let mut k: usize = 0;
    while k < a.body.len()
        invariant
            k <= a.body.len(),
            a.body@.len() == b.body@.len(),
            forall|j: int| 0 <= j < k ==> a.body@[j] == b.body@[j],
        decreases a.body.len() - k,
    {
        if a.body[k].0 != b.body[k].0 {
            proof {
                a.body@[k as int].lemma_id_injective(b.body@[k as int]);
            }
            return false;
        }
        proof {
            a.body@[k as int].lemma_id_injective(b.body@[k as int]);
        }
        k = k + 1;
    }
    proof {
        a.head.lemma_id_injective(b.head);
        assert(a.body@ =~= b.body@);
    }
    true
}

/// Carries a certificate across a structural program change (growing universe,
/// inserted, removed, reordered or rewritten rules): surviving witnesses are
/// remapped to their rule's new position, lost witnesses invalidate their cone
/// (re-derived under the new program with only the old seeds and the matched
/// rules), and new seeds and rules extend the closure. The result is checked.
#[verifier::spinoff_prover]
pub fn reconcile_structural_change(
    old_program: &GroundedProgram,
    new_program: &GroundedProgram,
    certificate_before: &GroundedCertificate,
) -> (result: Result<(GroundedCertificate, GroundedWorkStats), GroundedClosureError>)
    requires
        old_program.wf(),
        new_program.wf(),
    ensures
        check_result(*old_program, *certificate_before) matches Err(e) ==> result == Err::<(GroundedCertificate, GroundedWorkStats), GroundedClosureError>(e),
        check_result(*old_program, *certificate_before) is Ok && new_program.spec_atom_count() < old_program.spec_atom_count() ==>
            result == Err::<(GroundedCertificate, GroundedWorkStats), GroundedClosureError>(GroundedClosureError::StructuralUniverseShrank {
                old_atom_count: old_program.spec_atom_count() as usize,
                new_atom_count: new_program.spec_atom_count() as usize,
            }),
        result matches Ok((c, _)) ==> cert_valid(*new_program, c) && is_least_model(*new_program, c.spec_live()),
        check_result(*old_program, *certificate_before) is Ok && new_program.spec_atom_count() >= old_program.spec_atom_count()
            && 2 * new_program.spec_atom_count() + 2 <= usize::MAX
            && ranks_within(*certificate_before, usize::MAX - 2 * new_program.spec_atom_count() - 2) ==> result is Ok,
        result matches Ok((_, s)) ==> s.affected_atoms == cone_count(*old_program, *certificate_before,
            carried_roots(*new_program, *certificate_before, rule_matching(*old_program, *new_program, old_program.spec_rules().len() as int).0,
                old_program.spec_atom_count() as int),
            old_program.spec_atom_count() as int),
{
    proof {
        lemma_check_result_ok(*old_program, *certificate_before);
        lemma_validation_ok(old_program.spec_atom_count(), old_program.spec_seeds(), old_program.spec_rules());
        lemma_validation_ok(new_program.spec_atom_count(), new_program.spec_seeds(), new_program.spec_rules());
    }
    match old_program.validate() {
        Ok(()) => {},
        Err(e) => {
            return Err(e);
        },
    }
    match new_program.validate() {
        Ok(()) => {},
        Err(e) => {
            return Err(e);
        },
    }
    match check(old_program, certificate_before) {
        Ok(()) => {},
        Err(e) => {
            return Err(e);
        },
    }
    let old_n = old_program.atom_count;
    let new_n = new_program.atom_count;
    if new_n < old_n {
        return Err(GroundedClosureError::StructuralUniverseShrank { old_atom_count: old_n, new_atom_count: new_n });
    }
    let ghost po = *old_program;
    let ghost pn = *new_program;
    let old_rc = old_program.rules.len();
    let new_rc = new_program.rules.len();
    let mut old_to_new: Vec<Option<GroundedRuleId>> = filled(None, old_rc);
    let mut matched_new_rule = filled(false, new_rc);
    let mut i: usize = 0;
    while i < old_rc
        invariant
            i <= old_rc,
            old_rc == po.spec_rules().len(),
            new_rc == pn.spec_rules().len(),
            po == *old_program,
            pn == *new_program,
            old_to_new@.len() == old_rc,
            matched_new_rule@.len() == new_rc,
            forall|k: int| 0 <= k < old_rc ==> (#[trigger] old_to_new@[k] matches Some(x) ==>
                x.id() < new_rc && matched_new_rule@[x.id() as int] && same_rule(po.spec_rules()[k], pn.spec_rules()[x.id() as int])),
            forall|x: int| 0 <= x < new_rc && #[trigger] matched_new_rule@[x] ==>
                exists|k: int| 0 <= k < old_rc && old_to_new@[k] == Some(rule_at(x)),
            forall|k: int| i <= k < old_rc ==> #[trigger] old_to_new@[k] is None,
            rule_matching(po, pn, i as int).0.len() == i,
            matched_new_rule@ == rule_matching(po, pn, i as int).1,
            forall|k: int| 0 <= k < i ==> (#[trigger] old_to_new@[k] matches Some(r) ==> rule_matching(po, pn, i as int).0[k] == Some(r.id() as int))
                && (old_to_new@[k] is None ==> rule_matching(po, pn, i as int).0[k] is None),
        decreases old_rc - i,
    {
        let rule = &old_program.rules[i];
        let mut j: usize = 0;
        let mut found: Option<usize> = None;
        while j < new_rc && found.is_none()
            invariant
                j <= new_rc,
                new_rc == pn.spec_rules().len(),
                pn == *new_program,
                i < old_rc,
                old_rc == po.spec_rules().len(),
                po == *old_program,
                *rule == po.spec_rules()[i as int],
                matched_new_rule@.len() == new_rc,
                found matches Some(x) ==> x < new_rc && !matched_new_rule@[x as int] && same_rule(*rule, pn.spec_rules()[x as int]),
                found is None ==> first_unmatched(pn, matched_new_rule@, *rule, 0) == first_unmatched(pn, matched_new_rule@, *rule, j as int),
                found matches Some(x) ==> first_unmatched(pn, matched_new_rule@, *rule, 0) == Some(x as int),
            decreases new_rc - j,
        {
            if !matched_new_rule[j] && same_rule_key(&new_program.rules[j], rule) {
                found = Some(j);
            }
            j = j + 1;
        }
        proof {
            if found is None {
                assert(first_unmatched(pn, matched_new_rule@, *rule, j as int) is None);
            }
        }
        let ghost step_before = rule_matching(po, pn, i as int);
        proof {
            assert(step_before.1 == matched_new_rule@);
        }
        let ghost o2n_entry = old_to_new@;
        if let Some(x) = found {
            proof {
                lemma_rule_at(x as int);
            }
            let ghost o2n_before = old_to_new@;
            let ghost matched_before = matched_new_rule@;
            old_to_new.set(i, Some(GroundedRuleId(x)));
            matched_new_rule.set(x, true);
            proof {
                assert(GroundedRuleId(x) == rule_at(x as int));
                assert forall|k: int| 0 <= k < old_rc implies (#[trigger] old_to_new@[k] matches Some(y) ==>
                    y.id() < new_rc && matched_new_rule@[y.id() as int] && same_rule(po.spec_rules()[k], pn.spec_rules()[y.id() as int])) by {
                    if k != i {
                        assert(old_to_new@[k] == o2n_before[k]);
                    }
                }
                assert forall|y: int| 0 <= y < new_rc && #[trigger] matched_new_rule@[y] implies
                    exists|k: int| 0 <= k < old_rc && old_to_new@[k] == Some(rule_at(y)) by {
                    if y == x {
                        assert(old_to_new@[i as int] == Some(rule_at(y)));
                    } else {
                        assert(matched_before[y]);
                        let k = choose|k: int| 0 <= k < old_rc && o2n_before[k] == Some(rule_at(y));
                        assert(k != i) by {
                            if k == i {
                                assert(o2n_before[k] is None);
                            }
                        }
                        assert(old_to_new@[k] == Some(rule_at(y)));
                    }
                }
            }
        }
        proof {
            let next = rule_matching(po, pn, i + 1);
            assert(next.1 == matched_new_rule@);
            assert(next.0.len() == i + 1);
            assert forall|k: int| 0 <= k < i + 1 implies (#[trigger] old_to_new@[k] matches Some(r) ==> next.0[k] == Some(r.id() as int))
                && (old_to_new@[k] is None ==> next.0[k] is None) by {
                if k < i {
                    assert(old_to_new@[k] == o2n_entry[k]);
                    assert(next.0[k] == step_before.0[k]);
                } else {
                    if let Some(x) = found {
                        assert(old_to_new@[k] == Some(GroundedRuleId(x)));
                    }
                }
            }
        }
        i = i + 1;
    }

    let ghost o2s = rule_matching(po, pn, old_rc as int).0;
    let mut remapped = certificate_before.clone();
    let mut a: usize = old_n;
    while a < new_n
        invariant
            old_n <= a <= new_n,
            remapped.spec_live().len() == a,
            remapped.spec_rank().len() == a,
            remapped.spec_witness().len() == a,
            forall|k: int| 0 <= k < old_n ==> #[trigger] remapped.spec_witness()[k] == certificate_before.spec_witness()[k],
            forall|k: int| 0 <= k < old_n ==> #[trigger] remapped.spec_live()[k] == certificate_before.spec_live()[k]
                && remapped.spec_rank()[k] == certificate_before.spec_rank()[k],
            forall|k: int| old_n <= k < a ==> #[trigger] remapped.spec_witness()[k] is None,
            forall|k: int| old_n <= k < a ==> !(#[trigger] remapped.spec_live()[k]) && remapped.spec_rank()[k] is None,
            shape_ok(po, *certificate_before),
            old_n == po.spec_atom_count(),
        decreases new_n - a,
    {
        remapped.live.push(false);
        remapped.rank.push(None);
        remapped.witness.push(None);
        a = a + 1;
    }
    let mut direct: Vec<GroundedAtomId> = Vec::new();
    let mut atom_index: usize = 0;
    while atom_index < old_n
        invariant
            atom_index <= old_n <= new_n,
            po == *old_program,
            pn == *new_program,
            old_n == po.spec_atom_count(),
            new_n == pn.spec_atom_count(),
            old_rc == po.spec_rules().len(),
            new_rc == pn.spec_rules().len(),
            cert_valid(po, *certificate_before),
            old_to_new@.len() == old_rc,
            forall|k: int| 0 <= k < old_rc ==> (#[trigger] old_to_new@[k] matches Some(r) ==> r.id() < new_rc),
            shape_ok(pn, remapped),
            forall|k: int| atom_index <= k < old_n ==> #[trigger] remapped.spec_witness()[k] == certificate_before.spec_witness()[k],
            forall|k: int| (0 <= k < atom_index || old_n <= k < new_n) ==>
                (#[trigger] remapped.spec_witness()[k] matches Some(GroundedWitness::Rule(rid)) ==> rid.id() < new_rc),
            forall|k: int| 0 <= k < old_n ==> #[trigger] remapped.spec_live()[k] == certificate_before.spec_live()[k]
                && remapped.spec_rank()[k] == certificate_before.spec_rank()[k],
            forall|k: int| old_n <= k < new_n ==> !(#[trigger] remapped.spec_live()[k]) && remapped.spec_rank()[k] is None && remapped.spec_witness()[k] is None,
            forall|k: int| 0 <= k < atom_index ==> #[trigger] carried_at(po, pn, *certificate_before, remapped, old_to_new@, direct@, k),
            o2s == rule_matching(po, pn, old_rc as int).0,
            forall|k: int| 0 <= k < old_rc ==> (#[trigger] old_to_new@[k] matches Some(r) ==> o2s[k] == Some(r.id() as int))
                && (old_to_new@[k] is None ==> o2s[k] is None),
            direct@ == carried_roots(pn, *certificate_before, o2s, atom_index as int),
        decreases old_n - atom_index,
    {
        let atom = GroundedAtomId(atom_index);
        let ghost d0 = direct@;
        let ghost r0 = remapped;
        proof {
            lemma_named_push(d0, atom);
            assert(atom.id() == atom_index);
            lemma_atom_at(atom_index as int);
            assert(atom == atom_at(atom_index as int));
        }
        if certificate_before.is_live(atom) {
            assert(atom_justified(po, *certificate_before, atom_index as int));
            match certificate_before.witness[atom_index] {
                Some(GroundedWitness::Seed) => {
                    let kept = seeds_contain(&new_program.seeds, atom);
                    proof {
                        assert(pn.spec_seeds() == new_program.seeds@);
                        if kept {
                            let kk = choose|kk: int| 0 <= kk < new_program.seeds@.len() && #[trigger] new_program.seeds@[kk].id() == atom.id();
                            assert(pn.spec_seeds()[kk].id() == atom_index);
                        }
                        if pn.is_seed(atom_index as int) {
                            let kk = choose|kk: int| 0 <= kk < pn.spec_seeds().len() && #[trigger] pn.spec_seeds()[kk].id() == atom_index;
                            assert(new_program.seeds@[kk].id() == atom.id());
                        }
                        assert(kept == pn.is_seed(atom_index as int));
                    }
                    if !kept {
                        direct.push(atom);
                        remapped.witness.set(atom_index, None);
                    }
                    proof {
                        assert(carried_at(po, pn, *certificate_before, remapped, old_to_new@, direct@, atom_index as int));
                        assert(direct@ =~= carried_roots(pn, *certificate_before, o2s, atom_index + 1));
                    }
                },
                Some(GroundedWitness::Rule(old_rule)) => {
                    match old_to_new[old_rule.0] {
                        Some(new_rule) => {
                            remapped.witness.set(atom_index, Some(GroundedWitness::Rule(new_rule)));
                        },
                        None => {
                            direct.push(atom);
                            remapped.witness.set(atom_index, None);
                        },
                    }
                    proof {
                        assert(carried_at(po, pn, *certificate_before, remapped, old_to_new@, direct@, atom_index as int));
                        assert(old_rule.id() < old_rc);
                        assert(direct@ =~= carried_roots(pn, *certificate_before, o2s, atom_index + 1));
                    }
                },
                None => {
                    return Err(GroundedClosureError::LiveAtomMissingWitness(atom));
                },
            }
        } else {
            assert(atom_justified(po, *certificate_before, atom_index as int));
            assert(direct@ =~= carried_roots(pn, *certificate_before, o2s, atom_index + 1));
        }
        proof {
            assert(remapped.spec_live() == r0.spec_live());
            assert(remapped.spec_rank() == r0.spec_rank());
            assert forall|k: int| old_n <= k < new_n implies !(#[trigger] remapped.spec_live()[k]) && remapped.spec_rank()[k] is None && remapped.spec_witness()[k] is None by {
                assert(!r0.spec_live()[k]);
                assert(remapped.spec_witness()[k] == r0.spec_witness()[k]);
            }
            assert forall|k: int| 0 <= k < atom_index + 1 implies #[trigger] carried_at(po, pn, *certificate_before, remapped, old_to_new@, direct@, k) by {
                if k < atom_index {
                    assert(carried_at(po, pn, *certificate_before, r0, old_to_new@, d0, k));
                    assert(remapped.spec_witness()[k] == r0.spec_witness()[k]);
                }
            }
        }
        atom_index = atom_index + 1;
    }

    let index = GroundedIncidenceIndex::compile(new_program);
    let ghost law = cert_valid(po, *certificate_before) && 2 * new_n + 2 <= usize::MAX
        && ranks_within(*certificate_before, usize::MAX - 2 * new_n - 2);

    // The program of the deletion phase: the new program with only the seeds
    // it shares with the old one and only its matched rules enabled; the new
    // seeds and the unmatched enabled rules are inserted afterwards.
    let mut base_seeds: Vec<GroundedAtomId> = Vec::new();
    let mut add_seeds: Vec<GroundedAtomId> = Vec::new();
    let mut k: usize = 0;
    while k < new_program.seeds.len()
        invariant
            k <= new_program.seeds.len(),
            pn == *new_program,
            po == *old_program,
            pn.wf(),
            new_n == pn.spec_atom_count(),
            strictly_sorted(base_seeds@),
            base_seeds@.len() > 0 ==> exists|idx: int| 0 <= idx < k && base_seeds@.last() == #[trigger] pn.spec_seeds()[idx],
            atoms_below(base_seeds@, new_n as nat),
            atoms_below(add_seeds@, new_n as nat),
            forall|x: GroundedAtomId| #[trigger] base_seeds@.contains(x) <==>
                (exists|idx: int| 0 <= idx < k && pn.spec_seeds()[idx] == x) && po.is_seed(x.id() as int),
            forall|x: GroundedAtomId| #[trigger] add_seeds@.contains(x) <==>
                (exists|idx: int| 0 <= idx < k && pn.spec_seeds()[idx] == x) && !po.is_seed(x.id() as int),
        decreases new_program.seeds.len() - k,
    {
        let seed = new_program.seeds[k];
        assert(pn.spec_seeds()[k as int].id() < new_n);
        let ghost bs0 = base_seeds@;
        let ghost as0 = add_seeds@;
        let in_old = seeds_contain(&old_program.seeds, seed);
        proof {
            assert(po.spec_seeds() == old_program.seeds@);
            if in_old {
                let kk = choose|kk: int| 0 <= kk < old_program.seeds@.len() && #[trigger] old_program.seeds@[kk].id() == seed.id();
                assert(po.spec_seeds()[kk].id() == seed.id());
            }
            if po.is_seed(seed.id() as int) {
                let kk = choose|kk: int| 0 <= kk < po.spec_seeds().len() && #[trigger] po.spec_seeds()[kk].id() == seed.id();
                assert(old_program.seeds@[kk].id() == seed.id());
            }
            assert(in_old == po.is_seed(seed.id() as int));
        }
        if in_old {
            proof {
                if bs0.len() > 0 {
                    let idx = choose|idx: int| 0 <= idx < k && bs0.last() == #[trigger] pn.spec_seeds()[idx];
                    assert(pn.spec_seeds()[idx].id() < pn.spec_seeds()[k as int].id());
                }
            }
            base_seeds.push(seed);
            proof {
                assert(base_seeds@.last() == pn.spec_seeds()[k as int]);
                assert forall|i: int, j: int| 0 <= i < j < base_seeds@.len() implies (#[trigger] base_seeds@[i]).id() < (#[trigger] base_seeds@[j]).id() by {
                    if j < bs0.len() {
                        assert(base_seeds@[i] == bs0[i] && base_seeds@[j] == bs0[j]);
                    } else if i < bs0.len() - 1 {
                        assert(base_seeds@[i] == bs0[i]);
                        assert(bs0[i].id() < bs0[bs0.len() - 1].id());
                    } else {
                        assert(base_seeds@[i] == bs0.last());
                    }
                }
            }
        } else {
            add_seeds.push(seed);
        }
        proof {
            lemma_push_contains(bs0, seed, seed);
            assert forall|x: GroundedAtomId| #[trigger] base_seeds@.contains(x) <==>
                (exists|idx: int| 0 <= idx < k + 1 && pn.spec_seeds()[idx] == x) && po.is_seed(x.id() as int) by {
                if in_old {
                    lemma_push_contains(bs0, seed, x);
                }
                if exists|idx: int| 0 <= idx < k + 1 && pn.spec_seeds()[idx] == x {
                    let idx = choose|idx: int| 0 <= idx < k + 1 && pn.spec_seeds()[idx] == x;
                    if idx < k {
                        assert(exists|i2: int| 0 <= i2 < k && pn.spec_seeds()[i2] == x);
                    }
                }
            }
            assert forall|x: GroundedAtomId| #[trigger] add_seeds@.contains(x) <==>
                (exists|idx: int| 0 <= idx < k + 1 && pn.spec_seeds()[idx] == x) && !po.is_seed(x.id() as int) by {
                if !in_old {
                    lemma_push_contains(as0, seed, x);
                }
                if exists|idx: int| 0 <= idx < k + 1 && pn.spec_seeds()[idx] == x {
                    let idx = choose|idx: int| 0 <= idx < k + 1 && pn.spec_seeds()[idx] == x;
                    if idx < k {
                        assert(exists|i2: int| 0 <= i2 < k && pn.spec_seeds()[i2] == x);
                    }
                }
            }
            assert forall|i: int| 0 <= i < base_seeds@.len() implies #[trigger] base_seeds@[i].id() < new_n by {
                if i < bs0.len() {
                    assert(base_seeds@[i] == bs0[i]);
                }
            }
            assert forall|i: int| 0 <= i < add_seeds@.len() implies #[trigger] add_seeds@[i].id() < new_n by {
                if i < as0.len() {
                    assert(add_seeds@[i] == as0[i]);
                }
            }
            if base_seeds@.len() > 0 {
                if in_old {
                    assert(base_seeds@.last() == pn.spec_seeds()[k as int]);
                } else {
                    let idx = choose|idx: int| 0 <= idx < k && bs0.last() == #[trigger] pn.spec_seeds()[idx];
                    assert(base_seeds@.last() == pn.spec_seeds()[idx]);
                }
            }
        }
        k = k + 1;
    }
    let mut base_rules: Vec<GroundedRule> = Vec::new();
    let mut enable_rules: Vec<GroundedRuleId> = Vec::new();
    let mut r: usize = 0;
    while r < new_rc
        invariant
            r <= new_rc,
            new_rc == pn.spec_rules().len(),
            pn == *new_program,
            matched_new_rule@.len() == new_rc,
            base_rules@.len() == r,
            forall|q: int| 0 <= q < r ==> {
                &&& (#[trigger] base_rules@[q]).spec_body() == pn.spec_rules()[q].spec_body()
                &&& base_rules@[q].spec_head() == pn.spec_rules()[q].spec_head()
                &&& base_rules@[q].spec_enabled() == (pn.spec_rules()[q].spec_enabled() && matched_new_rule@[q])
            },
            forall|q: int| 0 <= q <= usize::MAX ==> (#[trigger] enable_rules@.contains(rule_at(q)) <==>
                (0 <= q < r && pn.spec_rules()[q].spec_enabled() && !matched_new_rule@[q])),
            rule_ids_below(enable_rules@, new_rc as nat),
        decreases new_rc - r,
    {
        let rule = &new_program.rules[r];
        let enabled = rule.enabled && matched_new_rule[r];
        let copy = if enabled {
            GroundedRule::new(copy_seq(rule.body.as_slice()), rule.head)
        } else {
            GroundedRule::disabled(copy_seq(rule.body.as_slice()), rule.head)
        };
        proof {
            use_type_invariant(rule);
            lemma_sorted_same_atoms_equal(copy.spec_body(), rule.spec_body());
        }
        let ghost br0 = base_rules@;
        base_rules.push(copy);
        let ghost er0 = enable_rules@;
        proof {
            lemma_rule_at(r as int);
        }
        if rule.enabled && !matched_new_rule[r] {
            enable_rules.push(GroundedRuleId(r));
        }
        proof {
            assert forall|q: int| 0 <= q < r + 1 implies {
                &&& (#[trigger] base_rules@[q]).spec_body() == pn.spec_rules()[q].spec_body()
                &&& base_rules@[q].spec_head() == pn.spec_rules()[q].spec_head()
                &&& base_rules@[q].spec_enabled() == (pn.spec_rules()[q].spec_enabled() && matched_new_rule@[q])
            } by {
                if q < r {
                    assert(base_rules@[q] == br0[q]);
                }
            }
            assert forall|q: int| 0 <= q <= usize::MAX implies (#[trigger] enable_rules@.contains(rule_at(q)) <==>
                (0 <= q < r + 1 && pn.spec_rules()[q].spec_enabled() && !matched_new_rule@[q])) by {
                lemma_rule_at(q);
                if rule.enabled && !matched_new_rule[r as int] {
                    lemma_push_contains(er0, GroundedRuleId(r), rule_at(q));
                }
            }
            assert forall|i: int| 0 <= i < enable_rules@.len() implies #[trigger] enable_rules@[i].id() < new_rc by {
                if i < er0.len() {
                    assert(enable_rules@[i] == er0[i]);
                }
            }
        }
        r = r + 1;
    }
    let base = GroundedProgram { atom_count: new_n, seeds: base_seeds, rules: base_rules };
    proof {
        assert(base.wf()) by {
            assert(rules_below(base.spec_rules(), new_n as nat)) by {
                assert forall|q: int| 0 <= q < base.spec_rules().len() implies {
                    &&& #[trigger] base.spec_rules()[q].spec_head().id() < new_n
                    &&& atoms_below(base.spec_rules()[q].spec_body(), new_n as nat)
                } by {
                    assert(pn.spec_rules()[q].spec_head().id() < new_n);
                }
            }
            assert(rules_sorted(base.spec_rules())) by {
                assert forall|q: int| 0 <= q < base.spec_rules().len() implies strictly_sorted(#[trigger] base.spec_rules()[q].spec_body()) by {
                    assert(strictly_sorted(pn.spec_rules()[q].spec_body()));
                }
            }
        }
        assert(same_structure(pn, base));
        lemma_same_structure_index(pn, base, index);
        assert forall|a: int| #[trigger] base.is_seed(a) <==> pn.is_seed(a) && po.is_seed(a) by {
            if base.is_seed(a) {
                let j = choose|j: int| 0 <= j < base.spec_seeds().len() && #[trigger] base.spec_seeds()[j].id() == a;
                assert(base.spec_seeds().contains(base.spec_seeds()[j]));
                let idx = choose|idx: int| 0 <= idx < pn.spec_seeds().len() && pn.spec_seeds()[idx] == base.spec_seeds()[j];
                assert(pn.spec_seeds()[idx].id() == a);
            }
            if pn.is_seed(a) && po.is_seed(a) {
                let idx = choose|idx: int| 0 <= idx < pn.spec_seeds().len() && #[trigger] pn.spec_seeds()[idx].id() == a;
                assert(base.spec_seeds().contains(pn.spec_seeds()[idx]));
                let j = choose|j: int| 0 <= j < base.spec_seeds().len() && base.spec_seeds()[j] == pn.spec_seeds()[idx];
                assert(base.spec_seeds()[j].id() == a);
            }
        }
        if law {
            lemma_carried_valid(po, pn, base, *certificate_before, remapped, old_to_new@, matched_new_rule@, direct@);
            assert(ranks_within(remapped, usize::MAX - 2 * new_n - 2)) by {
                assert forall|a: int| 0 <= a < remapped.spec_live().len() && #[trigger] remapped.spec_live()[a]
                    implies (remapped.spec_rank()[a] matches Some(rr) && rr <= usize::MAX - 2 * new_n - 2) by {
                    if a < old_n {
                        assert(certificate_before.spec_live()[a]);
                    }
                }
            }
        }
    }
    let ghost rem = remapped;
    let (mut certificate, mut stats) = if direct.len() == 0 {
        (remapped, GroundedWorkStats::default())
    } else {
        local_recompute_after_deletion_indexed(&base, &index, &remapped, &direct)
    };
    proof {
        let c0 = *certificate_before;
        if direct@.len() == 0 {
            lemma_cone_count_no_roots(po, c0, direct@, old_n as int);
        } else {
            lemma_carried_edges(po, pn, base, c0, rem, old_to_new@, direct@);
            assert forall|b: int| 0 <= b < old_n implies (#[trigger] in_witness_cone(base, rem, direct@, b) <==> in_witness_cone(po, c0, direct@, b)) by {
                if in_witness_cone(base, rem, direct@, b) {
                    lemma_cone_into_old(po, base, c0, rem, direct@, b);
                }
                if in_witness_cone(po, c0, direct@, b) {
                    lemma_cone_into_carried(po, base, c0, rem, direct@, b);
                }
            }
            assert forall|b: int| old_n <= b < new_n implies !#[trigger] in_witness_cone(base, rem, direct@, b) by {
                if in_witness_cone(base, rem, direct@, b) {
                    lemma_cone_live(base, rem, direct@, b);
                }
            }
            lemma_cone_count_equal(base, rem, po, c0, direct@, old_n as int);
            lemma_cone_count_tail(base, rem, direct@, old_n as int, new_n as int);
        }
        assert(stats.affected_atoms == cone_count(po, c0, carried_roots(pn, c0, o2s, old_n as int), old_n as int));
    }
    proof {
        if law {
            if direct@.len() == 0 {
                lemma_nothing_named(base, certificate, direct@);
            }
            assert(cert_valid(base, certificate));
            assert(ranks_within(certificate, usize::MAX - new_n - 2)) by {
                assert forall|a: int| 0 <= a < certificate.spec_live().len() && #[trigger] certificate.spec_live()[a]
                    implies (certificate.spec_rank()[a] matches Some(rr) && rr <= usize::MAX - new_n - 2) by {
                    if direct@.len() == 0 {
                        assert(ranks_within(remapped, usize::MAX - 2 * new_n - 2));
                    }
                }
            }
        }
    }
    let update = GroundedUpdate { add_seeds, remove_seeds: Vec::new(), enable_rules, disable_rules: Vec::new() };
    proof {
        if law {
            assert(inserts_from(base, pn, update)) by {
                assert forall|x: GroundedAtomId| #[trigger] pn.spec_seeds().contains(x) <==> (base.spec_seeds().contains(x) || update.add_seeds@.contains(x)) by {
                    if pn.spec_seeds().contains(x) {
                        let idx = choose|idx: int| 0 <= idx < pn.spec_seeds().len() && pn.spec_seeds()[idx] == x;
                        assert(exists|i2: int| 0 <= i2 < pn.spec_seeds().len() && pn.spec_seeds()[i2] == x);
                    }
                }
                assert forall|q: int| 0 <= q < pn.spec_rules().len() implies (#[trigger] pn.spec_rules()[q]).spec_enabled()
                    == (base.spec_rules()[q].spec_enabled() || update.enable_rules@.contains(rule_at(q))) by {}
            }
        }
    }
    incremental_insertions(new_program, &index, &mut certificate, &update, &mut stats, Ghost(base), Ghost(usize::MAX - new_n - 2));
    match check(new_program, &certificate) {
        Ok(()) => Ok((certificate, stats)),
        Err(e) => Err(e),
    }
}


/// Two strictly sorted sequences with the same atoms are equal.
pub proof fn lemma_sorted_same_atoms_equal(a: Seq<GroundedAtomId>, b: Seq<GroundedAtomId>)
    requires
        strictly_sorted(a),
        strictly_sorted(b),
        same_atoms(a, b),
    ensures
        a == b,
    decreases a.len() + b.len(),
{
    if a.len() == 0 {
        if b.len() > 0 {
            assert(b.contains(b[0]));
            assert(!a.contains(b[0]));
        }
        assert(a =~= b);
    } else if b.len() == 0 {
        assert(a.contains(a[0]));
    } else {
        assert(a.contains(a[0]));
        assert(b.contains(b[0]));
        let ka = choose|k: int| 0 <= k < a.len() && a[k] == b[0];
        let kb = choose|k: int| 0 <= k < b.len() && b[k] == a[0];
        if ka > 0 {
            assert(a[0].id() < a[ka].id());
            if kb > 0 {
                assert(b[0].id() < b[kb].id());
            }
        }
        if kb > 0 {
            assert(b[0].id() < b[kb].id());
        }
        assert(a[0] == b[0]);
        let ra = a.drop_first();
        let rb = b.drop_first();
        assert forall|x: GroundedAtomId| ra.contains(x) <==> rb.contains(x) by {
            if ra.contains(x) {
                let k = choose|k: int| 0 <= k < ra.len() && ra[k] == x;
                assert(a[k + 1] == x);
                assert(a.contains(x));
                let m = choose|m: int| 0 <= m < b.len() && b[m] == x;
                assert(a[0].id() < a[k + 1].id());
                assert(m != 0);
                assert(rb[m - 1] == x);
            }
            if rb.contains(x) {
                let k = choose|k: int| 0 <= k < rb.len() && rb[k] == x;
                assert(b[k + 1] == x);
                assert(b.contains(x));
                let m = choose|m: int| 0 <= m < a.len() && a[m] == x;
                assert(b[0].id() < b[k + 1].id());
                assert(m != 0);
                assert(ra[m - 1] == x);
            }
        }
        lemma_sorted_same_atoms_equal(ra, rb);
        assert(a =~= seq![a[0]] + ra);
        assert(b =~= seq![b[0]] + rb);
    }
}

/// Two programs with equal views: universe, seed list, and every rule's body, head and flag.
pub open spec fn same_view(p: GroundedProgram, q: GroundedProgram) -> bool {
    &&& p.spec_atom_count() == q.spec_atom_count()
    &&& p.spec_seeds() == q.spec_seeds()
    &&& p.spec_rules().len() == q.spec_rules().len()
    &&& forall|r: int| 0 <= r < p.spec_rules().len() ==> {
        &&& (#[trigger] p.spec_rules()[r]).spec_body() == q.spec_rules()[r].spec_body()
        &&& p.spec_rules()[r].spec_head() == q.spec_rules()[r].spec_head()
        &&& p.spec_rules()[r].spec_enabled() == q.spec_rules()[r].spec_enabled()
    }
}

pub proof fn lemma_same_view_valid(p: GroundedProgram, q: GroundedProgram, c: GroundedCertificate)
    requires
        same_view(p, q),
    ensures
        cert_valid(p, c) == cert_valid(q, c),
{
    assert forall|i: int| 0 <= i < p.spec_atom_count() implies #[trigger] atom_justified(p, c, i) == atom_justified(q, c, i) by {
        assert(p.is_seed(i) == q.is_seed(i));
        if c.spec_live()[i] {
            match (c.spec_rank()[i], c.spec_witness()[i]) {
                (Some(r), Some(GroundedWitness::Rule(rid))) => {
                    if rid.id() < p.spec_rules().len() {
                        let rp = p.spec_rules()[rid.id() as int];
                        let rq = q.spec_rules()[rid.id() as int];
                        assert(rp.spec_body() == rq.spec_body());
                        assert(premises_ranked_below(c, rp, r) == premises_ranked_below(c, rq, r));
                    }
                },
                _ => {},
            }
        }
    }
    assert forall|r: int| 0 <= r < p.spec_rules().len() implies body_live(#[trigger] p.spec_rules()[r], c.spec_live()) == body_live(q.spec_rules()[r], c.spec_live()) by {
        assert(p.spec_rules()[r].spec_body() == q.spec_rules()[r].spec_body());
    }
    if cert_valid(p, c) {
        assert forall|r: int| 0 <= r < q.spec_rules().len() && #[trigger] q.spec_rules()[r].spec_enabled()
            && body_live(q.spec_rules()[r], c.spec_live()) implies c.spec_live()[q.spec_rules()[r].spec_head().id() as int] by {
            assert(p.spec_rules()[r].spec_enabled());
            assert(body_live(p.spec_rules()[r], c.spec_live()));
        }
        assert forall|i: int| 0 <= i < q.spec_atom_count() implies #[trigger] atom_justified(q, c, i) by {
            assert(atom_justified(p, c, i));
        }
    }
    if cert_valid(q, c) {
        assert forall|r: int| 0 <= r < p.spec_rules().len() && #[trigger] p.spec_rules()[r].spec_enabled()
            && body_live(p.spec_rules()[r], c.spec_live()) implies c.spec_live()[p.spec_rules()[r].spec_head().id() as int] by {
            assert(q.spec_rules()[r].spec_enabled());
            assert(body_live(q.spec_rules()[r], c.spec_live()));
        }
        assert forall|i: int| 0 <= i < p.spec_atom_count() implies #[trigger] atom_justified(p, c, i) by {
            assert(atom_justified(q, c, i));
        }
    }
}

/// `dependent` stays supported only while at least one of `supporters` does.
#[derive(Debug, PartialEq, Eq)]
pub struct BipolarSupportRequirement {
    pub dependent: GroundedAtomId,
    pub supporters: Vec<GroundedAtomId>,
}

impl BipolarSupportRequirement {
    pub fn new(dependent: GroundedAtomId, supporters: Vec<GroundedAtomId>) -> (requirement: Self)
        ensures
            requirement.dependent == dependent,
            strictly_sorted(requirement.supporters@),
            same_atoms(requirement.supporters@, supporters@),
    {
        let supporters = sorted_unique_atoms(&supporters);
        Self { dependent, supporters }
    }
}

/// A finite greatest-support problem: atoms, unavailable atoms and support requirements.
#[derive(Debug, PartialEq, Eq)]
pub struct BipolarSupportProgram {
    atom_count: usize,
    unavailable: Vec<GroundedAtomId>,
    requirements: Vec<BipolarSupportRequirement>,
}

/// Every atom of the support requirements lies below `n`.
pub open spec fn requirements_below(reqs: Seq<BipolarSupportRequirement>, n: nat) -> bool {
    forall|q: int| 0 <= q < reqs.len() ==> {
        &&& (#[trigger] reqs[q]).dependent.id() < n
        &&& atoms_below(reqs[q].supporters@, n)
    }
}

/// `rules` is the death dual of `reqs`: one enabled rule "all supporters dead -> dependent dead" each.
pub open spec fn death_rules(reqs: Seq<BipolarSupportRequirement>, rules: Seq<GroundedRule>) -> bool {
    &&& rules.len() == reqs.len()
    &&& forall|q: int| 0 <= q < reqs.len() ==> {
        &&& (#[trigger] rules[q]).spec_head() == reqs[q].dependent
        &&& strictly_sorted(rules[q].spec_body())
        &&& same_atoms(rules[q].spec_body(), reqs[q].supporters@)
        &&& rules[q].spec_enabled()
    }
}

impl BipolarSupportProgram {
    pub closed spec fn spec_atom_count(self) -> nat {
        self.atom_count as nat
    }

    pub closed spec fn spec_unavailable(self) -> Seq<GroundedAtomId> {
        self.unavailable@
    }

    pub closed spec fn spec_requirements(self) -> Seq<BipolarSupportRequirement> {
        self.requirements@
    }

    pub open spec fn wf(self) -> bool {
        &&& strictly_sorted(self.spec_unavailable())
        &&& atoms_below(self.spec_unavailable(), self.spec_atom_count())
        &&& requirements_below(self.spec_requirements(), self.spec_atom_count())
        &&& self.spec_requirements().len() <= usize::MAX
    }

    /// `gp` is the grounded death program of this support program.
    pub open spec fn is_death_program(self, gp: GroundedProgram) -> bool {
        &&& gp.wf()
        &&& gp.spec_atom_count() == self.spec_atom_count()
        &&& gp.spec_seeds() == self.spec_unavailable()
        &&& death_rules(self.spec_requirements(), gp.spec_rules())
    }

    pub fn new(atom_count: usize, unavailable: Vec<GroundedAtomId>, requirements: Vec<BipolarSupportRequirement>) -> (result: Result<Self, GroundedClosureError>)
        ensures
            result is Ok <==> (atoms_below(unavailable@, atom_count as nat) && requirements_below(requirements@, atom_count as nat)),
            match result {
                Ok(program) => {
                    &&& program.wf()
                    &&& program.spec_atom_count() == atom_count
                    &&& same_atoms(program.spec_unavailable(), unavailable@)
                    &&& program.spec_requirements() == requirements@
                },
                Err(e) => exists|sorted: Seq<GroundedAtomId>, rules: Seq<GroundedRule>| {
                    &&& strictly_sorted(sorted)
                    &&& same_atoms(sorted, unavailable@)
                    &&& death_rules(requirements@, rules)
                    &&& Err::<(), GroundedClosureError>(e) == validation_result(atom_count as nat, sorted, rules)
                },
            },
    {
        let sorted = sorted_unique_atoms(&unavailable);
        let _count = requirements.len();
        let program = Self { atom_count, unavailable: sorted, requirements };
        let ghost n = atom_count as nat;
        proof {
            if atoms_below(unavailable@, n) {
                assert forall|i: int| 0 <= i < program.unavailable@.len() implies #[trigger] program.unavailable@[i].id() < n by {
                    assert(program.unavailable@.contains(program.unavailable@[i]));
                    let k = choose|k: int| 0 <= k < unavailable@.len() && unavailable@[k] == program.unavailable@[i];
                }
            }
            if atoms_below(program.unavailable@, n) {
                assert forall|i: int| 0 <= i < unavailable@.len() implies #[trigger] unavailable@[i].id() < n by {
                    assert(unavailable@.contains(unavailable@[i]));
                    let k = choose|k: int| 0 <= k < program.unavailable@.len() && program.unavailable@[k] == unavailable@[i];
                }
            }
        }
        let (rules, _) = program.death_rules_vec();
        let death = GroundedProgram { atom_count, seeds: copy_seq(program.unavailable.as_slice()), rules };
        let checked = death.validate();
        proof {
            lemma_validation_ok(n, death.seeds@, death.rules@);
            lemma_death_rules_below(program.requirements@, death.rules@, n);
        }
        match checked {
            Ok(()) => Ok(program),
            Err(e) => Err(e),
        }
    }

    fn death_rules_vec(&self) -> (result: (Vec<GroundedRule>, ()))
        ensures
            death_rules(self.spec_requirements(), result.0@),
            result.0@.len() <= usize::MAX,
    {
        let mut rules: Vec<GroundedRule> = Vec::new();
        let mut q: usize = 0;
        while q < self.requirements.len()
            invariant
                q <= self.requirements.len(),
                death_rules(self.requirements@.subrange(0, q as int), rules@),
            decreases self.requirements.len() - q,
        {
            let requirement = &self.requirements[q];
            let rule = GroundedRule::new(copy_seq(requirement.supporters.as_slice()), requirement.dependent);
            let ghost before = rules@;
            rules.push(rule);
            proof {
                let reqs = self.requirements@.subrange(0, q + 1);
                assert forall|k: int| 0 <= k < reqs.len() implies {
                    &&& (#[trigger] rules@[k]).spec_head() == reqs[k].dependent
                    &&& strictly_sorted(rules@[k].spec_body())
                    &&& same_atoms(rules@[k].spec_body(), reqs[k].supporters@)
                    &&& rules@[k].spec_enabled()
                } by {
                    if k < q {
                        assert(rules@[k] == before[k]);
                        assert(reqs[k] == self.requirements@.subrange(0, q as int)[k]);
                    }
                }
            }
            q = q + 1;
        }
        assert(self.requirements@.subrange(0, self.requirements@.len() as int) =~= self.requirements@);
        let _len = rules.len();
        (rules, ())
    }

    pub fn atom_count(&self) -> (count: usize)
        ensures
            count == self.spec_atom_count(),
    {
        self.atom_count
    }

    pub fn unavailable(&self) -> (atoms: &[GroundedAtomId])
        ensures
            atoms@ == self.spec_unavailable(),
    {
        self.unavailable.as_slice()
    }

    pub fn requirements(&self) -> (requirements: &[BipolarSupportRequirement])
        ensures
            requirements@ == self.spec_requirements(),
    {
        self.requirements.as_slice()
    }

    /// The grounded death program: unavailable atoms are dead seeds and each
    /// requirement becomes the rule "all supporters dead -> dependent dead".
    pub fn death_program(&self) -> (result: Result<GroundedProgram, GroundedClosureError>)
        requires
            self.wf(),
        ensures
            result matches Ok(gp) && self.is_death_program(gp),
            result is Ok,
    {
        let (rules, _) = self.death_rules_vec();
        let death = GroundedProgram { atom_count: self.atom_count, seeds: copy_seq(self.unavailable.as_slice()), rules };
        proof {
            lemma_death_rules_below(self.requirements@, death.rules@, self.atom_count as nat);
            assert(rules_sorted(death.rules@));
        }
        Ok(death)
    }
}

proof fn lemma_death_rules_below(reqs: Seq<BipolarSupportRequirement>, rules: Seq<GroundedRule>, n: nat)
    requires
        death_rules(reqs, rules),
    ensures
        rules_below(rules, n) <==> requirements_below(reqs, n),
        rules_sorted(rules),
{
    if requirements_below(reqs, n) {
        assert forall|q: int| 0 <= q < rules.len() implies {
            &&& #[trigger] rules[q].spec_head().id() < n
            &&& atoms_below(rules[q].spec_body(), n)
        } by {
            assert(reqs[q].dependent.id() < n);
            assert forall|i: int| 0 <= i < rules[q].spec_body().len() implies #[trigger] rules[q].spec_body()[i].id() < n by {
                assert(rules[q].spec_body().contains(rules[q].spec_body()[i]));
                let k = choose|k: int| 0 <= k < reqs[q].supporters@.len() && reqs[q].supporters@[k] == rules[q].spec_body()[i];
                assert(reqs[q].supporters@[k].id() < n);
            }
        }
    }
    if rules_below(rules, n) {
        assert forall|q: int| 0 <= q < reqs.len() implies {
            &&& (#[trigger] reqs[q]).dependent.id() < n
            &&& atoms_below(reqs[q].supporters@, n)
        } by {
            assert(rules[q].spec_head().id() < n);
            assert forall|i: int| 0 <= i < reqs[q].supporters@.len() implies #[trigger] reqs[q].supporters@[i].id() < n by {
                assert(reqs[q].supporters@.contains(reqs[q].supporters@[i]));
                let k = choose|k: int| 0 <= k < rules[q].spec_body().len() && rules[q].spec_body()[k] == reqs[q].supporters@[i];
                assert(atoms_below(rules[q].spec_body(), n));
                assert(rules[q].spec_body()[k].id() < n);
            }
        }
    }
    assert forall|q: int| 0 <= q < rules.len() implies strictly_sorted(#[trigger] rules[q].spec_body()) by {
        assert(strictly_sorted(rules[q].spec_body()));
    }
}

/// Any two death programs of the same support program have equal views.
pub proof fn lemma_death_programs_agree(bp: BipolarSupportProgram, g1: GroundedProgram, g2: GroundedProgram)
    requires
        bp.is_death_program(g1),
        bp.is_death_program(g2),
    ensures
        same_view(g1, g2),
{
    assert forall|r: int| 0 <= r < g1.spec_rules().len() implies {
        &&& (#[trigger] g1.spec_rules()[r]).spec_body() == g2.spec_rules()[r].spec_body()
        &&& g1.spec_rules()[r].spec_head() == g2.spec_rules()[r].spec_head()
        &&& g1.spec_rules()[r].spec_enabled() == g2.spec_rules()[r].spec_enabled()
    } by {
        let req = bp.spec_requirements()[r];
        assert(g2.spec_rules()[r].spec_head() == req.dependent);
        assert(same_atoms(g1.spec_rules()[r].spec_body(), req.supporters@));
        assert(same_atoms(g2.spec_rules()[r].spec_body(), req.supporters@));
        lemma_sorted_same_atoms_equal(g1.spec_rules()[r].spec_body(), g2.spec_rules()[r].spec_body());
    }
}

/// `s` holds every unavailable atom and every dependent whose supporters all lie in `s`.
pub open spec fn death_closed(bp: BipolarSupportProgram, s: Set<int>) -> bool {
    &&& forall|k: int| 0 <= k < bp.spec_unavailable().len() ==> s.contains(#[trigger] bp.spec_unavailable()[k].id() as int)
    &&& forall|q: int| 0 <= q < bp.spec_requirements().len()
        && (forall|k: int| 0 <= k < (#[trigger] bp.spec_requirements()[q]).supporters@.len() ==> s.contains(bp.spec_requirements()[q].supporters@[k].id() as int))
        ==> s.contains(bp.spec_requirements()[q].dependent.id() as int)
}

/// Atom `a` is dead in every death-closed set (least death model).
pub open spec fn necessarily_dead(bp: BipolarSupportProgram, a: int) -> bool {
    forall|s: Set<int>| #[trigger] death_closed(bp, s) ==> s.contains(a)
}

/// `t` avoids unavailable atoms and every dependent in `t` has a supporter in `t`.
pub open spec fn support_consistent(bp: BipolarSupportProgram, t: Set<int>) -> bool {
    &&& forall|k: int| 0 <= k < bp.spec_unavailable().len() ==> !t.contains(#[trigger] bp.spec_unavailable()[k].id() as int)
    &&& forall|q: int| 0 <= q < bp.spec_requirements().len() && t.contains((#[trigger] bp.spec_requirements()[q]).dependent.id() as int)
        ==> exists|k: int| 0 <= k < bp.spec_requirements()[q].supporters@.len() && t.contains(bp.spec_requirements()[q].supporters@[k].id() as int)
}

/// `supported` marks the greatest support-consistent set of atoms.
pub open spec fn is_greatest_support(bp: BipolarSupportProgram, supported: Seq<bool>) -> bool {
    let n = bp.spec_atom_count();
    &&& supported.len() == n
    &&& support_consistent(bp, Set::new(|a: int| 0 <= a < n && supported[a]))
    &&& forall|t: Set<int>| #[trigger] support_consistent(bp, t) ==> (forall|a: int| 0 <= a < n && t.contains(a) ==> supported[a])
}

proof fn lemma_death_closed_iff(bp: BipolarSupportProgram, gp: GroundedProgram, s: Set<int>)
    requires
        bp.is_death_program(gp),
    ensures
        closed_set(gp, s) <==> death_closed(bp, s),
{
    let reqs = bp.spec_requirements();
    let rules = gp.spec_rules();
    assert forall|q: int| #![trigger rules[q]] 0 <= q < reqs.len() implies
        (forall|k: int| 0 <= k < rules[q].spec_body().len() ==> s.contains(#[trigger] rules[q].spec_body()[k].id() as int))
        <==> (forall|k: int| 0 <= k < reqs[q].supporters@.len() ==> s.contains(#[trigger] reqs[q].supporters@[k].id() as int)) by {
        let body = rules[q].spec_body();
        let sup = reqs[q].supporters@;
        assert(same_atoms(body, sup));
        if forall|k: int| 0 <= k < body.len() ==> s.contains(#[trigger] body[k].id() as int) {
            assert forall|k: int| 0 <= k < sup.len() implies s.contains(#[trigger] sup[k].id() as int) by {
                assert(sup.contains(sup[k]));
                let m = choose|m: int| 0 <= m < body.len() && body[m] == sup[k];
                assert(s.contains(body[m].id() as int));
            }
        }
        if forall|k: int| 0 <= k < sup.len() ==> s.contains(#[trigger] sup[k].id() as int) {
            assert forall|k: int| 0 <= k < body.len() implies s.contains(#[trigger] body[k].id() as int) by {
                assert(body.contains(body[k]));
                let m = choose|m: int| 0 <= m < sup.len() && sup[m] == body[k];
                assert(s.contains(sup[m].id() as int));
            }
        }
    }
    if closed_set(gp, s) {
        assert forall|q: int| 0 <= q < reqs.len()
            && (forall|k: int| 0 <= k < (#[trigger] reqs[q]).supporters@.len() ==> s.contains(reqs[q].supporters@[k].id() as int))
            implies s.contains(reqs[q].dependent.id() as int) by {
            assert(rules[q].spec_enabled());
            assert(forall|k: int| 0 <= k < reqs[q].supporters@.len() ==> s.contains(#[trigger] reqs[q].supporters@[k].id() as int));
        }
    }
    if death_closed(bp, s) {
        assert forall|r: int|
            0 <= r < rules.len() && #[trigger] rules[r].spec_enabled()
                && (forall|k: int| 0 <= k < rules[r].spec_body().len() ==> s.contains(#[trigger] rules[r].spec_body()[k].id() as int))
            implies s.contains(rules[r].spec_head().id() as int) by {
            assert(forall|k: int| 0 <= k < reqs[r].supporters@.len() ==> s.contains(#[trigger] reqs[r].supporters@[k].id() as int));
            assert(reqs[r] == bp.spec_requirements()[r]);
        }
    }
}

/// Least death model of the dual program coincides with the necessarily dead atoms.
pub proof fn lemma_death_least_model(bp: BipolarSupportProgram, gp: GroundedProgram, a: int)
    requires
        bp.is_death_program(gp),
    ensures
        in_least_model(gp, a) <==> necessarily_dead(bp, a),
{
    if in_least_model(gp, a) {
        assert forall|s: Set<int>| #[trigger] death_closed(bp, s) implies s.contains(a) by {
            lemma_death_closed_iff(bp, gp, s);
        }
    }
    if necessarily_dead(bp, a) {
        assert forall|s: Set<int>| #[trigger] closed_set(gp, s) implies s.contains(a) by {
            lemma_death_closed_iff(bp, gp, s);
        }
    }
}

/// The atoms that are not necessarily dead form the greatest support-consistent set.
pub proof fn lemma_complement_of_death_is_greatest_support(bp: BipolarSupportProgram, supported: Seq<bool>)
    requires
        bp.wf(),
        supported.len() == bp.spec_atom_count(),
        forall|a: int| 0 <= a < supported.len() ==> (#[trigger] supported[a] <==> !necessarily_dead(bp, a)),
    ensures
        is_greatest_support(bp, supported),
{
    let n = bp.spec_atom_count();
    let dead = Set::new(|a: int| necessarily_dead(bp, a));
    assert(death_closed(bp, dead)) by {
        assert forall|k: int| 0 <= k < bp.spec_unavailable().len() implies dead.contains(#[trigger] bp.spec_unavailable()[k].id() as int) by {
            assert forall|s: Set<int>| #[trigger] death_closed(bp, s) implies s.contains(bp.spec_unavailable()[k].id() as int) by {}
        }
        assert forall|q: int| 0 <= q < bp.spec_requirements().len()
            && (forall|k: int| 0 <= k < (#[trigger] bp.spec_requirements()[q]).supporters@.len() ==> dead.contains(bp.spec_requirements()[q].supporters@[k].id() as int))
            implies dead.contains(bp.spec_requirements()[q].dependent.id() as int) by {
            let req = bp.spec_requirements()[q];
            assert forall|s: Set<int>| #[trigger] death_closed(bp, s) implies s.contains(req.dependent.id() as int) by {
                assert forall|k: int| 0 <= k < req.supporters@.len() implies s.contains(req.supporters@[k].id() as int) by {
                    assert(dead.contains(req.supporters@[k].id() as int));
                }
                assert(req == bp.spec_requirements()[q]);
            }
        }
    }
    let sup = Set::new(|a: int| 0 <= a < n && supported[a]);
    assert(support_consistent(bp, sup)) by {
        assert forall|k: int| 0 <= k < bp.spec_unavailable().len() implies !sup.contains(#[trigger] bp.spec_unavailable()[k].id() as int) by {
            let a = bp.spec_unavailable()[k].id() as int;
            assert(dead.contains(a));
            if 0 <= a < n {
                assert(!supported[a]);
            }
        }
        assert forall|q: int| 0 <= q < bp.spec_requirements().len() && sup.contains((#[trigger] bp.spec_requirements()[q]).dependent.id() as int)
            implies exists|k: int| 0 <= k < bp.spec_requirements()[q].supporters@.len() && sup.contains(bp.spec_requirements()[q].supporters@[k].id() as int) by {
            let req = bp.spec_requirements()[q];
            assert(!dead.contains(req.dependent.id() as int));
            if forall|k: int| 0 <= k < req.supporters@.len() ==> !sup.contains(req.supporters@[k].id() as int) {
                assert forall|k: int| 0 <= k < req.supporters@.len() implies dead.contains(#[trigger] req.supporters@[k].id() as int) by {
                    let b = req.supporters@[k].id() as int;
                    assert(atoms_below(req.supporters@, n));
                    assert(req.supporters@[k].id() < n);
                    assert(!sup.contains(b));
                }
                assert(dead.contains(req.dependent.id() as int));
            }
        }
    }
    assert forall|t: Set<int>| #[trigger] support_consistent(bp, t) implies (forall|a: int| 0 <= a < n && t.contains(a) ==> supported[a]) by {
        let comp = Set::new(|a: int| !t.contains(a));
        assert(death_closed(bp, comp)) by {
            assert forall|q: int| 0 <= q < bp.spec_requirements().len()
                && (forall|k: int| 0 <= k < (#[trigger] bp.spec_requirements()[q]).supporters@.len() ==> comp.contains(bp.spec_requirements()[q].supporters@[k].id() as int))
                implies comp.contains(bp.spec_requirements()[q].dependent.id() as int) by {
                let req = bp.spec_requirements()[q];
                if t.contains(req.dependent.id() as int) {
                    let k = choose|k: int| 0 <= k < req.supporters@.len() && t.contains(req.supporters@[k].id() as int);
                    assert(comp.contains(req.supporters@[k].id() as int));
                }
            }
        }
        assert forall|a: int| 0 <= a < n && t.contains(a) implies supported[a] by {
            if !supported[a] {
                assert(necessarily_dead(bp, a));
                assert(comp.contains(a));
            }
        }
    }
}


proof fn lemma_same_view_first_atom_error(p: GroundedProgram, q: GroundedProgram, c: GroundedCertificate, i: int)
    requires
        same_view(p, q),
    ensures
        first_atom_error(p, c, i) == first_atom_error(q, c, i),
    decreases p.spec_atom_count() - i,
{
    if 0 <= i < p.spec_atom_count() {
        assert(p.is_seed(i) == q.is_seed(i));
        if c.spec_live()[i] {
            match (c.spec_rank()[i], c.spec_witness()[i]) {
                (Some(r), Some(GroundedWitness::Rule(rid))) => {
                    if rid.id() < p.spec_rules().len() {
                        assert(p.spec_rules()[rid.id() as int].spec_body() == q.spec_rules()[rid.id() as int].spec_body());
                    }
                },
                _ => {},
            }
        }
        assert(atom_error(p, c, i) == atom_error(q, c, i));
        lemma_same_view_first_atom_error(p, q, c, i + 1);
    }
}

proof fn lemma_same_view_first_unclosed(p: GroundedProgram, q: GroundedProgram, c: GroundedCertificate, r: int)
    requires
        same_view(p, q),
    ensures
        first_unclosed_rule(p, c, r) == first_unclosed_rule(q, c, r),
    decreases p.spec_rules().len() - r,
{
    if 0 <= r < p.spec_rules().len() {
        assert(p.spec_rules()[r].spec_body() == q.spec_rules()[r].spec_body());
        assert(body_live(p.spec_rules()[r], c.spec_live()) == body_live(q.spec_rules()[r], c.spec_live()));
        lemma_same_view_first_unclosed(p, q, c, r + 1);
    }
}

/// Programs with equal views report the same check outcome.
pub proof fn lemma_same_view_check_result(p: GroundedProgram, q: GroundedProgram, c: GroundedCertificate)
    requires
        same_view(p, q),
    ensures
        check_result(p, c) == check_result(q, c),
{
    lemma_same_view_first_atom_error(p, q, c, 0);
    lemma_same_view_first_unclosed(p, q, c, 0);
    assert(first_missing_seed(p, c, 0) == first_missing_seed(q, c, 0)) by {
        assert(p.spec_seeds() == q.spec_seeds());
        lemma_same_seeds_missing(p, q, c, 0);
    }
}

proof fn lemma_same_seeds_missing(p: GroundedProgram, q: GroundedProgram, c: GroundedCertificate, k: int)
    requires
        p.spec_seeds() == q.spec_seeds(),
    ensures
        first_missing_seed(p, c, k) == first_missing_seed(q, c, k),
    decreases p.spec_seeds().len() - k,
{
    if 0 <= k < p.spec_seeds().len() {
        lemma_same_seeds_missing(p, q, c, k + 1);
    }
}

/// A support certificate: the supported atoms and the grounded death certificate they complement.
#[derive(Debug, PartialEq, Eq)]
pub struct BipolarSupportCertificate {
    supported: Vec<bool>,
    death: GroundedCertificate,
}

/// `supported` is the exact complement of the death certificate's live atoms.
pub open spec fn complements(supported: Seq<bool>, death: GroundedCertificate, n: nat) -> bool {
    forall|a: int| 0 <= a < n ==> #[trigger] supported[a] != death.spec_live()[a]
}

/// What `check_bipolar_support` reports.
pub open spec fn bipolar_check_result(bp: BipolarSupportProgram, c: BipolarSupportCertificate) -> Result<(), GroundedClosureError> {
    if c.spec_supported().len() != bp.spec_atom_count() {
        Err(GroundedClosureError::CertificateShapeMismatch)
    } else {
        let gp = choose|gp: GroundedProgram| bp.is_death_program(gp);
        match check_result(gp, c.spec_death()) {
            Err(e) => Err(e),
            Ok(()) => if complements(c.spec_supported(), c.spec_death(), bp.spec_atom_count()) {
                Ok(())
            } else {
                Err(GroundedClosureError::CertificateShapeMismatch)
            },
        }
    }
}

/// `c` is a valid support certificate: its death part is valid for the death
/// program and its supported atoms are exactly the atoms it leaves dead-free.
pub open spec fn bipolar_valid(bp: BipolarSupportProgram, c: BipolarSupportCertificate) -> bool {
    &&& c.spec_supported().len() == bp.spec_atom_count()
    &&& forall|gp: GroundedProgram| #[trigger] bp.is_death_program(gp) ==> cert_valid(gp, c.spec_death())
    &&& complements(c.spec_supported(), c.spec_death(), bp.spec_atom_count())
}

impl BipolarSupportCertificate {
    pub closed spec fn spec_supported(self) -> Seq<bool> {
        self.supported@
    }

    pub closed spec fn spec_death(self) -> GroundedCertificate {
        self.death
    }

    pub fn is_supported(&self, atom: GroundedAtomId) -> (supported: bool)
        ensures
            supported == (atom.id() < self.spec_supported().len() && self.spec_supported()[atom.id() as int]),
    {
        if atom.0 < self.supported.len() {
            self.supported[atom.0]
        } else {
            false
        }
    }

    pub fn death_certificate(&self) -> (death: &GroundedCertificate)
        ensures
            *death == self.spec_death(),
    {
        &self.death
    }

    /// The supported atoms in increasing index order.
    pub fn supported_atoms(&self) -> (atoms: Vec<GroundedAtomId>)
        ensures
            strictly_sorted(atoms@),
            forall|a: GroundedAtomId| atoms@.contains(a) <==> (a.id() < self.spec_supported().len() && self.spec_supported()[a.id() as int]),
    {
        let mut out: Vec<GroundedAtomId> = Vec::new();
        let mut i: usize = 0;
        while i < self.supported.len()
            invariant
                i <= self.supported.len(),
                strictly_sorted(out@),
                forall|k: int| 0 <= k < out@.len() ==> #[trigger] out@[k].id() < i,
                forall|a: GroundedAtomId| out@.contains(a) <==> (a.id() < i && self.supported@[a.id() as int]),
            decreases self.supported.len() - i,
        {
            if self.supported[i] {
                let ghost before = out@;
                out.push(GroundedAtomId(i));
                proof {
                    assert forall|a: GroundedAtomId| out@.contains(a) <==> (a.id() < i + 1 && self.supported@[a.id() as int]) by {
                        lemma_push_contains(before, GroundedAtomId(i), a);
                        if a.id() == i {
                            assert(a == GroundedAtomId(i));
                        }
                    }
                }
            }
            i = i + 1;
        }
        out
    }
}

proof fn lemma_death_program_exists(bp: BipolarSupportProgram, gp: GroundedProgram)
    requires
        bp.is_death_program(gp),
    ensures
        bp.is_death_program(choose|g: GroundedProgram| bp.is_death_program(g)),
        same_view(gp, choose|g: GroundedProgram| bp.is_death_program(g)),
{
    let g = choose|g: GroundedProgram| bp.is_death_program(g);
    lemma_death_programs_agree(bp, gp, g);
}

/// Checks a support certificate; see `bipolar_check_result` for the report order.
pub fn check_bipolar_support(program: &BipolarSupportProgram, certificate: &BipolarSupportCertificate) -> (result: Result<(), GroundedClosureError>)
    requires
        program.wf(),
    ensures
        result == bipolar_check_result(*program, *certificate),
        result is Ok <==> bipolar_valid(*program, *certificate),
        result is Ok ==> is_greatest_support(*program, certificate.spec_supported()),
{
    let n = program.atom_count;
    if certificate.supported.len() != n {
        return Err(GroundedClosureError::CertificateShapeMismatch);
    }
    let death_program = match program.death_program() {
        Ok(gp) => gp,
        Err(e) => {
            return Err(e);
        },
    };
    let ghost gp = death_program;
    proof {
        lemma_death_program_exists(*program, gp);
        let g = choose|g: GroundedProgram| program.is_death_program(g);
        lemma_same_view_check_result(gp, g, certificate.death);
        assert forall|g2: GroundedProgram| #[trigger] program.is_death_program(g2) implies cert_valid(g2, certificate.death) == cert_valid(gp, certificate.death) by {
            lemma_death_programs_agree(*program, gp, g2);
            lemma_same_view_valid(gp, g2, certificate.death);
        }
        lemma_check_result_ok(gp, certificate.death);
    }
    match check(&death_program, &certificate.death) {
        Ok(()) => {},
        Err(e) => {
            return Err(e);
        },
    }
    proof {
        lemma_check_result_ok(gp, certificate.death);
        assert(bipolar_check_result(*program, *certificate) == (if complements(certificate.supported@, certificate.death, n as nat) {
            Ok::<(), GroundedClosureError>(())
        } else {
            Err(GroundedClosureError::CertificateShapeMismatch)
        }));
    }
    let mut i: usize = 0;
    while i < n
        invariant
            i <= n,
            n == program.spec_atom_count(),
            certificate.supported@.len() == n,
            bipolar_check_result(*program, *certificate) == (if complements(certificate.supported@, certificate.death, n as nat) {
                Ok::<(), GroundedClosureError>(())
            } else {
                Err(GroundedClosureError::CertificateShapeMismatch)
            }),
            shape_ok(gp, certificate.death),
            gp.spec_atom_count() == n,
            forall|a: int| 0 <= a < i ==> #[trigger] certificate.supported@[a] != certificate.death.spec_live()[a],
        decreases n - i,
    {
        if certificate.supported[i] == certificate.death.live[i] {
            return Err(GroundedClosureError::CertificateShapeMismatch);
        }
        i = i + 1;
    }
    proof {
        let c = certificate.death;
        lemma_valid_certificate_is_least_model(gp, c);
        assert forall|a: int| 0 <= a < n implies (#[trigger] certificate.supported@[a] <==> !necessarily_dead(*program, a)) by {
            lemma_death_least_model(*program, gp, a);
        }
        lemma_complement_of_death_is_greatest_support(*program, certificate.supported@);
    }
    let mut k: usize = 0;
    while k < program.unavailable.len()
        invariant
            k <= program.unavailable.len(),
            program.wf(),
            program.is_death_program(gp),
            cert_valid(gp, certificate.death),
            n == program.spec_atom_count(),
            certificate.supported@.len() == n,
            complements(certificate.supported@, certificate.death, n as nat),
        decreases program.unavailable.len() - k,
    {
        let atom = program.unavailable[k];
        proof {
            assert(gp.spec_seeds()[k as int] == atom);
            assert(certificate.death.spec_live()[atom.id() as int]);
        }
        if certificate.is_supported(atom) {
            return Err(GroundedClosureError::MissingSeed(atom));
        }
        k = k + 1;
    }
    let mut q: usize = 0;
    while q < program.requirements.len()
        invariant
            q <= program.requirements.len(),
            program.wf(),
            program.is_death_program(gp),
            cert_valid(gp, certificate.death),
            n == program.spec_atom_count(),
            certificate.supported@.len() == n,
            complements(certificate.supported@, certificate.death, n as nat),
        decreases program.requirements.len() - q,
    {
        let requirement = &program.requirements[q];
        let dependent_supported = certificate.is_supported(requirement.dependent);
        let mut any = false;
        let mut k: usize = 0;
        while k < requirement.supporters.len()
            invariant
                k <= requirement.supporters.len(),
                !any ==> forall|j: int| 0 <= j < k ==> !(requirement.supporters@[j].id() < certificate.spec_supported().len()
                    && certificate.spec_supported()[#[trigger] requirement.supporters@[j].id() as int]),
            decreases requirement.supporters.len() - k,
        {
            if certificate.is_supported(requirement.supporters[k]) {
                any = true;
            }
            k = k + 1;
        }
        if dependent_supported && !any {
            proof {
                let rule = gp.spec_rules()[q as int];
                let req = program.spec_requirements()[q as int];
                assert(req == *requirement);
                assert(rule.spec_enabled());
                assert(atoms_below(req.supporters@, n as nat));
                assert(body_live(rule, certificate.death.spec_live())) by {
                    assert forall|m: int| 0 <= m < rule.spec_body().len() implies certificate.death.spec_live()[#[trigger] rule.spec_body()[m].id() as int] by {
                        assert(rule.spec_body().contains(rule.spec_body()[m]));
                        let j = choose|j: int| 0 <= j < req.supporters@.len() && req.supporters@[j] == rule.spec_body()[m];
                        assert(req.supporters@[j].id() < n);
                        assert(!certificate.supported@[req.supporters@[j].id() as int]);
                    }
                }
                assert(rule.spec_head() == req.dependent);
            }
            return Err(GroundedClosureError::NotClosedUnderRule(GroundedRuleId(0)));
        }
        q = q + 1;
    }
    Ok(())
}

fn complement_live(death: &GroundedCertificate, n: usize) -> (supported: Vec<bool>)
    requires
        death.spec_live().len() == n,
    ensures
        supported@.len() == n,
        complements(supported@, *death, n as nat),
{
    let mut supported: Vec<bool> = Vec::new();
    let mut i: usize = 0;
    while i < n
        invariant
            i <= n,
            death.spec_live().len() == n,
            supported@.len() == i,
            forall|a: int| 0 <= a < i ==> #[trigger] supported@[a] != death.spec_live()[a],
        decreases n - i,
    {
        supported.push(!death.is_live(GroundedAtomId(i)));
        i = i + 1;
    }
    supported
}

/// Greatest support: solves the grounded death dual and complements it.
pub fn solve_bipolar_support(program: &BipolarSupportProgram) -> (result: Result<(BipolarSupportCertificate, GroundedWorkStats), GroundedClosureError>)
    requires
        program.wf(),
    ensures
        result is Ok,
        result matches Ok((c, _)) ==> bipolar_valid(*program, c) && is_greatest_support(*program, c.spec_supported()),
{
    let death_program = match program.death_program() {
        Ok(gp) => gp,
        Err(e) => {
            return Err(e);
        },
    };
    let (death, stats) = solve(&death_program);
    let supported = complement_live(&death, program.atom_count);
    let certificate = BipolarSupportCertificate { supported, death };
    proof {
        lemma_death_program_exists(*program, death_program);
        let g = choose|g: GroundedProgram| program.is_death_program(g);
        lemma_same_view_check_result(death_program, g, certificate.death);
        lemma_check_result_ok(death_program, certificate.death);
    }
    match check_bipolar_support(program, &certificate) {
        Ok(()) => Ok((certificate, stats)),
        Err(e) => Err(e),
    }
}

/// The death program of `bp`.
pub open spec fn death_of(bp: BipolarSupportProgram) -> GroundedProgram {
    choose|g: GroundedProgram| bp.is_death_program(g)
}

proof fn lemma_first_unmatched_view(pn: GroundedProgram, qn: GroundedProgram, m: Seq<bool>, rule: GroundedRule, rule2: GroundedRule, j: int)
    requires
        same_view(pn, qn),
        same_rule(rule, rule2),
    ensures
        first_unmatched(pn, m, rule, j) == first_unmatched(qn, m, rule2, j),
    decreases pn.spec_rules().len() - j,
{
    if 0 <= j < pn.spec_rules().len() {
        assert(same_rule(pn.spec_rules()[j], rule) == same_rule(qn.spec_rules()[j], rule2));
        lemma_first_unmatched_view(pn, qn, m, rule, rule2, j + 1);
    }
}

proof fn lemma_rule_matching_view(po: GroundedProgram, qo: GroundedProgram, pn: GroundedProgram, qn: GroundedProgram, i: int)
    requires
        same_view(po, qo),
        same_view(pn, qn),
        i <= po.spec_rules().len(),
    ensures
        rule_matching(po, pn, i) == rule_matching(qo, qn, i),
    decreases i,
{
    if i > 0 {
        lemma_rule_matching_view(po, qo, pn, qn, i - 1);
        let (o, m) = rule_matching(po, pn, i - 1);
        assert(same_rule(po.spec_rules()[i - 1], qo.spec_rules()[i - 1]));
        lemma_first_unmatched_view(pn, qn, m, po.spec_rules()[i - 1], qo.spec_rules()[i - 1], 0);
    } else {
        assert(Seq::new(pn.spec_rules().len(), |x: int| false) =~= Seq::new(qn.spec_rules().len(), |x: int| false));
    }
}

proof fn lemma_carried_roots_view(pn: GroundedProgram, qn: GroundedProgram, old: GroundedCertificate, o2n: Seq<Option<int>>, k: int)
    requires
        same_view(pn, qn),
    ensures
        carried_roots(pn, old, o2n, k) == carried_roots(qn, old, o2n, k),
    decreases k,
{
    if k > 0 {
        lemma_carried_roots_view(pn, qn, old, o2n, k - 1);
        assert(pn.is_seed(k - 1) == qn.is_seed(k - 1));
    }
}

proof fn lemma_same_view_structure(p: GroundedProgram, q: GroundedProgram)
    requires
        same_view(p, q),
    ensures
        same_structure(p, q),
{
}

/// Carries a support certificate across a structural change of the support
/// program by reconciling the dual death certificates.
pub fn reconcile_bipolar_support(
    old_program: &BipolarSupportProgram,
    new_program: &BipolarSupportProgram,
    certificate_before: &BipolarSupportCertificate,
) -> (result: Result<(BipolarSupportCertificate, GroundedWorkStats), GroundedClosureError>)
    requires
        old_program.wf(),
        new_program.wf(),
    ensures
        bipolar_check_result(*old_program, *certificate_before) matches Err(e) ==> result == Err::<(BipolarSupportCertificate, GroundedWorkStats), GroundedClosureError>(e),
        result matches Ok((c, _)) ==> bipolar_valid(*new_program, c) && is_greatest_support(*new_program, c.spec_supported()),
        bipolar_check_result(*old_program, *certificate_before) is Ok && new_program.spec_atom_count() >= old_program.spec_atom_count()
            && 2 * new_program.spec_atom_count() + 2 <= usize::MAX
            && ranks_within(certificate_before.spec_death(), usize::MAX - 2 * new_program.spec_atom_count() - 2) ==> result is Ok,
        result matches Ok((_, s)) ==> s.affected_atoms == cone_count(death_of(*old_program), certificate_before.spec_death(),
            carried_roots(death_of(*new_program), certificate_before.spec_death(),
                rule_matching(death_of(*old_program), death_of(*new_program), death_of(*old_program).spec_rules().len() as int).0,
                old_program.spec_atom_count() as int),
            old_program.spec_atom_count() as int),
{
    match check_bipolar_support(old_program, certificate_before) {
        Ok(()) => {},
        Err(e) => {
            return Err(e);
        },
    }
    let old_death = match old_program.death_program() {
        Ok(gp) => gp,
        Err(e) => {
            return Err(e);
        },
    };
    let new_death = match new_program.death_program() {
        Ok(gp) => gp,
        Err(e) => {
            return Err(e);
        },
    };
    proof {
        lemma_death_program_exists(*old_program, old_death);
        let g = choose|g: GroundedProgram| old_program.is_death_program(g);
        lemma_same_view_check_result(old_death, g, certificate_before.death);
    }
    let (death, stats) = match reconcile_structural_change(&old_death, &new_death, &certificate_before.death) {
        Ok(pair) => pair,
        Err(e) => {
            return Err(e);
        },
    };
    proof {
        lemma_death_program_exists(*old_program, old_death);
        lemma_death_program_exists(*new_program, new_death);
        let go = death_of(*old_program);
        let gn = death_of(*new_program);
        let d0 = certificate_before.death;
        let l = old_death.spec_rules().len() as int;
        lemma_rule_matching_view(old_death, go, new_death, gn, l);
        let o2s = rule_matching(old_death, new_death, l).0;
        lemma_carried_roots_view(new_death, gn, d0, o2s, old_program.spec_atom_count() as int);
        lemma_same_view_structure(old_death, go);
        lemma_cone_count_same_structure(old_death, go, d0, carried_roots(new_death, d0, o2s, old_program.spec_atom_count() as int), old_program.spec_atom_count() as int);
    }
    let supported = complement_live(&death, new_program.atom_count);
    let certificate = BipolarSupportCertificate { supported, death };
    proof {
        lemma_death_program_exists(*new_program, new_death);
        let g = choose|g: GroundedProgram| new_program.is_death_program(g);
        lemma_same_view_check_result(new_death, g, certificate.death);
        lemma_check_result_ok(new_death, certificate.death);
    }
    match check_bipolar_support(new_program, &certificate) {
        Ok(()) => Ok((certificate, stats)),
        Err(e) => Err(e),
    }
}

impl GroundedProgram {
    /// The retained-size estimate when the rule vector has room for
    /// `rules_room` rules and each body has the matching entry of `body_rooms`.
    pub open spec fn retained_bytes_with(self, rules_room: int, body_rooms: Seq<int>) -> int {
        sat_sum(
            sat_add(
                sat_add(size_of::<GroundedProgram>() as int, sat_mul(self.spec_seeds().len() as int, size_of::<GroundedAtomId>() as int)),
                sat_mul(rules_room, size_of::<GroundedRule>() as int),
            ),
            body_rooms,
            size_of::<GroundedAtomId>() as int,
        )
    }

    /// Each room is at least what it holds.
    pub open spec fn rooms_fit(self, rules_room: int, body_rooms: Seq<int>) -> bool {
        &&& rules_room >= self.spec_rules().len()
        &&& body_rooms.len() == self.spec_rules().len()
        &&& forall|i: int| 0 <= i < body_rooms.len() ==> body_rooms[i] >= (#[trigger] self.spec_rules()[i]).spec_body().len()
    }

    /// A deterministic estimate of the bytes the program retains for
    /// physical budgeting: its own size, its seeds, and the room its rule
    /// and body vectors hold.
    pub fn estimated_retained_bytes(&self) -> (bytes: usize)
        ensures
            exists|rules_room: int, body_rooms: Seq<int>| #[trigger] self.rooms_fit(rules_room, body_rooms)
                && bytes == self.retained_bytes_with(rules_room, body_rooms),
    {
        let atom = core::mem::size_of::<GroundedAtomId>();
        let rules_room = vec_capacity(&self.rules);
        let mut bytes = saturating_add(
            saturating_add(core::mem::size_of::<Self>(), saturating_mul(self.seeds.len(), atom)),
            saturating_mul(rules_room, core::mem::size_of::<GroundedRule>()),
        );
        let ghost start = bytes as int;
        let ghost mut rooms: Seq<int> = Seq::empty();
        let mut i: usize = 0;
        while i < self.rules.len()
            invariant
                i <= self.rules@.len(),
                rooms.len() == i,
                forall|j: int| 0 <= j < i ==> rooms[j] >= (#[trigger] self.rules@[j]).spec_body().len(),
                bytes == sat_sum(start, rooms, atom as int),
            decreases self.rules@.len() - i,
        {
            let room = vec_capacity(&self.rules[i].body);
            bytes = saturating_add(bytes, saturating_mul(room, atom));
            proof {
                let before = rooms;
                rooms = rooms.push(room as int);
                assert(rooms.drop_last() =~= before);
            }
            i = i + 1;
        }
        proof {
            assert(self.rooms_fit(rules_room as int, rooms));
        }
        bytes
    }
}

impl GroundedCertificate {
    /// The retained-size estimate for the given rooms of its three vectors.
    pub open spec fn retained_bytes_with(self, live_room: int, rank_room: int, witness_room: int) -> int {
        sat_add(
            sat_add(
                sat_add(size_of::<GroundedCertificate>() as int, sat_mul(live_room, size_of::<bool>() as int)),
                sat_mul(rank_room, size_of::<Option<usize>>() as int),
            ),
            sat_mul(witness_room, size_of::<Option<GroundedWitness>>() as int),
        )
    }

    /// `bytes` is the estimate for some rooms at least as large as the vectors.
    pub open spec fn is_retained_estimate(self, bytes: int) -> bool {
        exists|live_room: int, rank_room: int, witness_room: int|
            live_room >= self.spec_live().len() && rank_room >= self.spec_rank().len()
                && witness_room >= self.spec_witness().len()
                && bytes == #[trigger] self.retained_bytes_with(live_room, rank_room, witness_room)
    }

    /// A deterministic estimate of the bytes the certificate retains.
    pub fn estimated_retained_bytes(&self) -> (bytes: usize)
        ensures
            self.is_retained_estimate(bytes as int),
    {
        let live_room = vec_capacity(&self.live);
        let rank_room = vec_capacity(&self.rank);
        let witness_room = vec_capacity(&self.witness);
        let bytes = saturating_add(
            saturating_add(
                saturating_add(core::mem::size_of::<Self>(), saturating_mul(live_room, core::mem::size_of::<bool>())),
                saturating_mul(rank_room, core::mem::size_of::<Option<usize>>()),
            ),
            saturating_mul(witness_room, core::mem::size_of::<Option<GroundedWitness>>()),
        );
        assert(bytes == self.retained_bytes_with(live_room as int, rank_room as int, witness_room as int));
        bytes
    }
}

impl BipolarSupportProgram {
    /// The retained-size estimate when the requirement vector has room for
    /// `requirements_room` and each supporter list the matching entry of `supporter_rooms`.
    pub open spec fn retained_bytes_with(self, requirements_room: int, supporter_rooms: Seq<int>) -> int {
        sat_sum(
            sat_add(
                sat_add(
                    size_of::<BipolarSupportProgram>() as int,
                    sat_mul(self.spec_unavailable().len() as int, size_of::<GroundedAtomId>() as int),
                ),
                sat_mul(requirements_room, size_of::<BipolarSupportRequirement>() as int),
            ),
            supporter_rooms,
            size_of::<GroundedAtomId>() as int,
        )
    }

    /// Each room is at least what it holds.
    pub open spec fn rooms_fit(self, requirements_room: int, supporter_rooms: Seq<int>) -> bool {
        &&& requirements_room >= self.spec_requirements().len()
        &&& supporter_rooms.len() == self.spec_requirements().len()
        &&& forall|i: int| 0 <= i < supporter_rooms.len() ==> supporter_rooms[i] >= (#[trigger] self.spec_requirements()[i]).supporters@.len()
    }

    /// A deterministic estimate of the bytes the program retains.
    pub fn estimated_retained_bytes(&self) -> (bytes: usize)
        ensures
            exists|requirements_room: int, supporter_rooms: Seq<int>| #[trigger] self.rooms_fit(requirements_room, supporter_rooms)
                && bytes == self.retained_bytes_with(requirements_room, supporter_rooms),
    {
        let atom = core::mem::size_of::<GroundedAtomId>();
        let requirements_room = vec_capacity(&self.requirements);
        let mut bytes = saturating_add(
            saturating_add(core::mem::size_of::<Self>(), saturating_mul(self.unavailable.len(), atom)),
            saturating_mul(requirements_room, core::mem::size_of::<BipolarSupportRequirement>()),
        );
        let ghost start = bytes as int;
        let ghost mut rooms: Seq<int> = Seq::empty();
        let mut i: usize = 0;
        while i < self.requirements.len()
            invariant
                i <= self.requirements@.len(),
                rooms.len() == i,
                forall|j: int| 0 <= j < i ==> rooms[j] >= (#[trigger] self.requirements@[j]).supporters@.len(),
                bytes == sat_sum(start, rooms, atom as int),
            decreases self.requirements@.len() - i,
        {
            let room = vec_capacity(&self.requirements[i].supporters);
            bytes = saturating_add(bytes, saturating_mul(room, atom));
            proof {
                let before = rooms;
                rooms = rooms.push(room as int);
                assert(rooms.drop_last() =~= before);
            }
            i = i + 1;
        }
        proof {
            assert(self.rooms_fit(requirements_room as int, rooms));
        }
        bytes
    }
}

impl BipolarSupportCertificate {
    /// The retained-size estimate for a supported-vector room and the death
    /// certificate's own estimate.
    pub open spec fn retained_bytes_with(self, supported_room: int, death_bytes: int) -> int {
        sat_add(
            sat_add(size_of::<BipolarSupportCertificate>() as int, sat_mul(supported_room, size_of::<bool>() as int)),
            death_bytes,
        )
    }

    /// A deterministic estimate of the bytes the certificate retains,
    /// including its death certificate.
    pub fn estimated_retained_bytes(&self) -> (bytes: usize)
        ensures
            exists|supported_room: int, death_bytes: int| supported_room >= self.spec_supported().len()
                && self.spec_death().is_retained_estimate(death_bytes)
                && bytes == #[trigger] self.retained_bytes_with(supported_room, death_bytes),
    {
        let supported_room = vec_capacity(&self.supported);
        let death_bytes = self.death.estimated_retained_bytes();
        let bytes = saturating_add(
            saturating_add(core::mem::size_of::<Self>(), saturating_mul(supported_room, core::mem::size_of::<bool>())),
            death_bytes,
        );
        assert(bytes == self.retained_bytes_with(supported_room as int, death_bytes as int));
        bytes
    }
}

} // verus!
