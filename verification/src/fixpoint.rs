//! Positive recursive bag evaluation: exact proof-tree multiplicities over a
//! grounded support, with productive cycles classified as infinite.

use vstd::prelude::*;
use std::collections::VecDeque;
use crate::digraph::{
    adjacency_ok, below_cycle, count_false, on_cycle, cycle_downstream, graph_edges, is_path, lemma_bad_below_cycle,
    lemma_bad_below_cycle_rel,
    lemma_below_cycle_step, lemma_cons_contains, lemma_count_false_all, lemma_count_false_update, lemma_on_cycle_below,
    lemma_pred_count_bound, lemma_pred_count_remove, lemma_pred_count_zero, path_step, pred_count,
};
use crate::grounded::{
    lemma_push_contains, check_result, lemma_same_view_check_result, same_view, lemma_sorted_same_atoms_equal,
    atom_at, atom_justified, atoms_below, body_live, cert_valid, check, closed_set, GroundedWitness, copy_seq, first_outside, in_least_model, is_least_model,
    lemma_atom_at, lemma_first_outside, same_atoms, solve as solve_grounded, strictly_sorted, GroundedAtomId,
    GroundedCertificate, GroundedClosureError, GroundedProgram, GroundedRule,
};
use crate::decimal::{
    chunk_base, chunk_pow, chunks_below_base, chunks_padded, chunks_value, decimal_digits,
    decimal_string_of_chunks, lemma_chunk_pow_add, lemma_chunk_pow_positive, lemma_chunk_split_digit,
    lemma_chunks_bound, lemma_chunks_drop_zero, lemma_chunks_lower_bound, lemma_chunks_padded,
    lemma_chunks_prefix, lemma_chunks_push, lemma_chunks_top_nonzero, lemma_chunks_first,
};

verus! {

/// The value of little-endian base-10^9 digits that may exceed the base.
pub open spec fn wide_value(s: Seq<u128>) -> nat
    decreases s.len(),
{
    if s.len() == 0 {
        0
    } else {
        wide_value(s.drop_last()) + (s.last() as nat) * chunk_pow((s.len() - 1) as nat)
    }
}

pub proof fn lemma_wide_prefix(s: Seq<u128>, i: int)
    requires
        0 <= i < s.len(),
    ensures
        wide_value(s.subrange(0, i + 1)) == wide_value(s.subrange(0, i)) + s[i] * chunk_pow(i as nat),
{
    assert(s.subrange(0, i + 1).drop_last() =~= s.subrange(0, i));
}

/// Replacing digit `i` changes the value by the difference at weight `i`.
pub proof fn lemma_wide_update(s: Seq<u128>, i: int, x: u128)
    requires
        0 <= i < s.len(),
    ensures
        wide_value(s.update(i, x)) + (s[i] as nat) * chunk_pow(i as nat) == wide_value(s) + (x as nat) * chunk_pow(i as nat),
    decreases s.len(),
{
    let u = s.update(i, x);
    if i == s.len() - 1 {
        assert(u.drop_last() =~= s.drop_last());
    } else {
        lemma_wide_update(s.drop_last(), i, x);
        assert(u.drop_last() =~= s.drop_last().update(i, x));
        assert(u.last() == s.last());
    }
}

pub proof fn lemma_wide_zero(s: Seq<u128>)
    requires
        forall|i: int| 0 <= i < s.len() ==> s[i] == 0,
    ensures
        wide_value(s) == 0,
    decreases s.len(),
{
    if s.len() > 0 {
        assert forall|i: int| 0 <= i < s.drop_last().len() implies s.drop_last()[i] == 0 by {
            assert(s.drop_last()[i] == s[i]);
        }
        lemma_wide_zero(s.drop_last());
        assert(s.last() == s[s.len() - 1]);
    }
}

/// Exact non-negative integer held as little-endian base-10^9 limbs, so that
/// finite proof-tree counts never saturate into the infinite value.
#[derive(Debug, PartialEq, Eq)]
pub struct BigNatural {
    limbs: Vec<u32>,
}

impl BigNatural {
    pub closed spec fn limbs_view(self) -> Seq<u32> {
        self.limbs@
    }

    /// The number this natural denotes.
    pub open spec fn value(self) -> nat {
        chunks_value(self.limbs_view())
    }

    /// Limbs lie below the base and carry no most-significant zero.
    pub open spec fn wf(self) -> bool {
        &&& chunks_below_base(self.limbs_view())
        &&& self.limbs_view().len() > 0 ==> self.limbs_view().last() != 0
    }

    pub fn zero() -> (n: Self)
        ensures
            n.wf(),
            n.value() == 0,
    {
        BigNatural { limbs: Vec::new() }
    }

    pub fn one() -> (n: Self)
        ensures
            n.wf(),
            n.value() == 1,
    {
        Self::from_u64(1)
    }

    pub fn from_u64(value: u64) -> (n: Self)
        ensures
            n.wf(),
            n.value() == value,
    {
        let mut rest = value;
        let mut limbs: Vec<u32> = Vec::new();
        proof {
            assert(chunk_pow(0) == 1);
            assert(limbs@ =~= Seq::<u32>::empty());
            assert(chunks_value(limbs@) == 0);
        }
        while rest != 0
            invariant
                value == chunks_value(limbs@) + chunk_pow(limbs@.len()) * rest,
                chunks_below_base(limbs@),
                limbs@.len() > 0 && rest == 0 ==> limbs@.last() != 0,
            decreases rest,
        {
            let digit = (rest % 1_000_000_000) as u32;
            let next = rest / 1_000_000_000;
            let ghost prior = limbs@;
            limbs.push(digit);
            proof {
                lemma_chunks_push(prior, digit);
                let p = chunk_pow(prior.len());
                assert(chunk_pow(limbs@.len()) == chunk_base() * p);
                assert(rest == next * chunk_base() + digit);
                assert(p * rest == digit * p + (chunk_base() * p) * next) by (nonlinear_arith)
                    requires
                        rest == next * chunk_base() + digit,
                ;
                assert forall|i: int| 0 <= i < limbs@.len() implies limbs@[i] < chunk_base() by {
                    if i < prior.len() {
                        assert(limbs@[i] == prior[i]);
                    }
                }
            }
            rest = next;
        }
        BigNatural { limbs }
    }

    pub fn is_zero(&self) -> (zero: bool)
        requires
            self.wf(),
        ensures
            zero <==> self.value() == 0,
    {
        proof {
            if self.limbs@.len() > 0 {
                lemma_chunks_lower_bound(self.limbs@);
                lemma_chunk_pow_positive((self.limbs@.len() - 1) as nat);
            }
        }
        self.limbs.len() == 0
    }

    /// Whether both hold the same limbs.
    pub fn same_as(&self, other: &Self) -> (same: bool)
        ensures
            same <==> self.limbs_view() == other.limbs_view(),
    {
        if self.limbs.len() != other.limbs.len() {
            return false;
        }
        let mut i: usize = 0;
        while i < self.limbs.len()
            invariant
                i <= self.limbs@.len(),
                self.limbs@.len() == other.limbs@.len(),
                forall|j: int| 0 <= j < i ==> self.limbs@[j] == other.limbs@[j],
            decreases self.limbs@.len() - i,
        {
            if self.limbs[i] != other.limbs[i] {
                return false;
            }
            i = i + 1;
        }
        assert(self.limbs@ =~= other.limbs@);
        true
    }

    pub fn add_assign(&mut self, rhs: &Self)
        requires
            old(self).wf(),
            rhs.wf(),
        ensures
            final(self).wf(),
            final(self).value() == old(self).value() + rhs.value(),
    {
        let max_len = if self.limbs.len() >= rhs.limbs.len() { self.limbs.len() } else { rhs.limbs.len() };
        let ghost a0 = self.limbs@;
        while self.limbs.len() < max_len
            invariant
                a0.len() <= self.limbs@.len() <= max_len,
                forall|j: int| 0 <= j < self.limbs@.len() ==> #[trigger] self.limbs@[j] == chunks_padded(a0, max_len as nat)[j],
            decreases max_len - self.limbs@.len(),
        {
            self.limbs.push(0);
        }
        let ghost a = chunks_padded(a0, max_len as nat);
        let ghost o = chunks_padded(rhs.limbs@, max_len as nat);
        assert(self.limbs@ =~= a);
        proof {
            lemma_chunks_padded(a0, max_len as nat);
            lemma_chunks_padded(rhs.limbs@, max_len as nat);
            assert(self.limbs@.subrange(0, 0) =~= Seq::<u32>::empty());
            assert(a.subrange(0, 0) =~= Seq::<u32>::empty());
            assert(o.subrange(0, 0) =~= Seq::<u32>::empty());
            assert(chunk_pow(0) == 1);
            assert(chunks_below_base(a));
            assert(chunks_below_base(o));
        }
        let mut carry: u64 = 0;
        let mut index: usize = 0;
        while index < max_len
            invariant
                index <= max_len,
                self.limbs@.len() == max_len,
                a.len() == max_len,
                o == chunks_padded(rhs.limbs@, max_len as nat),
                chunks_below_base(a),
                chunks_below_base(o),
                carry <= 1,
                forall|j: int| index <= j < max_len ==> #[trigger] self.limbs@[j] == a[j],
                forall|j: int| 0 <= j < index ==> #[trigger] self.limbs@[j] < chunk_base(),
                chunks_value(self.limbs@.subrange(0, index as int)) + carry * chunk_pow(index as nat)
                    == chunks_value(a.subrange(0, index as int)) + chunks_value(o.subrange(0, index as int)),
            decreases max_len - index,
        {
            let right: u32 = if index < rhs.limbs.len() { rhs.limbs[index] } else { 0 };
            assert(right == o[index as int]);
            let left = self.limbs[index];
            assert(left == a[index as int]);
            let sum = left as u64 + right as u64 + carry;
            let ghost before = self.limbs@;
            let digit = (sum % 1_000_000_000) as u32;
            self.limbs.set(index, digit);
            let next = sum / 1_000_000_000;
            proof {
                let i = index as int;
                let p = chunk_pow(index as nat);
                lemma_chunks_prefix(self.limbs@, i);
                lemma_chunks_prefix(a, i);
                lemma_chunks_prefix(o, i);
                assert(self.limbs@.subrange(0, i) =~= before.subrange(0, i));
                lemma_chunk_split_digit(sum as int, p as int);
                assert(chunk_pow((index + 1) as nat) == chunk_base() * p);
                assert((sum as int) * p == (a[i] as int) * p + (o[i] as int) * p + (carry as int) * p) by (nonlinear_arith)
                    requires
                        sum as int == a[i] as int + o[i] as int + carry as int,
                ;
                assert(self.limbs@[i] == digit);
            }
            carry = next;
            index = index + 1;
        }
        proof {
            assert(self.limbs@.subrange(0, max_len as int) =~= self.limbs@);
            assert(a.subrange(0, max_len as int) =~= a);
            assert(o.subrange(0, max_len as int) =~= o);
        }
        if carry != 0 {
            let ghost before = self.limbs@;
            self.limbs.push(1);
            proof {
                lemma_chunks_push(before, 1);
            }
        } else {
            proof {
                if max_len > 0 {
                    if a0.len() == max_len {
                        lemma_chunks_lower_bound(a0);
                    } else {
                        lemma_chunks_lower_bound(rhs.limbs@);
                    }
                    lemma_chunks_top_nonzero(self.limbs@);
                }
            }
        }
    }

    #[verifier::rlimit(30)]
    pub fn multiplied(&self, rhs: &Self) -> (product: Self)
        requires
            self.wf(),
            rhs.wf(),
        ensures
            product.wf(),
            product.value() == self.value() * rhs.value(),
    {
        if self.is_zero() || rhs.is_zero() {
            let ghost x = self.value();
            let ghost y = rhs.value();
            assert(x * y == 0) by (nonlinear_arith)
                requires
                    x == 0 || y == 0,
            ;
            return Self::zero();
        }
        let ghost a = self.limbs@;
        let ghost b = rhs.limbs@;
        let ghost vb = rhs.value();
        let mut accum: Vec<u128> = Vec::new();
        let mut k: usize = 0;
        while k < self.limbs.len()
            invariant
                k <= a.len(),
                a == self.limbs@,
                accum@.len() == k,
                forall|j: int| 0 <= j < accum@.len() ==> #[trigger] accum@[j] == 0,
            decreases a.len() - k,
        {
            accum.push(0);
            k = k + 1;
        }
        let mut k: usize = 0;
        while k < rhs.limbs.len()
            invariant
                k <= b.len(),
                b == rhs.limbs@,
                accum@.len() == a.len() + k,
                forall|j: int| 0 <= j < accum@.len() ==> #[trigger] accum@[j] == 0,
            decreases b.len() - k,
        {
            accum.push(0);
            k = k + 1;
        }
        let total = accum.len();
        proof {
            lemma_wide_zero(accum@);
            assert(a.subrange(0, 0) =~= Seq::<u32>::empty());
            assert(chunks_value(Seq::<u32>::empty()) == 0);
        }
        let ghost m: nat = 999_999_999 * 999_999_999;
        let mut i: usize = 0;
        while i < self.limbs.len()
            invariant
                i <= a.len(),
                a == self.limbs@,
                b == rhs.limbs@,
                chunks_below_base(a),
                chunks_below_base(b),
                vb == chunks_value(b),
                total == a.len() + b.len(),
                accum@.len() == total,
                m == 999_999_999 * 999_999_999,
                forall|q: int| 0 <= q < total ==> #[trigger] accum@[q] <= i * m,
                wide_value(accum@) == chunks_value(a.subrange(0, i as int)) * vb,
            decreases a.len() - i,
        {
            let left = self.limbs[i];
            proof {
                assert(b.subrange(0, 0) =~= Seq::<u32>::empty());
                assert(chunks_value(Seq::<u32>::empty()) == 0);
                assert(left * 0 * chunk_pow(i as nat) == 0) by (nonlinear_arith);
            }
            let mut j: usize = 0;
            while j < rhs.limbs.len()
                invariant
                    i < a.len(),
                    j <= b.len(),
                    a == self.limbs@,
                    b == rhs.limbs@,
                    left == a[i as int],
                    chunks_below_base(a),
                    chunks_below_base(b),
                    total == a.len() + b.len(),
                    accum@.len() == total,
                    m == 999_999_999 * 999_999_999,
                    forall|q: int| 0 <= q < total ==>
                        #[trigger] accum@[q] <= (if i <= q < i + j { (i + 1) as nat } else { i as nat }) * m,
                    wide_value(accum@) == chunks_value(a.subrange(0, i as int)) * vb
                        + left * chunks_value(b.subrange(0, j as int)) * chunk_pow(i as nat),
                decreases b.len() - j,
            {
                let right = rhs.limbs[j];
                let index = i + j;
                let current = accum[index];
                proof {
                    assert(left < chunk_base());
                    assert(right < chunk_base());
                    assert(left as int * right as int <= m) by (nonlinear_arith)
                        requires
                            left <= 999_999_999,
                            right <= 999_999_999,
                            m == 999_999_999 * 999_999_999,
                    ;
                    assert(current <= i * m);
                    assert((i + 1) * m <= 0x1_0000_0000_0000_0000 * m) by (nonlinear_arith)
                        requires
                            i + 1 <= 0x1_0000_0000_0000_0000,
                    ;
                }
                let next = current + left as u128 * right as u128;
                let ghost before = accum@;
                accum.set(index, next);
                proof {
                    lemma_wide_update(before, index as int, next);
                    lemma_chunk_pow_add(i as nat, j as nat);
                    lemma_chunks_prefix(b, j as int);
                    let vj = chunks_value(b.subrange(0, j as int));
                    let pi = chunk_pow(i as nat);
                    let pj = chunk_pow(j as nat);
                    assert(left * (vj + right * pj) * pi == left * vj * pi + (left * right) * (pi * pj)) by (nonlinear_arith);
                    let pk = chunk_pow(index as nat);
                    assert(pk == pi * pj);
                    assert((next as nat) * pk == (current as nat) * pk + (left * right) * pk) by (nonlinear_arith)
                        requires
                            next as nat == current as nat + left * right,
                    ;
                    assert forall|q: int| 0 <= q < total implies
                        #[trigger] accum@[q] <= (if i <= q < i + j + 1 { (i + 1) as nat } else { i as nat }) * m by {
                        if q == index {
                            assert(accum@[q] == next);
                        } else {
                            assert(accum@[q] == before[q]);
                        }
                    }
                }
                j = j + 1;
            }
            proof {
                assert(b.subrange(0, b.len() as int) =~= b);
                lemma_chunks_prefix(a, i as int);
                let vi = chunks_value(a.subrange(0, i as int));
                assert((vi + left * chunk_pow(i as nat)) * vb == vi * vb + left * vb * chunk_pow(i as nat)) by (nonlinear_arith);
                assert forall|q: int| 0 <= q < total implies #[trigger] accum@[q] <= (i + 1) * m by {
                    assert(i * m <= (i + 1) * m) by (nonlinear_arith);
                }
            }
            i = i + 1;
        }
        proof {
            assert(a.subrange(0, a.len() as int) =~= a);
            assert(a.len() <= usize::MAX);
            assert(a.len() * m < 0x2000_0000_0000_0000_0000_0000_0000_0000int) by (nonlinear_arith)
                requires
                    a.len() <= 0xFFFF_FFFF_FFFF_FFFF,
                    m == 999_999_999 * 999_999_999,
            ;
            assert(accum@.subrange(0, 0) =~= Seq::<u128>::empty());
        }
        let mut limbs: Vec<u32> = Vec::new();
        let mut carry: u128 = 0;
        let mut q: usize = 0;
        while q < total
            invariant
                q <= total,
                total == accum@.len(),
                limbs@.len() == q,
                chunks_below_base(limbs@),
                forall|t: int| 0 <= t < total ==> #[trigger] accum@[t] < 0x2000_0000_0000_0000_0000_0000_0000_0000,
                carry < 0x2000_0000_0000_0000_0000_0000_0000_0000,
                chunks_value(limbs@) + carry * chunk_pow(q as nat) == wide_value(accum@.subrange(0, q as int)),
            decreases total - q,
        {
            let value = accum[q] + carry;
            let digit = (value % 1_000_000_000) as u32;
            let next = value / 1_000_000_000;
            let ghost prior = limbs@;
            limbs.push(digit);
            proof {
                lemma_chunks_push(prior, digit);
                lemma_wide_prefix(accum@, q as int);
                let p = chunk_pow(q as nat);
                lemma_chunk_split_digit(value as int, p as int);
                assert(chunk_pow((q + 1) as nat) == chunk_base() * p);
                assert((value as int) * p == (accum@[q as int] as int) * p + (carry as int) * p) by (nonlinear_arith)
                    requires
                        value as int == accum@[q as int] as int + carry as int,
                ;
                assert forall|t: int| 0 <= t < limbs@.len() implies limbs@[t] < chunk_base() by {
                    if t < prior.len() {
                        assert(limbs@[t] == prior[t]);
                    }
                }
            }
            carry = next;
            q = q + 1;
        }
        proof {
            assert(accum@.subrange(0, total as int) =~= accum@);
        }
        while carry != 0
            invariant
                chunks_below_base(limbs@),
                chunks_value(limbs@) + carry * chunk_pow(limbs@.len()) == self.value() * rhs.value(),
            decreases carry,
        {
            let digit = (carry % 1_000_000_000) as u32;
            let next = carry / 1_000_000_000;
            let ghost prior = limbs@;
            limbs.push(digit);
            proof {
                lemma_chunks_push(prior, digit);
                let p = chunk_pow(prior.len());
                lemma_chunk_split_digit(carry as int, p as int);
                assert(chunk_pow(limbs@.len()) == chunk_base() * p);
                assert forall|t: int| 0 <= t < limbs@.len() implies limbs@[t] < chunk_base() by {
                    if t < prior.len() {
                        assert(limbs@[t] == prior[t]);
                    }
                }
            }
            carry = next;
        }
        while limbs.len() > 0 && limbs[limbs.len() - 1] == 0
            invariant
                chunks_below_base(limbs@),
                chunks_value(limbs@) == self.value() * rhs.value(),
            decreases limbs@.len(),
        {
            let ghost before = limbs@;
            limbs.pop();
            proof {
                assert(limbs@ =~= before.drop_last());
                lemma_chunks_drop_zero(before);
                assert forall|t: int| 0 <= t < limbs@.len() implies limbs@[t] < chunk_base() by {
                    assert(limbs@[t] == before[t]);
                }
            }
        }
        BigNatural { limbs }
    }

    /// Renders the value in decimal.
    pub fn to_decimal_string(&self) -> (text: String)
        requires
            self.wf(),
        ensures
            text@ == decimal_digits(self.value()),
    {
        decimal_string_of_chunks(self.limbs.as_slice())
    }
}

impl Clone for BigNatural {
    fn clone(&self) -> (copy: Self)
        ensures
            copy.limbs_view() == self.limbs_view(),
    {
        let mut limbs: Vec<u32> = Vec::new();
        let mut i: usize = 0;
        while i < self.limbs.len()
            invariant
                i <= self.limbs@.len(),
                limbs@ == self.limbs@.subrange(0, i as int),
            decreases self.limbs@.len() - i,
        {
            limbs.push(self.limbs[i]);
            i = i + 1;
            assert(limbs@ =~= self.limbs@.subrange(0, i as int));
        }
        assert(self.limbs@.subrange(0, self.limbs@.len() as int) =~= self.limbs@);
        BigNatural { limbs }
    }
}

impl Default for BigNatural {
    fn default() -> (zero: Self)
        ensures
            zero.wf(),
            zero.value() == 0,
    {
        BigNatural { limbs: Vec::new() }
    }
}

/// A multiplicity: a finite natural or infinity.
#[derive(Debug, PartialEq, Eq)]
pub enum NaturalInfinity {
    Finite(BigNatural),
    Infinite,
}

impl NaturalInfinity {
    pub fn zero() -> (n: Self)
        ensures
            n matches NaturalInfinity::Finite(v) && v.wf() && v.value() == 0,
    {
        NaturalInfinity::Finite(BigNatural::zero())
    }

    pub fn finite_u64(value: u64) -> (n: Self)
        ensures
            n matches NaturalInfinity::Finite(v) && v.wf() && v.value() == value,
    {
        NaturalInfinity::Finite(BigNatural::from_u64(value))
    }

    pub fn is_infinite(&self) -> (infinite: bool)
        ensures
            infinite <==> *self is Infinite,
    {
        match self {
            NaturalInfinity::Infinite => true,
            NaturalInfinity::Finite(_) => false,
        }
    }

    /// Whether both are infinite or both hold the same limbs.
    pub fn same_as(&self, other: &Self) -> (same: bool)
        ensures
            same <==> match (*self, *other) {
                (NaturalInfinity::Finite(a), NaturalInfinity::Finite(b)) => a.limbs_view() == b.limbs_view(),
                (NaturalInfinity::Infinite, NaturalInfinity::Infinite) => true,
                _ => false,
            },
    {
        match (self, other) {
            (NaturalInfinity::Finite(a), NaturalInfinity::Finite(b)) => a.same_as(b),
            (NaturalInfinity::Infinite, NaturalInfinity::Infinite) => true,
            _ => false,
        }
    }
}

impl Clone for NaturalInfinity {
    fn clone(&self) -> (copy: Self)
        ensures
            match (*self, copy) {
                (NaturalInfinity::Finite(a), NaturalInfinity::Finite(b)) => a.limbs_view() == b.limbs_view(),
                (NaturalInfinity::Infinite, NaturalInfinity::Infinite) => true,
                _ => false,
            },
    {
        match self {
            NaturalInfinity::Finite(v) => NaturalInfinity::Finite(v.clone()),
            NaturalInfinity::Infinite => NaturalInfinity::Infinite,
        }
    }
}

/// A weighted Horn rule: each derivation of the body yields `coefficient`
/// derivations of the head.
#[derive(Debug, PartialEq, Eq)]
pub struct PositiveBagRule {
    pub body: Vec<GroundedAtomId>,
    pub head: GroundedAtomId,
    pub coefficient: u64,
}

impl PositiveBagRule {
    pub fn new(body: Vec<GroundedAtomId>, head: GroundedAtomId, coefficient: u64) -> (rule: Self)
        ensures
            rule.body@ == body@,
            rule.head == head,
            rule.coefficient == coefficient,
    {
        PositiveBagRule { body, head, coefficient }
    }
}

impl Clone for PositiveBagRule {
    fn clone(&self) -> (copy: Self)
        ensures
            copy.body@ == self.body@,
            copy.head == self.head,
            copy.coefficient == self.coefficient,
    {
        PositiveBagRule { body: copy_seq(self.body.as_slice()), head: self.head, coefficient: self.coefficient }
    }
}

#[derive(Debug, Clone, Copy, PartialEq, Eq)]
pub enum PositiveBagFixpointError {
    AtomOutsideUniverse(GroundedAtomId),
    SeedShapeMismatch,
    CertificateShapeMismatch,
    Support(GroundedClosureError),
    FiniteDependencyCycle,
}

/// The atoms a bag rule mentions, in validation order: head first, then body.
pub open spec fn bag_rule_atoms(rule: PositiveBagRule) -> Seq<GroundedAtomId> {
    seq![rule.head] + rule.body@
}

/// The first out-of-universe atom mentioned by the rules at or after position `k`.
pub open spec fn first_bag_rule_outside(rules: Seq<PositiveBagRule>, n: nat, k: int) -> Option<GroundedAtomId>
    decreases rules.len() - k,
{
    if k < 0 || k >= rules.len() {
        None
    } else {
        match first_outside(bag_rule_atoms(rules[k]), n, 0) {
            Some(a) => Some(a),
            None => first_bag_rule_outside(rules, n, k + 1),
        }
    }
}

/// Outcome of validating a bag program's shape.
pub open spec fn bag_validation(n: nat, seeds: Seq<u64>, rules: Seq<PositiveBagRule>) -> Result<(), PositiveBagFixpointError> {
    if seeds.len() != n {
        Err(PositiveBagFixpointError::SeedShapeMismatch)
    } else {
        match first_bag_rule_outside(rules, n, 0) {
            Some(a) => Err(PositiveBagFixpointError::AtomOutsideUniverse(a)),
            None => Ok(()),
        }
    }
}

/// Every bag rule's atoms lie below `n`.
pub open spec fn bag_rules_below(rules: Seq<PositiveBagRule>, n: nat) -> bool {
    forall|r: int| 0 <= r < rules.len() ==> {
        &&& #[trigger] rules[r].head.id() < n
        &&& atoms_below(rules[r].body@, n)
    }
}

pub proof fn lemma_first_bag_rule_outside(rules: Seq<PositiveBagRule>, n: nat, k: int)
    requires
        0 <= k <= rules.len(),
    ensures
        first_bag_rule_outside(rules, n, k) is None <==> (forall|r: int| k <= r < rules.len() ==> {
            &&& #[trigger] rules[r].head.id() < n
            &&& atoms_below(rules[r].body@, n)
        }),
    decreases rules.len() - k,
{
    if k < rules.len() {
        lemma_first_bag_rule_outside(rules, n, k + 1);
        let atoms = bag_rule_atoms(rules[k]);
        lemma_first_outside(atoms, n, 0);
        if first_outside(atoms, n, 0) is None {
            assert(atoms[0] == rules[k].head);
            assert forall|i: int| 0 <= i < rules[k].body@.len() implies #[trigger] rules[k].body@[i].id() < n by {
                assert(atoms[i + 1] == rules[k].body@[i]);
            }
        } else {
            if rules[k].head.id() < n && atoms_below(rules[k].body@, n) {
                assert forall|i: int| 0 <= i < atoms.len() implies #[trigger] atoms[i].id() < n by {
                    if i > 0 {
                        assert(atoms[i] == rules[k].body@[i - 1]);
                    }
                }
            }
        }
    }
}

/// A positive bag program: per-atom seed multiplicities and weighted rules.
#[derive(Debug, PartialEq, Eq)]
pub struct PositiveBagProgram {
    atom_count: usize,
    seed_multiplicity: Vec<u64>,
    rules: Vec<PositiveBagRule>,
}

impl PositiveBagProgram {
    pub closed spec fn spec_atom_count(self) -> nat {
        self.atom_count as nat
    }

    pub closed spec fn spec_seeds(self) -> Seq<u64> {
        self.seed_multiplicity@
    }

    pub closed spec fn spec_rules(self) -> Seq<PositiveBagRule> {
        self.rules@
    }

    /// One seed multiplicity per atom; every rule atom lies in the universe.
    pub open spec fn wf(self) -> bool {
        &&& self.spec_seeds().len() == self.spec_atom_count()
        &&& bag_rules_below(self.spec_rules(), self.spec_atom_count())
    }

    pub fn new(atom_count: usize, seed_multiplicity: Vec<u64>, rules: Vec<PositiveBagRule>) -> (result: Result<Self, PositiveBagFixpointError>)
        ensures
            match result {
                Ok(program) => {
                    &&& bag_validation(atom_count as nat, seed_multiplicity@, rules@) is Ok
                    &&& program.wf()
                    &&& program.spec_atom_count() == atom_count
                    &&& program.spec_seeds() == seed_multiplicity@
                    &&& program.spec_rules() == rules@
                },
                Err(e) => bag_validation(atom_count as nat, seed_multiplicity@, rules@) == Err::<(), PositiveBagFixpointError>(e),
            },
    {
        if seed_multiplicity.len() != atom_count {
            return Err(PositiveBagFixpointError::SeedShapeMismatch);
        }
        let n = atom_count;
        let mut r: usize = 0;
        while r < rules.len()
            invariant
                r <= rules@.len(),
                n == atom_count,
                seed_multiplicity@.len() == atom_count,
                first_bag_rule_outside(rules@, n as nat, 0) == first_bag_rule_outside(rules@, n as nat, r as int),
            decreases rules@.len() - r,
        {
            let rule = &rules[r];
            let ghost atoms = bag_rule_atoms(*rule);
            if rule.head.index() >= n {
                assert(atoms[0] == rule.head);
                assert(first_outside(atoms, n as nat, 0) == Some(rule.head));
                assert(first_bag_rule_outside(rules@, n as nat, r as int) == Some(rule.head));
                return Err(PositiveBagFixpointError::AtomOutsideUniverse(rule.head));
            }
            assert(atoms[0] == rule.head);
            assert(first_outside(atoms, n as nat, 0) == first_outside(atoms, n as nat, 1));
            let mut j: usize = 0;
            while j < rule.body.len()
                invariant
                    j <= rule.body@.len(),
                    atoms == bag_rule_atoms(*rule),
                    rule == &rules@[r as int],
                    r < rules@.len(),
                    n == atom_count,
                    seed_multiplicity@.len() == atom_count,
                    first_bag_rule_outside(rules@, n as nat, 0) == first_bag_rule_outside(rules@, n as nat, r as int),
                    first_outside(atoms, n as nat, 0) == first_outside(atoms, n as nat, j + 1),
                decreases rule.body@.len() - j,
            {
                assert(atoms[j + 1] == rule.body@[j as int]);
                if rule.body[j].index() >= n {
                    assert(first_outside(atoms, n as nat, j + 1) == Some(rule.body@[j as int]));
                    assert(first_bag_rule_outside(rules@, n as nat, r as int) == Some(rule.body@[j as int]));
                    return Err(PositiveBagFixpointError::AtomOutsideUniverse(rule.body[j]));
                }
                j = j + 1;
            }
            assert(atoms.len() == rule.body@.len() + 1);
            assert(first_outside(atoms, n as nat, 0) is None);
            assert(first_bag_rule_outside(rules@, n as nat, r as int) == first_bag_rule_outside(rules@, n as nat, r + 1));
            r = r + 1;
        }
        proof {
            lemma_first_bag_rule_outside(rules@, n as nat, 0);
            assert(first_bag_rule_outside(rules@, n as nat, rules@.len() as int) is None);
        }
        Ok(PositiveBagProgram { atom_count, seed_multiplicity, rules })
    }

    pub fn atom_count(&self) -> (count: usize)
        ensures
            count == self.spec_atom_count(),
    {
        self.atom_count
    }

    pub fn rules(&self) -> (rules: &[PositiveBagRule])
        ensures
            rules@ == self.spec_rules(),
    {
        self.rules.as_slice()
    }

    pub fn seed_multiplicity(&self) -> (seeds: &[u64])
        ensures
            seeds@ == self.spec_seeds(),
    {
        self.seed_multiplicity.as_slice()
    }
}

/// The rules with a non-zero coefficient, in order.
pub open spec fn nonzero_rules(rules: Seq<PositiveBagRule>) -> Seq<PositiveBagRule>
    decreases rules.len(),
{
    if rules.len() == 0 {
        Seq::empty()
    } else if rules.last().coefficient == 0 {
        nonzero_rules(rules.drop_last())
    } else {
        nonzero_rules(rules.drop_last()).push(rules.last())
    }
}

/// `gp` is the support program of `p`: the atoms with a non-zero seed
/// multiplicity are its seeds and the rules with a non-zero coefficient are its
/// (enabled) rules.
pub open spec fn support_of(p: PositiveBagProgram, gp: GroundedProgram) -> bool {
    &&& gp.wf()
    &&& gp.spec_atom_count() == p.spec_atom_count()
    &&& forall|a: GroundedAtomId| #[trigger] gp.spec_seeds().contains(a) <==> (a.id() < p.spec_atom_count() && p.spec_seeds()[a.id() as int] != 0)
    &&& rules_match(gp.spec_rules(), nonzero_rules(p.spec_rules()))
}

/// `s` contains every atom with a non-zero seed and is closed under every rule with a non-zero coefficient.
pub open spec fn bag_support_closed(p: PositiveBagProgram, s: Set<int>) -> bool {
    &&& forall|a: int| 0 <= a < p.spec_atom_count() && #[trigger] p.spec_seeds()[a] != 0 ==> s.contains(a)
    &&& forall|r: int|
        0 <= r < p.spec_rules().len() && #[trigger] p.spec_rules()[r].coefficient != 0
            && (forall|k: int| 0 <= k < p.spec_rules()[r].body@.len() ==> s.contains(#[trigger] p.spec_rules()[r].body@[k].id() as int))
            ==> s.contains(p.spec_rules()[r].head.id() as int)
}

/// Atom `a` is derivable: every supported-closed set contains it.
pub open spec fn in_bag_support(p: PositiveBagProgram, a: int) -> bool {
    forall|s: Set<int>| #[trigger] bag_support_closed(p, s) ==> s.contains(a)
}

/// `live` marks exactly the derivable atoms of `p`.
pub open spec fn is_bag_support(p: PositiveBagProgram, live: Seq<bool>) -> bool {
    &&& live.len() == p.spec_atom_count()
    &&& forall|a: int| 0 <= a < live.len() ==> (#[trigger] live[a] <==> in_bag_support(p, a))
}

pub proof fn lemma_nonzero_rules(rules: Seq<PositiveBagRule>)
    ensures
        forall|i: int| #![trigger nonzero_rules(rules)[i]] 0 <= i < nonzero_rules(rules).len() ==> nonzero_rules(rules)[i].coefficient != 0,
        forall|i: int| #![trigger nonzero_rules(rules)[i]] 0 <= i < nonzero_rules(rules).len() ==> exists|r: int| 0 <= r < rules.len() && #[trigger] rules[r] == nonzero_rules(rules)[i],
        forall|r: int| #![trigger rules[r]] 0 <= r < rules.len() && rules[r].coefficient != 0
            ==> exists|i: int| 0 <= i < nonzero_rules(rules).len() && #[trigger] nonzero_rules(rules)[i] == rules[r],
    decreases rules.len(),
{
    if rules.len() > 0 {
        let rest = rules.drop_last();
        lemma_nonzero_rules(rest);
        let nz = nonzero_rules(rules);
        let nzr = nonzero_rules(rest);
        if rules.last().coefficient == 0 {
            assert(nz == nzr);
        } else {
            assert(nz == nzr.push(rules.last()));
        }
        assert forall|i: int| #![trigger nz[i]] 0 <= i < nz.len() implies nz[i].coefficient != 0
            && exists|r: int| 0 <= r < rules.len() && #[trigger] rules[r] == nz[i] by {
            if i < nzr.len() {
                assert(nz[i] == nzr[i]);
                assert(nzr[i].coefficient != 0);
                let r = choose|r: int| 0 <= r < rest.len() && #[trigger] rest[r] == nzr[i];
                assert(rules[r] == rest[r]);
            } else {
                assert(nz[i] == rules.last());
                assert(rules[rules.len() - 1] == rules.last());
            }
        }
        assert forall|r: int| #![trigger rules[r]] 0 <= r < rules.len() && rules[r].coefficient != 0
            implies exists|i: int| 0 <= i < nz.len() && #[trigger] nz[i] == rules[r] by {
            if r < rest.len() {
                assert(rest[r] == rules[r]);
                let i = choose|i: int| 0 <= i < nzr.len() && #[trigger] nzr[i] == rest[r];
                assert(nz[i] == nzr[i]);
            } else {
                assert(rules[r] == rules.last());
                assert(nz[nz.len() - 1] == rules.last());
            }
        }
    }
}

/// The support program's closed sets are exactly the bag program's supported-closed sets.
pub proof fn lemma_support_closed(p: PositiveBagProgram, gp: GroundedProgram, s: Set<int>)
    requires
        p.wf(),
        support_of(p, gp),
    ensures
        closed_set(gp, s) <==> bag_support_closed(p, s),
{
    lemma_nonzero_rules(p.spec_rules());
    let nz = nonzero_rules(p.spec_rules());
    if closed_set(gp, s) {
        assert forall|a: int| 0 <= a < p.spec_atom_count() && #[trigger] p.spec_seeds()[a] != 0 implies s.contains(a) by {
            let atom = atom_at(a);
            lemma_atom_at(a);
            assert(gp.spec_seeds().contains(atom));
            let k = choose|k: int| 0 <= k < gp.spec_seeds().len() && gp.spec_seeds()[k] == atom;
            assert(s.contains(gp.spec_seeds()[k].id() as int));
        }
        assert forall|r: int|
            0 <= r < p.spec_rules().len() && #[trigger] p.spec_rules()[r].coefficient != 0
                && (forall|k: int| 0 <= k < p.spec_rules()[r].body@.len() ==> s.contains(#[trigger] p.spec_rules()[r].body@[k].id() as int))
            implies s.contains(p.spec_rules()[r].head.id() as int) by {
            assert(p.spec_rules()[r] == p.spec_rules()[r]);
            let i = choose|i: int| 0 <= i < nz.len() && #[trigger] nz[i] == p.spec_rules()[r];
            let g = gp.spec_rules()[i];
            assert(g.spec_enabled());
            assert forall|k: int| 0 <= k < g.spec_body().len() implies s.contains(#[trigger] g.spec_body()[k].id() as int) by {
                assert(g.spec_body().contains(g.spec_body()[k]));
                assert(nz[i].body@.contains(g.spec_body()[k]));
                let k2 = choose|k2: int| 0 <= k2 < nz[i].body@.len() && nz[i].body@[k2] == g.spec_body()[k];
                assert(s.contains(p.spec_rules()[r].body@[k2].id() as int));
            }
        }
    }
    if bag_support_closed(p, s) {
        assert forall|k: int| 0 <= k < gp.spec_seeds().len() implies s.contains(#[trigger] gp.spec_seeds()[k].id() as int) by {
            let atom = gp.spec_seeds()[k];
            assert(gp.spec_seeds().contains(atom));
            assert(p.spec_seeds()[atom.id() as int] != 0);
        }
        assert forall|i: int|
            0 <= i < gp.spec_rules().len() && #[trigger] gp.spec_rules()[i].spec_enabled()
                && (forall|k: int| 0 <= k < gp.spec_rules()[i].spec_body().len() ==> s.contains(#[trigger] gp.spec_rules()[i].spec_body()[k].id() as int))
            implies s.contains(gp.spec_rules()[i].spec_head().id() as int) by {
            let g = gp.spec_rules()[i];
            assert(nz[i] == nz[i]);
            let r = choose|r: int| 0 <= r < p.spec_rules().len() && #[trigger] p.spec_rules()[r] == nz[i];
            assert(p.spec_rules()[r].coefficient != 0);
            assert forall|k: int| 0 <= k < p.spec_rules()[r].body@.len() implies s.contains(#[trigger] p.spec_rules()[r].body@[k].id() as int) by {
                let x = p.spec_rules()[r].body@[k];
                assert(nz[i].body@.contains(x));
                assert(g.spec_body().contains(x));
                let k2 = choose|k2: int| 0 <= k2 < g.spec_body().len() && g.spec_body()[k2] == x;
                assert(s.contains(g.spec_body()[k2].id() as int));
            }
        }
    }
}

/// A support program's least model is the bag program's derivable set.
pub proof fn lemma_support_least_model(p: PositiveBagProgram, gp: GroundedProgram, live: Seq<bool>)
    requires
        p.wf(),
        support_of(p, gp),
        is_least_model(gp, live),
    ensures
        is_bag_support(p, live),
{
    assert forall|a: int| 0 <= a < live.len() implies (#[trigger] live[a] <==> in_bag_support(p, a)) by {
        assert(live[a] <==> in_least_model(gp, a));
        if in_least_model(gp, a) {
            assert forall|s: Set<int>| #[trigger] bag_support_closed(p, s) implies s.contains(a) by {
                lemma_support_closed(p, gp, s);
            }
        }
        if in_bag_support(p, a) {
            assert forall|s: Set<int>| #[trigger] closed_set(gp, s) implies s.contains(a) by {
                lemma_support_closed(p, gp, s);
            }
        }
    }
}

/// The atoms with a non-zero seed multiplicity.
fn nonzero_seed_atoms(seeds: &Vec<u64>) -> (atoms: Vec<GroundedAtomId>)
    ensures
        forall|a: GroundedAtomId| #[trigger] atoms@.contains(a) <==> (a.id() < seeds@.len() && seeds@[a.id() as int] != 0),
{
    let mut atoms: Vec<GroundedAtomId> = Vec::new();
    let mut i: usize = 0;
    while i < seeds.len()
        invariant
            i <= seeds@.len(),
            forall|a: GroundedAtomId| #[trigger] atoms@.contains(a) <==> (a.id() < i && seeds@[a.id() as int] != 0),
        decreases seeds@.len() - i,
    {
        let ghost before = atoms@;
        if seeds[i] != 0 {
            let atom = GroundedAtomId::new(i);
            atoms.push(atom);
            proof {
                assert forall|a: GroundedAtomId| #[trigger] atoms@.contains(a) <==> (a.id() < i + 1 && seeds@[a.id() as int] != 0) by {
                    if a == atom {
                        assert(atoms@[atoms@.len() - 1] == atom);
                    }
                    if atoms@.contains(a) && a != atom {
                        let k = choose|k: int| 0 <= k < atoms@.len() && atoms@[k] == a;
                        assert(before[k] == a);
                        assert(before.contains(a));
                    }
                    if before.contains(a) {
                        let k = choose|k: int| 0 <= k < before.len() && before[k] == a;
                        assert(atoms@[k] == a);
                    }
                    if a.id() == i {
                        atom.lemma_id_injective(a);
                    }
                }
            }
        } else {
            proof {
                assert forall|a: GroundedAtomId| #[trigger] atoms@.contains(a) <==> (a.id() < i + 1 && seeds@[a.id() as int] != 0) by {
                    if a.id() == i {
                        assert(!atoms@.contains(a));
                    }
                }
            }
        }
        i = i + 1;
    }
    atoms
}

/// Grounded rules that are enabled, with the heads and body atoms of the given bag rules.
pub open spec fn rules_match(rules: Seq<GroundedRule>, bag: Seq<PositiveBagRule>) -> bool {
    &&& rules.len() == bag.len()
    &&& forall|j: int| 0 <= j < rules.len() ==> {
        &&& #[trigger] rules[j].spec_enabled()
        &&& rules[j].spec_head() == bag[j].head
        &&& same_atoms(rules[j].spec_body(), bag[j].body@)
    }
}

/// The enabled grounded rules of the non-zero-coefficient bag rules, in order.
fn support_rules(bag: &Vec<PositiveBagRule>) -> (rules: Vec<GroundedRule>)
    ensures
        rules_match(rules@, nonzero_rules(bag@)),
{
    let mut rules: Vec<GroundedRule> = Vec::new();
    let mut r: usize = 0;
    assert(bag@.subrange(0, 0) =~= Seq::<PositiveBagRule>::empty());
    while r < bag.len()
        invariant
            r <= bag@.len(),
            rules_match(rules@, nonzero_rules(bag@.subrange(0, r as int))),
        decreases bag@.len() - r,
    {
        let rule = &bag[r];
        let ghost prefix = bag@.subrange(0, r as int);
        let ghost next = bag@.subrange(0, r + 1);
        proof {
            assert(next.drop_last() =~= prefix);
            assert(next.last() == *rule);
        }
        let ghost before = rules@;
        if rule.coefficient != 0 {
            let body = copy_seq(rule.body.as_slice());
            let grounded = GroundedRule::new(body, rule.head);
            rules.push(grounded);
            proof {
                let nz = nonzero_rules(next);
                let nzp = nonzero_rules(prefix);
                assert(nz == nzp.push(*rule));
                assert forall|j: int| 0 <= j < rules@.len() implies {
                    &&& #[trigger] rules@[j].spec_enabled()
                    &&& rules@[j].spec_head() == nz[j].head
                    &&& same_atoms(rules@[j].spec_body(), nz[j].body@)
                } by {
                    if j < before.len() {
                        assert(rules@[j] == before[j]);
                        assert(nz[j] == nzp[j]);
                        assert(before[j].spec_enabled());
                    } else {
                        assert(rules@[j] == grounded);
                        assert(nz[j] == *rule);
                    }
                }
                assert(rules_match(rules@, nz));
            }
        } else {
            proof {
                assert(nonzero_rules(next) == nonzero_rules(prefix));
            }
        }
        r = r + 1;
        assert(next == bag@.subrange(0, r as int));
    }
    assert(bag@.subrange(0, bag@.len() as int) =~= bag@);
    rules
}

impl PositiveBagProgram {
    /// The grounded support program: non-zero seeds and non-zero-coefficient rules.
    fn support_program(&self) -> (result: Result<GroundedProgram, GroundedClosureError>)
        requires
            self.wf(),
        ensures
            result matches Ok(gp) && support_of(*self, gp),
    {
        let seeds = nonzero_seed_atoms(&self.seed_multiplicity);
        let rules = support_rules(&self.rules);
        proof {
            assert forall|k: int| 0 <= k < seeds@.len() implies #[trigger] seeds@[k].id() < self.atom_count by {
                assert(seeds@.contains(seeds@[k]));
            }
            lemma_nonzero_rules(self.rules@);
            let nz = nonzero_rules(self.rules@);
            assert forall|j: int| 0 <= j < rules@.len() implies {
                &&& #[trigger] rules@[j].spec_head().id() < self.atom_count
                &&& atoms_below(rules@[j].spec_body(), self.atom_count as nat)
            } by {
                assert(rules@[j].spec_enabled());
                assert(nz[j] == nz[j]);
                let q = choose|q: int| 0 <= q < self.rules@.len() && #[trigger] self.rules@[q] == nz[j];
                assert(self.rules@[q].head.id() < self.atom_count);
                assert(atoms_below(self.rules@[q].body@, self.atom_count as nat));
                assert forall|k: int| 0 <= k < rules@[j].spec_body().len() implies #[trigger] rules@[j].spec_body()[k].id() < self.atom_count by {
                    assert(rules@[j].spec_body().contains(rules@[j].spec_body()[k]));
                    assert(nz[j].body@.contains(rules@[j].spec_body()[k]));
                }
            }
        }
        GroundedProgram::new(self.atom_count, seeds, rules)
    }
}

/// A certificate for a positive bag program: its grounded support and a
/// multiplicity per atom.
#[derive(Debug, PartialEq, Eq)]
pub struct PositiveBagCertificate {
    support: GroundedCertificate,
    multiplicity: Vec<NaturalInfinity>,
}

impl PositiveBagCertificate {
    pub closed spec fn spec_support(self) -> GroundedCertificate {
        self.support
    }

    pub closed spec fn spec_multiplicity(self) -> Seq<NaturalInfinity> {
        self.multiplicity@
    }

    pub fn multiplicity(&self, atom: GroundedAtomId) -> (m: Option<&NaturalInfinity>)
        ensures
            m == (if atom.id() < self.spec_multiplicity().len() { Some(&self.spec_multiplicity()[atom.id() as int]) } else { None }),
    {
        if atom.index() < self.multiplicity.len() {
            Some(&self.multiplicity[atom.index()])
        } else {
            None
        }
    }

    pub fn multiplicities(&self) -> (m: &[NaturalInfinity])
        ensures
            m@ == self.spec_multiplicity(),
    {
        self.multiplicity.as_slice()
    }

    pub fn support(&self) -> (support: &GroundedCertificate)
        ensures
            *support == self.spec_support(),
    {
        &self.support
    }
}

/// Rule `r` can fire over `live`: non-zero coefficient, live head and live premises.
pub open spec fn rule_active(p: PositiveBagProgram, live: Seq<bool>, r: int) -> bool {
    &&& p.spec_rules()[r].coefficient != 0
    &&& live[p.spec_rules()[r].head.id() as int]
    &&& forall|k: int| 0 <= k < p.spec_rules()[r].body@.len() ==> live[#[trigger] p.spec_rules()[r].body@[k].id() as int]
}

/// Atom `u` is a premise of an active rule among the first `r` whose head is `v`.
pub open spec fn dep_edge_upto(p: PositiveBagProgram, live: Seq<bool>, u: int, v: int, r: int) -> bool {
    exists|q: int, k: int| #![trigger p.spec_rules()[q].body@[k]]
        0 <= q < r && 0 <= k < p.spec_rules()[q].body@.len() && rule_active(p, live, q)
            && p.spec_rules()[q].body@[k].id() == u && p.spec_rules()[q].head.id() == v
}

/// Atom `u` is a premise of an active rule whose head is `v`.
pub open spec fn dep_edge(p: PositiveBagProgram, live: Seq<bool>, u: int, v: int) -> bool {
    dep_edge_upto(p, live, u, v, p.spec_rules().len() as int)
}

/// The dependency relation between atoms of the active rules.
pub open spec fn dependency_edges(p: PositiveBagProgram, live: Seq<bool>) -> spec_fn(int, int) -> bool {
    |u: int, v: int| dep_edge(p, live, u, v)
}

/// `g` lists, for each atom, the heads of the active rules it is a premise of.
pub open spec fn is_dependency_graph(p: PositiveBagProgram, live: Seq<bool>, g: Seq<Vec<usize>>) -> bool {
    &&& g.len() == p.spec_atom_count()
    &&& adjacency_ok(g)
    &&& forall|u: int, v: usize| #![trigger g[u]@.contains(v)]
        0 <= u < g.len() && v < g.len() ==> (g[u]@.contains(v) <==> dep_edge(p, live, u, v as int))
}

/// The adjacency lists have exactly the dependency edges.
pub proof fn lemma_dependency_graph_edges(p: PositiveBagProgram, live: Seq<bool>, g: Seq<Vec<usize>>)
    requires
        p.wf(),
        is_dependency_graph(p, live, g),
    ensures
        graph_edges(g) == dependency_edges(p, live),
{
    assert forall|u: int, v: int| #[trigger] graph_edges(g)(u, v) == dependency_edges(p, live)(u, v) by {
        if 0 <= u < g.len() && 0 <= v < g.len() {
            let vu = v as usize;
            assert(g[u]@.contains(vu) <==> dep_edge(p, live, u, vu as int));
            assert(vu as int == v);
            assert(graph_edges(g)(u, v) == g[u]@.contains(vu));
            assert(dependency_edges(p, live)(u, v) == dep_edge(p, live, u, v));
        } else {
            if dep_edge(p, live, u, v) {
                let (q, k) = choose|q: int, k: int| #![trigger p.spec_rules()[q].body@[k]]
                    0 <= q < p.spec_rules().len() && 0 <= k < p.spec_rules()[q].body@.len() && rule_active(p, live, q)
                        && p.spec_rules()[q].body@[k].id() == u && p.spec_rules()[q].head.id() == v;
                assert(p.spec_rules()[q].head.id() < p.spec_atom_count());
                assert(atoms_below(p.spec_rules()[q].body@, p.spec_atom_count()));
                assert(p.spec_rules()[q].body@[k].id() < p.spec_atom_count());
            }
            if graph_edges(g)(u, v) {
                assert(0 <= u < g.len() && 0 <= v && g[u]@.contains(v as usize));
                let t = choose|t: int| 0 <= t < g[u]@.len() && g[u]@[t] == v as usize;
                assert(g[u]@[t] < g.len());
            }
            assert(!graph_edges(g)(u, v));
            assert(!dependency_edges(p, live)(u, v));
        }
    }
    assert(graph_edges(g) =~= dependency_edges(p, live));
}

/// Whether every atom of `atoms` is live.
fn all_live(support: &GroundedCertificate, atoms: &Vec<GroundedAtomId>) -> (all: bool)
    ensures
        all <==> forall|k: int| 0 <= k < atoms@.len() ==> support.live_at(#[trigger] atoms@[k].id() as int),
{
    let mut k: usize = 0;
    while k < atoms.len()
        invariant
            k <= atoms@.len(),
            forall|j: int| 0 <= j < k ==> support.live_at(#[trigger] atoms@[j].id() as int),
        decreases atoms@.len() - k,
    {
        if !support.is_live(atoms[k]) {
            return false;
        }
        k = k + 1;
    }
    true
}

/// Whether `x` occurs in `v`.
fn contains_index(v: &Vec<usize>, x: usize) -> (found: bool)
    ensures
        found <==> v@.contains(x),
{
    let mut i: usize = 0;
    while i < v.len()
        invariant
            i <= v@.len(),
            forall|j: int| 0 <= j < i ==> v@[j] != x,
        decreases v@.len() - i,
    {
        if v[i] == x {
            return true;
        }
        i = i + 1;
    }
    false
}

/// For each atom, the heads of the active rules it is a premise of, without repeats.
fn active_dependency_graph(program: &PositiveBagProgram, support: &GroundedCertificate) -> (graph: Vec<Vec<usize>>)
    requires
        program.wf(),
        support.spec_live().len() == program.spec_atom_count(),
    ensures
        is_dependency_graph(*program, support.spec_live(), graph@),
{
    let ghost p = *program;
    let ghost live = support.spec_live();
    let n = program.atom_count;
    let mut graph: Vec<Vec<usize>> = Vec::new();
    while graph.len() < n
        invariant
            graph@.len() <= n,
            forall|u: int| 0 <= u < graph@.len() ==> (#[trigger] graph@[u])@.len() == 0,
        decreases n - graph@.len(),
    {
        graph.push(Vec::new());
    }
    let mut r: usize = 0;
    while r < program.rules.len()
        invariant
            r <= p.spec_rules().len(),
            p == *program,
            p.wf(),
            live == support.spec_live(),
            live.len() == n,
            n == p.spec_atom_count(),
            graph@.len() == n,
            adjacency_ok(graph@),
            forall|u: int, v: usize| #![trigger graph@[u]@.contains(v)]
                0 <= u < n && v < n ==> (graph@[u]@.contains(v) <==> dep_edge_upto(p, live, u, v as int, r as int)),
        decreases p.spec_rules().len() - r,
    {
        let rule = &program.rules[r];
        proof {
            assert(rule.head.id() < n);
            assert(atoms_below(rule.body@, n as nat));
        }
        let head = rule.head.index();
        if rule.coefficient != 0 && support.is_live(rule.head) && all_live(support, &rule.body) {
            proof {
                assert(rule_active(p, live, r as int));
            }
            let mut k: usize = 0;
            while k < rule.body.len()
                invariant
                    r < p.spec_rules().len(),
                    k <= rule.body@.len(),
                    p == *program,
                    rule == &p.spec_rules()[r as int],
                    head == rule.head.id(),
                    head < n,
                    atoms_below(rule.body@, n as nat),
                    rule_active(p, live, r as int),
                    live.len() == n,
                    n == p.spec_atom_count(),
                    graph@.len() == n,
                    adjacency_ok(graph@),
                    forall|u: int, v: usize| #![trigger graph@[u]@.contains(v)]
                        0 <= u < n && v < n ==> (graph@[u]@.contains(v) <==> (dep_edge_upto(p, live, u, v as int, r as int)
                            || (v == head && exists|j: int| 0 <= j < k && #[trigger] rule.body@[j].id() == u))),
                decreases rule.body@.len() - k,
            {
                let premise = rule.body[k].index();
                proof {
                    assert(rule.body@[k as int].id() < n);
                }
                if !contains_index(&graph[premise], head) {
                    let ghost before = graph@;
                    let mut row = graph[premise].clone();
                    row.push(head);
                    graph.set(premise, row);
                    proof {
                        assert forall|u: int| 0 <= u < graph@.len() implies {
                            &&& (#[trigger] graph@[u])@.no_duplicates()
                            &&& forall|t: int| 0 <= t < graph@[u]@.len() ==> graph@[u]@[t] < graph@.len()
                        } by {
                            if u == premise {
                                assert(graph@[u]@ == before[u]@.push(head));
                                assert(before[u]@.no_duplicates());
                                assert forall|a: int, b: int| 0 <= a < graph@[u]@.len() && 0 <= b < graph@[u]@.len() && a != b
                                    implies graph@[u]@[a] != graph@[u]@[b] by {
                                    if a < before[u]@.len() && b < before[u]@.len() {
                                    } else if a < before[u]@.len() {
                                        assert(before[u]@.contains(before[u]@[a]));
                                    } else if b < before[u]@.len() {
                                        assert(before[u]@.contains(before[u]@[b]));
                                    }
                                }
                                assert forall|t: int| 0 <= t < graph@[u]@.len() implies graph@[u]@[t] < graph@.len() by {
                                    if t < before[u]@.len() {
                                        assert(graph@[u]@[t] == before[u]@[t]);
                                    }
                                }
                            } else {
                                assert(graph@[u] == before[u]);
                            }
                        }
                        assert forall|u: int, v: usize| #![trigger graph@[u]@.contains(v)]
                            0 <= u < n && v < n implies (graph@[u]@.contains(v) <==> (dep_edge_upto(p, live, u, v as int, r as int)
                                || (v == head && exists|j: int| 0 <= j < k + 1 && #[trigger] rule.body@[j].id() == u))) by {
                            if u == premise {
                                assert(graph@[u]@ == before[u]@.push(head));
                                lemma_push_contains(before[u]@, head, v);
                                if v == head {
                                    assert(rule.body@[k as int].id() == u);
                                    assert(graph@[u]@.contains(v));
                                }
                                if exists|j: int| 0 <= j < k + 1 && #[trigger] rule.body@[j].id() == u {
                                    let j = choose|j: int| 0 <= j < k + 1 && #[trigger] rule.body@[j].id() == u;
                                    if j < k {
                                        assert(exists|j: int| 0 <= j < k && #[trigger] rule.body@[j].id() == u);
                                    }
                                }
                            } else {
                                assert(graph@[u] == before[u]);
                                if exists|j: int| 0 <= j < k + 1 && #[trigger] rule.body@[j].id() == u {
                                    let j = choose|j: int| 0 <= j < k + 1 && #[trigger] rule.body@[j].id() == u;
                                    if j == k {
                                        assert(rule.body@[k as int].id() == premise);
                                    } else {
                                        assert(exists|j: int| 0 <= j < k && #[trigger] rule.body@[j].id() == u);
                                    }
                                }
                            }
                        }
                    }
                } else {
                    proof {
                        assert forall|u: int, v: usize| #![trigger graph@[u]@.contains(v)]
                            0 <= u < n && v < n implies (graph@[u]@.contains(v) <==> (dep_edge_upto(p, live, u, v as int, r as int)
                                || (v == head && exists|j: int| 0 <= j < k + 1 && #[trigger] rule.body@[j].id() == u))) by {
                            if exists|j: int| 0 <= j < k + 1 && #[trigger] rule.body@[j].id() == u {
                                let j = choose|j: int| 0 <= j < k + 1 && #[trigger] rule.body@[j].id() == u;
                                if j == k {
                                    assert(rule.body@[k as int].id() == premise);
                                    assert(u == premise);
                                } else {
                                    assert(exists|j: int| 0 <= j < k && #[trigger] rule.body@[j].id() == u);
                                }
                            }
                        }
                    }
                }
                k = k + 1;
            }
            proof {
                assert forall|u: int, v: usize| #![trigger graph@[u]@.contains(v)]
                    0 <= u < n && v < n implies (graph@[u]@.contains(v) <==> dep_edge_upto(p, live, u, v as int, r + 1)) by {
                    if dep_edge_upto(p, live, u, v as int, r + 1) && !dep_edge_upto(p, live, u, v as int, r as int) {
                        let (q, j) = choose|q: int, j: int| #![trigger p.spec_rules()[q].body@[j]]
                            0 <= q < r + 1 && 0 <= j < p.spec_rules()[q].body@.len() && rule_active(p, live, q)
                                && p.spec_rules()[q].body@[j].id() == u && p.spec_rules()[q].head.id() == v as int;
                        assert(q == r);
                        assert(rule.body@[j].id() == u);
                    }
                    if graph@[u]@.contains(v) && !dep_edge_upto(p, live, u, v as int, r as int) {
                        let j = choose|j: int| 0 <= j < rule.body@.len() && #[trigger] rule.body@[j].id() == u;
                        assert(p.spec_rules()[r as int].body@[j].id() == u);
                    }
                    if dep_edge_upto(p, live, u, v as int, r as int) {
                        let (q, j) = choose|q: int, j: int| #![trigger p.spec_rules()[q].body@[j]]
                            0 <= q < r && 0 <= j < p.spec_rules()[q].body@.len() && rule_active(p, live, q)
                                && p.spec_rules()[q].body@[j].id() == u && p.spec_rules()[q].head.id() == v as int;
                        assert(p.spec_rules()[q].body@[j] == p.spec_rules()[q].body@[j]);
                    }
                }
            }
        } else {
            proof {
                assert(!rule_active(p, live, r as int)) by {
                    if rule_active(p, live, r as int) {
                        assert(support.live_at(rule.head.id() as int));
                        assert forall|k: int| 0 <= k < rule.body@.len() implies support.live_at(#[trigger] rule.body@[k].id() as int) by {
                            assert(live[rule.body@[k].id() as int]);
                            assert(rule.body@[k].id() < n);
                        }
                    }
                }
                assert forall|u: int, v: usize| #![trigger graph@[u]@.contains(v)]
                    0 <= u < n && v < n implies (graph@[u]@.contains(v) <==> dep_edge_upto(p, live, u, v as int, r + 1)) by {
                    if dep_edge_upto(p, live, u, v as int, r + 1) {
                        let (q, j) = choose|q: int, j: int| #![trigger p.spec_rules()[q].body@[j]]
                            0 <= q < r + 1 && 0 <= j < p.spec_rules()[q].body@.len() && rule_active(p, live, q)
                                && p.spec_rules()[q].body@[j].id() == u && p.spec_rules()[q].head.id() == v as int;
                        assert(q != r);
                        assert(p.spec_rules()[q].body@[j] == p.spec_rules()[q].body@[j]);
                    }
                    if dep_edge_upto(p, live, u, v as int, r as int) {
                        let (q, j) = choose|q: int, j: int| #![trigger p.spec_rules()[q].body@[j]]
                            0 <= q < r && 0 <= j < p.spec_rules()[q].body@.len() && rule_active(p, live, q)
                                && p.spec_rules()[q].body@[j].id() == u && p.spec_rules()[q].head.id() == v as int;
                        assert(p.spec_rules()[q].body@[j] == p.spec_rules()[q].body@[j]);
                    }
                }
            }
        }
        r = r + 1;
    }
    graph
}

/// The dependency graph of the active rules, and which atoms are infinite:
/// the live atoms downstream of a dependency cycle.
fn classify_infinite(program: &PositiveBagProgram, support: &GroundedCertificate) -> (result: (Vec<Vec<usize>>, Vec<bool>))
    requires
        program.wf(),
        support.spec_live().len() == program.spec_atom_count(),
    ensures
        is_dependency_graph(*program, support.spec_live(), result.0@),
        result.1@.len() == program.spec_atom_count(),
        forall|v: int| 0 <= v < program.spec_atom_count() ==> (#[trigger] result.1@[v] <==>
            (support.spec_live()[v] && below_cycle(dependency_edges(*program, support.spec_live()), v))),
{
    let graph = active_dependency_graph(program, support);
    let blocked = cycle_downstream(&graph);
    proof {
        lemma_dependency_graph_edges(*program, support.spec_live(), graph@);
    }
    let n = program.atom_count;
    let mut infinite: Vec<bool> = Vec::new();
    let mut v: usize = 0;
    while v < n
        invariant
            v <= n,
            n == program.spec_atom_count(),
            blocked@.len() == n,
            support.spec_live().len() == n,
            infinite@.len() == v,
            forall|w: int| 0 <= w < v ==> #[trigger] infinite@[w] == (support.spec_live()[w] && blocked@[w]),
        decreases n - v,
    {
        let atom = GroundedAtomId::new(v);
        infinite.push(support.is_live(atom) && blocked[v]);
        v = v + 1;
    }
    (graph, infinite)
}

/// The value of a finite multiplicity; infinity contributes nothing here.
pub open spec fn finite_value(m: NaturalInfinity) -> nat {
    match m {
        NaturalInfinity::Finite(v) => v.value(),
        NaturalInfinity::Infinite => 0,
    }
}

/// A finite multiplicity is well formed.
pub open spec fn finite_wf(m: NaturalInfinity) -> bool {
    match m {
        NaturalInfinity::Finite(v) => v.wf(),
        NaturalInfinity::Infinite => true,
    }
}

/// The finite values of multiplicities.
pub open spec fn multiplicity_values(m: Seq<NaturalInfinity>) -> Seq<nat> {
    Seq::new(m.len(), |i: int| finite_value(m[i]))
}

/// The values of naturals.
pub open spec fn natural_values(values: Seq<BigNatural>) -> Seq<nat> {
    Seq::new(values.len(), |i: int| values[i].value())
}

/// Product of the values of the first `k` atoms of `body`.
pub open spec fn body_product(body: Seq<GroundedAtomId>, vals: Seq<nat>, k: int) -> nat
    decreases k,
{
    if k <= 0 {
        1
    } else {
        body_product(body, vals, k - 1) * vals[body[k - 1].id() as int]
    }
}

/// Derivations of `a` contributed by rule `r`: its coefficient times the product of its premises, when it is active with head `a`.
pub open spec fn rule_yield(p: PositiveBagProgram, live: Seq<bool>, vals: Seq<nat>, a: int, r: int) -> nat {
    if rule_active(p, live, r) && p.spec_rules()[r].head.id() == a {
        (p.spec_rules()[r].coefficient as nat) * body_product(p.spec_rules()[r].body@, vals, p.spec_rules()[r].body@.len() as int)
    } else {
        0
    }
}

/// Derivations of `a` contributed by the first `r` rules.
pub open spec fn derivation_sum(p: PositiveBagProgram, live: Seq<bool>, vals: Seq<nat>, a: int, r: int) -> nat
    decreases r,
{
    if r <= 0 {
        0
    } else {
        derivation_sum(p, live, vals, a, r - 1) + rule_yield(p, live, vals, a, r - 1)
    }
}

/// The multiplicity equation at `a`: its seed plus the derivations of all rules.
pub open spec fn bag_equation(p: PositiveBagProgram, live: Seq<bool>, vals: Seq<nat>, a: int) -> bool {
    vals[a] == p.spec_seeds()[a] + derivation_sum(p, live, vals, a, p.spec_rules().len() as int)
}

/// Premise `k` of rule `r` feeds atom `a` through an active rule.
pub open spec fn feeds(p: PositiveBagProgram, live: Seq<bool>, a: int, r: int, k: int) -> bool {
    &&& 0 <= r < p.spec_rules().len()
    &&& rule_active(p, live, r)
    &&& p.spec_rules()[r].head.id() == a
    &&& 0 <= k < p.spec_rules()[r].body@.len()
}

/// `m` is the least fixpoint of the bag program over the support `live`:
/// the atoms downstream of a dependency cycle among the live atoms are
/// infinite, and every other atom is finite, its premises finite, and its value
/// its seed plus the derivations through its active rules.
pub open spec fn is_bag_solution(p: PositiveBagProgram, live: Seq<bool>, m: Seq<NaturalInfinity>) -> bool {
    &&& m.len() == p.spec_atom_count()
    &&& forall|a: int| 0 <= a < m.len() ==> (#[trigger] m[a] is Infinite <==> (live[a] && below_cycle(dependency_edges(p, live), a)))
    &&& forall|a: int| #![trigger m[a]] 0 <= a < m.len() && m[a] is Finite ==> {
        &&& finite_wf(m[a])
        &&& bag_equation(p, live, multiplicity_values(m), a)
        &&& forall|r: int, k: int| #[trigger] feeds(p, live, a, r, k) ==> m[p.spec_rules()[r].body@[k].id() as int] is Finite
    }
}

pub proof fn lemma_body_product_frame(body: Seq<GroundedAtomId>, v1: Seq<nat>, v2: Seq<nat>, k: int)
    requires
        forall|j: int| 0 <= j < k ==> v1[#[trigger] body[j].id() as int] == v2[body[j].id() as int],
    ensures
        body_product(body, v1, k) == body_product(body, v2, k),
    decreases k,
{
    if k > 0 {
        lemma_body_product_frame(body, v1, v2, k - 1);
        assert(v1[body[k - 1].id() as int] == v2[body[k - 1].id() as int]);
    }
}

/// The derivations of `a` only read the values of premises feeding `a`.
pub proof fn lemma_derivation_sum_frame(p: PositiveBagProgram, live: Seq<bool>, v1: Seq<nat>, v2: Seq<nat>, a: int, r: int)
    requires
        0 <= r <= p.spec_rules().len(),
        forall|q: int, k: int| #[trigger] feeds(p, live, a, q, k) ==> v1[p.spec_rules()[q].body@[k].id() as int] == v2[p.spec_rules()[q].body@[k].id() as int],
    ensures
        derivation_sum(p, live, v1, a, r) == derivation_sum(p, live, v2, a, r),
    decreases r,
{
    if r > 0 {
        lemma_derivation_sum_frame(p, live, v1, v2, a, r - 1);
        let q = r - 1;
        if rule_active(p, live, q) && p.spec_rules()[q].head.id() == a {
            let body = p.spec_rules()[q].body@;
            assert forall|j: int| 0 <= j < body.len() implies v1[#[trigger] body[j].id() as int] == v2[body[j].id() as int] by {
                assert(feeds(p, live, a, q, j));
            }
            lemma_body_product_frame(body, v1, v2, body.len() as int);
        }
    }
}

/// No active rule has head `a`: no derivations.
pub proof fn lemma_derivation_sum_none(p: PositiveBagProgram, live: Seq<bool>, vals: Seq<nat>, a: int, r: int)
    requires
        0 <= r <= p.spec_rules().len(),
        forall|q: int| 0 <= q < r ==> !(rule_active(p, live, q) && #[trigger] p.spec_rules()[q].head.id() == a),
    ensures
        derivation_sum(p, live, vals, a, r) == 0,
    decreases r,
{
    if r > 0 {
        lemma_derivation_sum_none(p, live, vals, a, r - 1);
        assert(!(rule_active(p, live, r - 1) && p.spec_rules()[r - 1].head.id() == a));
    }
}

/// Seeds, then the derivations of every active rule with head `atom`, over `values`.
fn derivation_count(program: &PositiveBagProgram, support: &GroundedCertificate, values: &Vec<BigNatural>, atom: usize) -> (value: BigNatural)
    requires
        program.wf(),
        support.spec_live().len() == program.spec_atom_count(),
        values@.len() == program.spec_atom_count(),
        atom < program.spec_atom_count(),
        support.spec_live()[atom as int],
        forall|i: int| 0 <= i < values@.len() ==> (#[trigger] values@[i]).wf(),
    ensures
        value.wf(),
        value.value() == program.spec_seeds()[atom as int]
            + derivation_sum(*program, support.spec_live(), natural_values(values@), atom as int, program.spec_rules().len() as int),
{
    let ghost p = *program;
    let ghost live = support.spec_live();
    let ghost vals = natural_values(values@);
    let mut value = BigNatural::from_u64(program.seed_multiplicity[atom]);
    let mut r: usize = 0;
    while r < program.rules.len()
        invariant
            p == *program,
            p.wf(),
            live == support.spec_live(),
            live.len() == p.spec_atom_count(),
            vals == natural_values(values@),
            values@.len() == p.spec_atom_count(),
            forall|i: int| 0 <= i < values@.len() ==> (#[trigger] values@[i]).wf(),
            atom < p.spec_atom_count(),
            live[atom as int],
            r <= p.spec_rules().len(),
            value.wf(),
            value.value() == p.spec_seeds()[atom as int] + derivation_sum(p, live, vals, atom as int, r as int),
        decreases p.spec_rules().len() - r,
    {
        let rule = &program.rules[r];
        proof {
            assert(p.spec_rules()[r as int].head.id() < p.spec_atom_count());
            assert(atoms_below(rule.body@, p.spec_atom_count()));
        }
        if rule.coefficient != 0 && rule.head.index() == atom && all_live(support, &rule.body) {
            proof {
                assert forall|k: int| 0 <= k < rule.body@.len() implies live[#[trigger] rule.body@[k].id() as int] by {
                    assert(support.live_at(rule.body@[k].id() as int));
                }
                assert(rule_active(p, live, r as int));
            }
            let mut product = BigNatural::from_u64(rule.coefficient);
            assert(body_product(rule.body@, vals, 0) == 1);
            let mut k: usize = 0;
            while k < rule.body.len()
                invariant
                    p == *program,
                    r < p.spec_rules().len(),
                    rule == &p.spec_rules()[r as int],
                    atoms_below(rule.body@, p.spec_atom_count()),
                    vals == natural_values(values@),
                    values@.len() == p.spec_atom_count(),
                    forall|i: int| 0 <= i < values@.len() ==> (#[trigger] values@[i]).wf(),
                    k <= rule.body@.len(),
                    product.wf(),
                    product.value() == rule.coefficient * body_product(rule.body@, vals, k as int),
                decreases rule.body@.len() - k,
            {
                let premise = rule.body[k].index();
                proof {
                    assert(rule.body@[k as int].id() < p.spec_atom_count());
                }
                let next = product.multiplied(&values[premise]);
                proof {
                    let c = rule.coefficient as nat;
                    let b = body_product(rule.body@, vals, k as int);
                    let x = vals[premise as int];
                    assert(x == values@[premise as int].value());
                    assert(c * b * x == c * (b * x)) by (nonlinear_arith);
                }
                product = next;
                k = k + 1;
            }
            value.add_assign(&product);
        } else {
            proof {
                if rule_active(p, live, r as int) && rule.head.id() == atom {
                    assert forall|k: int| 0 <= k < rule.body@.len() implies support.live_at(#[trigger] rule.body@[k].id() as int) by {
                        assert(live[rule.body@[k].id() as int]);
                        assert(rule.body@[k].id() < p.spec_atom_count());
                    }
                }
            }
        }
        r = r + 1;
    }
    value
}

/// Atoms that are not finite, or already evaluated.
pub open spec fn settled(fin: Seq<bool>, done: Seq<bool>) -> Seq<bool> {
    Seq::new(fin.len(), |i: int| !fin[i] || done[i])
}

/// A premise feeding a finite atom is finite: infinity propagates along dependencies.
proof fn lemma_premise_finite(
    p: PositiveBagProgram,
    live: Seq<bool>,
    g: Seq<Vec<usize>>,
    infinite: Seq<bool>,
    a: int,
    r: int,
    k: int,
)
    requires
        p.wf(),
        live.len() == p.spec_atom_count(),
        is_dependency_graph(p, live, g),
        infinite.len() == p.spec_atom_count(),
        forall|v: int| 0 <= v < p.spec_atom_count() ==> (#[trigger] infinite[v] <==> (live[v] && below_cycle(dependency_edges(p, live), v))),
        0 <= a < p.spec_atom_count(),
        !infinite[a],
        feeds(p, live, a, r, k),
    ensures
        0 <= p.spec_rules()[r].body@[k].id() < p.spec_atom_count(),
        live[p.spec_rules()[r].body@[k].id() as int],
        !infinite[p.spec_rules()[r].body@[k].id() as int],
        g[p.spec_rules()[r].body@[k].id() as int]@.contains(a as usize),
{
    let u = p.spec_rules()[r].body@[k].id() as int;
    assert(p.spec_rules()[r].head.id() < p.spec_atom_count());
    assert(atoms_below(p.spec_rules()[r].body@, p.spec_atom_count()));
    assert(live[u]);
    assert(dep_edge(p, live, u, a)) by {
        assert(p.spec_rules()[r].body@[k] == p.spec_rules()[r].body@[k]);
    }
    assert(g[u]@.contains(a as usize) <==> dep_edge(p, live, u, (a as usize) as int));
    if infinite[u] {
        assert(dependency_edges(p, live)(u, a));
        lemma_below_cycle_step(dependency_edges(p, live), u, a);
    }
}

/// Evaluates a positive bag program: its grounded support, the atoms made
/// infinite by productive cycles, and the exact finite multiplicities of the
/// others, in dependency order.
#[verifier::rlimit(60)]
pub fn solve_positive_bag(program: &PositiveBagProgram) -> (result: Result<PositiveBagCertificate, PositiveBagFixpointError>)
    requires
        program.wf(),
    ensures
        result matches Ok(c) && {
            &&& is_bag_support(*program, c.spec_support().spec_live())
            &&& exists|gp: GroundedProgram| #[trigger] support_of(*program, gp) && cert_valid(gp, c.spec_support())
            &&& is_bag_solution(*program, c.spec_support().spec_live(), c.spec_multiplicity())
        },
{
    let ghost p = *program;
    let support_program = match program.support_program() {
        Ok(gp) => gp,
        Err(e) => return Err(PositiveBagFixpointError::Support(e)),
    };
    let (support, _) = solve_grounded(&support_program);
    match check(&support_program, &support) {
        Ok(()) => {},
        Err(e) => return Err(PositiveBagFixpointError::Support(e)),
    }
    let ghost live_s = support.spec_live();
    proof {
        lemma_support_least_model(p, support_program, live_s);
    }
    let (graph, infinite) = classify_infinite(program, &support);
    let ghost g = graph@;
    let n = program.atom_count;
    let mut live: Vec<bool> = Vec::new();
    let mut i: usize = 0;
    while i < n
        invariant
            i <= n,
            n == p.spec_atom_count(),
            live_s == support.spec_live(),
            live_s.len() == n,
            live@.len() == i,
            forall|j: int| 0 <= j < i ==> #[trigger] live@[j] == live_s[j],
        decreases n - i,
    {
        live.push(support.is_live(GroundedAtomId::new(i)));
        i = i + 1;
    }
    assert(live@ =~= live_s);
    let ghost fin = Seq::new(n as nat, |j: int| live_s[j] && !infinite@[j]);
    let ghost none = Seq::new(n as nat, |j: int| false);
    proof {
        assert(settled(fin, none) =~= Seq::new(n as nat, |j: int| !fin[j]));
    }
    let mut indegree: Vec<usize> = Vec::new();
    while indegree.len() < n
        invariant
            indegree@.len() <= n,
            forall|v: int| 0 <= v < indegree@.len() ==> #[trigger] indegree@[v] == 0,
        decreases n - indegree@.len(),
    {
        indegree.push(0);
    }
    let mut u: usize = 0;
    while u < n
        invariant
            u <= n,
            n == g.len(),
            g == graph@,
            adjacency_ok(g),
            live@ == live_s,
            live_s.len() == n,
            infinite@.len() == n,
            fin == Seq::new(n as nat, |j: int| live_s[j] && !infinite@[j]),
            none == Seq::new(n as nat, |j: int| false),
            indegree@.len() == n,
            forall|v: int| 0 <= v < n && #[trigger] fin[v] ==> indegree@[v] == pred_count(g, settled(fin, none), v, u as int),
        decreases n - u,
    {
        if live[u] && !infinite[u] {
            let row = &graph[u];
            let mut t: usize = 0;
            while t < row.len()
                invariant
                    u < n,
                    t <= row@.len(),
                    n == g.len(),
                    g == graph@,
                    row == &g[u as int],
                    adjacency_ok(g),
                    live@ == live_s,
                live_s.len() == n,
                    live_s.len() == n,
            live_s.len() == n,
                    infinite@.len() == n,
                    fin == Seq::new(n as nat, |j: int| live_s[j] && !infinite@[j]),
                    fin[u as int],
                    none == Seq::new(n as nat, |j: int| false),
                    indegree@.len() == n,
                    forall|v: int| 0 <= v < n && #[trigger] fin[v] ==> indegree@[v]
                        == pred_count(g, settled(fin, none), v, u as int) + if row@.subrange(0, t as int).contains(v as usize) { 1nat } else { 0nat },
                decreases row@.len() - t,
            {
                let w = row[t];
                proof {
                    assert(g[u as int]@.no_duplicates());
                    assert(w < n);
                    assert(!row@.subrange(0, t as int).contains(w)) by {
                        if row@.subrange(0, t as int).contains(w) {
                            let q = choose|q: int| 0 <= q < t && row@.subrange(0, t as int)[q] == w;
                            assert(row@[q] == row@[t as int]);
                        }
                    }
                    lemma_pred_count_bound(g, settled(fin, none), w as int, u as int);
                    assert(row@.subrange(0, t + 1) =~= row@.subrange(0, t as int).push(w));
                }
                if live[w] && !infinite[w] {
                    assert(fin[w as int]);
                    let ghost before = indegree@;
                    indegree.set(w, indegree[w] + 1);
                    proof {
                        assert forall|v: int| 0 <= v < n && #[trigger] fin[v] implies indegree@[v]
                            == pred_count(g, settled(fin, none), v, u as int) + if row@.subrange(0, t + 1).contains(v as usize) { 1nat } else { 0nat } by {
                            lemma_push_contains(row@.subrange(0, t as int), w, v as usize);
                            if v != w {
                                assert(indegree@[v] == before[v]);
                            }
                        }
                    }
                } else {
                    proof {
                        assert forall|v: int| 0 <= v < n && #[trigger] fin[v] implies indegree@[v]
                            == pred_count(g, settled(fin, none), v, u as int) + if row@.subrange(0, t + 1).contains(v as usize) { 1nat } else { 0nat } by {
                            lemma_push_contains(row@.subrange(0, t as int), w, v as usize);
                        }
                    }
                }
                t = t + 1;
            }
            proof {
                assert(row@.subrange(0, row@.len() as int) =~= row@);
                assert forall|v: int| 0 <= v < n && #[trigger] fin[v] implies indegree@[v] == pred_count(g, settled(fin, none), v, u + 1) by {
                    assert(!settled(fin, none)[u as int]);
                }
            }
        } else {
            proof {
                assert forall|v: int| 0 <= v < n && #[trigger] fin[v] implies indegree@[v] == pred_count(g, settled(fin, none), v, u + 1) by {
                    assert(settled(fin, none)[u as int]);
                }
            }
        }
        u = u + 1;
    }
    let mut queue: VecDeque<usize> = VecDeque::new();
    let mut v0: usize = 0;
    while v0 < n
        invariant
            v0 <= n,
            indegree@.len() == n,
            live@ == live_s,
            live_s.len() == n,
            infinite@.len() == n,
            fin == Seq::new(n as nat, |j: int| live_s[j] && !infinite@[j]),
            forall|q: int| 0 <= q < queue@.len() ==> #[trigger] queue@[q] < v0 && fin[queue@[q] as int],
            queue@.no_duplicates(),
            forall|v: int| 0 <= v < v0 && #[trigger] fin[v] ==> (indegree@[v] == 0 <==> queue@.contains(v as usize)),
        decreases n - v0,
    {
        let ghost before = queue@;
        if live[v0] && !infinite[v0] && indegree[v0] == 0 {
            queue.push_back(v0);
            proof {
                assert forall|v: int| 0 <= v < v0 + 1 && #[trigger] fin[v] implies (indegree@[v] == 0 <==> queue@.contains(v as usize)) by {
                    if v < v0 {
                        if before.contains(v as usize) {
                            let q = choose|q: int| 0 <= q < before.len() && before[q] == v as usize;
                            assert(queue@[q] == v as usize);
                        }
                        if queue@.contains(v as usize) {
                            let q = choose|q: int| 0 <= q < queue@.len() && queue@[q] == v as usize;
                            if q < before.len() {
                                assert(before[q] == v as usize);
                            }
                        }
                    } else {
                        assert(queue@[queue@.len() - 1] == v0);
                    }
                }
                assert forall|a: int, b: int| 0 <= a < queue@.len() && 0 <= b < queue@.len() && a != b implies queue@[a] != queue@[b] by {
                    if a < before.len() && b < before.len() {
                        assert(before[a] != before[b]);
                    } else if a < before.len() {
                        assert(before[a] < v0);
                    } else if b < before.len() {
                        assert(before[b] < v0);
                    }
                }
            }
        } else {
            proof {
                assert forall|v: int| 0 <= v < v0 + 1 && #[trigger] fin[v] implies (indegree@[v] == 0 <==> queue@.contains(v as usize)) by {
                    if v == v0 && queue@.contains(v as usize) {
                        let q = choose|q: int| 0 <= q < queue@.len() && queue@[q] == v as usize;
                    }
                }
            }
        }
        v0 = v0 + 1;
    }
    let mut finite: Vec<BigNatural> = Vec::new();
    while finite.len() < n
        invariant
            finite@.len() <= n,
            forall|j: int| 0 <= j < finite@.len() ==> (#[trigger] finite@[j]).wf() && finite@[j].value() == 0,
        decreases n - finite@.len(),
    {
        finite.push(BigNatural::zero());
    }
    let ghost mut done: Seq<bool> = none;
    proof {
        assert(done =~= Seq::new(n as nat, |j: int| false));
        assert(count_false(none) == n) by {
            lemma_count_false_all(none);
        }
    }
    let mut processed: usize = 0;
    while queue.len() > 0
        invariant
            p == *program,
            p.wf(),
            n == p.spec_atom_count(),
            n == g.len(),
            g == graph@,
            is_dependency_graph(p, live_s, g),
            adjacency_ok(g),
            live_s == support.spec_live(),
            live@ == live_s,
            live_s.len() == n,
            infinite@.len() == n,
            forall|v: int| 0 <= v < n ==> (#[trigger] infinite@[v] <==> (live_s[v] && below_cycle(dependency_edges(p, live_s), v))),
            fin == Seq::new(n as nat, |j: int| live_s[j] && !infinite@[j]),
            done.len() == n,
            indegree@.len() == n,
            finite@.len() == n,
            forall|v: int| 0 <= v < n && #[trigger] done[v] ==> fin[v],
            forall|v: int| 0 <= v < n && #[trigger] fin[v] ==> indegree@[v] == pred_count(g, settled(fin, done), v, n as int),
            queue@.no_duplicates(),
            forall|q: int| 0 <= q < queue@.len() ==> #[trigger] queue@[q] < n && fin[queue@[q] as int] && !done[queue@[q] as int],
            forall|v: int| 0 <= v < n && #[trigger] fin[v] ==> ((!done[v] && indegree@[v] == 0) <==> queue@.contains(v as usize)),
            forall|j: int| 0 <= j < n ==> (#[trigger] finite@[j]).wf(),
            forall|j: int| 0 <= j < n && !done[j] ==> (#[trigger] finite@[j]).value() == 0,
            forall|a: int| 0 <= a < n && #[trigger] done[a] ==> bag_equation(p, live_s, natural_values(finite@), a),
            forall|a: int, r: int, k: int| 0 <= a < n && done[a] && #[trigger] feeds(p, live_s, a, r, k) ==> done[p.spec_rules()[r].body@[k].id() as int],
            processed + count_false(done) == n,
        decreases count_false(done),
    {
        let ghost qbefore = queue@;
        let atom = match queue.pop_front() {
            Some(v) => v,
            None => 0,
        };
        let ghost after_pop = queue@;
        let ghost old_done = done;
        let ghost gone = settled(fin, done);
        proof {
            assert(after_pop == qbefore.subrange(1, qbefore.len() as int));
            assert(atom == qbefore[0]);
            assert(qbefore.contains(atom));
            assert(fin[atom as int] && !done[atom as int]);
            assert(indegree@[atom as int] == 0);
            lemma_pred_count_zero(g, gone, atom as int, n as int);
            lemma_count_false_update(done, atom as int);
            assert forall|q: int| 0 <= q < after_pop.len() implies #[trigger] after_pop[q] != atom by {
                assert(after_pop[q] == qbefore[q + 1]);
            }
            assert forall|r: int, k: int| #[trigger] feeds(p, live_s, atom as int, r, k) implies done[p.spec_rules()[r].body@[k].id() as int] by {
                lemma_premise_finite(p, live_s, g, infinite@, atom as int, r, k);
                let w = p.spec_rules()[r].body@[k].id() as int;
                assert(gone[w]);
            }
            assert(!g[atom as int]@.contains(atom)) by {
                if g[atom as int]@.contains(atom) {
                    assert(gone[atom as int]);
                }
            }
        }
        let ghost vals = natural_values(finite@);
        let value = derivation_count(program, &support, &finite, atom);
        processed = processed + 1;
        finite.set(atom, value);
        proof {
            done = done.update(atom as int, true);
            let vals2 = natural_values(finite@);
            assert(vals2 == vals.update(atom as int, finite@[atom as int].value()));
            assert forall|a: int| 0 <= a < n && #[trigger] done[a] implies bag_equation(p, live_s, vals2, a) by {
                assert forall|q: int, k: int| #[trigger] feeds(p, live_s, a, q, k) implies
                    vals[p.spec_rules()[q].body@[k].id() as int] == vals2[p.spec_rules()[q].body@[k].id() as int] by {
                    lemma_premise_finite(p, live_s, g, infinite@, a, q, k);
                    let w = p.spec_rules()[q].body@[k].id() as int;
                    if a == atom as int {
                        assert(old_done[w]);
                    } else {
                        assert(old_done[a]);
                        assert(old_done[w]);
                    }
                    assert(w != atom as int);
                }
                lemma_derivation_sum_frame(p, live_s, vals, vals2, a, p.spec_rules().len() as int);
                if a != atom as int {
                    assert(old_done[a]);
                    assert(bag_equation(p, live_s, vals, a));
                }
            }
            assert forall|a: int, r: int, k: int| 0 <= a < n && done[a] && #[trigger] feeds(p, live_s, a, r, k) implies done[p.spec_rules()[r].body@[k].id() as int] by {
                if a != atom as int {
                    assert(old_done[a]);
                }
            }
            assert forall|j: int| 0 <= j < n && !done[j] implies (#[trigger] finite@[j]).value() == 0 by {
                assert(j != atom as int);
            }
            assert(settled(fin, done) =~= gone.update(atom as int, true));
        }
        let row = &graph[atom];
        proof {
            assert(row@.subrange(0, row@.len() as int) =~= row@);
            assert forall|w: int| 0 <= w < n && #[trigger] fin[w] implies indegree@[w]
                == pred_count(g, settled(fin, done), w, n as int) + if row@.subrange(0, row@.len() as int).contains(w as usize) { 1nat } else { 0nat } by {
                lemma_pred_count_remove(g, gone, atom as int, w, n as int);
            }
            assert forall|w: int| 0 <= w < n && #[trigger] fin[w] && !row@.subrange(0, row@.len() as int).contains(w as usize) implies
                ((!done[w] && indegree@[w] == 0) <==> queue@.contains(w as usize)) by {
                if w == atom as int {
                    assert(!after_pop.contains(atom));
                } else {
                    assert(done[w] == old_done[w]);
                    if qbefore.contains(w as usize) {
                        let q = choose|q: int| 0 <= q < qbefore.len() && qbefore[q] == w as usize;
                        assert(q != 0);
                        assert(after_pop[q - 1] == w as usize);
                    }
                    if after_pop.contains(w as usize) {
                        let q = choose|q: int| 0 <= q < after_pop.len() && after_pop[q] == w as usize;
                        assert(qbefore[q + 1] == w as usize);
                    }
                }
            }
            assert forall|w: usize| w < n && #[trigger] row@.subrange(0, row@.len() as int).contains(w) implies
                !queue@.contains(w) by {
                if after_pop.contains(w) {
                    let q = choose|q: int| 0 <= q < after_pop.len() && after_pop[q] == w;
                    assert(qbefore[q + 1] == w);
                    assert(qbefore.contains(w));
                    assert(w != atom);
                    assert(fin[w as int] && !old_done[w as int]);
                    lemma_pred_count_remove(g, gone, atom as int, w as int, n as int);
                }
            }
            assert forall|q: int| 0 <= q < queue@.len() implies #[trigger] queue@[q] < n && fin[queue@[q] as int] && !done[queue@[q] as int] by {
                assert(queue@[q] == qbefore[q + 1]);
            }
        }
        let mut t: usize = 0;
        while t < row.len()
            invariant
                p == *program,
                p.wf(),
                n == p.spec_atom_count(),
                n == g.len(),
                g == graph@,
                is_dependency_graph(p, live_s, g),
                adjacency_ok(g),
                live@ == live_s,
                live_s.len() == n,
            live_s.len() == n,
                infinite@.len() == n,
                forall|v: int| 0 <= v < n ==> (#[trigger] infinite@[v] <==> (live_s[v] && below_cycle(dependency_edges(p, live_s), v))),
                fin == Seq::new(n as nat, |j: int| live_s[j] && !infinite@[j]),
                atom < n,
                row == &g[atom as int],
                t <= row@.len(),
                done.len() == n,
                done[atom as int],
                old_done == done.update(atom as int, false),
                !old_done[atom as int],
                old_done.len() == n,
                !g[atom as int]@.contains(atom),
                forall|a: int, r: int, k: int| 0 <= a < n && old_done[a] && #[trigger] feeds(p, live_s, a, r, k) ==> old_done[p.spec_rules()[r].body@[k].id() as int],
                indegree@.len() == n,
                forall|w: int| 0 <= w < n && #[trigger] fin[w] ==> indegree@[w]
                    == pred_count(g, settled(fin, done), w, n as int) + if row@.subrange(t as int, row@.len() as int).contains(w as usize) { 1nat } else { 0nat },
                queue@.no_duplicates(),
                forall|q: int| 0 <= q < queue@.len() ==> #[trigger] queue@[q] < n && fin[queue@[q] as int] && !done[queue@[q] as int],
                forall|w: int| 0 <= w < n && #[trigger] fin[w] && !row@.subrange(t as int, row@.len() as int).contains(w as usize) ==>
                    ((!done[w] && indegree@[w] == 0) <==> queue@.contains(w as usize)),
                forall|w: usize| w < n && #[trigger] row@.subrange(t as int, row@.len() as int).contains(w) ==> !queue@.contains(w),
                forall|a: int, r: int, k: int| 0 <= a < n && done[a] && #[trigger] feeds(p, live_s, a, r, k) ==> done[p.spec_rules()[r].body@[k].id() as int],
            decreases row@.len() - t,
        {
            let target = row[t];
            let ghost qb = queue@;
            let ghost ib = indegree@;
            proof {
                assert(row@.subrange(t as int, row@.len() as int)[0] == target);
                assert(row@.subrange(t as int, row@.len() as int).contains(target));
                assert(target < n);
            }
            if live[target] && !infinite[target] {
                proof {
                    assert(fin[target as int]);
                }
                indegree.set(target, indegree[target].saturating_sub(1));
                if indegree[target] == 0 {
                    queue.push_back(target);
                }
                proof {
                    let rest = row@.subrange(t + 1, row@.len() as int);
                    assert(row@.subrange(t as int, row@.len() as int) =~= seq![target].add(rest));
                    assert(!rest.contains(target)) by {
                        assert(g[atom as int]@.no_duplicates());
                        if rest.contains(target) {
                            let q = choose|q: int| 0 <= q < rest.len() && rest[q] == target;
                            assert(row@[t + 1 + q] == row@[t as int]);
                        }
                    }
                    assert(!done[target as int]) by {
                        if done[target as int] {
                            assert(g[atom as int]@.contains(target));
                            assert(target != atom);
                            assert(old_done[target as int]);
                            assert(g[atom as int]@.contains(target) <==> dep_edge(p, live_s, atom as int, target as int));
                            let (r, k) = choose|r: int, k: int| #![trigger p.spec_rules()[r].body@[k]]
                                0 <= r < p.spec_rules().len() && 0 <= k < p.spec_rules()[r].body@.len() && rule_active(p, live_s, r)
                                    && p.spec_rules()[r].body@[k].id() == atom as int && p.spec_rules()[r].head.id() == target as int;
                            assert(feeds(p, live_s, target as int, r, k));
                            assert(old_done[atom as int]);
                        }
                    }
                    assert forall|a: int, b: int| 0 <= a < queue@.len() && 0 <= b < queue@.len() && a != b implies queue@[a] != queue@[b] by {
                        if a < qb.len() && b < qb.len() {
                        } else if a < qb.len() {
                            assert(queue@[b] == target);
                            assert(qb.contains(qb[a]));
                        } else if b < qb.len() {
                            assert(queue@[a] == target);
                            assert(qb.contains(qb[b]));
                        }
                    }
                    assert forall|x: int| 0 <= x < n && #[trigger] fin[x] implies indegree@[x]
                        == pred_count(g, settled(fin, done), x, n as int) + if rest.contains(x as usize) { 1nat } else { 0nat } by {
                        lemma_cons_contains(target, rest, x as usize);
                    }
                    assert forall|x: int| 0 <= x < n && #[trigger] fin[x] && !rest.contains(x as usize) implies
                        ((!done[x] && indegree@[x] == 0) <==> queue@.contains(x as usize)) by {
                        lemma_cons_contains(target, rest, x as usize);
                        if x as usize != target {
                            if qb.contains(x as usize) {
                                let q = choose|q: int| 0 <= q < qb.len() && qb[q] == x as usize;
                                assert(queue@[q] == x as usize);
                            }
                            if queue@.contains(x as usize) {
                                let q = choose|q: int| 0 <= q < queue@.len() && queue@[q] == x as usize;
                                if q < qb.len() {
                                    assert(qb[q] == x as usize);
                                }
                            }
                        } else {
                            if indegree@[x] == 0 {
                                assert(queue@[queue@.len() - 1] == target);
                            } else {
                                assert(queue@ == qb);
                            }
                        }
                    }
                    assert forall|x: usize| x < n && #[trigger] rest.contains(x) implies !queue@.contains(x) by {
                        lemma_cons_contains(target, rest, x);
                        assert(x != target);
                        assert(row@.subrange(t as int, row@.len() as int).contains(x));
                        assert(!qb.contains(x));
                        if queue@.contains(x) {
                            let q = choose|q: int| 0 <= q < queue@.len() && queue@[q] == x;
                            if q < qb.len() {
                                assert(qb[q] == x);
                                assert(qb.contains(x));
                            }
                        }
                    }
                    assert forall|q: int| 0 <= q < queue@.len() implies #[trigger] queue@[q] < n && fin[queue@[q] as int] && !done[queue@[q] as int] by {
                        if q < qb.len() {
                            assert(queue@[q] == qb[q]);
                        }
                    }
                }
            } else {
                proof {
                    let rest = row@.subrange(t + 1, row@.len() as int);
                    assert(row@.subrange(t as int, row@.len() as int) =~= seq![target].add(rest));
                    assert(!fin[target as int]);
                    assert forall|x: int| 0 <= x < n && #[trigger] fin[x] implies indegree@[x]
                        == pred_count(g, settled(fin, done), x, n as int) + if rest.contains(x as usize) { 1nat } else { 0nat } by {
                        lemma_cons_contains(target, rest, x as usize);
                    }
                    assert forall|x: int| 0 <= x < n && #[trigger] fin[x] && !rest.contains(x as usize) implies
                        ((!done[x] && indegree@[x] == 0) <==> queue@.contains(x as usize)) by {
                        lemma_cons_contains(target, rest, x as usize);
                    }
                    assert forall|x: usize| x < n && #[trigger] rest.contains(x) implies !queue@.contains(x) by {
                        lemma_cons_contains(target, rest, x);
                        assert(row@.subrange(t as int, row@.len() as int).contains(x));
                    }
                }
            }
            let ghost rest = row@.subrange(t + 1, row@.len() as int);
            t = t + 1;
            assert(rest == row@.subrange(t as int, row@.len() as int));
        }
        proof {
            assert(row@.subrange(row@.len() as int, row@.len() as int) =~= Seq::<usize>::empty());
        }
    }
    proof {
        let bad = |w: int| fin[w] && !done[w];
        assert forall|w: int| 0 <= w < g.len() && #[trigger] bad(w) implies exists|x: int| 0 <= x < g.len() && bad(x) && g[x]@.contains(w as usize) by {
            assert(indegree@[w] != 0);
            lemma_pred_count_zero(g, settled(fin, done), w, n as int);
            let x = choose|x: int| 0 <= x < n && g[x]@.contains(w as usize) && !settled(fin, done)[x];
            assert(bad(x));
        }
        assert forall|w: int| 0 <= w < n && #[trigger] fin[w] implies done[w] by {
            if !done[w] {
                lemma_bad_below_cycle(g, bad, w);
                lemma_dependency_graph_edges(p, live_s, g);
                assert(infinite@[w]);
            }
        }
        assert(done =~= fin);
    }
    let mut expected: usize = 0;
    let mut j: usize = 0;
    while j < n
        invariant
            j <= n,
            live@ == live_s,
            live_s.len() == n,
            infinite@.len() == n,
            live_s.len() == n,
            fin == Seq::new(n as nat, |x: int| live_s[x] && !infinite@[x]),
            expected + count_false(fin.subrange(0, j as int)) == j,
        decreases n - j,
    {
        proof {
            assert(fin.subrange(0, j + 1).drop_last() =~= fin.subrange(0, j as int));
        }
        if live[j] && !infinite[j] {
            expected = expected + 1;
        }
        j = j + 1;
    }
    proof {
        assert(fin.subrange(0, n as int) =~= fin);
    }
    if processed != expected {
        return Err(PositiveBagFixpointError::FiniteDependencyCycle);
    }
    let mut multiplicity: Vec<NaturalInfinity> = Vec::new();
    let mut index: usize = 0;
    while index < n
        invariant
            index <= n,
            live@ == live_s,
            live_s.len() == n,
            infinite@.len() == n,
            finite@.len() == n,
            multiplicity@.len() == index,
            forall|x: int| 0 <= x < index ==> #[trigger] multiplicity@[x] == (if !live_s[x] {
                multiplicity@[x]
            } else if infinite@[x] {
                NaturalInfinity::Infinite
            } else {
                multiplicity@[x]
            }),
            forall|x: int| 0 <= x < index ==> (#[trigger] multiplicity@[x] is Infinite <==> (live_s[x] && infinite@[x])),
            forall|x: int| 0 <= x < index && !live_s[x] ==> (#[trigger] multiplicity@[x] matches NaturalInfinity::Finite(v) && v.wf() && v.value() == 0),
            forall|x: int| 0 <= x < index && live_s[x] && !infinite@[x] ==> (#[trigger] multiplicity@[x] matches NaturalInfinity::Finite(v)
                && v.limbs_view() == finite@[x].limbs_view()),
        decreases n - index,
    {
        if !live[index] {
            multiplicity.push(NaturalInfinity::zero());
        } else if infinite[index] {
            multiplicity.push(NaturalInfinity::Infinite);
        } else {
            multiplicity.push(NaturalInfinity::Finite(finite[index].clone()));
        }
        index = index + 1;
    }
    let certificate = PositiveBagCertificate { support, multiplicity };
    proof {
        let m = multiplicity@;
        assert(multiplicity_values(m) =~= natural_values(finite@)) by {
            assert forall|x: int| 0 <= x < n implies multiplicity_values(m)[x] == natural_values(finite@)[x] by {
                if live_s[x] && !infinite@[x] {
                    assert(fin[x]);
                } else {
                    assert(!fin[x]);
                    assert(!done[x]);
                }
            }
        }
        assert forall|a: int| #![trigger m[a]] 0 <= a < m.len() && m[a] is Finite implies {
            &&& finite_wf(m[a])
            &&& bag_equation(p, live_s, multiplicity_values(m), a)
            &&& forall|r: int, k: int| #[trigger] feeds(p, live_s, a, r, k) ==> m[p.spec_rules()[r].body@[k].id() as int] is Finite
        } by {
            if live_s[a] {
                assert(fin[a]);
                assert(done[a]);
                assert forall|r: int, k: int| #[trigger] feeds(p, live_s, a, r, k) implies m[p.spec_rules()[r].body@[k].id() as int] is Finite by {
                    lemma_premise_finite(p, live_s, g, infinite@, a, r, k);
                }
            } else {
                assert(p.spec_seeds()[a] == 0) by {
                    if p.spec_seeds()[a] != 0 {
                        assert forall|s: Set<int>| #[trigger] bag_support_closed(p, s) implies s.contains(a) by {}
                        assert(in_bag_support(p, a));
                    }
                }
                lemma_derivation_sum_none(p, live_s, multiplicity_values(m), a, p.spec_rules().len() as int);
                assert forall|r: int, k: int| #[trigger] feeds(p, live_s, a, r, k) implies m[p.spec_rules()[r].body@[k].id() as int] is Finite by {}
            }
        }
        assert forall|a: int| 0 <= a < m.len() implies (#[trigger] m[a] is Infinite <==> (live_s[a] && below_cycle(dependency_edges(p, live_s), a))) by {}
    }
    Ok(certificate)
}

/// The multiplicities match entry by entry: both infinite, or equal limbs.
pub open spec fn same_multiplicities(a: Seq<NaturalInfinity>, b: Seq<NaturalInfinity>) -> bool {
    &&& a.len() == b.len()
    &&& forall|i: int| 0 <= i < a.len() ==> match (#[trigger] a[i], b[i]) {
        (NaturalInfinity::Finite(x), NaturalInfinity::Finite(y)) => x.limbs_view() == y.limbs_view(),
        (NaturalInfinity::Infinite, NaturalInfinity::Infinite) => true,
        _ => false,
    }
}

/// A solution carries over to multiplicities with the same entries.
pub proof fn lemma_solution_same(p: PositiveBagProgram, live: Seq<bool>, a: Seq<NaturalInfinity>, b: Seq<NaturalInfinity>)
    requires
        p.wf(),
        is_bag_solution(p, live, a),
        same_multiplicities(a, b),
    ensures
        is_bag_solution(p, live, b),
{
    assert(multiplicity_values(a) =~= multiplicity_values(b)) by {
        assert forall|i: int| 0 <= i < a.len() implies multiplicity_values(a)[i] == multiplicity_values(b)[i] by {
            let _ = a[i];
        }
    }
    assert forall|i: int| 0 <= i < b.len() implies (#[trigger] b[i] is Infinite <==> (live[i] && below_cycle(dependency_edges(p, live), i))) by {
        let _ = a[i];
    }
    assert forall|x: int| #![trigger b[x]] 0 <= x < b.len() && b[x] is Finite implies {
        &&& finite_wf(b[x])
        &&& bag_equation(p, live, multiplicity_values(b), x)
        &&& forall|r: int, k: int| #[trigger] feeds(p, live, x, r, k) ==> b[p.spec_rules()[r].body@[k].id() as int] is Finite
    } by {
        let _ = a[x];
        assert(a[x] is Finite);
        assert forall|r: int, k: int| #[trigger] feeds(p, live, x, r, k) implies b[p.spec_rules()[r].body@[k].id() as int] is Finite by {
            let w = p.spec_rules()[r].body@[k].id() as int;
            assert(p.spec_rules()[r].head.id() < p.spec_atom_count());
            assert(atoms_below(p.spec_rules()[r].body@, p.spec_atom_count()));
            assert(0 <= w < a.len());
            assert(a[w] is Finite);
            let _ = a[w];
        }
    }
}

/// Two bag solutions over the same support hold the same multiplicities,
/// limb for limb.
pub proof fn lemma_bag_solutions_same(p: PositiveBagProgram, live: Seq<bool>, m1: Seq<NaturalInfinity>, m2: Seq<NaturalInfinity>)
    requires
        p.wf(),
        live.len() == p.spec_atom_count(),
        is_bag_solution(p, live, m1),
        is_bag_solution(p, live, m2),
    ensures
        same_multiplicities(m1, m2),
{
    lemma_bag_solution_unique(p, live, m1, m2);
    assert forall|i: int| 0 <= i < m1.len() implies match (#[trigger] m1[i], m2[i]) {
        (NaturalInfinity::Finite(x), NaturalInfinity::Finite(y)) => x.limbs_view() == y.limbs_view(),
        (NaturalInfinity::Infinite, NaturalInfinity::Infinite) => true,
        _ => false,
    } by {
        let _ = m2[i];
        if let (NaturalInfinity::Finite(x), NaturalInfinity::Finite(y)) = (m1[i], m2[i]) {
            assert(finite_wf(m1[i]) && finite_wf(m2[i]));
            assert(finite_value(m1[i]) == finite_value(m2[i]));
            lemma_chunks_canonical(x.limbs_view(), y.limbs_view());
        }
    }
}

/// `certificate` certifies `p`: its support is a valid grounded certificate
/// for the support program of `p`, and its multiplicities are the bag
/// solution over that support.
pub open spec fn certifies_bag(p: PositiveBagProgram, certificate: PositiveBagCertificate) -> bool {
    &&& exists|gp: GroundedProgram| #[trigger] support_of(p, gp) && cert_valid(gp, certificate.spec_support())
    &&& is_bag_solution(p, certificate.spec_support().spec_live(), certificate.spec_multiplicity())
}

/// Checks a certificate by re-deriving the support check and the exact solution.
pub fn check_positive_bag(program: &PositiveBagProgram, certificate: &PositiveBagCertificate) -> (result: Result<(), PositiveBagFixpointError>)
    requires
        program.wf(),
    ensures
        result is Ok <==> certifies_bag(*program, *certificate),
        certificate.spec_multiplicity().len() != program.spec_atom_count() ==> result == Err::<(), PositiveBagFixpointError>(PositiveBagFixpointError::CertificateShapeMismatch),
        result matches Err(e) ==> (e is CertificateShapeMismatch || e is Support),
        certificate.spec_multiplicity().len() == program.spec_atom_count() ==> (check_result(support_program_of(*program), certificate.spec_support()) matches Err(e)
            ==> result == Err::<(), PositiveBagFixpointError>(PositiveBagFixpointError::Support(e))),
        result is Ok ==> {
            &&& exists|gp: GroundedProgram| #[trigger] support_of(*program, gp) && cert_valid(gp, certificate.spec_support())
            &&& is_bag_support(*program, certificate.spec_support().spec_live())
            &&& is_bag_solution(*program, certificate.spec_support().spec_live(), certificate.spec_multiplicity())
        },
{
    let ghost ok = certifies_bag(*program, *certificate);
    if certificate.multiplicity.len() != program.atom_count {
        return Err(PositiveBagFixpointError::CertificateShapeMismatch);
    }
    let support_program = match program.support_program() {
        Ok(gp) => gp,
        Err(e) => return Err(PositiveBagFixpointError::Support(e)),
    };
    proof {
        if ok {
            let gp = choose|gp: GroundedProgram| #[trigger] support_of(*program, gp) && cert_valid(gp, certificate.spec_support());
            lemma_support_certificate_transfer(*program, gp, support_program, certificate.spec_support());
        }
    }
    proof {
        let g = support_program_of(*program);
        assert(support_of(*program, g));
        lemma_support_programs_agree(*program, support_program, g);
        lemma_same_view_check_result(support_program, g, certificate.spec_support());
    }
    match check(&support_program, &certificate.support) {
        Ok(()) => {},
        Err(e) => return Err(PositiveBagFixpointError::Support(e)),
    }
    let expected = match solve_positive_bag(program) {
        Ok(c) => c,
        Err(e) => return Err(e),
    };
    proof {
        if ok {
            let live = certificate.spec_support().spec_live();
            lemma_support_least_model(*program, support_program, live);
            assert(live =~= expected.spec_support().spec_live()) by {
                assert forall|a: int| 0 <= a < live.len() implies live[a] == expected.spec_support().spec_live()[a] by {
                    assert(live[a] <==> in_bag_support(*program, a));
                    assert(expected.spec_support().spec_live()[a] <==> in_bag_support(*program, a));
                }
            }
            lemma_bag_solutions_same(*program, live, expected.spec_multiplicity(), certificate.spec_multiplicity());
        }
    }
    let n = program.atom_count;
    let mut i: usize = 0;
    while i < n
        invariant
            i <= n,
            n == program.spec_atom_count(),
            expected.spec_multiplicity().len() == n,
            certificate.spec_multiplicity().len() == n,
            ok == certifies_bag(*program, *certificate),
            check_result(support_program_of(*program), certificate.spec_support()) is Ok,
            ok ==> same_multiplicities(expected.spec_multiplicity(), certificate.spec_multiplicity()),
            forall|j: int| 0 <= j < i ==> match (#[trigger] expected.spec_multiplicity()[j], certificate.spec_multiplicity()[j]) {
                (NaturalInfinity::Finite(x), NaturalInfinity::Finite(y)) => x.limbs_view() == y.limbs_view(),
                (NaturalInfinity::Infinite, NaturalInfinity::Infinite) => true,
                _ => false,
            },
        decreases n - i,
    {
        if !expected.multiplicity[i].same_as(&certificate.multiplicity[i]) {
            return Err(PositiveBagFixpointError::CertificateShapeMismatch);
        }
        i = i + 1;
    }
    let mut index: usize = 0;
    while index < n
        invariant
            index <= n,
            n == program.spec_atom_count(),
            expected.spec_support().spec_live().len() == n,
            forall|j: int| 0 <= j < index ==> expected.spec_support().live_at(j) == #[trigger] certificate.spec_support().live_at(j),
            ok == certifies_bag(*program, *certificate),
            check_result(support_program_of(*program), certificate.spec_support()) is Ok,
            ok ==> certificate.spec_support().spec_live() == expected.spec_support().spec_live(),
        decreases n - index,
    {
        let atom = GroundedAtomId::new(index);
        if expected.support.is_live(atom) != certificate.support.is_live(atom) {
            return Err(PositiveBagFixpointError::CertificateShapeMismatch);
        }
        index = index + 1;
    }
    proof {
        let gp = support_program;
        assert(support_of(*program, gp));
        assert(certificate.spec_support().spec_live().len() == n);
        assert(certificate.spec_support().spec_live() =~= expected.spec_support().spec_live()) by {
            assert forall|j: int| 0 <= j < n implies certificate.spec_support().spec_live()[j] == expected.spec_support().spec_live()[j] by {
                assert(expected.spec_support().live_at(j) == certificate.spec_support().live_at(j));
            }
        }
        lemma_solution_same(*program, expected.spec_support().spec_live(), expected.spec_multiplicity(), certificate.spec_multiplicity());
    }
    Ok(())
}

/// An atom outside the support (underivable) has multiplicity zero.
pub proof fn lemma_underivable_atoms_are_zero(p: PositiveBagProgram, live: Seq<bool>, m: Seq<NaturalInfinity>, a: int)
    requires
        p.wf(),
        is_bag_support(p, live),
        is_bag_solution(p, live, m),
        0 <= a < p.spec_atom_count(),
        !live[a],
    ensures
        m[a] is Finite,
        finite_value(m[a]) == 0,
{
    assert(!(m[a] is Infinite));
    assert(p.spec_seeds()[a] == 0) by {
        if p.spec_seeds()[a] != 0 {
            assert forall|s: Set<int>| #[trigger] bag_support_closed(p, s) implies s.contains(a) by {}
            assert(in_bag_support(p, a));
        }
    }
    lemma_derivation_sum_none(p, live, multiplicity_values(m), a, p.spec_rules().len() as int);
    assert(multiplicity_values(m)[a] == finite_value(m[a]));
}

proof fn lemma_body_product_positive(body: Seq<GroundedAtomId>, vals: Seq<nat>, k: int)
    requires
        forall|j: int| 0 <= j < k ==> vals[#[trigger] body[j].id() as int] > 0,
    ensures
        body_product(body, vals, k) > 0,
    decreases k,
{
    if k > 0 {
        lemma_body_product_positive(body, vals, k - 1);
        let x = body_product(body, vals, k - 1);
        let y = vals[body[k - 1].id() as int];
        assert(x * y > 0) by (nonlinear_arith)
            requires
                x > 0,
                y > 0,
        ;
    }
}

proof fn lemma_derivation_sum_at_least(p: PositiveBagProgram, live: Seq<bool>, vals: Seq<nat>, a: int, r: int, r0: int)
    requires
        0 <= r0 < r,
    ensures
        derivation_sum(p, live, vals, a, r) >= rule_yield(p, live, vals, a, r0),
    decreases r,
{
    if r - 1 > r0 {
        lemma_derivation_sum_at_least(p, live, vals, a, r - 1, r0);
    }
}

/// A derivable atom has a nonzero multiplicity: it is infinite, or its finite
/// count is positive. With `lemma_underivable_atoms_are_zero`, an atom is in
/// the support exactly when its multiplicity is not zero.
pub proof fn lemma_derivable_atoms_are_nonzero(p: PositiveBagProgram, live: Seq<bool>, m: Seq<NaturalInfinity>, a: int)
    requires
        p.wf(),
        is_bag_support(p, live),
        is_bag_solution(p, live, m),
        0 <= a < p.spec_atom_count(),
        live[a],
    ensures
        m[a] is Infinite || finite_value(m[a]) > 0,
{
    let n = p.spec_atom_count();
    let vals = multiplicity_values(m);
    let s = Set::new(|x: int| !(0 <= x < n) || (live[x] && (m[x] is Infinite || finite_value(m[x]) > 0)));
    assert(bag_support_closed(p, s)) by {
        assert forall|x: int| 0 <= x < n && #[trigger] p.spec_seeds()[x] != 0 implies s.contains(x) by {
            assert forall|t: Set<int>| #[trigger] bag_support_closed(p, t) implies t.contains(x) by {}
            assert(in_bag_support(p, x));
            assert(live[x]);
            if m[x] is Finite {
                assert(bag_equation(p, live, vals, x));
                assert(vals[x] == finite_value(m[x]));
            }
        }
        assert forall|r: int|
            0 <= r < p.spec_rules().len() && #[trigger] p.spec_rules()[r].coefficient != 0
                && (forall|k: int| 0 <= k < p.spec_rules()[r].body@.len() ==> s.contains(#[trigger] p.spec_rules()[r].body@[k].id() as int))
            implies s.contains(p.spec_rules()[r].head.id() as int) by {
            let rule = p.spec_rules()[r];
            let h = rule.head.id() as int;
            assert(bag_rules_below(p.spec_rules(), n));
            assert(h < n);
            assert forall|k: int| 0 <= k < rule.body@.len() implies live[#[trigger] rule.body@[k].id() as int] by {
                assert(s.contains(rule.body@[k].id() as int));
                assert(rule.body@[k].id() < n);
            }
            assert forall|t: Set<int>| #[trigger] bag_support_closed(p, t) implies t.contains(h) by {
                assert forall|k: int| 0 <= k < rule.body@.len() implies t.contains(#[trigger] rule.body@[k].id() as int) by {
                    let b = rule.body@[k].id() as int;
                    assert(live[b]);
                    assert(in_bag_support(p, b));
                }
            }
            assert(in_bag_support(p, h));
            assert(live[h]);
            if m[h] is Finite {
                assert(rule_active(p, live, r));
                assert forall|j: int| 0 <= j < rule.body@.len() implies vals[#[trigger] rule.body@[j].id() as int] > 0 by {
                    let b = rule.body@[j].id() as int;
                    assert(feeds(p, live, h, r, j));
                    assert(m[b] is Finite);
                    assert(s.contains(b));
                    assert(b < n);
                }
                lemma_body_product_positive(rule.body@, vals, rule.body@.len() as int);
                let prod = body_product(rule.body@, vals, rule.body@.len() as int);
                let c = rule.coefficient as nat;
                assert(c * prod > 0) by (nonlinear_arith)
                    requires
                        c > 0,
                        prod > 0,
                ;
                lemma_derivation_sum_at_least(p, live, vals, h, p.spec_rules().len() as int, r);
                assert(bag_equation(p, live, vals, h));
                assert(vals[h] == finite_value(m[h]));
            }
        }
    }
    assert(in_bag_support(p, a));
    assert(s.contains(a));
}

/// Infinity propagates downstream: the head of an active rule with an infinite premise is infinite.
pub proof fn lemma_infinity_propagates(p: PositiveBagProgram, live: Seq<bool>, m: Seq<NaturalInfinity>, r: int, k: int)
    requires
        p.wf(),
        live.len() == p.spec_atom_count(),
        is_bag_solution(p, live, m),
        0 <= r < p.spec_rules().len(),
        rule_active(p, live, r),
        0 <= k < p.spec_rules()[r].body@.len(),
        m[p.spec_rules()[r].body@[k].id() as int] is Infinite,
    ensures
        m[p.spec_rules()[r].head.id() as int] is Infinite,
{
    let u = p.spec_rules()[r].body@[k].id() as int;
    let v = p.spec_rules()[r].head.id() as int;
    assert(v < p.spec_atom_count());
    assert(atoms_below(p.spec_rules()[r].body@, p.spec_atom_count()));
    assert(u < p.spec_atom_count());
    assert(m[u] is Infinite);
    assert(dep_edge(p, live, u, v)) by {
        assert(p.spec_rules()[r].body@[k] == p.spec_rules()[r].body@[k]);
    }
    assert(dependency_edges(p, live)(u, v));
    lemma_below_cycle_step(dependency_edges(p, live), u, v);
    assert(m[v] is Infinite);
}

/// A live atom on a dependency cycle is infinite.
pub proof fn lemma_productive_cycle_is_infinite(p: PositiveBagProgram, live: Seq<bool>, m: Seq<NaturalInfinity>, c: int)
    requires
        is_bag_solution(p, live, m),
        0 <= c < p.spec_atom_count(),
        live[c],
        on_cycle(dependency_edges(p, live), c),
    ensures
        m[c] is Infinite,
{
    lemma_on_cycle_below(dependency_edges(p, live), c);
    assert(m[c] is Infinite);
}

/// A well-formed chunk list: chunks below the base, no zero chunk on top.
pub open spec fn chunks_canonical(s: Seq<u32>) -> bool {
    &&& chunks_below_base(s)
    &&& s.len() > 0 ==> s.last() != 0
}

proof fn lemma_digit_split_unique(a: int, x: int, c: int, y: int)
    requires
        0 <= a < 1_000_000_000,
        0 <= c < 1_000_000_000,
        x >= 0,
        y >= 0,
        a + 1_000_000_000 * x == c + 1_000_000_000 * y,
    ensures
        a == c,
        x == y,
{
    assert(a == c && x == y) by (nonlinear_arith)
        requires
            0 <= a < 1_000_000_000,
            0 <= c < 1_000_000_000,
            a + 1_000_000_000 * x == c + 1_000_000_000 * y,
    ;
}

/// Canonical chunk lists denote each number once.
pub proof fn lemma_chunks_canonical(s: Seq<u32>, t: Seq<u32>)
    requires
        chunks_canonical(s),
        chunks_canonical(t),
        chunks_value(s) == chunks_value(t),
    ensures
        s == t,
    decreases s.len(),
{
    if s.len() == 0 || t.len() == 0 {
        if s.len() > 0 {
            lemma_chunks_lower_bound(s);
            lemma_chunk_pow_positive((s.len() - 1) as nat);
        }
        if t.len() > 0 {
            lemma_chunks_lower_bound(t);
            lemma_chunk_pow_positive((t.len() - 1) as nat);
        }
        assert(s =~= t);
    } else {
        lemma_chunks_first(s);
        lemma_chunks_first(t);
        let s1 = s.subrange(1, s.len() as int);
        let t1 = t.subrange(1, t.len() as int);
        assert(s[0] < chunk_base());
        assert(t[0] < chunk_base());
        lemma_digit_split_unique(s[0] as int, chunks_value(s1) as int, t[0] as int, chunks_value(t1) as int);
        assert(chunks_canonical(s1)) by {
            assert forall|i: int| 0 <= i < s1.len() implies s1[i] < chunk_base() by {
                assert(s1[i] == s[i + 1]);
            }
            if s1.len() > 0 {
                assert(s1.last() == s.last());
            }
        }
        assert(chunks_canonical(t1)) by {
            assert forall|i: int| 0 <= i < t1.len() implies t1[i] < chunk_base() by {
                assert(t1[i] == t[i + 1]);
            }
            if t1.len() > 0 {
                assert(t1.last() == t.last());
            }
        }
        lemma_chunks_canonical(s1, t1);
        assert(s =~= seq![s[0]] + s1);
        assert(t =~= seq![t[0]] + t1);
    }
}

/// Two bag solutions over the same support agree: the same atoms are
/// infinite, and every finite atom has the same value in both.
pub proof fn lemma_bag_solution_unique(p: PositiveBagProgram, live: Seq<bool>, m1: Seq<NaturalInfinity>, m2: Seq<NaturalInfinity>)
    requires
        p.wf(),
        live.len() == p.spec_atom_count(),
        is_bag_solution(p, live, m1),
        is_bag_solution(p, live, m2),
    ensures
        forall|a: int| 0 <= a < m1.len() ==> (#[trigger] m1[a] is Infinite <==> m2[a] is Infinite),
        forall|a: int| 0 <= a < m1.len() && #[trigger] m1[a] is Finite ==> finite_value(m1[a]) == finite_value(m2[a]),
{
    let n = p.spec_atom_count() as int;
    let v1 = multiplicity_values(m1);
    let v2 = multiplicity_values(m2);
    let e = dependency_edges(p, live);
    assert forall|a: int| 0 <= a < m1.len() implies (#[trigger] m1[a] is Infinite <==> m2[a] is Infinite) by {
        let _ = m2[a];
    }
    let bad = |a: int| 0 <= a < n && m1[a] is Finite && v1[a] != v2[a];
    assert forall|w: int| 0 <= w < n && #[trigger] bad(w) implies exists|u: int| 0 <= u < n && bad(u) && #[trigger] e(u, w) by {
        let _ = m2[w];
        assert(m2[w] is Finite);
        assert(bag_equation(p, live, v1, w));
        assert(bag_equation(p, live, v2, w));
        if !(exists|q: int, k: int| #[trigger] feeds(p, live, w, q, k) && v1[p.spec_rules()[q].body@[k].id() as int] != v2[p.spec_rules()[q].body@[k].id() as int]) {
            lemma_derivation_sum_frame(p, live, v1, v2, w, p.spec_rules().len() as int);
            assert(v1[w] == v2[w]);
        }
        let (q, k) = choose|q: int, k: int| #[trigger] feeds(p, live, w, q, k) && v1[p.spec_rules()[q].body@[k].id() as int] != v2[p.spec_rules()[q].body@[k].id() as int];
        let b = p.spec_rules()[q].body@[k].id() as int;
        assert(p.spec_rules()[q].head.id() < p.spec_atom_count());
        assert(atoms_below(p.spec_rules()[q].body@, p.spec_atom_count()));
        assert(0 <= b < n);
        assert(m1[b] is Finite);
        assert(bad(b));
        assert(dep_edge_upto(p, live, b, w, p.spec_rules().len() as int)) by {
            assert(0 <= q < p.spec_rules().len() && 0 <= k < p.spec_rules()[q].body@.len() && rule_active(p, live, q)
                && p.spec_rules()[q].body@[k].id() == b && p.spec_rules()[q].head.id() == w);
        }
        assert(e(b, w));
    }
    assert forall|a: int| 0 <= a < m1.len() && #[trigger] m1[a] is Finite implies finite_value(m1[a]) == finite_value(m2[a]) by {
        let _ = m2[a];
        if v1[a] != v2[a] {
            assert(bad(a));
            lemma_bad_below_cycle_rel(e, n, bad, a);
            assert(bag_equation(p, live, v1, a));
            assert(bag_equation(p, live, v2, a));
            if !live[a] {
                assert forall|q: int| 0 <= q < p.spec_rules().len() implies !(rule_active(p, live, q) && #[trigger] p.spec_rules()[q].head.id() == a) by {}
                lemma_derivation_sum_none(p, live, v1, a, p.spec_rules().len() as int);
                lemma_derivation_sum_none(p, live, v2, a, p.spec_rules().len() as int);
            }
        }
    }
}

/// A grounded certificate valid for one support program of `p` is valid for every support program of `p`.
/// Two support programs of `p` are the same program.
pub proof fn lemma_support_programs_agree(p: PositiveBagProgram, gp1: GroundedProgram, gp2: GroundedProgram)
    requires
        p.wf(),
        support_of(p, gp1),
        support_of(p, gp2),
    ensures
        same_view(gp1, gp2),
{
    assert forall|a: GroundedAtomId| gp1.spec_seeds().contains(a) <==> gp2.spec_seeds().contains(a) by {}
    lemma_sorted_same_atoms_equal(gp1.spec_seeds(), gp2.spec_seeds());
    assert forall|j: int| 0 <= j < gp1.spec_rules().len() implies {
        &&& (#[trigger] gp1.spec_rules()[j]).spec_body() == gp2.spec_rules()[j].spec_body()
        &&& gp1.spec_rules()[j].spec_head() == gp2.spec_rules()[j].spec_head()
        &&& gp1.spec_rules()[j].spec_enabled() == gp2.spec_rules()[j].spec_enabled()
    } by {
        let nz = nonzero_rules(p.spec_rules());
        assert(gp1.spec_rules()[j].spec_enabled() && gp2.spec_rules()[j].spec_enabled());
        assert(same_atoms(gp1.spec_rules()[j].spec_body(), nz[j].body@));
        assert(same_atoms(gp2.spec_rules()[j].spec_body(), nz[j].body@));
        assert(strictly_sorted(gp1.spec_rules()[j].spec_body()));
        assert(strictly_sorted(gp2.spec_rules()[j].spec_body()));
        lemma_sorted_same_atoms_equal(gp1.spec_rules()[j].spec_body(), gp2.spec_rules()[j].spec_body());
    }
}

/// The support program of `p`.
pub open spec fn support_program_of(p: PositiveBagProgram) -> GroundedProgram {
    choose|gp: GroundedProgram| support_of(p, gp)
}

pub proof fn lemma_support_certificate_transfer(p: PositiveBagProgram, gp1: GroundedProgram, gp2: GroundedProgram, c: GroundedCertificate)
    requires
        p.wf(),
        support_of(p, gp1),
        support_of(p, gp2),
        cert_valid(gp1, c),
    ensures
        cert_valid(gp2, c),
{
    let nz = nonzero_rules(p.spec_rules());
    let n = p.spec_atom_count() as int;
    assert forall|i: int| 0 <= i < n implies gp1.is_seed(i) ==> gp2.is_seed(i) by {
        if gp1.is_seed(i) {
            let k = choose|k: int| 0 <= k < gp1.spec_seeds().len() && #[trigger] gp1.spec_seeds()[k].id() == i;
            let a = gp1.spec_seeds()[k];
            assert(gp1.spec_seeds().contains(a));
            assert(gp2.spec_seeds().contains(a));
            let k2 = choose|k2: int| 0 <= k2 < gp2.spec_seeds().len() && gp2.spec_seeds()[k2] == a;
            assert(gp2.spec_seeds()[k2].id() == i);
        }
    }
    assert forall|j: int| 0 <= j < gp2.spec_rules().len() implies
        #[trigger] gp2.spec_rules()[j].spec_head() == gp1.spec_rules()[j].spec_head()
            && gp2.spec_rules()[j].spec_enabled() && gp1.spec_rules()[j].spec_enabled()
            && same_atoms(gp2.spec_rules()[j].spec_body(), gp1.spec_rules()[j].spec_body()) by {
        assert(gp1.spec_rules()[j].spec_enabled());
        assert(gp2.spec_rules()[j].spec_enabled());
    }
    assert forall|i: int| 0 <= i < gp2.spec_atom_count() implies #[trigger] atom_justified(gp2, c, i) by {
        assert(atom_justified(gp1, c, i));
        if c.spec_live()[i] {
            match (c.spec_rank()[i], c.spec_witness()[i]) {
                (Some(r), Some(GroundedWitness::Rule(rid))) => {
                    let j = rid.id() as int;
                    let r1 = gp1.spec_rules()[j];
                    let r2 = gp2.spec_rules()[j];
                    assert(gp1.spec_rules().len() == nz.len() && gp2.spec_rules().len() == nz.len());
                    assert(gp2.spec_rules()[j].spec_head() == gp1.spec_rules()[j].spec_head());
                    assert(same_atoms(r2.spec_body(), r1.spec_body()));
                    assert forall|k: int| 0 <= k < r2.spec_body().len() implies {
                        let q = #[trigger] r2.spec_body()[k].id() as int;
                        &&& c.spec_live()[q]
                        &&& c.spec_rank()[q] matches Some(pr) && pr < r
                    } by {
                        let x = r2.spec_body()[k];
                        assert(r2.spec_body().contains(x));
                        assert(r1.spec_body().contains(x));
                        let k1 = choose|k1: int| 0 <= k1 < r1.spec_body().len() && r1.spec_body()[k1] == x;
                        assert(r1.spec_body()[k1].id() == x.id());
                    }
                },
                _ => {},
            }
        }
    }
    assert forall|k: int| 0 <= k < gp2.spec_seeds().len() implies c.spec_live()[#[trigger] gp2.spec_seeds()[k].id() as int] by {
        let a = gp2.spec_seeds()[k];
        assert(gp2.spec_seeds().contains(a));
        assert(gp1.spec_seeds().contains(a));
        let k1 = choose|k1: int| 0 <= k1 < gp1.spec_seeds().len() && gp1.spec_seeds()[k1] == a;
        assert(c.spec_live()[gp1.spec_seeds()[k1].id() as int]);
    }
    assert forall|r: int| 0 <= r < gp2.spec_rules().len() && #[trigger] gp2.spec_rules()[r].spec_enabled()
        && body_live(gp2.spec_rules()[r], c.spec_live()) implies c.spec_live()[gp2.spec_rules()[r].spec_head().id() as int] by {
        let r1 = gp1.spec_rules()[r];
        let r2 = gp2.spec_rules()[r];
        assert(gp1.spec_rules()[r].spec_enabled());
        assert(body_live(r1, c.spec_live())) by {
            assert forall|k: int| 0 <= k < r1.spec_body().len() implies c.spec_live()[#[trigger] r1.spec_body()[k].id() as int] by {
                let x = r1.spec_body()[k];
                assert(r1.spec_body().contains(x));
                assert(r2.spec_body().contains(x));
                let k2 = choose|k2: int| 0 <= k2 < r2.spec_body().len() && r2.spec_body()[k2] == x;
                assert(c.spec_live()[r2.spec_body()[k2].id() as int]);
            }
        }
    }
}

} // verus!






