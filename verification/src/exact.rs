//! Exact arbitrary-precision naturals and integers (little-endian 64-bit limbs).

use std::cmp::Ordering;
use vstd::prelude::*;
use vstd::arithmetic::div_mod::{lemma_div_denominator, lemma_fundamental_div_mod_converse, lemma_mod_breakdown};
use vstd::arithmetic::power2::{lemma2_to64, lemma_pow2_adds, lemma_pow2_pos, lemma_pow2_strictly_increases, lemma_pow2_unfold, pow2};
use vstd::bits::{low_bits_mask, lemma_u128_shr_is_div, lemma_u64_low_bits_mask_is_mod, lemma_u64_pow2_no_overflow, lemma_u64_shl_is_mul, lemma_u64_shr_is_div};
use vstd::std_specs::bits::u64_leading_zeros;
use crate::decimal::{chunk_base, chunk_pow, chunks_value, decimal_digits, decimal_string_of_chunks};

verus! {

/// The limb base, 2^64.
pub open spec fn limb_base() -> nat {
    0x1_0000_0000_0000_0000
}

/// `limb_base()` to the power `k`.
pub open spec fn base_pow(k: nat) -> nat
    decreases k,
{
    if k == 0 {
        1
    } else {
        limb_base() * base_pow((k - 1) as nat)
    }
}

/// The number denoted by little-endian limbs.
pub open spec fn limbs_value(s: Seq<u64>) -> nat
    decreases s.len(),
{
    if s.len() == 0 {
        0
    } else {
        limbs_value(s.drop_last()) + (s.last() as nat) * base_pow((s.len() - 1) as nat)
    }
}

/// No most-significant zero limb.
pub open spec fn normalized(s: Seq<u64>) -> bool {
    s.len() == 0 || s.last() != 0
}

pub proof fn lemma_base_pow_positive(k: nat)
    ensures
        base_pow(k) >= 1,
    decreases k,
{
    if k > 0 {
        lemma_base_pow_positive((k - 1) as nat);
        assert(limb_base() * base_pow((k - 1) as nat) >= base_pow((k - 1) as nat)) by (nonlinear_arith)
            requires
                base_pow((k - 1) as nat) >= 1,
        ;
    }
}

pub proof fn lemma_base_pow_add(a: nat, b: nat)
    ensures
        base_pow(a + b) == base_pow(a) * base_pow(b),
    decreases a,
{
    if a == 0 {
        assert(base_pow(0) == 1);
        assert(a + b == b);
    } else {
        lemma_base_pow_add((a - 1) as nat, b);
        assert(base_pow(a + b) == limb_base() * base_pow((a - 1 + b) as nat));
        assert(base_pow(a) == limb_base() * base_pow((a - 1) as nat));
        assert(limb_base() * (base_pow((a - 1) as nat) * base_pow(b)) == (limb_base() * base_pow((a - 1) as nat)) * base_pow(b)) by (nonlinear_arith);
        assert((a - 1 + b) as nat == (a + b - 1) as nat);
    }
}

pub proof fn lemma_base_pow_monotone(a: nat, b: nat)
    requires
        a <= b,
    ensures
        base_pow(a) <= base_pow(b),
    decreases b,
{
    if a < b {
        lemma_base_pow_monotone(a, (b - 1) as nat);
        lemma_base_pow_positive((b - 1) as nat);
        assert(limb_base() * base_pow((b - 1) as nat) >= base_pow((b - 1) as nat)) by (nonlinear_arith)
            requires
                base_pow((b - 1) as nat) >= 1,
        ;
    }
}

/// Adding limb `x` at the top multiplies it by the base power of the position.
pub proof fn lemma_value_push(s: Seq<u64>, x: u64)
    ensures
        limbs_value(s.push(x)) == limbs_value(s) + x * base_pow(s.len()),
{
    assert(s.push(x).drop_last() =~= s);
}

pub proof fn lemma_value_drop_zero(s: Seq<u64>)
    requires
        s.len() > 0,
        s.last() == 0,
    ensures
        limbs_value(s) == limbs_value(s.drop_last()),
{
    assert(limbs_value(s) == limbs_value(s.drop_last()) + (s.last() as nat) * base_pow((s.len() - 1) as nat));
}

pub proof fn lemma_value_one_limb(x: u64)
    ensures
        limbs_value(seq![x]) == x,
{
    let s = seq![x];
    assert(s.drop_last() =~= Seq::<u64>::empty());
    assert(base_pow(0) == 1);
    assert(s.len() == 1);
    assert(s.last() == x);
    assert(limbs_value(Seq::<u64>::empty()) == 0);
    assert((s.len() - 1) as nat == 0nat);
    assert(base_pow((s.len() - 1) as nat) == 1);
    assert(limbs_value(s) == limbs_value(s.drop_last()) + (s.last() as nat) * base_pow((s.len() - 1) as nat));
    assert((x as nat) * 1 == x);
    assert(limbs_value(s) == x);
}

pub proof fn lemma_value_two_limbs(x: u64, y: u64)
    ensures
        limbs_value(seq![x, y]) == x + y * limb_base(),
{
    assert(seq![x, y].drop_last() =~= seq![x]);
    lemma_value_one_limb(x);
    assert(base_pow(1) == limb_base() * base_pow(0));
    assert(base_pow(0) == 1);
}

/// The value of a prefix grows by the next limb times its weight.
pub proof fn lemma_value_prefix(s: Seq<u64>, i: int)
    requires
        0 <= i < s.len(),
    ensures
        limbs_value(s.subrange(0, i + 1)) == limbs_value(s.subrange(0, i)) + s[i] * base_pow(i as nat),
{
    assert(s.subrange(0, i + 1) =~= s.subrange(0, i).push(s[i]));
    lemma_value_push(s.subrange(0, i), s[i]);
}

/// The value fits below the base raised to the number of limbs.
pub proof fn lemma_value_bound(s: Seq<u64>)
    ensures
        limbs_value(s) < base_pow(s.len()),
    decreases s.len(),
{
    if s.len() > 0 {
        let rest = s.drop_last();
        lemma_value_bound(rest);
        let p = base_pow(rest.len());
        assert(limbs_value(s) == limbs_value(rest) + s.last() * p);
        assert(base_pow(s.len()) == limb_base() * p);
        assert(limbs_value(rest) + s.last() * p < limb_base() * p) by (nonlinear_arith)
            requires
                limbs_value(rest) < p,
                s.last() < limb_base(),
        ;
    }
}

/// Splitting limbs at `k`: low part plus the high part shifted by `k` limbs.
#[verifier::spinoff_prover]
pub proof fn lemma_value_split(s: Seq<u64>, k: int)
    requires
        0 <= k <= s.len(),
    ensures
        limbs_value(s) == limbs_value(s.subrange(0, k)) + base_pow(k as nat) * limbs_value(s.subrange(k, s.len() as int)),
    decreases s.len(),
{
    if k == s.len() {
        assert(s.subrange(0, k) =~= s);
        assert(s.subrange(k, s.len() as int) =~= Seq::<u64>::empty());
        assert(limbs_value(Seq::<u64>::empty()) == 0);
    } else {
        let rest = s.drop_last();
        lemma_value_split(rest, k);
        let hi = s.subrange(k, s.len() as int);
        assert(hi.drop_last() =~= rest.subrange(k, rest.len() as int));
        assert(rest.subrange(0, k) =~= s.subrange(0, k));
        assert(hi.last() == s.last());
        lemma_base_pow_add(k as nat, (hi.len() - 1) as nat);
        let a = limbs_value(rest.subrange(k, rest.len() as int));
        let l = s.last() as nat;
        let ph = base_pow((hi.len() - 1) as nat);
        let pk = base_pow(k as nat);
        assert(limbs_value(hi) == a + l * ph);
        assert(limbs_value(s) == limbs_value(rest) + l * base_pow((s.len() - 1) as nat));
        assert((s.len() - 1) as nat == k as nat + (hi.len() - 1) as nat);
        assert(base_pow((s.len() - 1) as nat) == pk * ph);
        assert(limbs_value(rest) == limbs_value(s.subrange(0, k)) + pk * a);
        assert(pk * (a + l * ph) == pk * a + l * (pk * ph)) by (nonlinear_arith);
        assert(limbs_value(s) == limbs_value(s.subrange(0, k)) + pk * a + l * (pk * ph));
        assert(limbs_value(s) == limbs_value(s.subrange(0, k)) + pk * limbs_value(hi));
    }
}

/// Trailing zero limbs do not change the value.
pub proof fn lemma_value_zero_top(s: Seq<u64>, k: int)
    requires
        0 <= k <= s.len(),
        forall|j: int| k <= j < s.len() ==> s[j] == 0,
    ensures
        limbs_value(s) == limbs_value(s.subrange(0, k)),
    decreases s.len() - k,
{
    if k == s.len() {
        assert(s.subrange(0, k) =~= s);
    } else {
        let rest = s.drop_last();
        assert(rest.len() >= k);
        assert forall|j: int| k <= j < rest.len() implies rest[j] == 0 by {
            assert(rest[j] == s[j]);
        }
        lemma_value_zero_top(rest, k);
        assert(rest.subrange(0, k) =~= s.subrange(0, k));
        assert(s.last() == 0);
        assert(limbs_value(s) == limbs_value(rest) + (s.last() as nat) * base_pow((s.len() - 1) as nat));
    }
}

/// A normalized non-empty limb sequence is at least the weight of its top limb.
pub proof fn lemma_normalized_lower_bound(s: Seq<u64>)
    requires
        normalized(s),
        s.len() > 0,
    ensures
        limbs_value(s) >= base_pow((s.len() - 1) as nat),
{
    let p = base_pow((s.len() - 1) as nat);
    assert(s.last() * p >= p) by (nonlinear_arith)
        requires
            s.last() >= 1,
    ;
}

pub proof fn lemma_normalized_zero(s: Seq<u64>)
    requires
        normalized(s),
    ensures
        limbs_value(s) == 0 <==> s.len() == 0,
{
    if s.len() > 0 {
        lemma_normalized_lower_bound(s);
        lemma_base_pow_positive((s.len() - 1) as nat);
    }
}

/// A limb sequence whose value reaches the weight of its top position has a non-zero top limb.
pub proof fn lemma_top_nonzero(s: Seq<u64>)
    requires
        s.len() > 0,
        limbs_value(s) >= base_pow((s.len() - 1) as nat),
    ensures
        s.last() != 0,
{
    if s.last() == 0 {
        lemma_value_drop_zero(s);
        lemma_value_bound(s.drop_last());
    }
}

/// Digit arithmetic: `x` splits into its low limb and its carry.
pub proof fn lemma_split_digit(x: int, p: int)
    requires
        x >= 0,
        p >= 0,
    ensures
        (x % (limb_base() as int)) * p + (x / (limb_base() as int)) * ((limb_base() as int) * p) == x * p,
{
    let b = limb_base() as int;
    assert(x == (x / b) * b + x % b) by (nonlinear_arith)
        requires
            b > 0,
    ;
    assert((x % b) * p + (x / b) * (b * p) == ((x / b) * b + x % b) * p) by (nonlinear_arith);
}

/// Limbs of `s`, then zeros up to length `n`.
pub open spec fn padded(s: Seq<u64>, n: nat) -> Seq<u64> {
    Seq::new(n, |j: int| if j < s.len() { s[j] } else { 0u64 })
}

pub proof fn lemma_padded_value(s: Seq<u64>, n: nat)
    requires
        s.len() <= n,
    ensures
        limbs_value(padded(s, n)) == limbs_value(s),
{
    let p = padded(s, n);
    lemma_value_zero_top(p, s.len() as int);
    assert(p.subrange(0, s.len() as int) =~= s);
}

/// Replacing limb `i` changes the value by the difference at weight `i`.
pub proof fn lemma_value_update(s: Seq<u64>, i: int, x: u64)
    requires
        0 <= i < s.len(),
    ensures
        limbs_value(s.update(i, x)) + (s[i] as nat) * base_pow(i as nat) == limbs_value(s) + (x as nat) * base_pow(i as nat),
{
    let u = s.update(i, x);
    lemma_value_split(s, i);
    lemma_value_split(u, i);
    assert(u.subrange(0, i) =~= s.subrange(0, i));
    let hs = s.subrange(i, s.len() as int);
    let hu = u.subrange(i, u.len() as int);
    lemma_value_split(hs, 1);
    lemma_value_split(hu, 1);
    assert(hs.subrange(1, hs.len() as int) =~= hu.subrange(1, hu.len() as int));
    assert(hs.subrange(0, 1) =~= seq![s[i]]);
    assert(hu.subrange(0, 1) =~= seq![x]);
    lemma_value_one_limb(s[i]);
    lemma_value_one_limb(x);
    assert(base_pow(1) == limb_base() * base_pow(0));
    assert(base_pow(0) == 1);
    let p = base_pow(i as nat);
    let rest = limbs_value(hs.subrange(1, hs.len() as int));
    assert(p * (s[i] + limb_base() * rest) + (x as nat) * p == p * (x + limb_base() * rest) + (s[i] as nat) * p) by (nonlinear_arith);
}


/// Equal-length limbs that agree above position `j` and differ at `j` are ordered by that limb.
pub proof fn lemma_value_order_at(a: Seq<u64>, b: Seq<u64>, j: int)
    requires
        a.len() == b.len(),
        0 <= j < a.len(),
        a.subrange(j + 1, a.len() as int) == b.subrange(j + 1, b.len() as int),
        a[j] < b[j],
    ensures
        limbs_value(a) < limbs_value(b),
{
    lemma_value_split(a, j + 1);
    lemma_value_split(b, j + 1);
    lemma_value_prefix(a, j);
    lemma_value_prefix(b, j);
    lemma_value_bound(a.subrange(0, j));
    let p = base_pow(j as nat);
    let va = limbs_value(a.subrange(0, j));
    let vb = limbs_value(b.subrange(0, j));
    assert(a.subrange(0, j).len() == j);
    assert(va + (a[j] as nat) * p < (b[j] as nat) * p) by (nonlinear_arith)
        requires
            va < p,
            a[j] + 1 <= b[j],
    ;
}

/// Normalized limbs with fewer limbs denote a smaller number.
pub proof fn lemma_value_order_by_len(a: Seq<u64>, b: Seq<u64>)
    requires
        normalized(b),
        a.len() < b.len(),
    ensures
        limbs_value(a) < limbs_value(b),
{
    lemma_value_bound(a);
    lemma_base_pow_monotone(a.len(), (b.len() - 1) as nat);
    lemma_normalized_lower_bound(b);
}


/// Number of binary digits of `v`; zero has none.
pub open spec fn bit_width(v: nat) -> nat
    decreases v,
{
    if v == 0 {
        0
    } else {
        1 + bit_width(v / 2)
    }
}

/// `v` has at most `k` binary digits exactly when it is below `2^k`.
pub proof fn lemma_bit_width_bound(v: nat, k: nat)
    ensures
        bit_width(v) <= k <==> v < pow2(k),
    decreases k,
{
    lemma_pow2_pos(k);
    if v == 0 {
    } else if k == 0 {
        lemma2_to64();
    } else {
        lemma_bit_width_bound(v / 2, (k - 1) as nat);
        lemma_pow2_unfold(k);
    }
}

/// The width of a word is what its leading zeros leave.
pub proof fn lemma_u64_bit_width(x: u64)
    ensures
        bit_width(x as nat) == 64 - u64_leading_zeros(x),
    decreases x,
{
    reveal(u64_leading_zeros);
    if x > 0 {
        lemma_u64_bit_width(x / 2);
    }
}

/// A limb position's weight is a power of two.
pub proof fn lemma_base_pow_is_pow2(k: nat)
    ensures
        base_pow(k) == pow2(64 * k),
    decreases k,
{
    lemma2_to64();
    if k > 0 {
        lemma_base_pow_is_pow2((k - 1) as nat);
        lemma_pow2_adds(64, (64 * (k - 1)) as nat);
        assert(64 * k == 64 + 64 * (k - 1));
    }
}

/// Dividing by a base power keeps the limbs at and above that position; the remainder keeps those below.
pub proof fn lemma_value_div_mod_base(s: Seq<u64>, l: int)
    requires
        0 <= l <= s.len(),
    ensures
        limbs_value(s) / base_pow(l as nat) == limbs_value(s.subrange(l, s.len() as int)),
        limbs_value(s) % base_pow(l as nat) == limbs_value(s.subrange(0, l)),
{
    lemma_value_split(s, l);
    lemma_value_bound(s.subrange(0, l));
    lemma_base_pow_positive(l as nat);
    let p = base_pow(l as nat) as int;
    let h = limbs_value(s.subrange(l, s.len() as int)) as int;
    let r = limbs_value(s.subrange(0, l)) as int;
    assert(p * h == h * p) by (nonlinear_arith);
    lemma_fundamental_div_mod_converse(limbs_value(s) as int, p, h, r);
}

/// The lowest limb, then the rest one position up.
pub proof fn lemma_value_first(s: Seq<u64>)
    requires
        s.len() > 0,
    ensures
        limbs_value(s) == s[0] + limb_base() * limbs_value(s.subrange(1, s.len() as int)),
{
    lemma_value_split(s, 1);
    assert(s.subrange(0, 1) =~= seq![s[0]]);
    lemma_value_one_limb(s[0]);
    assert(base_pow(1) == limb_base() * base_pow(0));
    assert(base_pow(0) == 1);
}

/// A number is zero exactly when all its limbs are.
pub proof fn lemma_value_zero_iff(s: Seq<u64>)
    ensures
        limbs_value(s) == 0 <==> forall|i: int| 0 <= i < s.len() ==> s[i] == 0,
    decreases s.len(),
{
    if s.len() > 0 {
        let rest = s.drop_last();
        lemma_value_zero_iff(rest);
        lemma_base_pow_positive((s.len() - 1) as nat);
        let p = base_pow((s.len() - 1) as nat);
        assert((s.last() as nat) * p == 0 <==> s.last() == 0) by (nonlinear_arith)
            requires
                p >= 1,
        ;
        if limbs_value(s) == 0 {
            assert forall|i: int| 0 <= i < s.len() implies s[i] == 0 by {
                if i < s.len() - 1 {
                    assert(rest[i] == s[i]);
                }
            }
        }
        if forall|i: int| 0 <= i < s.len() ==> s[i] == 0 {
            assert forall|i: int| 0 <= i < rest.len() implies rest[i] == 0 by {
                assert(rest[i] == s[i]);
            }
            assert(s.last() == s[s.len() - 1]);
        }
    }
}

/// Adding a multiple of `p` leaves the remainder modulo `p` alone.
pub proof fn lemma_mod_plus_multiple(q: int, p: int, k: int)
    requires
        p > 0,
        q >= 0,
        k >= 0,
    ensures
        (q + p * k) % p == q % p,
{
    assert(q == (q / p) * p + q % p) by (nonlinear_arith)
        requires
            p > 0,
    ;
    assert(q + p * k == (q / p + k) * p + q % p) by (nonlinear_arith)
        requires
            q == (q / p) * p + q % p,
    ;
    assert(0 <= q % p < p) by (nonlinear_arith)
        requires
            p > 0,
    ;
    lemma_fundamental_div_mod_converse(q + p * k, p, q / p + k, q % p);
}

/// Shifting right by `b` bits past a multiple of `2^k` (with `b <= k`) splits exactly.
pub proof fn lemma_div_pow2_split(x: nat, w: nat, b: nat, k: nat)
    requires
        b <= k,
    ensures
        (x + pow2(k) * w) / pow2(b) == x / pow2(b) + pow2((k - b) as nat) * w,
{
    lemma_pow2_pos(b);
    lemma_pow2_adds(b, (k - b) as nat);
    assert(b + (k - b) as nat == k);
    let d = pow2(b) as int;
    let m = pow2((k - b) as nat) as int;
    let xi = x as int;
    let wi = w as int;
    assert(xi == (xi / d) * d + xi % d) by (nonlinear_arith)
        requires
            d > 0,
    ;
    assert(0 <= xi % d < d) by (nonlinear_arith)
        requires
            d > 0,
    ;
    assert(xi + (d * m) * wi == (xi / d + m * wi) * d + xi % d) by (nonlinear_arith)
        requires
            xi == (xi / d) * d + xi % d,
    ;
    lemma_fundamental_div_mod_converse(xi + (d * m) * wi, d, xi / d + m * wi, xi % d);
}

/// Below-divisor numbers divide to zero.
pub proof fn lemma_small_div(x: nat, d: nat)
    requires
        x < d,
    ensures
        x / d == 0,
        x % d == x,
{
    lemma_fundamental_div_mod_converse(x as int, d as int, 0, x as int);
}

/// Adds `limb * value(right) * base^offset` into `result`, which has room for it.
fn add_scaled_row(result: &mut Vec<u64>, limb: u64, right: &[u64], offset: usize)
    requires
        offset + right@.len() < old(result)@.len(),
        limbs_value(old(result)@) + (limb as nat) * limbs_value(right@) * base_pow(offset as nat) < base_pow(old(result)@.len()),
    ensures
        final(result)@.len() == old(result)@.len(),
        limbs_value(final(result)@) == limbs_value(old(result)@) + (limb as nat) * limbs_value(right@) * base_pow(offset as nat),
{
    let ghost v0 = limbs_value(result@);
    let ghost po = base_pow(offset as nat);
    let ghost target = v0 + (limb as nat) * limbs_value(right@) * po;
    let len = result.len();
    proof {
        assert(right@.subrange(0, 0) =~= Seq::<u64>::empty());
        assert(limbs_value(Seq::<u64>::empty()) == 0);
        assert((limb as nat) * 0 * po == 0) by (nonlinear_arith);
    }
    let mut carry: u128 = 0;
    let mut j: usize = 0;
    while j < right.len()
        invariant
            j <= right@.len(),
            offset + right@.len() < len,
            result@.len() == len,
            carry < 0x1_0000_0000_0000_0000,
            po == base_pow(offset as nat),
            limbs_value(result@) + carry * base_pow((offset + j) as nat) == v0 + (limb as nat) * limbs_value(right@.subrange(0, j as int)) * po,
        decreases right@.len() - j,
    {
        let index = offset + j;
        let r = result[index];
        let rj = right[j];
        assert(limb as u128 * rj as u128 <= 0xFFFF_FFFF_FFFF_FFFE_0000_0000_0000_0001u128) by (nonlinear_arith)
            requires
                limb <= 0xFFFF_FFFF_FFFF_FFFFu64,
                rj <= 0xFFFF_FFFF_FFFF_FFFFu64,
        ;
        let product = limb as u128 * rj as u128 + r as u128 + carry;
        let ghost before = result@;
        let low = low_u64(product);
        result.set(index, low);
        let next = product / 0x1_0000_0000_0000_0000u128;
        proof {
            let p = base_pow(index as nat);
            lemma_value_update(before, index as int, low);
            lemma_split_digit(product as int, p as int);
            assert(base_pow((index + 1) as nat) == limb_base() * p);
            assert(next < 0x1_0000_0000_0000_0000) by (nonlinear_arith)
                requires
                    next == product / 0x1_0000_0000_0000_0000u128,
                    product <= 0xFFFF_FFFF_FFFF_FFFF_FFFF_FFFF_FFFF_FFFFu128,
            ;
            lemma_value_prefix(right@, j as int);
            lemma_base_pow_add(offset as nat, j as nat);
            let vr = limbs_value(right@.subrange(0, j as int));
            let pj = base_pow(j as nat);
            assert((limb as nat) * (vr + (rj as nat) * pj) * po == (limb as nat) * vr * po + ((limb as nat) * (rj as nat)) * (po * pj)) by (nonlinear_arith);
            assert((product as int) * p == ((limb as int) * (rj as int)) * p + (r as int) * p + (carry as int) * p) by (nonlinear_arith)
                requires
                    product as int == (limb as int) * (rj as int) + r as int + carry as int,
            ;
        }
        carry = next;
        j = j + 1;
    }
    assert(right@.subrange(0, right@.len() as int) =~= right@);
    let mut index = offset + right.len();
    while carry != 0
        invariant
            offset + right@.len() <= index <= result@.len(),
            result@.len() == len,
            carry < 0x1_0000_0000_0000_0000,
            limbs_value(result@) + carry * base_pow(index as nat) == target,
            target < base_pow(len as nat),
        decreases result@.len() - index,
    {
        proof {
            if index >= len {
                lemma_base_pow_monotone(len as nat, index as nat);
                assert(carry * base_pow(index as nat) >= base_pow(index as nat)) by (nonlinear_arith)
                    requires
                        carry >= 1,
                ;
            }
        }
        if index == result.len() {
            result.push(0);
        }
        let r = result[index];
        let sum = r as u128 + carry;
        let ghost before = result@;
        let low = low_u64(sum);
        result.set(index, low);
        let next = sum / 0x1_0000_0000_0000_0000u128;
        proof {
            let p = base_pow(index as nat);
            lemma_value_update(before, index as int, low);
            lemma_split_digit(sum as int, p as int);
            assert(base_pow((index + 1) as nat) == limb_base() * p);
            assert(next <= 1) by (nonlinear_arith)
                requires
                    next == sum / 0x1_0000_0000_0000_0000u128,
                    sum <= 0x1_0000_0000_0000_0000u128 * 2 - 2,
            ;
            assert((sum as int) * p == (r as int) * p + (carry as int) * p) by (nonlinear_arith)
                requires
                    sum as int == r as int + carry as int,
            ;
        }
        carry = next;
        index = index + 1;
    }
}


/// Whether some limb below `bound` is non-zero.
fn any_nonzero_limb(limbs: &Vec<u64>, bound: usize) -> (found: bool)
    requires
        bound <= limbs@.len(),
    ensures
        found <==> exists|j: int| 0 <= j < bound && limbs@[j] != 0,
{
    let mut i: usize = 0;
    while i < bound
        invariant
            i <= bound,
            bound <= limbs@.len(),
            forall|j: int| 0 <= j < i ==> limbs@[j] == 0,
        decreases bound - i,
    {
        if limbs[i] != 0 {
            return true;
        }
        i = i + 1;
    }
    false
}

/// Exact non-negative integer used as the coefficient domain for finite measures.
#[derive(Debug, PartialEq, Eq)]
pub struct ExactNatural {
    limbs: Vec<u64>,
}

fn copy_limbs(limbs: &Vec<u64>) -> (copy: Vec<u64>)
    ensures
        copy@ == limbs@,
{
    let mut copy: Vec<u64> = Vec::new();
    let mut i: usize = 0;
    while i < limbs.len()
        invariant
            i <= limbs@.len(),
            copy@ == limbs@.subrange(0, i as int),
        decreases limbs@.len() - i,
    {
        copy.push(limbs[i]);
        i = i + 1;
        assert(copy@ =~= limbs@.subrange(0, i as int));
    }
    assert(limbs@.subrange(0, limbs@.len() as int) =~= limbs@);
    copy
}

/// The low 64 bits of `value`.
fn low_u64(value: u128) -> (low: u64)
    ensures
        low == value % 0x1_0000_0000_0000_0000,
{
    (value % 0x1_0000_0000_0000_0000u128) as u64
}

impl ExactNatural {
    pub closed spec fn limbs_view(self) -> Seq<u64> {
        self.limbs@
    }

    /// The number this natural denotes.
    pub open spec fn value(self) -> nat {
        limbs_value(self.limbs_view())
    }

    /// Limbs carry no most-significant zero.
    pub open spec fn wf(self) -> bool {
        normalized(self.limbs_view())
    }

    pub fn zero() -> (n: Self)
        ensures
            n.wf(),
            n.value() == 0,
    {
        Self { limbs: Vec::new() }
    }

    pub fn one() -> (n: Self)
        ensures
            n.wf(),
            n.value() == 1,
    {
        Self::from_u64(1)
    }

    pub fn from_u64(value: u64) -> (n: Self)
        ensures
            n.wf(),
            n.value() == value,
    {
        Self::from_u128(value as u128)
    }

    pub fn from_u128(value: u128) -> (n: Self)
        ensures
            n.wf(),
            n.value() == value,
    {
        if value == 0 {
            return Self { limbs: Vec::new() };
        }
        let low = low_u64(value);
        let high_wide = value / 0x1_0000_0000_0000_0000u128;
        assert(high_wide < 0x1_0000_0000_0000_0000) by (nonlinear_arith)
            requires
                high_wide == value / 0x1_0000_0000_0000_0000u128,
                value < 0x1_0000_0000_0000_0000_0000_0000_0000_0000,
        ;
        let high = high_wide as u64;
        assert(value == low + high * limb_base()) by (nonlinear_arith)
            requires
                low == value % 0x1_0000_0000_0000_0000,
                high == value / 0x1_0000_0000_0000_0000,
                limb_base() == 0x1_0000_0000_0000_0000,
        ;
        let mut limbs: Vec<u64> = Vec::new();
        limbs.push(low);
        proof {
            assert(limbs@ =~= seq![low]);
            lemma_value_one_limb(low);
        }
        if high != 0 {
            limbs.push(high);
            proof {
                assert(limbs@ =~= seq![low, high]);
                lemma_value_two_limbs(low, high);
            }
        } else {
            assert(value == low);
        }
        Self { limbs }
    }

    pub fn is_zero(&self) -> (zero: bool)
        requires
            self.wf(),
        ensures
            zero <==> self.value() == 0,
    {
        proof {
            lemma_normalized_zero(self.limbs@);
        }
        self.limbs.len() == 0
    }

    pub fn is_one(&self) -> (one: bool)
        requires
            self.wf(),
        ensures
            one <==> self.value() == 1,
    {
        proof {
            assert(base_pow(0) == 1);
            assert(base_pow(1) == limb_base() * base_pow(0));
            if self.limbs@.len() >= 2 {
                lemma_normalized_lower_bound(self.limbs@);
                lemma_base_pow_monotone(1, (self.limbs@.len() - 1) as nat);
            }
            if self.limbs@.len() == 1 {
                assert(self.limbs@.drop_last() =~= Seq::<u64>::empty());
                assert(limbs_value(self.limbs@) == limbs_value(Seq::<u64>::empty()) + (self.limbs@[0] as nat) * base_pow(0));
            }
        }
        self.limbs.len() == 1 && self.limbs[0] == 1
    }

    pub fn add_assign(&mut self, other: &Self)
        requires
            old(self).wf(),
            other.wf(),
        ensures
            final(self).wf(),
            final(self).value() == old(self).value() + other.value(),
    {
        let max_len = if self.limbs.len() >= other.limbs.len() { self.limbs.len() } else { other.limbs.len() };
        let ghost a0 = self.limbs@;
        while self.limbs.len() < max_len
            invariant
                a0.len() <= self.limbs@.len() <= max_len,
                forall|j: int| 0 <= j < self.limbs@.len() ==> #[trigger] self.limbs@[j] == padded(a0, max_len as nat)[j],
            decreases max_len - self.limbs@.len(),
        {
            self.limbs.push(0);
        }
        let ghost a = padded(a0, max_len as nat);
        let ghost o = padded(other.limbs@, max_len as nat);
        assert(self.limbs@ =~= a);
        proof {
            lemma_padded_value(a0, max_len as nat);
            lemma_padded_value(other.limbs@, max_len as nat);
            assert(self.limbs@.subrange(0, 0) =~= Seq::<u64>::empty());
            assert(a.subrange(0, 0) =~= Seq::<u64>::empty());
            assert(o.subrange(0, 0) =~= Seq::<u64>::empty());
            assert(base_pow(0) == 1);
        }
        let mut carry: u128 = 0;
        let mut index: usize = 0;
        while index < max_len
            invariant
                index <= max_len,
                self.limbs@.len() == max_len,
                a.len() == max_len,
                o == padded(other.limbs@, max_len as nat),
                carry <= 1,
                forall|j: int| index <= j < max_len ==> #[trigger] self.limbs@[j] == a[j],
                limbs_value(self.limbs@.subrange(0, index as int)) + carry * base_pow(index as nat)
                    == limbs_value(a.subrange(0, index as int)) + limbs_value(o.subrange(0, index as int)),
            decreases max_len - index,
        {
            let right: u64 = if index < other.limbs.len() { other.limbs[index] } else { 0 };
            assert(right == o[index as int]);
            let sum = self.limbs[index] as u128 + right as u128 + carry;
            let ghost before = self.limbs@;
            let low = low_u64(sum);
            self.limbs.set(index, low);
            let next = sum / 0x1_0000_0000_0000_0000u128;
            proof {
                let i = index as int;
                let p = base_pow(index as nat);
                lemma_value_prefix(self.limbs@, i);
                lemma_value_prefix(a, i);
                lemma_value_prefix(o, i);
                assert(self.limbs@.subrange(0, i) =~= before.subrange(0, i));
                lemma_split_digit(sum as int, p as int);
                assert(base_pow((index + 1) as nat) == limb_base() * p);
                assert(next <= 1) by (nonlinear_arith)
                    requires
                        next == sum / 0x1_0000_0000_0000_0000u128,
                        sum <= 0x1_0000_0000_0000_0000u128 * 2 - 1,
                ;
                assert(before[i] == a[i]);
                assert((sum as int) * p == (a[i] as int) * p + (o[i] as int) * p + (carry as int) * p) by (nonlinear_arith)
                    requires
                        sum as int == a[i] as int + o[i] as int + carry as int,
                ;
                assert(self.limbs@[i] == low);
                assert(limbs_value(self.limbs@.subrange(0, i + 1)) + next * base_pow((index + 1) as nat)
                    == limbs_value(before.subrange(0, i)) + (low as int) * p + (next as int) * (limb_base() * p));
            }
            carry = next;
            index = index + 1;
        }
        proof {
            assert(self.limbs@.subrange(0, max_len as int) =~= self.limbs@);
            assert(a.subrange(0, max_len as int) =~= a);
            assert(o.subrange(0, max_len as int) =~= o);
        }
        if carry != 0 {
            let ghost before = self.limbs@;
            self.limbs.push(1);
            proof {
                lemma_value_push(before, 1);
            }
        } else {
            proof {
                if max_len > 0 {
                    let top = (max_len - 1) as nat;
                    if a0.len() == max_len {
                        lemma_normalized_lower_bound(a0);
                    } else {
                        lemma_normalized_lower_bound(other.limbs@);
                    }
                    lemma_top_nonzero(self.limbs@);
                }
            }
        }
    }

    pub fn add_u128(&mut self, amount: u128)
        requires
            old(self).wf(),
        ensures
            final(self).wf(),
            final(self).value() == old(self).value() + amount,
    {
        let addend = Self::from_u128(amount);
        self.add_assign(&addend);
    }

    pub fn multiply_u64_assign(&mut self, factor: u64)
        requires
            old(self).wf(),
        ensures
            final(self).wf(),
            final(self).value() == old(self).value() * factor,
    {
        if factor == 0 {
            self.limbs.clear();
            return;
        }
        if factor == 1 {
            return;
        }
        let ghost a = self.limbs@;
        let n = self.limbs.len();
        proof {
            assert(self.limbs@.subrange(0, 0) =~= Seq::<u64>::empty());
            assert(a.subrange(0, 0) =~= Seq::<u64>::empty());
            assert(limbs_value(Seq::<u64>::empty()) == 0);
            assert(base_pow(0) == 1);
        }
        let mut carry: u128 = 0;
        let mut index: usize = 0;
        while index < n
            invariant
                index <= n,
                n == a.len(),
                self.limbs@.len() == n,
                carry < 0x1_0000_0000_0000_0000,
                forall|j: int| index <= j < n ==> #[trigger] self.limbs@[j] == a[j],
                limbs_value(self.limbs@.subrange(0, index as int)) + carry * base_pow(index as nat)
                    == limbs_value(a.subrange(0, index as int)) * factor,
            decreases n - index,
        {
            let limb = self.limbs[index];
            assert(limb as u128 * factor as u128 <= 0xFFFF_FFFF_FFFF_FFFE_0000_0000_0000_0001u128) by (nonlinear_arith)
                requires
                    limb <= 0xFFFF_FFFF_FFFF_FFFFu64,
                    factor <= 0xFFFF_FFFF_FFFF_FFFFu64,
            ;
            let product = limb as u128 * factor as u128 + carry;
            let ghost before = self.limbs@;
            let low = low_u64(product);
            self.limbs.set(index, low);
            let next = product / 0x1_0000_0000_0000_0000u128;
            proof {
                let i = index as int;
                let p = base_pow(index as nat);
                lemma_value_prefix(self.limbs@, i);
                lemma_value_prefix(a, i);
                assert(self.limbs@.subrange(0, i) =~= before.subrange(0, i));
                lemma_split_digit(product as int, p as int);
                assert(base_pow((index + 1) as nat) == limb_base() * p);
                assert(next < 0x1_0000_0000_0000_0000) by (nonlinear_arith)
                    requires
                        next == product / 0x1_0000_0000_0000_0000u128,
                        product <= 0xFFFF_FFFF_FFFF_FFFF_FFFF_FFFF_FFFF_FFFFu128,
                ;
                let va = limbs_value(a.subrange(0, i));
                assert((va + a[i] * p) * factor == va * factor + (a[i] * factor) * p) by (nonlinear_arith);
                assert(before[i] == a[i]);
                assert((product as int) * p == ((a[i] as int) * (factor as int)) * p + (carry as int) * p) by (nonlinear_arith)
                    requires
                        product as int == (a[i] as int) * (factor as int) + carry as int,
                ;
                assert(self.limbs@[i] == low);
                assert(limbs_value(self.limbs@.subrange(0, i + 1)) + next * base_pow((index + 1) as nat)
                    == limbs_value(before.subrange(0, i)) + (low as int) * p + (next as int) * (limb_base() * p));
            }
            carry = next;
            index = index + 1;
        }
        proof {
            assert(self.limbs@.subrange(0, n as int) =~= self.limbs@);
            assert(a.subrange(0, n as int) =~= a);
        }
        if carry != 0 {
            let ghost before = self.limbs@;
            self.limbs.push(low_u64(carry));
            proof {
                lemma_value_push(before, carry as u64);
            }
        } else {
            proof {
                if n > 0 {
                    lemma_normalized_lower_bound(a);
                    assert(limbs_value(a) * factor >= limbs_value(a)) by (nonlinear_arith)
                        requires
                            factor >= 1,
                    ;
                    lemma_top_nonzero(self.limbs@);
                }
            }
        }
    }

    pub fn multiply_assign(&mut self, other: &Self)
        requires
            old(self).wf(),
            other.wf(),
        ensures
            final(self).wf(),
            final(self).value() == old(self).value() * other.value(),
    {
        if self.is_zero() || other.is_zero() {
            let ghost vl = self.value();
            let ghost vr = other.value();
            assert(vl * vr == 0) by (nonlinear_arith)
                requires
                    vl == 0 || vr == 0,
            ;
            self.limbs.clear();
            proof {
                assert(self.limbs@ =~= Seq::<u64>::empty());
            }
            return;
        }
        let left = copy_limbs(&self.limbs);
        let mut result: Vec<u64> = Vec::new();
        let mut k: usize = 0;
        while k < left.len()
            invariant
                k <= left@.len(),
                result@.len() == k,
                forall|j: int| 0 <= j < result@.len() ==> #[trigger] result@[j] == 0,
            decreases left@.len() - k,
        {
            result.push(0);
            k = k + 1;
        }
        let mut k: usize = 0;
        while k < other.limbs.len()
            invariant
                k <= other.limbs@.len(),
                result@.len() == left@.len() + k,
                forall|j: int| 0 <= j < result@.len() ==> #[trigger] result@[j] == 0,
            decreases other.limbs@.len() - k,
        {
            result.push(0);
            k = k + 1;
        }
        let total = result.len();
        let ghost vr = other.value();
        proof {
            lemma_value_zero_top(result@, 0);
            assert(result@.subrange(0, 0) =~= Seq::<u64>::empty());
            assert(left@.subrange(0, 0) =~= Seq::<u64>::empty());
            assert(limbs_value(Seq::<u64>::empty()) == 0);
            lemma_value_bound(other.limbs@);
        }
        let mut left_index: usize = 0;
        while left_index < left.len()
            invariant
                left_index <= left@.len(),
                total == left@.len() + other.limbs@.len(),
                result@.len() == total,
                vr == limbs_value(other.limbs@),
                vr < base_pow(other.limbs@.len()),
                limbs_value(result@) == limbs_value(left@.subrange(0, left_index as int)) * vr,
            decreases left@.len() - left_index,
        {
            let left_limb = left[left_index];
            proof {
                let i = left_index as int;
                lemma_value_prefix(left@, i);
                lemma_value_bound(left@.subrange(0, i + 1));
                let vl = limbs_value(left@.subrange(0, i));
                let p = base_pow(left_index as nat);
                lemma_base_pow_add((left_index + 1) as nat, other.limbs@.len());
                lemma_base_pow_monotone((left_index + 1 + other.limbs@.len()) as nat, total as nat);
                assert(limbs_value(left@.subrange(0, i + 1)) * vr < base_pow((i + 1) as nat) * base_pow(other.limbs@.len())) by (nonlinear_arith)
                    requires
                        limbs_value(left@.subrange(0, i + 1)) < base_pow((i + 1) as nat),
                        vr < base_pow(other.limbs@.len()),
                ;
                assert((vl + (left_limb as nat) * p) * vr == vl * vr + (left_limb as nat) * vr * p) by (nonlinear_arith);
            }
            add_scaled_row(&mut result, left_limb, other.limbs.as_slice(), left_index);
            proof {
                let i = left_index as int;
                let vl = limbs_value(left@.subrange(0, i));
                let p = base_pow(left_index as nat);
                assert((vl + (left_limb as nat) * p) * vr == vl * vr + (left_limb as nat) * vr * p) by (nonlinear_arith);
            }
            left_index = left_index + 1;
        }
        proof {
            assert(left@.subrange(0, left@.len() as int) =~= left@);
        }
        self.limbs = result;
        self.normalize();
    }

    pub fn multiplied(&self, other: &Self) -> (product: Self)
        requires
            self.wf(),
            other.wf(),
        ensures
            product.wf(),
            product.value() == self.value() * other.value(),
    {
        let mut result = Self { limbs: copy_limbs(&self.limbs) };
        result.multiply_assign(other);
        result
    }


    /// Three-way comparison by value: `-1`, `0` or `1`.
    fn compare_sign(&self, other: &Self) -> (sign: i8)
        requires
            self.wf(),
            other.wf(),
        ensures
            sign == -1 <==> self.value() < other.value(),
            sign == 0 <==> self.value() == other.value(),
            sign == 1 <==> self.value() > other.value(),
    {
        let n = self.limbs.len();
        let m = other.limbs.len();
        if n < m {
            proof {
                lemma_value_order_by_len(self.limbs@, other.limbs@);
            }
            return -1;
        }
        if n > m {
            proof {
                lemma_value_order_by_len(other.limbs@, self.limbs@);
            }
            return 1;
        }
        let mut j: usize = n;
        while j > 0
            invariant
                j <= n,
                n == self.limbs@.len(),
                n == other.limbs@.len(),
                self.limbs@.subrange(j as int, n as int) == other.limbs@.subrange(j as int, n as int),
            decreases j,
        {
            let k = j - 1;
            if self.limbs[k] < other.limbs[k] {
                proof {
                    lemma_value_order_at(self.limbs@, other.limbs@, k as int);
                }
                return -1;
            }
            if self.limbs[k] > other.limbs[k] {
                proof {
                    lemma_value_order_at(other.limbs@, self.limbs@, k as int);
                }
                return 1;
            }
            proof {
                assert(self.limbs@.subrange(k as int, n as int) =~= other.limbs@.subrange(k as int, n as int)) by {
                    assert forall|t: int| 0 <= t < n - k implies self.limbs@.subrange(k as int, n as int)[t] == other.limbs@.subrange(k as int, n as int)[t] by {
                        if t > 0 {
                            assert(self.limbs@.subrange(k as int, n as int)[t] == self.limbs@.subrange(j as int, n as int)[t - 1]);
                            assert(other.limbs@.subrange(k as int, n as int)[t] == other.limbs@.subrange(j as int, n as int)[t - 1]);
                        }
                    }
                }
            }
            j = k;
        }
        proof {
            assert(self.limbs@ =~= self.limbs@.subrange(0, n as int));
            assert(other.limbs@ =~= other.limbs@.subrange(0, n as int));
        }
        0
    }

    /// Orders two naturals by value.
    pub fn cmp(&self, other: &Self) -> (order: Ordering)
        requires
            self.wf(),
            other.wf(),
        ensures
            order == Ordering::Less <==> self.value() < other.value(),
            order == Ordering::Equal <==> self.value() == other.value(),
            order == Ordering::Greater <==> self.value() > other.value(),
    {
        let sign = self.compare_sign(other);
        if sign < 0 {
            Ordering::Less
        } else if sign == 0 {
            Ordering::Equal
        } else {
            Ordering::Greater
        }
    }

    /// Subtracts `other` when `self >= other`; returns `false` and leaves `self` alone otherwise.
    pub fn checked_sub_assign(&mut self, other: &Self) -> (done: bool)
        requires
            old(self).wf(),
            other.wf(),
        ensures
            final(self).wf(),
            done <==> old(self).value() >= other.value(),
            done ==> final(self).value() == old(self).value() - other.value(),
            !done ==> final(self).value() == old(self).value(),
    {
        if self.compare_sign(other) < 0 {
            return false;
        }
        let ghost a = self.limbs@;
        let n = self.limbs.len();
        proof {
            if other.limbs@.len() > n {
                lemma_value_order_by_len(a, other.limbs@);
            }
        }
        let ghost o = padded(other.limbs@, n as nat);
        proof {
            lemma_padded_value(other.limbs@, n as nat);
            assert(self.limbs@.subrange(0, 0) =~= Seq::<u64>::empty());
            assert(a.subrange(0, 0) =~= Seq::<u64>::empty());
            assert(o.subrange(0, 0) =~= Seq::<u64>::empty());
            assert(base_pow(0) == 1);
        }
        let mut borrow: u128 = 0;
        let mut index: usize = 0;
        while index < n
            invariant
                index <= n,
                n == a.len(),
                self.limbs@.len() == n,
                o == padded(other.limbs@, n as nat),
                other.limbs@.len() <= n,
                borrow <= 1,
                forall|j: int| index <= j < n ==> #[trigger] self.limbs@[j] == a[j],
                limbs_value(self.limbs@.subrange(0, index as int)) + limbs_value(o.subrange(0, index as int))
                    == limbs_value(a.subrange(0, index as int)) + borrow * base_pow(index as nat),
            decreases n - index,
        {
            let left = self.limbs[index] as u128;
            let theirs: u64 = if index < other.limbs.len() { other.limbs[index] } else { 0 };
            assert(theirs == o[index as int]);
            let right = theirs as u128 + borrow;
            let ghost before = self.limbs@;
            let digit: u64;
            let next: u128;
            if left >= right {
                digit = low_u64(left - right);
                next = 0;
            } else {
                digit = low_u64(0x1_0000_0000_0000_0000u128 + left - right);
                next = 1;
            }
            self.limbs.set(index, digit);
            proof {
                let i = index as int;
                let p = base_pow(index as nat);
                lemma_value_prefix(self.limbs@, i);
                lemma_value_prefix(a, i);
                lemma_value_prefix(o, i);
                assert(self.limbs@.subrange(0, i) =~= before.subrange(0, i));
                assert(before[i] == a[i]);
                assert(base_pow((index + 1) as nat) == limb_base() * p);
                assert(digit as int + theirs as int + borrow as int == a[i] as int + (next as int) * (limb_base() as int));
                assert((digit as int) * p + (theirs as int) * p + (borrow as int) * p
                    == (a[i] as int) * p + (next as int) * ((limb_base() as int) * p)) by (nonlinear_arith)
                    requires
                        digit as int + theirs as int + borrow as int == a[i] as int + (next as int) * (limb_base() as int),
                ;
            }
            borrow = next;
            index = index + 1;
        }
        proof {
            assert(self.limbs@.subrange(0, n as int) =~= self.limbs@);
            assert(a.subrange(0, n as int) =~= a);
            assert(o.subrange(0, n as int) =~= o);
            lemma_value_bound(self.limbs@);
            if borrow == 1 {
                assert(limbs_value(a) >= limbs_value(o));
            }
        }
        self.normalize();
        true
    }


    /// Number of significant bits.
    pub fn bit_len(&self) -> (bits: usize)
        requires
            self.wf(),
            self.limbs_view().len() * 64 <= usize::MAX,
        ensures
            bits == bit_width(self.value()),
    {
        let n = self.limbs.len();
        if n == 0 {
            return 0;
        }
        let top = self.limbs[n - 1];
        let zeros = top.leading_zeros();
        proof {
            let s = self.limbs@;
            let k = (n - 1) as nat;
            lemma_u64_bit_width(top);
            let w = bit_width(top as nat);
            assert(1 <= w <= 64) by {
                lemma_bit_width_bound(top as nat, 0);
                lemma2_to64();
                lemma_bit_width_bound(top as nat, 64);
            }
            lemma_bit_width_bound(top as nat, w);
            lemma_bit_width_bound(top as nat, (w - 1) as nat);
            lemma_value_split(s, k as int);
            assert(s.subrange(k as int, n as int) =~= seq![top]);
            lemma_value_one_limb(top);
            lemma_value_bound(s.subrange(0, k as int));
            lemma_base_pow_is_pow2(k);
            let p = base_pow(k);
            let low = limbs_value(s.subrange(0, k as int));
            lemma_pow2_adds(64 * k, w);
            lemma_pow2_adds(64 * k, (w - 1) as nat);
            assert(low + p * top < pow2(w) * p) by (nonlinear_arith)
                requires
                    low < p,
                    top < pow2(w),
            ;
            assert(low + p * top >= pow2((w - 1) as nat) * p) by (nonlinear_arith)
                requires
                    top >= pow2((w - 1) as nat),
            ;
            assert(p * pow2(w) == pow2(w) * p) by (nonlinear_arith);
            assert(p * pow2((w - 1) as nat) == pow2((w - 1) as nat) * p) by (nonlinear_arith);
            lemma_bit_width_bound(self.value(), 64 * k + w);
            lemma_bit_width_bound(self.value(), (64 * k + w - 1) as nat);
        }
        (n - 1) * 64 + (64 - zeros as usize)
    }

    /// Whether binary digit `index` (counted from the least significant) is set.
    pub fn bit(&self, index: usize) -> (set: bool)
        requires
            self.wf(),
        ensures
            set == (self.value() / pow2(index as nat) % 2 == 1),
    {
        let limb = index / 64;
        let shift = (index % 64) as u64;
        proof {
            let l = limb as nat;
            lemma_base_pow_is_pow2(l);
            lemma_pow2_adds(64 * l, shift as nat);
            lemma_pow2_pos(shift as nat);
            lemma_base_pow_positive(l);
            lemma_div_denominator(self.value() as int, base_pow(l) as int, pow2(shift as nat) as int);
        }
        if limb < self.limbs.len() {
            let word = self.limbs[limb];
            proof {
                let s = self.limbs@;
                let l = limb as int;
                lemma_value_div_mod_base(s, l);
                let hi = s.subrange(l, s.len() as int);
                lemma_value_first(hi);
                assert(hi[0] == word);
                let w = limbs_value(hi.subrange(1, hi.len() as int));
                lemma2_to64();
                lemma_div_pow2_split(word as nat, w, shift as nat, 64);
                let q = word as nat / pow2(shift as nat);
                lemma_pow2_unfold((64 - shift) as nat);
                lemma_pow2_pos((63 - shift) as nat);
                assert(pow2((64 - shift) as nat) * w == 2 * (pow2((63 - shift) as nat) * w)) by (nonlinear_arith)
                    requires
                        pow2((64 - shift) as nat) == 2 * pow2(((64 - shift) - 1) as nat),
                        ((64 - shift) - 1) as nat == (63 - shift) as nat,
                ;
                lemma_mod_plus_multiple(q as int, 2, (pow2((63 - shift) as nat) * w) as int);
                lemma_u64_shr_is_div(word, shift);
                assert(((word & (1u64 << shift)) != 0) == ((word >> shift) % 2 == 1)) by (bit_vector)
                    requires
                        shift < 64,
                ;
            }
            (word & (1u64 << shift)) != 0
        } else {
            proof {
                let s = self.limbs@;
                lemma_value_bound(s);
                lemma_base_pow_monotone(s.len(), limb as nat);
                lemma_pow2_pos(shift as nat);
                assert(base_pow(limb as nat) <= base_pow(limb as nat) * pow2(shift as nat)) by (nonlinear_arith)
                    requires
                        pow2(shift as nat) >= 1,
                ;
                lemma_small_div(self.value(), pow2(index as nat));
            }
            false
        }
    }

    /// Whether any binary digit below position `exclusive` is set.
    pub fn any_bits_below(&self, exclusive: usize) -> (any: bool)
        requires
            self.wf(),
        ensures
            any == (self.value() % pow2(exclusive as nat) != 0),
    {
        if exclusive == 0 {
            proof {
                lemma2_to64();
            }
            return false;
        }
        let full = exclusive / 64;
        let remaining = (exclusive % 64) as u64;
        let n = self.limbs.len();
        let ghost s = self.limbs@;
        let ghost big: nat = if n > full + 1 { n as nat } else { (full + 1) as nat };
        let ghost t = padded(s, big);
        proof {
            let l = full as int;
            lemma_padded_value(s, big);
            lemma_value_div_mod_base(t, l);
            let low = limbs_value(t.subrange(0, l));
            let hi = t.subrange(l, big as int);
            lemma_value_first(hi);
            let x0 = hi[0];
            let w = limbs_value(hi.subrange(1, hi.len() as int));
            lemma_base_pow_is_pow2(full as nat);
            lemma_pow2_adds(64 * full as nat, remaining as nat);
            lemma_base_pow_positive(full as nat);
            lemma_pow2_pos(remaining as nat);
            lemma_mod_breakdown(self.value() as int, base_pow(full as nat) as int, pow2(remaining as nat) as int);
            lemma2_to64();
            lemma_pow2_adds(remaining as nat, (64 - remaining) as nat);
            assert(remaining as nat + (64 - remaining) as nat == 64);
            lemma_pow2_pos((64 - remaining) as nat);
            assert(limb_base() * w == pow2(remaining as nat) * (pow2((64 - remaining) as nat) * w)) by (nonlinear_arith)
                requires
                    limb_base() == pow2(remaining as nat) * pow2((64 - remaining) as nat),
            ;
            lemma_mod_plus_multiple(x0 as int, pow2(remaining as nat) as int, (pow2((64 - remaining) as nat) * w) as int);
            let m = x0 as nat % pow2(remaining as nat);
            assert(base_pow(full as nat) * m == 0 <==> m == 0) by (nonlinear_arith)
                requires
                    base_pow(full as nat) >= 1,
            ;
            lemma_value_zero_iff(t.subrange(0, l));
        }
        let bound = if full < n { full } else { n };
        if any_nonzero_limb(&self.limbs, bound) {
            proof {
                let j = choose|j: int| 0 <= j < bound && s[j] != 0;
                assert(t.subrange(0, full as int)[j] == s[j]);
            }
            return true;
        }
        proof {
            assert forall|j: int| 0 <= j < full implies #[trigger] t.subrange(0, full as int)[j] == 0 by {
                assert(t.subrange(0, full as int)[j] == t[j]);
                if j < n {
                    assert(s[j] == 0);
                }
            }
            assert(t.subrange(full as int, big as int)[0] == t[full as int]);
        }
        if remaining == 0 {
            proof {
                lemma2_to64();
            }
            return false;
        }
        if full < n {
            let word = self.limbs[full];
            proof {
                lemma_u64_pow2_no_overflow(remaining as nat);
                lemma_u64_shl_is_mul(1, remaining);
                lemma_u64_low_bits_mask_is_mod(word, remaining as nat);
                assert(low_bits_mask(remaining as nat) == pow2(remaining as nat) - 1);
            }
            (word & ((1u64 << remaining) - 1)) != 0
        } else {
            proof {
                lemma_pow2_pos(remaining as nat);
                lemma_small_div(0, pow2(remaining as nat));
            }
            false
        }
    }

    /// The 64 bits of `self >> shift` that fit in a word.
    pub fn shr_to_u64(&self, shift: usize) -> (word: u64)
        requires
            self.wf(),
        ensures
            word == (self.value() / pow2(shift as nat)) % pow2(64),
    {
        let limb = shift / 64;
        let bits = (shift % 64) as u128;
        let n = self.limbs.len();
        let x0: u64 = if limb < n { self.limbs[limb] } else { 0 };
        let x1: u64 = if limb + 1 < n { self.limbs[limb + 1] } else { 0 };
        let wide = x0 as u128 + x1 as u128 * 0x1_0000_0000_0000_0000u128;
        let shifted = wide >> bits;
        proof {
            let s = self.limbs@;
            let l = limb as int;
            let big: nat = if n > limb + 2 { n as nat } else { (limb + 2) as nat };
            let t = padded(s, big);
            lemma_padded_value(s, big);
            lemma_value_div_mod_base(t, l);
            let hi = t.subrange(l, big as int);
            lemma_value_first(hi);
            let hi2 = hi.subrange(1, hi.len() as int);
            lemma_value_first(hi2);
            assert(hi[0] == x0);
            assert(hi2[0] == x1);
            let h = limbs_value(hi2.subrange(1, hi2.len() as int));
            lemma2_to64();
            lemma_pow2_adds(64, 64);
            assert(limbs_value(hi) == wide + pow2(128) * h) by (nonlinear_arith)
                requires
                    limbs_value(hi) == x0 + limb_base() * (x1 + limb_base() * limbs_value(hi2.subrange(1, hi2.len() as int))),
                    h == limbs_value(hi2.subrange(1, hi2.len() as int)),
                    wide == x0 + x1 * limb_base(),
                    pow2(128) == limb_base() * limb_base(),
            ;
            lemma_base_pow_is_pow2(limb as nat);
            lemma_pow2_adds(64 * limb as nat, bits as nat);
            lemma_pow2_pos(bits as nat);
            lemma_base_pow_positive(limb as nat);
            lemma_div_denominator(self.value() as int, base_pow(limb as nat) as int, pow2(bits as nat) as int);
            lemma_div_pow2_split(wide as nat, h, bits as nat, 128);
            lemma_pow2_adds(64, (64 - bits) as nat);
            assert(64 + (64 - bits) as nat == (128 - bits) as nat);
            lemma_pow2_pos((64 - bits) as nat);
            assert(pow2((128 - bits) as nat) * h == pow2(64) * (pow2((64 - bits) as nat) * h)) by (nonlinear_arith)
                requires
                    pow2((128 - bits) as nat) == pow2(64) * pow2((64 - bits) as nat),
            ;
            lemma_mod_plus_multiple((wide as nat / pow2(bits as nat)) as int, pow2(64) as int, (pow2((64 - bits) as nat) * h) as int);
            lemma_u128_shr_is_div(wide, bits);
        }
        low_u64(shifted)
    }

    /// The value as a word, when it fits in one.
    pub fn to_u64(&self) -> (word: Option<u64>)
        requires
            self.wf(),
        ensures
            word matches Some(v) ==> v == self.value(),
            word is Some <==> self.value() < limb_base(),
    {
        proof {
            lemma2_to64();
            lemma_base_pow_is_pow2(0);
            lemma_base_pow_is_pow2(1);
            lemma_value_bound(self.limbs@);
            if self.limbs@.len() >= 2 {
                lemma_normalized_lower_bound(self.limbs@);
                lemma_base_pow_monotone(1, (self.limbs@.len() - 1) as nat);
            }
        }
        if self.limbs.len() <= 1 {
            let word = self.shr_to_u64(0);
            proof {
                lemma_small_div(self.value(), pow2(64));
            }
            Some(word)
        } else {
            None
        }
    }

    /// `value * 2^shift`.
    pub fn from_shifted_u64(value: u64, shift: usize) -> (n: Self)
        ensures
            n.wf(),
            n.value() == value * pow2(shift as nat),
    {
        if value == 0 {
            return Self { limbs: Vec::new() };
        }
        let limb_shift = shift / 64;
        let bit_shift = (shift % 64) as u64;
        proof {
            lemma_u64_pow2_no_overflow(bit_shift as nat);
            lemma_u64_shl_is_mul(1, bit_shift);
        }
        let scale = 1u64 << bit_shift;
        assert(value as u128 * scale as u128 <= 0xFFFF_FFFF_FFFF_FFFE_0000_0000_0000_0001u128) by (nonlinear_arith)
            requires
                value <= 0xFFFF_FFFF_FFFF_FFFFu64,
                scale <= 0xFFFF_FFFF_FFFF_FFFFu64,
        ;
        let wide = value as u128 * scale as u128;
        let low = low_u64(wide);
        let high_wide = wide / 0x1_0000_0000_0000_0000u128;
        assert(high_wide < 0x1_0000_0000_0000_0000) by (nonlinear_arith)
            requires
                high_wide == wide / 0x1_0000_0000_0000_0000u128,
        ;
        let high = high_wide as u64;
        let mut limbs: Vec<u64> = Vec::new();
        while limbs.len() < limb_shift
            invariant
                limbs@.len() <= limb_shift,
                forall|j: int| 0 <= j < limbs@.len() ==> #[trigger] limbs@[j] == 0,
            decreases limb_shift - limbs@.len(),
        {
            limbs.push(0);
        }
        let ghost zeros = limbs@;
        limbs.push(low);
        limbs.push(high);
        proof {
            let s = limbs@;
            lemma_value_split(s, limb_shift as int);
            assert(s.subrange(0, limb_shift as int) =~= zeros);
            lemma_value_zero_iff(zeros);
            assert(s.subrange(limb_shift as int, s.len() as int) =~= seq![low, high]);
            lemma_value_two_limbs(low, high);
            assert(wide == low + high * limb_base()) by (nonlinear_arith)
                requires
                    low == wide % 0x1_0000_0000_0000_0000,
                    high == wide / 0x1_0000_0000_0000_0000,
                    limb_base() == 0x1_0000_0000_0000_0000,
            ;
            lemma_base_pow_is_pow2(limb_shift as nat);
            lemma_pow2_adds(64 * limb_shift as nat, bit_shift as nat);
            assert(base_pow(limb_shift as nat) * (value * pow2(bit_shift as nat)) == value * (pow2(64 * limb_shift as nat) * pow2(bit_shift as nat))) by (nonlinear_arith)
                requires
                    base_pow(limb_shift as nat) == pow2(64 * limb_shift as nat),
            ;
            lemma_pow2_pos(shift as nat);
            assert(value * pow2(shift as nat) >= 1) by (nonlinear_arith)
                requires
                    value >= 1,
                    pow2(shift as nat) >= 1,
            ;
        }
        let mut result = Self { limbs };
        result.normalize();
        result
    }


    /// Renders the value in decimal.
    pub fn to_decimal_string(&self) -> (text: String)
        requires
            self.wf(),
        ensures
            text@ == decimal_digits(self.value()),
    {
        let mut work = self.clone();
        let mut chunks: Vec<u32> = Vec::new();
        proof {
            assert(chunks_value(Seq::<u32>::empty()) == 0);
            assert(chunk_pow(0) == 1);
        }
        while !work.is_zero()
            invariant
                work.wf(),
                self.value() == chunks_value(chunks@) + chunk_pow(chunks@.len()) * work.value(),
                forall|i: int| 0 <= i < chunks@.len() ==> chunks@[i] < chunk_base(),
                chunks@.len() > 0 && work.value() == 0 ==> chunks@.last() != 0,
            decreases work.value(),
        {
            let ghost before = work.value();
            let ghost prior = chunks@;
            let chunk = work.div_rem_u32(1_000_000_000);
            chunks.push(chunk);
            proof {
                let p = chunk_pow(prior.len());
                assert(chunks@.drop_last() =~= prior);
                assert(chunk_pow(chunks@.len()) == chunk_base() * p);
                let q = work.value();
                assert(before == q * chunk_base() + chunk) by (nonlinear_arith)
                    requires
                        q == before / 1_000_000_000,
                        chunk == before % 1_000_000_000,
                        chunk_base() == 1_000_000_000,
                ;
                assert(p * before == chunk * p + (chunk_base() * p) * q) by (nonlinear_arith)
                    requires
                        before == q * chunk_base() + chunk,
                ;
                assert(q < before) by (nonlinear_arith)
                    requires
                        q == before / 1_000_000_000,
                        before > 0,
                ;
            }
        }
        proof {
            assert(chunk_pow(chunks@.len()) * 0 == 0);
        }
        decimal_string_of_chunks(chunks.as_slice())
    }

    /// Divides in place by a non-zero `divisor`; returns the remainder.
    fn div_rem_u32(&mut self, divisor: u32) -> (remainder: u32)
        requires
            old(self).wf(),
            divisor > 0,
        ensures
            final(self).wf(),
            final(self).value() == old(self).value() / (divisor as nat),
            remainder == old(self).value() % (divisor as nat),
    {
        let d = divisor as u128;
        let ghost a = self.limbs@;
        let n = self.limbs.len();
        let mut rem: u128 = 0;
        let mut i: usize = n;
        proof {
            assert(a.subrange(n as int, n as int) =~= Seq::<u64>::empty());
            assert(self.limbs@.subrange(n as int, n as int) =~= Seq::<u64>::empty());
            assert(limbs_value(Seq::<u64>::empty()) == 0);
        }
        while i > 0
            invariant
                i <= n,
                n == a.len(),
                self.limbs@.len() == n,
                0 < d <= 0xFFFF_FFFF,
                rem < d,
                forall|j: int| 0 <= j < i ==> #[trigger] self.limbs@[j] == a[j],
                limbs_value(a.subrange(i as int, n as int))
                    == limbs_value(self.limbs@.subrange(i as int, n as int)) * d + rem,
            decreases i,
        {
            let k = i - 1;
            let limb = self.limbs[k];
            assert(rem * 0x1_0000_0000_0000_0000u128 + (limb as u128) < d * 0x1_0000_0000_0000_0000u128) by (nonlinear_arith)
                requires
                    rem < d,
                    limb < 0x1_0000_0000_0000_0000u128,
            ;
            let value = rem * 0x1_0000_0000_0000_0000u128 + limb as u128;
            let q = value / d;
            assert(q < 0x1_0000_0000_0000_0000u128) by (nonlinear_arith)
                requires
                    q == value / d,
                    value < d * 0x1_0000_0000_0000_0000u128,
                    d > 0,
            ;
            let ghost before = self.limbs@;
            self.limbs.set(k, q as u64);
            let r = value % d;
            proof {
                let ai = a.subrange(k as int, n as int);
                let ni = self.limbs@.subrange(k as int, n as int);
                lemma_value_first(ai);
                lemma_value_first(ni);
                assert(ai.subrange(1, ai.len() as int) =~= a.subrange(i as int, n as int));
                assert(ni.subrange(1, ni.len() as int) =~= self.limbs@.subrange(i as int, n as int));
                assert(self.limbs@.subrange(i as int, n as int) =~= before.subrange(i as int, n as int));
                assert(ai[0] == limb);
                assert(ni[0] == q);
                let upper = limbs_value(self.limbs@.subrange(i as int, n as int));
                assert(value == q * d + r) by (nonlinear_arith)
                    requires
                        q == value / d,
                        r == value % d,
                        d > 0,
                ;
                assert(r < d) by (nonlinear_arith)
                    requires
                        r == value % d,
                        d > 0,
                ;
                assert(limb + limb_base() * (upper * d + rem) == (q + limb_base() * upper) * d + r) by (nonlinear_arith)
                    requires
                        value == q * d + r,
                        value == rem * limb_base() + limb,
                ;
            }
            rem = r;
            i = k;
        }
        proof {
            assert(a.subrange(0, n as int) =~= a);
            assert(self.limbs@.subrange(0, n as int) =~= self.limbs@);
            lemma_fundamental_div_mod_converse(limbs_value(a) as int, d as int, limbs_value(self.limbs@) as int, rem as int);
        }
        self.normalize();
        rem as u32
    }

    /// Drops most-significant zero limbs.
    #[verifier::spinoff_prover]
    fn normalize(&mut self)
        ensures
            final(self).wf(),
            final(self).value() == old(self).value(),
    {
        while self.limbs.len() > 0 && self.limbs[self.limbs.len() - 1] == 0
            invariant
                limbs_value(self.limbs@) == old(self).value(),
            decreases self.limbs@.len(),
        {
            let ghost before = self.limbs@;
            self.limbs.pop();
            proof {
                assert(self.limbs@ =~= before.drop_last());
                lemma_value_drop_zero(before);
            }
        }
    }
}


impl Clone for ExactNatural {
    fn clone(&self) -> (copy: Self)
        ensures
            copy.limbs_view() == self.limbs_view(),
    {
        ExactNatural { limbs: copy_limbs(&self.limbs) }
    }
}

impl Default for ExactNatural {
    fn default() -> (zero: Self)
        ensures
            zero.wf(),
            zero.value() == 0,
    {
        ExactNatural { limbs: Vec::new() }
    }
}

/// Exact signed integer used as the coefficient domain for measure deltas.
#[derive(Debug, PartialEq, Eq)]
pub struct ExactInteger {
    negative: bool,
    magnitude: ExactNatural,
}

impl ExactInteger {
    pub closed spec fn spec_negative(self) -> bool {
        self.negative
    }

    pub closed spec fn spec_magnitude(self) -> ExactNatural {
        self.magnitude
    }

    /// The magnitude is normalized and zero carries no sign.
    pub open spec fn wf(self) -> bool {
        &&& self.spec_magnitude().wf()
        &&& self.spec_negative() ==> self.spec_magnitude().value() > 0
    }

    /// The integer this value denotes.
    pub open spec fn value(self) -> int {
        if self.spec_negative() {
            -(self.spec_magnitude().value() as int)
        } else {
            self.spec_magnitude().value() as int
        }
    }

    pub fn from_i64(value: i64) -> (n: Self)
        ensures
            n.wf(),
            n.value() == value,
    {
        if value == 0 {
            return ExactInteger { negative: false, magnitude: ExactNatural::zero() };
        }
        let abs: u64 = if value < 0 { (-(value + 1)) as u64 + 1 } else { value as u64 };
        ExactInteger { negative: value < 0, magnitude: ExactNatural::from_u64(abs) }
    }

    /// A sign and a magnitude; a zero magnitude is never negative.
    pub fn from_parts(negative: bool, magnitude: ExactNatural) -> (n: Self)
        requires
            magnitude.wf(),
        ensures
            n.wf(),
            n.spec_magnitude() == magnitude,
            n.spec_negative() == (negative && magnitude.value() > 0),
            n.value() == if negative { -(magnitude.value() as int) } else { magnitude.value() as int },
    {
        let zero = magnitude.is_zero();
        ExactInteger { negative: negative && !zero, magnitude }
    }

    pub fn is_zero(&self) -> (zero: bool)
        requires
            self.wf(),
        ensures
            zero <==> self.value() == 0,
    {
        self.magnitude.is_zero()
    }

    pub fn is_negative(&self) -> (negative: bool)
        requires
            self.wf(),
        ensures
            negative == self.spec_negative(),
            negative <==> self.value() < 0,
    {
        self.negative
    }

    pub fn magnitude(&self) -> (magnitude: &ExactNatural)
        requires
            self.wf(),
        ensures
            *magnitude == self.spec_magnitude(),
            magnitude.wf(),
            magnitude.value() == if self.value() < 0 { -self.value() } else { self.value() },
    {
        &self.magnitude
    }

    pub fn add_assign(&mut self, other: &Self)
        requires
            old(self).wf(),
            other.wf(),
        ensures
            final(self).wf(),
            final(self).value() == old(self).value() + other.value(),
    {
        if other.is_zero() {
            return;
        }
        if self.is_zero() {
            *self = other.clone();
            return;
        }
        if self.negative == other.negative {
            self.magnitude.add_assign(&other.magnitude);
            return;
        }
        match self.magnitude.cmp(&other.magnitude) {
            Ordering::Greater => {
                let done = self.magnitude.checked_sub_assign(&other.magnitude);
            }
            Ordering::Less => {
                let mut magnitude = other.magnitude.clone();
                let done = magnitude.checked_sub_assign(&self.magnitude);
                self.magnitude = magnitude;
                self.negative = other.negative;
            }
            Ordering::Equal => {
                self.magnitude = ExactNatural::zero();
                self.negative = false;
            }
        }
    }

    pub fn multiply(&self, other: &Self) -> (product: Self)
        requires
            self.wf(),
            other.wf(),
        ensures
            product.wf(),
            product.value() == self.value() * other.value(),
    {
        if self.is_zero() || other.is_zero() {
            let ghost a = self.value();
            let ghost b = other.value();
            assert(a * b == 0) by (nonlinear_arith)
                requires
                    a == 0 || b == 0,
            ;
            return ExactInteger { negative: false, magnitude: ExactNatural::zero() };
        }
        let magnitude = self.magnitude.multiplied(&other.magnitude);
        proof {
            let a = self.magnitude.value() as int;
            let b = other.magnitude.value() as int;
            assert(a * b > 0) by (nonlinear_arith)
                requires
                    a > 0,
                    b > 0,
            ;
            assert((-a) * (-b) == a * b && (-a) * b == -(a * b) && a * (-b) == -(a * b)) by (nonlinear_arith);
        }
        ExactInteger { negative: self.negative != other.negative, magnitude }
    }

    /// Scales by a multiplicity, keeping one exact coefficient.
    pub fn scale_by_natural(&self, multiplicity: &ExactNatural) -> (scaled: Self)
        requires
            self.wf(),
            multiplicity.wf(),
        ensures
            scaled.wf(),
            scaled.value() == self.value() * multiplicity.value(),
    {
        if self.is_zero() || multiplicity.is_zero() {
            let ghost a = self.value();
            let ghost b = multiplicity.value() as int;
            assert(a * b == 0) by (nonlinear_arith)
                requires
                    a == 0 || b == 0,
            ;
            return ExactInteger { negative: false, magnitude: ExactNatural::zero() };
        }
        let magnitude = self.magnitude.multiplied(multiplicity);
        proof {
            let a = self.magnitude.value() as int;
            let b = multiplicity.value() as int;
            assert(a * b > 0) by (nonlinear_arith)
                requires
                    a > 0,
                    b > 0,
            ;
            assert((-a) * b == -(a * b)) by (nonlinear_arith);
        }
        ExactInteger { negative: self.negative, magnitude }
    }
}

impl Clone for ExactInteger {
    fn clone(&self) -> (copy: Self)
        ensures
            copy.spec_negative() == self.spec_negative(),
            copy.spec_magnitude().limbs_view() == self.spec_magnitude().limbs_view(),
    {
        ExactInteger { negative: self.negative, magnitude: self.magnitude.clone() }
    }
}

impl Default for ExactInteger {
    fn default() -> (zero: Self)
        ensures
            zero.wf(),
            zero.value() == 0,
    {
        ExactInteger { negative: false, magnitude: ExactNatural::zero() }
    }
}

} // verus!


