//! Decimal rendering of naturals held as little-endian base-10^9 chunks.

use vstd::prelude::*;

verus! {

/// `10^k`.
pub open spec fn pow10(k: nat) -> nat
    decreases k,
{
    if k == 0 {
        1
    } else {
        10 * pow10((k - 1) as nat)
    }
}

/// The chunk base, `10^9`.
pub open spec fn chunk_base() -> nat {
    1_000_000_000
}

/// `chunk_base()` to the power `k`.
pub open spec fn chunk_pow(k: nat) -> nat
    decreases k,
{
    if k == 0 {
        1
    } else {
        chunk_base() * chunk_pow((k - 1) as nat)
    }
}

/// The number denoted by little-endian base-10^9 chunks.
pub open spec fn chunks_value(s: Seq<u32>) -> nat
    decreases s.len(),
{
    if s.len() == 0 {
        0
    } else {
        chunks_value(s.drop_last()) + (s.last() as nat) * chunk_pow((s.len() - 1) as nat)
    }
}

/// The ASCII character of decimal digit `d`.
pub open spec fn decimal_char(d: nat) -> char {
    ((48 + d) as u8) as char
}

/// Decimal notation of `v`: most significant digit first, no leading zeros, `"0"` for zero.
pub open spec fn decimal_digits(v: nat) -> Seq<char>
    decreases v,
{
    if v < 10 {
        seq![decimal_char(v)]
    } else {
        decimal_digits(v / 10).push(decimal_char(v % 10))
    }
}

/// The lowest `k` decimal digits of `v`, left-padded with zeros.
pub open spec fn padded_digits(v: nat, k: nat) -> Seq<char>
    decreases k,
{
    if k == 0 {
        Seq::empty()
    } else {
        padded_digits(v / 10, (k - 1) as nat).push(decimal_char(v % 10))
    }
}

pub proof fn lemma_pow10_positive(k: nat)
    ensures
        pow10(k) >= 1,
    decreases k,
{
    if k > 0 {
        lemma_pow10_positive((k - 1) as nat);
    }
}

pub proof fn lemma_chunk_base_is_pow10()
    ensures
        chunk_base() == pow10(9),
{
    reveal_with_fuel(pow10, 10);
}

/// Writing `c` with `k` padded digits after the notation of a positive `q` gives the notation of `q * 10^k + c`.
pub proof fn lemma_decimal_append(q: nat, c: nat, k: nat)
    requires
        q > 0,
        c < pow10(k),
    ensures
        decimal_digits(q * pow10(k) + c) == decimal_digits(q) + padded_digits(c, k),
    decreases k,
{
    if k == 0 {
        assert(padded_digits(c, 0) =~= Seq::<char>::empty());
        assert(decimal_digits(q) + Seq::<char>::empty() =~= decimal_digits(q));
    } else {
        let km = (k - 1) as nat;
        let p = pow10(km);
        lemma_pow10_positive(km);
        let v = q * pow10(k) + c;
        assert(pow10(k) == 10 * p);
        assert(c / 10 < p) by (nonlinear_arith)
            requires
                c < 10 * p,
        ;
        assert(v / 10 == q * p + c / 10 && v % 10 == c % 10 && v >= 10) by (nonlinear_arith)
            requires
                v == q * (10 * p) + c,
                q >= 1,
                p >= 1,
        ;
        lemma_decimal_append(q, c / 10, km);
        assert(decimal_digits(v) == decimal_digits(v / 10).push(decimal_char(v % 10)));
        assert(padded_digits(c, k) == padded_digits(c / 10, km).push(decimal_char(c % 10)));
        assert((decimal_digits(q) + padded_digits(c / 10, km)).push(decimal_char(c % 10))
            =~= decimal_digits(q) + padded_digits(c / 10, km).push(decimal_char(c % 10)));
    }
}

/// Chunks split into the lowest one and the rest one position up.
pub proof fn lemma_chunks_first(s: Seq<u32>)
    requires
        s.len() > 0,
    ensures
        chunks_value(s) == s[0] + chunk_base() * chunks_value(s.subrange(1, s.len() as int)),
    decreases s.len(),
{
    if s.len() == 1 {
        assert(s.drop_last() =~= Seq::<u32>::empty());
        assert(s.subrange(1, 1) =~= Seq::<u32>::empty());
        assert(chunk_pow(0) == 1);
        assert(chunks_value(Seq::<u32>::empty()) == 0);
        assert(chunks_value(s) == chunks_value(s.drop_last()) + (s.last() as nat) * chunk_pow(0));
        assert(s.last() == s[0]);
    } else {
        let rest = s.drop_last();
        lemma_chunks_first(rest);
        let tail = s.subrange(1, s.len() as int);
        assert(tail.drop_last() =~= rest.subrange(1, rest.len() as int));
        assert(tail.last() == s.last());
        let k = (s.len() - 2) as nat;
        assert(chunk_pow((s.len() - 1) as nat) == chunk_base() * chunk_pow(k));
        let a = chunks_value(rest.subrange(1, rest.len() as int));
        let l = s.last() as nat;
        assert(tail.len() - 1 == k);
        assert(chunks_value(tail) == chunks_value(tail.drop_last()) + (tail.last() as nat) * chunk_pow((tail.len() - 1) as nat));
        assert(chunks_value(tail) == a + l * chunk_pow(k));
        assert(rest[0] == s[0]);
        assert(chunks_value(s) == chunks_value(rest) + l * chunk_pow((s.len() - 1) as nat));
        assert(chunk_base() * (a + l * chunk_pow(k)) == chunk_base() * a + l * (chunk_base() * chunk_pow(k))) by (nonlinear_arith);
    }
}


/// Every chunk lies below the base.
pub open spec fn chunks_below_base(s: Seq<u32>) -> bool {
    forall|i: int| 0 <= i < s.len() ==> s[i] < chunk_base()
}

pub proof fn lemma_chunk_pow_positive(k: nat)
    ensures
        chunk_pow(k) >= 1,
    decreases k,
{
    if k > 0 {
        lemma_chunk_pow_positive((k - 1) as nat);
        assert(chunk_base() * chunk_pow((k - 1) as nat) >= chunk_pow((k - 1) as nat)) by (nonlinear_arith)
            requires
                chunk_pow((k - 1) as nat) >= 1,
        ;
    }
}

pub proof fn lemma_chunk_pow_add(a: nat, b: nat)
    ensures
        chunk_pow(a + b) == chunk_pow(a) * chunk_pow(b),
    decreases a,
{
    if a == 0 {
        assert(chunk_pow(0) == 1);
        assert(a + b == b);
    } else {
        lemma_chunk_pow_add((a - 1) as nat, b);
        assert(chunk_pow(a + b) == chunk_base() * chunk_pow((a - 1 + b) as nat));
        assert(chunk_pow(a) == chunk_base() * chunk_pow((a - 1) as nat));
        assert(chunk_base() * (chunk_pow((a - 1) as nat) * chunk_pow(b)) == (chunk_base() * chunk_pow((a - 1) as nat)) * chunk_pow(b)) by (nonlinear_arith);
        assert((a - 1 + b) as nat == (a + b - 1) as nat);
    }
}

pub proof fn lemma_chunk_pow_monotone(a: nat, b: nat)
    requires
        a <= b,
    ensures
        chunk_pow(a) <= chunk_pow(b),
    decreases b,
{
    if a < b {
        lemma_chunk_pow_monotone(a, (b - 1) as nat);
        lemma_chunk_pow_positive((b - 1) as nat);
        assert(chunk_base() * chunk_pow((b - 1) as nat) >= chunk_pow((b - 1) as nat)) by (nonlinear_arith)
            requires
                chunk_pow((b - 1) as nat) >= 1,
        ;
    }
}

/// A chunk pushed on top weighs the base power of its position.
pub proof fn lemma_chunks_push(s: Seq<u32>, x: u32)
    ensures
        chunks_value(s.push(x)) == chunks_value(s) + x * chunk_pow(s.len()),
{
    assert(s.push(x).drop_last() =~= s);
}

pub proof fn lemma_chunks_drop_zero(s: Seq<u32>)
    requires
        s.len() > 0,
        s.last() == 0,
    ensures
        chunks_value(s) == chunks_value(s.drop_last()),
{
}

pub proof fn lemma_chunks_prefix(s: Seq<u32>, i: int)
    requires
        0 <= i < s.len(),
    ensures
        chunks_value(s.subrange(0, i + 1)) == chunks_value(s.subrange(0, i)) + s[i] * chunk_pow(i as nat),
{
    assert(s.subrange(0, i + 1) =~= s.subrange(0, i).push(s[i]));
    lemma_chunks_push(s.subrange(0, i), s[i]);
}

/// Chunks below the base denote a number below the base raised to their count.
pub proof fn lemma_chunks_bound(s: Seq<u32>)
    requires
        chunks_below_base(s),
    ensures
        chunks_value(s) < chunk_pow(s.len()),
    decreases s.len(),
{
    if s.len() > 0 {
        let rest = s.drop_last();
        assert(chunks_below_base(rest)) by {
            assert forall|i: int| 0 <= i < rest.len() implies rest[i] < chunk_base() by {
                assert(rest[i] == s[i]);
            }
        }
        lemma_chunks_bound(rest);
        let p = chunk_pow(rest.len());
        assert(s.last() == s[s.len() - 1]);
        assert(chunks_value(s) == chunks_value(rest) + s.last() * p);
        assert(chunk_pow(s.len()) == chunk_base() * p);
        assert(chunks_value(rest) + s.last() * p < chunk_base() * p) by (nonlinear_arith)
            requires
                chunks_value(rest) < p,
                s.last() < chunk_base(),
        ;
    }
}

/// A chunk list with a non-zero top chunk reaches the weight of that chunk.
pub proof fn lemma_chunks_lower_bound(s: Seq<u32>)
    requires
        s.len() > 0,
        s.last() != 0,
    ensures
        chunks_value(s) >= chunk_pow((s.len() - 1) as nat),
{
    let p = chunk_pow((s.len() - 1) as nat);
    assert(s.last() * p >= p) by (nonlinear_arith)
        requires
            s.last() >= 1,
    ;
}

/// Chunks below the base whose value reaches the top weight have a non-zero top chunk.
pub proof fn lemma_chunks_top_nonzero(s: Seq<u32>)
    requires
        s.len() > 0,
        chunks_below_base(s),
        chunks_value(s) >= chunk_pow((s.len() - 1) as nat),
    ensures
        s.last() != 0,
{
    if s.last() == 0 {
        let rest = s.drop_last();
        assert(chunks_below_base(rest)) by {
            assert forall|i: int| 0 <= i < rest.len() implies rest[i] < chunk_base() by {
                assert(rest[i] == s[i]);
            }
        }
        lemma_chunks_bound(rest);
    }
}

/// Digit arithmetic: `x` splits into its low chunk and its carry.
pub proof fn lemma_chunk_split_digit(x: int, p: int)
    requires
        x >= 0,
        p >= 0,
    ensures
        (x % (chunk_base() as int)) * p + (x / (chunk_base() as int)) * ((chunk_base() as int) * p) == x * p,
{
    let b = chunk_base() as int;
    assert(x == (x / b) * b + x % b) by (nonlinear_arith)
        requires
            b > 0,
    ;
    assert((x % b) * p + (x / b) * (b * p) == ((x / b) * b + x % b) * p) by (nonlinear_arith);
}

/// Chunks of `s`, then zeros up to length `n`.
pub open spec fn chunks_padded(s: Seq<u32>, n: nat) -> Seq<u32> {
    Seq::new(n, |j: int| if j < s.len() { s[j] } else { 0u32 })
}

/// Zero chunks on top do not change the value.
pub proof fn lemma_chunks_zero_top(s: Seq<u32>, k: int)
    requires
        0 <= k <= s.len(),
        forall|j: int| k <= j < s.len() ==> s[j] == 0,
    ensures
        chunks_value(s) == chunks_value(s.subrange(0, k)),
    decreases s.len() - k,
{
    if k == s.len() {
        assert(s.subrange(0, k) =~= s);
    } else {
        let rest = s.drop_last();
        assert forall|j: int| k <= j < rest.len() implies rest[j] == 0 by {
            assert(rest[j] == s[j]);
        }
        lemma_chunks_zero_top(rest, k);
        assert(rest.subrange(0, k) =~= s.subrange(0, k));
        assert(s.last() == s[s.len() - 1]);
    }
}

pub proof fn lemma_chunks_padded(s: Seq<u32>, n: nat)
    requires
        s.len() <= n,
    ensures
        chunks_value(chunks_padded(s, n)) == chunks_value(s),
{
    let p = chunks_padded(s, n);
    lemma_chunks_zero_top(p, s.len() as int);
    assert(p.subrange(0, s.len() as int) =~= s);
}

/// `String::push`: appends one character.
#[verifier::external_body]
fn push_char(text: &mut String, ch: char)
    ensures
        final(text)@ == old(text)@.push(ch),
{
    text.push(ch);
}

/// The character of digit `d`.
fn digit_char(d: u32) -> (ch: char)
    requires
        d < 10,
    ensures
        ch == decimal_char(d as nat),
{
    ((48 + d) as u8) as char
}

/// Appends the decimal notation of `v`.
fn push_decimal(text: &mut String, v: u32)
    ensures
        final(text)@ == old(text)@ + decimal_digits(v as nat),
    decreases v,
{
    if v >= 10 {
        push_decimal(text, v / 10);
    }
    let ghost mid = text@;
    push_char(text, digit_char(v % 10));
    proof {
        if v >= 10 {
            assert(old(text)@ + decimal_digits(v as nat) =~= (old(text)@ + decimal_digits((v / 10) as nat)).push(decimal_char((v % 10) as nat)));
        } else {
            assert(decimal_digits(v as nat) == seq![decimal_char(v as nat)]);
            assert(old(text)@ + decimal_digits(v as nat) =~= old(text)@.push(decimal_char(v as nat)));
        }
    }
}

/// Appends the lowest `k` decimal digits of `v`, zero-padded.
fn push_padded(text: &mut String, v: u32, k: u32)
    ensures
        final(text)@ == old(text)@ + padded_digits(v as nat, k as nat),
    decreases k,
{
    if k > 0 {
        push_padded(text, v / 10, k - 1);
        push_char(text, digit_char(v % 10));
        proof {
            assert(old(text)@ + padded_digits(v as nat, k as nat)
                =~= (old(text)@ + padded_digits((v / 10) as nat, (k - 1) as nat)).push(decimal_char((v % 10) as nat)));
        }
    } else {
        assert(old(text)@ + padded_digits(v as nat, 0) =~= old(text)@);
    }
}

/// Decimal notation of the number held in little-endian base-10^9 chunks.
pub fn decimal_string_of_chunks(chunks: &[u32]) -> (text: String)
    requires
        forall|i: int| 0 <= i < chunks@.len() ==> chunks@[i] < chunk_base(),
        chunks@.len() > 0 ==> chunks@.last() != 0,
    ensures
        text@ == decimal_digits(chunks_value(chunks@)),
{
    let n = chunks.len();
    let mut text = String::new();
    if n == 0 {
        push_char(&mut text, '0');
        proof {
            assert(decimal_digits(0) == seq![decimal_char(0)]);
            assert(text@ =~= seq!['0']);
        }
        return text;
    }
    let top = chunks[n - 1];
    push_decimal(&mut text, top);
    proof {
        let s = chunks@;
        assert(s.subrange(n - 1, n as int) =~= seq![top]);
        let one = seq![top];
        assert(one.drop_last() =~= Seq::<u32>::empty());
        assert(chunks_value(Seq::<u32>::empty()) == 0);
        assert(chunk_pow(0) == 1);
        assert(chunks_value(one) == chunks_value(one.drop_last()) + (one.last() as nat) * chunk_pow(0));
        assert(chunks_value(one) == top);
        assert(text@ =~= decimal_digits(top as nat));
        lemma_chunk_base_is_pow10();
    }
    let mut i: usize = n - 1;
    while i > 0
        invariant
            i < n,
            n == chunks@.len(),
            forall|j: int| 0 <= j < chunks@.len() ==> chunks@[j] < chunk_base(),
            chunks@.last() != 0,
            chunk_base() == pow10(9),
            text@ == decimal_digits(chunks_value(chunks@.subrange(i as int, n as int))),
            chunks_value(chunks@.subrange(i as int, n as int)) > 0,
        decreases i,
    {
        let k = i - 1;
        let c = chunks[k];
        push_padded(&mut text, c, 9);
        proof {
            let s = chunks@;
            let part = s.subrange(k as int, n as int);
            lemma_chunks_first(part);
            assert(part.subrange(1, part.len() as int) =~= s.subrange(i as int, n as int));
            assert(part[0] == c);
            let q = chunks_value(s.subrange(i as int, n as int));
            assert(q * pow10(9) == chunk_base() * q) by (nonlinear_arith)
                requires
                    chunk_base() == pow10(9),
            ;
            lemma_decimal_append(q, c as nat, 9);
        }
        i = k;
    }
    proof {
        assert(chunks@.subrange(0, n as int) =~= chunks@);
    }
    text
}

} // verus!
