//! Reading the generation number back out of a durable file's name.

use vstd::prelude::*;
use vstd::string::StringSliceAdditionalSpecFns;

verus! {

pub open spec fn is_decimal_digit(b: u8) -> bool {
    0x30 <= b <= 0x39
}

/// The number the decimal digits `digits` spell.
pub open spec fn decimal_value(digits: Seq<u8>) -> nat
    decreases digits.len(),
{
    if digits.len() == 0 {
        0
    } else {
        decimal_value(digits.drop_last()) * 10 + (digits.last() - 0x30) as nat
    }
}

/// `bytes` without one leading `+`.
pub open spec fn without_plus(bytes: Seq<u8>) -> Seq<u8> {
    if bytes.len() > 0 && bytes[0] == 0x2Bu8 {
        bytes.drop_first()
    } else {
        bytes
    }
}

pub open spec fn all_decimal_digits(digits: Seq<u8>) -> bool {
    forall|i: int| 0 <= i < digits.len() ==> is_decimal_digit(#[trigger] digits[i])
}

/// How `u64` parses text: an optional `+`, then at least one decimal digit,
/// and nothing larger than `u64::MAX`.
pub open spec fn parse_u64_bytes(bytes: Seq<u8>) -> Option<u64> {
    let digits = without_plus(bytes);
    if digits.len() == 0 || !all_decimal_digits(digits) || decimal_value(digits) > u64::MAX {
        None
    } else {
        Some(decimal_value(digits) as u64)
    }
}

/// The generation in a file name `prefix`, twenty characters of number, `suffix`.
pub open spec fn generation_of_name(name: Seq<u8>, prefix: Seq<u8>, suffix: Seq<u8>) -> Option<u64> {
    if name.len() < prefix.len() + suffix.len() || name.subrange(0, prefix.len() as int) != prefix
        || name.subrange(name.len() - suffix.len(), name.len() as int) != suffix
        || name.len() - prefix.len() - suffix.len() != 20 {
        None
    } else {
        parse_u64_bytes(name.subrange(prefix.len() as int, name.len() - suffix.len()))
    }
}

proof fn lemma_decimal_value_prefix(digits: Seq<u8>, k: int)
    requires
        0 <= k <= digits.len(),
        forall|i: int| 0 <= i < digits.len() ==> is_decimal_digit(#[trigger] digits[i]),
    ensures
        decimal_value(digits.take(k)) <= decimal_value(digits),
    decreases digits.len() - k,
{
    if k < digits.len() {
        let longer = digits.take(k + 1);
        assert(longer.drop_last() =~= digits.take(k));
        assert(longer.last() == digits[k]);
        lemma_decimal_value_prefix(digits, k + 1);
    } else {
        assert(digits.take(k) =~= digits);
    }
}

/// Parses `bytes[start..]` as `u64` text.
fn parse_u64_from(bytes: &[u8], start: usize, end: usize) -> (value: Option<u64>)
    requires
        start <= end <= bytes@.len(),
    ensures
        value == parse_u64_bytes(bytes@.subrange(start as int, end as int)),
{
    let ghost text = bytes@.subrange(start as int, end as int);
    let mut i = start;
    if i < end && bytes[i] == 0x2B {
        i = i + 1;
    }
    let ghost digits = bytes@.subrange(i as int, end as int);
    proof {
        if text.len() > 0 && text[0] == 0x2Bu8 {
            assert(digits =~= text.drop_first());
        } else {
            assert(digits =~= text);
        }
    }
    if i == end {
        return None;
    }
    let first = i;
    let mut value: u64 = 0;
    while i < end
        invariant
            first <= i <= end <= bytes@.len(),
            first < end,
            text == bytes@.subrange(start as int, end as int),
            digits == bytes@.subrange(first as int, end as int),
            digits == without_plus(text),
            forall|j: int| first <= j < i ==> is_decimal_digit(#[trigger] bytes@[j]),
            value == decimal_value(digits.take(i - first)),
        decreases end - i,
    {
        let b = bytes[i];
        if !(0x30 <= b && b <= 0x39) {
            proof {
                assert(digits[i - first] == b);
                assert(!is_decimal_digit(digits[i - first]));
                assert(!all_decimal_digits(digits));
                assert(parse_u64_bytes(text) is None);
            }
            return None;
        }
        let ghost k = i - first;
        proof {
            let longer = digits.take(k + 1);
            assert(longer.drop_last() =~= digits.take(k));
            assert(longer.last() == b);
            assert(decimal_value(longer) == value * 10 + (b - 0x30) as nat);
        }
        let scaled = value.checked_mul(10);
        let next = match scaled {
            Some(s) => s.checked_add((b - 0x30) as u64),
            None => None,
        };
        match next {
            Some(n) => {
                value = n;
            },
            None => {
                proof {
                    if all_decimal_digits(digits) {
                        lemma_decimal_value_prefix(digits, k + 1);
                        assert(decimal_value(digits) > u64::MAX);
                    }
                    assert(parse_u64_bytes(text) is None);
                }
                return None;
            },
        }
        i = i + 1;
    }
    proof {
        assert(digits.take(i - first) =~= digits);
        assert forall|j: int| 0 <= j < digits.len() implies is_decimal_digit(#[trigger] digits[j]) by {
            assert(digits[j] == bytes@[first + j]);
        }
    }
    Some(value)
}

/// The generation in a file name made of `prefix`, the generation written
/// as twenty decimal characters, and `suffix`.
pub fn parse_generation_name(name: &str, prefix: &str, suffix: &str) -> (generation: Option<u64>)
    ensures
        generation == generation_of_name(name.spec_bytes(), prefix.spec_bytes(), suffix.spec_bytes()),
{
    let n = name.as_bytes();
    let p = prefix.as_bytes();
    let x = suffix.as_bytes();
    if n.len() < p.len() || n.len() - p.len() < x.len() {
        return None;
    }
    let mut i: usize = 0;
    while i < p.len()
        invariant
            i <= p@.len() <= n@.len(),
            n@ == name.spec_bytes(),
            p@ == prefix.spec_bytes(),
            forall|j: int| 0 <= j < i ==> n@[j] == p@[j],
        decreases p@.len() - i,
    {
        if n[i] != p[i] {
            proof {
                assert(n@.subrange(0, p@.len() as int)[i as int] != p@[i as int]);
            }
            return None;
        }
        i = i + 1;
    }
    assert(n@.subrange(0, p@.len() as int) =~= p@);
    let name_len = n.len();
    let tail = name_len - x.len();
    let mut j: usize = 0;
    while j < x.len()
        invariant
            j <= x@.len(),
            tail + x@.len() == n@.len(),
            n@.len() == name_len,
            n@ == name.spec_bytes(),
            p@ == prefix.spec_bytes(),
            x@ == suffix.spec_bytes(),
            p@.len() <= tail,
            n@.subrange(0, p@.len() as int) == p@,
            forall|k: int| 0 <= k < j ==> n@[tail + k] == x@[k],
        decreases x@.len() - j,
    {
        if n[tail + j] != x[j] {
            proof {
                assert(n@.subrange(tail as int, n@.len() as int)[j as int] != x@[j as int]);
            }
            return None;
        }
        j = j + 1;
    }
    assert(n@.subrange(tail as int, n@.len() as int) =~= x@);
    if tail - p.len() != 20 {
        return None;
    }
    parse_u64_from(n, p.len(), tail)
}

} // verus!
