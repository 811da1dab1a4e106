//! Dense local identities for external entity ids, bit sets over them, and
//! bijective transports between id sets.

use std::collections::{BTreeMap, BTreeSet};
use vstd::prelude::*;
use crate::id_sets::{increasing_ids, lemma_ids_ordered, map_keys, same_ids, set_elements, set_of};
use vstd::layout::size_of;
use crate::retained::{sat_add, sat_mul, saturating_add, saturating_mul, vec_capacity};

verus! {

broadcast use vstd::std_specs::btree::group_btree_axioms, vstd::laws_cmp::group_laws_cmp;

/// An external entity identity.
pub type EntityId = u128;

/// A dense index of an entity within a compiled id set.
#[derive(Debug, Clone, Copy, PartialEq, Eq, Structural, PartialOrd, Ord, Hash)]
pub struct LocalEntityId(u32);

impl LocalEntityId {
    pub closed spec fn spec_index(self) -> int {
        self.0 as int
    }

    pub fn index(self) -> (index: usize)
        ensures
            index == self.spec_index(),
    {
        self.0 as usize
    }
}

/// Compiling more entities than local ids can number.
#[derive(Debug, Clone, Copy, PartialEq, Eq, Structural)]
pub enum DenseIdentityError {
    CapacityExceeded,
}

/// Bit `j` of `w` is set.
pub open spec fn has_bit(w: u64, j: u64) -> bool {
    (w >> j) & 1u64 == 1u64
}

/// The indices whose bits are set in the first `k` words.
pub open spec fn bits_of(words: Seq<u64>, k: int) -> Set<int> {
    Set::new(|i: int| 0 <= i < 64 * k && has_bit(words[i / 64], (i % 64) as u64))
}

/// The indices `base + j`, for `j < n`, whose bit `j` is set in `w`.
pub open spec fn word_bits(w: u64, base: int, n: int) -> Set<int> {
    Set::new(|i: int| base <= i < base + n && has_bit(w, (i - base) as u64))
}

/// How many of the low `n` bits of `w` are set.
pub open spec fn bit_count(w: u64, n: nat) -> nat
    decreases n,
{
    if n == 0 {
        0
    } else {
        bit_count(w, (n - 1) as nat) + if has_bit(w, (n - 1) as u64) { 1nat } else { 0nat }
    }
}

/// How many bits are set in the first `k` words.
pub open spec fn total_bits(words: Seq<u64>, k: nat) -> nat
    decreases k,
{
    if k == 0 {
        0
    } else {
        total_bits(words, (k - 1) as nat) + bit_count(words[k - 1], 64)
    }
}

proof fn lemma_bit_or(w: u64, b: u64, j: u64)
    requires
        b < 64,
        j < 64,
    ensures
        has_bit(w | (1u64 << b), j) == (has_bit(w, j) || j == b),
{
    assert(((w | (1u64 << b)) >> j) & 1u64 == 1u64 <==> ((w >> j) & 1u64 == 1u64 || j == b)) by (bit_vector)
        requires
            b < 64,
            j < 64,
    ;
}

proof fn lemma_bit_clear(w: u64, b: u64, j: u64)
    requires
        b < 64,
        j < 64,
    ensures
        has_bit(w & !(1u64 << b), j) == (has_bit(w, j) && j != b),
{
    assert(((w & !(1u64 << b)) >> j) & 1u64 == 1u64 <==> ((w >> j) & 1u64 == 1u64 && j != b)) by (bit_vector)
        requires
            b < 64,
            j < 64,
    ;
}

proof fn lemma_bit_mask(w: u64, b: u64)
    requires
        b < 64,
    ensures
        (w & (1u64 << b) != 0) == has_bit(w, b),
{
    assert((w & (1u64 << b) != 0) <==> ((w >> b) & 1u64 == 1u64)) by (bit_vector)
        requires
            b < 64,
    ;
}

proof fn lemma_zero_word(j: u64)
    ensures
        !has_bit(0, j),
{
    assert((0u64 >> j) & 1u64 != 1u64) by (bit_vector);
}

proof fn lemma_nonzero_word(w: u64)
    requires
        w != 0,
    ensures
        exists|j: u64| j < 64 && has_bit(w, j),
{
    vstd::std_specs::bits::axiom_u64_trailing_zeros(w);
    let j = vstd::std_specs::bits::u64_trailing_zeros(w) as u64;
    assert(has_bit(w, j));
}

proof fn lemma_word_bits_len(w: u64, base: int, n: nat)
    requires
        n <= 64,
    ensures
        word_bits(w, base, n as int).finite(),
        word_bits(w, base, n as int).len() == bit_count(w, n),
    decreases n,
{
    if n == 0 {
        assert(word_bits(w, base, 0) =~= Set::<int>::empty());
    } else {
        let m = (n - 1) as nat;
        lemma_word_bits_len(w, base, m);
        let prev = word_bits(w, base, m as int);
        if has_bit(w, m as u64) {
            assert(word_bits(w, base, n as int) =~= prev.insert(base + m));
        } else {
            assert(word_bits(w, base, n as int) =~= prev);
        }
    }
}

proof fn lemma_bits_of_len(words: Seq<u64>, k: nat)
    requires
        k <= words.len(),
    ensures
        bits_of(words, k as int).finite(),
        bits_of(words, k as int).len() == total_bits(words, k),
    decreases k,
{
    if k == 0 {
        assert(bits_of(words, 0) =~= Set::<int>::empty());
    } else {
        let m = (k - 1) as nat;
        lemma_bits_of_len(words, m);
        lemma_word_bits_len(words[m as int], 64 * m as int, 64);
        let a = bits_of(words, m as int);
        let b = word_bits(words[m as int], 64 * m as int, 64);
        assert forall|i: int| #[trigger] bits_of(words, k as int).contains(i) <==> (a + b).contains(i) by {
            if 64 * m <= i < 64 * m + 64 {
                assert(i / 64 == m);
                assert(i % 64 == i - 64 * m);
            }
        }
        assert(bits_of(words, k as int) =~= a + b);
        assert(a.disjoint(b));
        vstd::set_lib::lemma_set_disjoint_lens(a, b);
    }
}

proof fn lemma_total_bits_monotone(words: Seq<u64>, j: nat, k: nat)
    requires
        j <= k,
    ensures
        total_bits(words, j) <= total_bits(words, k),
    decreases k,
{
    if j < k {
        lemma_total_bits_monotone(words, j, (k - 1) as nat);
    }
}

/// A set of local ids, one bit per id.
#[derive(Debug, Clone, PartialEq, Eq)]
pub struct DenseEntitySet {
    words: Vec<u64>,
}

impl DenseEntitySet {
    pub closed spec fn spec_words(self) -> Seq<u64> {
        self.words@
    }

    /// The indices of the local ids in the set.
    pub open spec fn members(self) -> Set<int> {
        bits_of(self.spec_words(), self.spec_words().len() as int)
    }

    /// Every member is the index of a local id.
    pub open spec fn wf(self) -> bool {
        forall|i: int| #[trigger] self.members().contains(i) ==> i <= u32::MAX
    }

    /// An empty set with room for `entity_capacity` ids without growing.
    pub fn with_capacity(entity_capacity: usize) -> (set: Self)
        ensures
            set.wf(),
            set.members() == Set::<int>::empty(),
            set.spec_words().len() == entity_capacity / 64 + if entity_capacity % 64 == 0 { 0int } else { 1int },
    {
        let count: usize = entity_capacity / 64 + if entity_capacity % 64 == 0 { 0 } else { 1 };
        let mut words: Vec<u64> = Vec::new();
        let mut i: usize = 0;
        while i < count
            invariant
                i <= count,
                words@.len() == i,
                forall|j: int| 0 <= j < i ==> words@[j] == 0u64,
            decreases count - i,
        {
            words.push(0);
            i = i + 1;
        }
        let set = DenseEntitySet { words };
        proof {
            assert forall|i: int| !#[trigger] set.members().contains(i) by {
                if 0 <= i < 64 * count {
                    lemma_zero_word((i % 64) as u64);
                }
            }
            assert(set.members() =~= Set::<int>::empty());
        }
        set
    }

    pub fn insert(&mut self, entity: LocalEntityId)
        requires
            old(self).wf(),
        ensures
            final(self).wf(),
            final(self).members() == old(self).members().insert(entity.spec_index()),
    {
        let index = entity.index();
        let word = index / 64;
        let bit = index % 64;
        let ghost before = self.members();
        while self.words.len() <= word
            invariant
                self.members() == before,
                word == index / 64,
            decreases word + 1 - self.words@.len(),
        {
            let ghost old_words = self.words@;
            self.words.push(0);
            proof {
                assert forall|i: int| #[trigger] self.members().contains(i) <==> before.contains(i) by {
                    assert(bits_of(old_words, old_words.len() as int) == before);
                    if 0 <= i < 64 * old_words.len() {
                        assert(i / 64 < old_words.len());
                        assert(self.words@[i / 64] == old_words[i / 64]);
                    } else if 64 * old_words.len() <= i < 64 * self.words@.len() {
                        assert(i / 64 == old_words.len());
                        lemma_zero_word((i % 64) as u64);
                    }
                }
                assert(self.members() =~= before);
            }
        }
        let ghost grown = self.words@;
        let w = self.words[word];
        self.words.set(word, w | (1u64 << (bit as u64)));
        proof {
            assert forall|i: int| #[trigger] self.members().contains(i) <==> before.insert(entity.spec_index()).contains(i) by {
                assert(bits_of(grown, grown.len() as int) == before);
                if 0 <= i < 64 * grown.len() {
                    if i / 64 == word {
                        lemma_bit_or(w, bit as u64, (i % 64) as u64);
                    } else {
                        assert(self.words@[i / 64] == grown[i / 64]);
                    }
                }
                if i == entity.spec_index() {
                    assert(i / 64 == word);
                }
            }
            assert(self.members() =~= before.insert(entity.spec_index()));
        }
    }

    /// Removes `entity`, telling whether it was present.
    pub fn remove(&mut self, entity: LocalEntityId) -> (existed: bool)
        requires
            old(self).wf(),
        ensures
            final(self).wf(),
            existed == old(self).members().contains(entity.spec_index()),
            final(self).members() == old(self).members().remove(entity.spec_index()),
    {
        let index = entity.index();
        let word = index / 64;
        let bit = index % 64;
        if word >= self.words.len() {
            proof {
                assert(!self.members().contains(entity.spec_index()));
                assert(self.members() =~= self.members().remove(entity.spec_index()));
            }
            return false;
        }
        let ghost before = self.members();
        let ghost words0 = self.words@;
        let bits = self.words[word];
        let mask = 1u64 << (bit as u64);
        let existed = bits & mask != 0;
        proof {
            lemma_bit_mask(bits, bit as u64);
            assert(entity.spec_index() / 64 == word && entity.spec_index() % 64 == bit);
        }
        self.words.set(word, bits & !mask);
        proof {
            assert forall|i: int| #[trigger] self.members().contains(i) <==> before.remove(entity.spec_index()).contains(i) by {
                if 0 <= i < 64 * words0.len() {
                    if i / 64 == word {
                        lemma_bit_clear(bits, bit as u64, (i % 64) as u64);
                    } else {
                        assert(self.words@[i / 64] == words0[i / 64]);
                    }
                }
            }
            assert(self.members() =~= before.remove(entity.spec_index()));
        }
        existed
    }

    pub fn contains(&self, entity: LocalEntityId) -> (found: bool)
        ensures
            found == self.members().contains(entity.spec_index()),
    {
        let index = entity.index();
        let word = index / 64;
        let bit = index % 64;
        if word >= self.words.len() {
            return false;
        }
        let bits = self.words[word];
        proof {
            lemma_bit_mask(bits, bit as u64);
            assert(entity.spec_index() / 64 == word && entity.spec_index() % 64 == bit);
        }
        bits & (1u64 << (bit as u64)) != 0
    }

    /// How many ids the set holds.
    pub fn len(&self) -> (count: usize)
        requires
            self.members().len() <= usize::MAX,
        ensures
            self.members().finite(),
            count == self.members().len(),
    {
        proof {
            lemma_bits_of_len(self.words@, self.words@.len());
        }
        let mut count: usize = 0;
        let mut t: usize = 0;
        while t < self.words.len()
            invariant
                t <= self.words@.len(),
                count == total_bits(self.words@, t as nat),
                total_bits(self.words@, self.words@.len()) <= usize::MAX,
            decreases self.words@.len() - t,
        {
            let w = self.words[t];
            let mut ones: usize = 0;
            let mut j: u64 = 0;
            proof {
                lemma_total_bits_monotone(self.words@, (t + 1) as nat, self.words@.len());
            }
            while j < 64
                invariant
                    j <= 64,
                    ones == bit_count(w, j as nat),
                    count + bit_count(w, 64) <= usize::MAX,
                decreases 64 - j,
            {
                proof {
                    lemma_bit_count_monotone(w, (j + 1) as nat, 64);
                }
                if (w >> j) & 1u64 == 1u64 {
                    ones = ones + 1;
                }
                j = j + 1;
            }
            count = count + ones;
            t = t + 1;
        }
        count
    }

    pub fn is_empty(&self) -> (empty: bool)
        ensures
            empty == (self.members() == Set::<int>::empty()),
    {
        let mut t: usize = 0;
        while t < self.words.len()
            invariant
                t <= self.words@.len(),
                forall|k: int| 0 <= k < t ==> self.words@[k] == 0u64,
            decreases self.words@.len() - t,
        {
            if self.words[t] != 0 {
                proof {
                    lemma_nonzero_word(self.words@[t as int]);
                    let j = choose|j: u64| j < 64 && has_bit(self.words@[t as int], j);
                    let i = 64 * t + j;
                    assert(i / 64 == t && i % 64 == j);
                    assert(self.members().contains(i));
                }
                return false;
            }
            t = t + 1;
        }
        proof {
            assert forall|i: int| !#[trigger] self.members().contains(i) by {
                if 0 <= i < 64 * self.words@.len() {
                    lemma_zero_word((i % 64) as u64);
                }
            }
            assert(self.members() =~= Set::<int>::empty());
        }
        true
    }

    /// The ids of the set in increasing order.
    /// A strictly increasing listing of exactly the members has as many
    /// entries as the set has members: the length of a set is the number of
    /// ids its iteration yields.
    pub proof fn lemma_iteration_count(self, ids: Seq<LocalEntityId>)
        requires
            forall|a: int, b: int| 0 <= a < b < ids.len() ==> ids[a].spec_index() < ids[b].spec_index(),
            forall|k: int| 0 <= k < ids.len() ==> self.members().contains(#[trigger] ids[k].spec_index()),
            forall|i: int| #[trigger] self.members().contains(i) ==> exists|k: int| 0 <= k < ids.len() && ids[k].spec_index() == i,
        ensures
            self.members().finite(),
            ids.len() == self.members().len(),
    {
        let s = ids.map_values(|x: LocalEntityId| x.spec_index());
        assert(s.no_duplicates()) by {
            assert forall|a: int, b: int| 0 <= a < s.len() && 0 <= b < s.len() && a != b implies s[a] != s[b] by {
                if a < b {
                    assert(ids[a].spec_index() < ids[b].spec_index());
                } else {
                    assert(ids[b].spec_index() < ids[a].spec_index());
                }
            }
        }
        assert(s.to_set() =~= self.members()) by {
            assert forall|i: int| s.to_set().contains(i) <==> #[trigger] self.members().contains(i) by {
                if self.members().contains(i) {
                    let k = choose|k: int| 0 <= k < ids.len() && ids[k].spec_index() == i;
                    assert(s[k] == i);
                }
                if s.to_set().contains(i) {
                    let k = choose|k: int| 0 <= k < s.len() && s[k] == i;
                    assert(self.members().contains(ids[k].spec_index()));
                }
            }
        }
        s.unique_seq_to_set();
    }

    pub fn iter(&self) -> (ids: Vec<LocalEntityId>)
        requires
            self.wf(),
        ensures
            forall|a: int, b: int| 0 <= a < b < ids@.len() ==> ids@[a].spec_index() < ids@[b].spec_index(),
            forall|k: int| 0 <= k < ids@.len() ==> self.members().contains(#[trigger] ids@[k].spec_index()),
            forall|i: int| #[trigger] self.members().contains(i) ==> exists|k: int| 0 <= k < ids@.len() && ids@[k].spec_index() == i,
    {
        let mut ids: Vec<LocalEntityId> = Vec::new();
        let mut t: usize = 0;
        while t < self.words.len()
            invariant
                t <= self.words@.len(),
                self.wf(),
                forall|a: int, b: int| 0 <= a < b < ids@.len() ==> ids@[a].spec_index() < ids@[b].spec_index(),
                forall|k: int| 0 <= k < ids@.len() ==> self.members().contains(#[trigger] ids@[k].spec_index())
                    && ids@[k].spec_index() < 64 * t,
                forall|i: int| #[trigger] self.members().contains(i) && i < 64 * t ==> exists|k: int| 0 <= k < ids@.len() && ids@[k].spec_index() == i,
            decreases self.words@.len() - t,
        {
            let w = self.words[t];
            let mut j: u64 = 0;
            while j < 64
                invariant
                    j <= 64,
                    t < self.words@.len(),
                    w == self.words@[t as int],
                    self.wf(),
                    forall|a: int, b: int| 0 <= a < b < ids@.len() ==> ids@[a].spec_index() < ids@[b].spec_index(),
                    forall|k: int| 0 <= k < ids@.len() ==> self.members().contains(#[trigger] ids@[k].spec_index())
                        && ids@[k].spec_index() < 64 * t + j,
                    forall|i: int| #[trigger] self.members().contains(i) && i < 64 * t + j ==> exists|k: int| 0 <= k < ids@.len() && ids@[k].spec_index() == i,
                decreases 64 - j,
            {
                if (w >> j) & 1u64 == 1u64 {
                    let ghost i = 64 * t + j;
                    proof {
                        assert(i / 64 == t && i % 64 == j);
                        assert(self.members().contains(i));
                    }
                    let index = t * 64 + (j as usize);
                    let id = LocalEntityId(index as u32);
                    let ghost before = ids@;
                    ids.push(id);
                    proof {
                        assert(ids@[ids@.len() - 1] == id);
                        assert forall|x: int| #[trigger] self.members().contains(x) && x < 64 * t + j + 1 implies exists|k: int| 0 <= k < ids@.len() && ids@[k].spec_index() == x by {
                            if x == i {
                                assert(ids@[ids@.len() - 1].spec_index() == x);
                            } else {
                                let k = choose|k: int| 0 <= k < before.len() && before[k].spec_index() == x;
                                assert(ids@[k] == before[k]);
                            }
                        }
                    }
                } else {
                    proof {
                        assert forall|x: int| #[trigger] self.members().contains(x) && x < 64 * t + j + 1 implies exists|k: int| 0 <= k < ids@.len() && ids@[k].spec_index() == x by {
                            if x == 64 * t + j {
                                assert(x / 64 == t && x % 64 == j);
                            }
                        }
                    }
                }
                j = j + 1;
            }
            t = t + 1;
        }
        ids
    }
}

proof fn lemma_bit_count_monotone(w: u64, j: nat, k: nat)
    requires
        j <= k,
    ensures
        bit_count(w, j) <= bit_count(w, k),
    decreases k,
{
    if j < k {
        lemma_bit_count_monotone(w, j, (k - 1) as nat);
    }
}

impl Default for DenseEntitySet {
    fn default() -> (set: Self)
        ensures
            set.wf(),
            set.members() == Set::<int>::empty(),
    {
        let set = DenseEntitySet { words: Vec::new() };
        assert(set.members() =~= Set::<int>::empty());
        set
    }
}

/// External ids numbered densely, in increasing order, by local ids.
#[derive(Debug, PartialEq, Eq)]
pub struct DenseEntityIds {
    external_by_local: Vec<EntityId>,
    local_by_external: BTreeMap<EntityId, LocalEntityId>,
}

impl DenseEntityIds {
    /// The external ids, indexed by local id.
    pub closed spec fn externals(self) -> Seq<EntityId> {
        self.external_by_local@
    }

    /// The externals are increasing, each numbered by a local id, and the
    /// lookup map sends each external back to its position.
    #[verifier::type_invariant]
    closed spec fn inv(self) -> bool {
        &&& increasing_ids(self.external_by_local@)
        &&& self.external_by_local@.len() <= u32::MAX + 1
        &&& forall|i: int| 0 <= i < self.external_by_local@.len() ==>
            self.local_by_external@.contains_key(#[trigger] self.external_by_local@[i])
                && self.local_by_external@[self.external_by_local@[i]].spec_index() == i
        &&& forall|k: EntityId| #[trigger] self.local_by_external@.contains_key(k) ==> self.external_by_local@.contains(k)
    }

    /// Numbers the ids of `entities` in increasing order.
    pub fn compile(entities: &BTreeSet<EntityId>) -> (result: Result<Self, DenseIdentityError>)
        ensures
            entities@.len() > u32::MAX ==> result == Err::<Self, DenseIdentityError>(DenseIdentityError::CapacityExceeded),
            entities@.len() <= u32::MAX ==> (result matches Ok(ids) && increasing_ids(ids.externals())
                && ids.externals().to_set() == entities@),
    {
        proof {
            lemma_ids_ordered();
        }
        if entities.len() > u32::MAX as usize {
            return Err(DenseIdentityError::CapacityExceeded);
        }
        let external_by_local = set_elements(entities);
        let mut local_by_external: BTreeMap<EntityId, LocalEntityId> = BTreeMap::new();
        let mut index: usize = 0;
        while index < external_by_local.len()
            invariant
                index <= external_by_local@.len(),
                external_by_local@.len() <= u32::MAX,
                increasing_ids(external_by_local@),
                forall|i: int| 0 <= i < index ==>
                    local_by_external@.contains_key(#[trigger] external_by_local@[i])
                        && local_by_external@[external_by_local@[i]].spec_index() == i,
                forall|k: EntityId| #[trigger] local_by_external@.contains_key(k) ==>
                    exists|i: int| 0 <= i < index && external_by_local@[i] == k,
            decreases external_by_local@.len() - index,
        {
            let local = LocalEntityId(index as u32);
            local_by_external.insert(external_by_local[index], local);
            proof {
                assert forall|i: int| 0 <= i < index + 1 implies
                    local_by_external@.contains_key(#[trigger] external_by_local@[i])
                        && local_by_external@[external_by_local@[i]].spec_index() == i by {
                    if i < index {
                        assert(external_by_local@[i] < external_by_local@[index as int]);
                    }
                }
                assert forall|k: EntityId| #[trigger] local_by_external@.contains_key(k) implies
                    exists|i: int| 0 <= i < index + 1 && external_by_local@[i] == k by {
                    if k != external_by_local@[index as int] {
                        let i = choose|i: int| 0 <= i < index && external_by_local@[i] == k;
                        assert(external_by_local@[i] == k);
                    }
                }
            }
            index = index + 1;
        }
        proof {
            assert forall|k: EntityId| #[trigger] local_by_external@.contains_key(k) implies external_by_local@.contains(k) by {
                let i = choose|i: int| 0 <= i < index && external_by_local@[i] == k;
                assert(external_by_local@[i] == k);
            }
        }
        Ok(DenseEntityIds { external_by_local, local_by_external })
    }

    pub fn len(&self) -> (len: usize)
        ensures
            len == self.externals().len(),
    {
        self.external_by_local.len()
    }

    pub fn is_empty(&self) -> (empty: bool)
        ensures
            empty == (self.externals().len() == 0),
    {
        self.external_by_local.len() == 0
    }

    /// The retained-size estimate when the id vector has room for `room` ids.
    pub open spec fn retained_bytes_with(self, room: int) -> int {
        sat_add(
            sat_add(size_of::<DenseEntityIds>() as int, sat_mul(room, size_of::<EntityId>() as int)),
            sat_mul(self.externals().len() as int, size_of::<(EntityId, LocalEntityId)>() as int),
        )
    }

    /// A deterministic estimate of the bytes the ids retain for physical
    /// budgeting: the value itself, the room of the id vector and one lookup
    /// entry per id (the lookup tree's own node overhead is not counted).
    pub fn estimated_retained_bytes(&self) -> (bytes: usize)
        ensures
            exists|room: int| room >= self.externals().len() && bytes == #[trigger] self.retained_bytes_with(room),
    {
        proof {
            use_type_invariant(self);
            lemma_ids_ordered();
            assert(self.local_by_external@.dom() =~= self.external_by_local@.to_set()) by {
                assert forall|k: EntityId| self.local_by_external@.dom().contains(k) <==> self.external_by_local@.to_set().contains(k) by {
                    if self.external_by_local@.to_set().contains(k) {
                        let i = choose|i: int| 0 <= i < self.external_by_local@.len() && self.external_by_local@[i] == k;
                        assert(self.local_by_external@.contains_key(self.external_by_local@[i]));
                    }
                }
            }
            self.external_by_local@.unique_seq_to_set();
        }
        let room = vec_capacity(&self.external_by_local);
        let bytes = saturating_add(
            saturating_add(core::mem::size_of::<Self>(), saturating_mul(room, core::mem::size_of::<EntityId>())),
            saturating_mul(self.local_by_external.len(), core::mem::size_of::<(EntityId, LocalEntityId)>()),
        );
        assert(bytes == self.retained_bytes_with(room as int));
        bytes
    }

    /// The local id of `external`, if it was compiled.
    pub fn local(&self, external: EntityId) -> (local: Option<LocalEntityId>)
        ensures
            local is None <==> !self.externals().contains(external),
            local matches Some(l) ==> 0 <= l.spec_index() < self.externals().len()
                && self.externals()[l.spec_index()] == external,
    {
        proof {
            use_type_invariant(self);
            lemma_ids_ordered();
        }
        match self.local_by_external.get(&external) {
            Some(local) => {
                proof {
                    assert(self.external_by_local@.contains(external));
                    let i = choose|i: int| 0 <= i < self.external_by_local@.len() && self.external_by_local@[i] == external;
                    assert(self.local_by_external@[self.external_by_local@[i]].spec_index() == i);
                }
                Some(*local)
            },
            None => {
                proof {
                    if self.external_by_local@.contains(external) {
                        let i = choose|i: int| 0 <= i < self.external_by_local@.len() && self.external_by_local@[i] == external;
                        assert(self.local_by_external@.contains_key(self.external_by_local@[i]));
                    }
                }
                None
            },
        }
    }

    /// The external id numbered by `local`.
    pub fn external(&self, local: LocalEntityId) -> (external: Option<EntityId>)
        ensures
            external == (if local.spec_index() < self.externals().len() {
                Some(self.externals()[local.spec_index()])
            } else {
                None
            }),
    {
        self.external_at(local.index())
    }

    /// The external id at position `index`.
    pub fn external_at(&self, index: usize) -> (external: Option<EntityId>)
        ensures
            external == (if index < self.externals().len() { Some(self.externals()[index as int]) } else { None }),
    {
        if index < self.external_by_local.len() {
            Some(self.external_by_local[index])
        } else {
            None
        }
    }
}

/// A copy of `ids`.
fn copy_ids(ids: &Vec<EntityId>) -> (copy: Vec<EntityId>)
    ensures
        copy@ == ids@,
{
    let mut copy: Vec<EntityId> = Vec::new();
    let mut i: usize = 0;
    while i < ids.len()
        invariant
            i <= ids@.len(),
            copy@ == ids@.take(i as int),
        decreases ids@.len() - i,
    {
        copy.push(ids[i]);
        i = i + 1;
        assert(copy@ =~= ids@.take(i as int));
    }
    assert(ids@.take(i as int) =~= ids@);
    copy
}

impl Clone for DenseEntityIds {
    fn clone(&self) -> (copy: Self)
        ensures
            copy.externals() == self.externals(),
    {
        proof {
            use_type_invariant(self);
        }
        DenseEntityIds {
            external_by_local: copy_ids(&self.external_by_local),
            local_by_external: self.local_by_external.clone(),
        }
    }
}

impl Default for DenseEntityIds {
    fn default() -> (ids: Self)
        ensures
            ids.externals().len() == 0,
    {
        DenseEntityIds { external_by_local: Vec::new(), local_by_external: BTreeMap::new() }
    }
}

/// Why two id sets are not related by a bijective transport.
#[derive(Debug, Clone, Copy, PartialEq, Eq, Structural)]
pub enum IdentityTransportError {
    SourceCoverageMismatch,
    TargetCoverageMismatch,
    NotInjective,
    CompositionDomainMismatch,
}

/// `f` sends distinct ids to distinct ids.
pub open spec fn injective(f: Map<EntityId, EntityId>) -> bool {
    forall|x: EntityId, y: EntityId| #[trigger] f.contains_key(x) && #[trigger] f.contains_key(y) && f[x] == f[y] ==> x == y
}

/// The ids `f` maps onto.
pub open spec fn image_of(f: Map<EntityId, EntityId>) -> Set<EntityId> {
    Set::new(|y: EntityId| exists|x: EntityId| #[trigger] f.contains_key(x) && f[x] == y)
}

/// `g` undoes `f` and `f` undoes `g`.
pub open spec fn inverse_maps(f: Map<EntityId, EntityId>, g: Map<EntityId, EntityId>) -> bool {
    &&& forall|x: EntityId| #[trigger] f.contains_key(x) ==> g.contains_key(f[x]) && g[f[x]] == x
    &&& forall|y: EntityId| #[trigger] g.contains_key(y) ==> f.contains_key(g[y]) && f[g[y]] == y
}

/// `f`, then `g`.
pub open spec fn compose(f: Map<EntityId, EntityId>, g: Map<EntityId, EntityId>) -> Map<EntityId, EntityId> {
    Map::new(|x: EntityId| f.contains_key(x) && g.contains_key(f[x]), |x: EntityId| g[f[x]])
}

/// The identity on `ids`.
pub open spec fn identity_on(ids: Set<EntityId>) -> Map<EntityId, EntityId> {
    Map::new(|x: EntityId| ids.contains(x), |x: EntityId| x)
}

/// The ids that the keys before position `i` map to.
spec fn prefix_image(f: Map<EntityId, EntityId>, keys: Seq<EntityId>, i: int) -> Set<EntityId> {
    Set::new(|y: EntityId| exists|j: int| 0 <= j < i && #[trigger] f[keys[j]] == y)
}

/// The image of `f` over its increasing keys, and whether `f` is injective.
fn image_set(f: &BTreeMap<EntityId, EntityId>, keys: &Vec<EntityId>) -> (image: BTreeSet<EntityId>)
    requires
        increasing_ids(keys@),
        keys@.to_set() == f@.dom(),
        keys@.len() == f@.dom().len(),
    ensures
        image@ == image_of(f@),
        image@.finite(),
        image@.len() == f@.dom().len() <==> injective(f@),
{
    proof {
        lemma_ids_ordered();
    }
    let mut image: BTreeSet<EntityId> = BTreeSet::new();
    let mut i: usize = 0;
    while i < keys.len()
        invariant
            i <= keys@.len(),
            increasing_ids(keys@),
            keys@.to_set() == f@.dom(),
            image@ == prefix_image(f@, keys@, i as int),
            image@.finite(),
            image@.len() <= i,
            image@.len() == i ==> forall|a: int, b: int| 0 <= a < b < i ==> f@[keys@[a]] != f@[keys@[b]],
            image@.len() < i ==> exists|a: int, b: int| 0 <= a < b < i && f@[keys@[a]] == f@[keys@[b]],
        decreases keys@.len() - i,
    {
        let key = keys[i];
        assert(keys@.to_set().contains(key));
        let value = match f.get(&key) {
            Some(v) => *v,
            None => {
                proof {
                    assert(false);
                }
                0
            },
        };
        let ghost before = image@;
        image.insert(value);
        proof {
            assert(image@ =~= prefix_image(f@, keys@, i + 1)) by {
                assert forall|y: EntityId| #[trigger] image@.contains(y) <==> prefix_image(f@, keys@, i + 1).contains(y) by {
                    if prefix_image(f@, keys@, i + 1).contains(y) && y != value {
                        let j = choose|j: int| 0 <= j < i + 1 && #[trigger] f@[keys@[j]] == y;
                        assert(j < i);
                        assert(prefix_image(f@, keys@, i as int).contains(y));
                    }
                    if before.contains(y) {
                        let j = choose|j: int| 0 <= j < i && #[trigger] f@[keys@[j]] == y;
                        assert(prefix_image(f@, keys@, i + 1).contains(y));
                    }
                    if y == value {
                        assert(f@[keys@[i as int]] == y);
                    }
                }
            }
            if before.contains(value) {
                let j = choose|j: int| 0 <= j < i && #[trigger] f@[keys@[j]] == value;
                assert(f@[keys@[j]] == f@[keys@[i as int]]);
                assert(image@ =~= before);
            } else {
                assert forall|a: int, b: int| 0 <= a < b < i + 1 && before.len() == i implies f@[keys@[a]] != f@[keys@[b]] by {
                    if b == i {
                        assert(before.contains(f@[keys@[a]]));
                    }
                }
                if before.len() < i {
                    let (a, b) = choose|a: int, b: int| 0 <= a < b < i && f@[keys@[a]] == f@[keys@[b]];
                    assert(0 <= a < b < i + 1 && f@[keys@[a]] == f@[keys@[b]]);
                }
            }
        }
        i = i + 1;
    }
    proof {
        assert(image@ =~= image_of(f@)) by {
            assert forall|y: EntityId| #[trigger] image@.contains(y) <==> image_of(f@).contains(y) by {
                if image@.contains(y) {
                    let j = choose|j: int| 0 <= j < i && #[trigger] f@[keys@[j]] == y;
                    assert(keys@.to_set().contains(keys@[j]));
                    assert(f@.contains_key(keys@[j]));
                }
                if image_of(f@).contains(y) {
                    let x = choose|x: EntityId| #[trigger] f@.contains_key(x) && f@[x] == y;
                    assert(keys@.to_set().contains(x));
                    let j = choose|j: int| 0 <= j < keys@.len() && keys@[j] == x;
                    assert(f@[keys@[j]] == y);
                }
            }
        }
        if image@.len() == f@.dom().len() {
            assert forall|x: EntityId, y: EntityId| #[trigger] f@.contains_key(x) && #[trigger] f@.contains_key(y) && f@[x] == f@[y] implies x == y by {
                assert(keys@.to_set().contains(x));
                assert(keys@.to_set().contains(y));
                let a = choose|a: int| 0 <= a < keys@.len() && keys@[a] == x;
                let b = choose|b: int| 0 <= b < keys@.len() && keys@[b] == y;
                if a < b {
                    assert(f@[keys@[a]] != f@[keys@[b]]);
                } else if b < a {
                    assert(f@[keys@[b]] != f@[keys@[a]]);
                }
            }
        } else {
            let (a, b) = choose|a: int, b: int| 0 <= a < b < i && f@[keys@[a]] == f@[keys@[b]];
            assert(keys@[a] < keys@[b]);
            assert(keys@.to_set().contains(keys@[a]));
            assert(keys@.to_set().contains(keys@[b]));
            assert(f@.contains_key(keys@[a]) && f@.contains_key(keys@[b]));
        }
    }
    image
}

/// A bijection between two sets of entity ids, with its inverse.
#[derive(Debug, PartialEq, Eq)]
pub struct IdentityTransport {
    forward: BTreeMap<EntityId, EntityId>,
    backward: BTreeMap<EntityId, EntityId>,
}

impl IdentityTransport {
    /// Where each source id goes.
    pub closed spec fn forward_map(self) -> Map<EntityId, EntityId> {
        self.forward@
    }

    /// Where each target id comes from.
    pub closed spec fn backward_map(self) -> Map<EntityId, EntityId> {
        self.backward@
    }

    /// The two directions undo each other.
    pub open spec fn wf(self) -> bool {
        inverse_maps(self.forward_map(), self.backward_map())
    }

    #[verifier::type_invariant]
    closed spec fn inv(self) -> bool {
        inverse_maps(self.forward@, self.backward@)
    }

    /// The transport that keeps every id of `ids`.
    pub fn identity(ids: &BTreeSet<EntityId>) -> (transport: Self)
        ensures
            transport.wf(),
            transport.forward_map() == identity_on(ids@),
            transport.backward_map() == identity_on(ids@),
    {
        proof {
            lemma_ids_ordered();
        }
        let elements = set_elements(ids);
        let mut forward: BTreeMap<EntityId, EntityId> = BTreeMap::new();
        let mut backward: BTreeMap<EntityId, EntityId> = BTreeMap::new();
        let mut i: usize = 0;
        while i < elements.len()
            invariant
                i <= elements@.len(),
                forward@ == identity_on(elements@.take(i as int).to_set()),
                backward@ == identity_on(elements@.take(i as int).to_set()),
            decreases elements@.len() - i,
        {
            let id = elements[i];
            forward.insert(id, id);
            backward.insert(id, id);
            proof {
                let prev = elements@.take(i as int);
                let next = elements@.take(i + 1);
                assert(next =~= prev.push(id));
                assert forall|x: EntityId| next.to_set().contains(x) <==> prev.to_set().insert(id).contains(x) by {
                    if next.to_set().contains(x) {
                        let k = choose|k: int| 0 <= k < next.len() && next[k] == x;
                        if k < i {
                            assert(prev[k] == x);
                        }
                    }
                    if prev.to_set().contains(x) {
                        let k = choose|k: int| 0 <= k < prev.len() && prev[k] == x;
                        assert(next[k] == x);
                    }
                    if x == id {
                        assert(next[i as int] == x);
                    }
                }
                assert(next.to_set() =~= prev.to_set().insert(id));
                assert(forward@ =~= identity_on(next.to_set()));
                assert(backward@ =~= identity_on(next.to_set()));
            }
            i = i + 1;
        }
        proof {
            assert(elements@.take(i as int) =~= elements@);
        }
        IdentityTransport { forward, backward }
    }

    /// The transport along `forward`, when it maps `source` one-to-one onto `target`.
    pub fn new(source: &BTreeSet<EntityId>, target: &BTreeSet<EntityId>, forward: BTreeMap<EntityId, EntityId>)
        -> (result: Result<Self, IdentityTransportError>)
        ensures
            forward@.dom() != source@ ==> result == Err::<Self, IdentityTransportError>(
                IdentityTransportError::SourceCoverageMismatch,
            ),
            forward@.dom() == source@ && !injective(forward@) ==> result == Err::<Self, IdentityTransportError>(
                IdentityTransportError::NotInjective,
            ),
            forward@.dom() == source@ && injective(forward@) && image_of(forward@) != target@ ==>
                result == Err::<Self, IdentityTransportError>(IdentityTransportError::TargetCoverageMismatch),
            forward@.dom() == source@ && injective(forward@) && image_of(forward@) == target@ ==>
                (result matches Ok(transport) && transport.wf() && transport.forward_map() == forward@),
    {
        proof {
            lemma_ids_ordered();
        }
        let keys = map_keys(&forward);
        let key_set = set_of(&keys);
        if !same_ids(&key_set, source) {
            return Err(IdentityTransportError::SourceCoverageMismatch);
        }
        let image = image_set(&forward, &keys);
        if image.len() != forward.len() {
            return Err(IdentityTransportError::NotInjective);
        }
        if !same_ids(&image, target) {
            return Err(IdentityTransportError::TargetCoverageMismatch);
        }
        let mut backward: BTreeMap<EntityId, EntityId> = BTreeMap::new();
        let mut i: usize = 0;
        while i < keys.len()
            invariant
                i <= keys@.len(),
                increasing_ids(keys@),
                keys@.to_set() == forward@.dom(),
                injective(forward@),
                forall|j: int| 0 <= j < i ==> backward@.contains_key(#[trigger] forward@[keys@[j]])
                    && backward@[forward@[keys@[j]]] == keys@[j],
                forall|y: EntityId| #[trigger] backward@.contains_key(y) ==>
                    exists|j: int| 0 <= j < i && forward@[keys@[j]] == y,
            decreases keys@.len() - i,
        {
            let key = keys[i];
            assert(keys@.to_set().contains(key));
            let value = match forward.get(&key) {
                Some(v) => *v,
                None => {
                    proof {
                        assert(false);
                    }
                    0
                },
            };
            backward.insert(value, key);
            proof {
                assert forall|j: int| 0 <= j < i + 1 implies backward@.contains_key(#[trigger] forward@[keys@[j]])
                    && backward@[forward@[keys@[j]]] == keys@[j] by {
                    if j < i {
                        assert(keys@.to_set().contains(keys@[j]));
                        assert(keys@[j] < keys@[i as int]);
                        assert(forward@.contains_key(keys@[j]) && forward@.contains_key(keys@[i as int]));
                    }
                }
                assert forall|y: EntityId| #[trigger] backward@.contains_key(y) implies
                    exists|j: int| 0 <= j < i + 1 && forward@[keys@[j]] == y by {
                    if y != value {
                        let j = choose|j: int| 0 <= j < i && forward@[keys@[j]] == y;
                        assert(forward@[keys@[j]] == y);
                    } else {
                        assert(forward@[keys@[i as int]] == y);
                    }
                }
            }
            i = i + 1;
        }
        proof {
            assert forall|x: EntityId| #[trigger] forward@.contains_key(x) implies
                backward@.contains_key(forward@[x]) && backward@[forward@[x]] == x by {
                assert(keys@.to_set().contains(x));
                let j = choose|j: int| 0 <= j < keys@.len() && keys@[j] == x;
                assert(backward@.contains_key(forward@[keys@[j]]));
            }
            assert forall|y: EntityId| #[trigger] backward@.contains_key(y) implies
                forward@.contains_key(backward@[y]) && forward@[backward@[y]] == y by {
                let j = choose|j: int| 0 <= j < i && forward@[keys@[j]] == y;
                assert(backward@.contains_key(forward@[keys@[j]]));
                assert(keys@.to_set().contains(keys@[j]));
            }
        }
        Ok(IdentityTransport { forward, backward })
    }

    /// Where `source` goes, if it is a source id.
    pub fn transport(&self, source: EntityId) -> (target: Option<EntityId>)
        ensures
            target == (if self.forward_map().contains_key(source) {
                Some(self.forward_map()[source])
            } else {
                None
            }),
    {
        proof {
            lemma_ids_ordered();
        }
        match self.forward.get(&source) {
            Some(target) => Some(*target),
            None => None,
        }
    }

    /// The ids transported.
    pub fn source_ids(&self) -> (ids: BTreeSet<EntityId>)
        ensures
            ids@ == self.forward_map().dom(),
    {
        set_of(&map_keys(&self.forward))
    }

    /// The ids transported onto.
    pub fn target_ids(&self) -> (ids: BTreeSet<EntityId>)
        ensures
            ids@ == self.backward_map().dom(),
    {
        set_of(&map_keys(&self.backward))
    }

    /// The transport back.
    pub fn inverse(&self) -> (inverse: Self)
        ensures
            inverse.wf(),
            inverse.forward_map() == self.backward_map(),
            inverse.backward_map() == self.forward_map(),
    {
        proof {
            use_type_invariant(self);
        }
        IdentityTransport { forward: self.backward.clone(), backward: self.forward.clone() }
    }

    /// This transport, then `next`, which must start on the ids this one ends on.
    pub fn then(&self, next: &Self) -> (result: Result<Self, IdentityTransportError>)
        ensures
            self.backward_map().dom() != next.forward_map().dom() ==> result == Err::<Self, IdentityTransportError>(
                IdentityTransportError::CompositionDomainMismatch,
            ),
            self.backward_map().dom() == next.forward_map().dom() ==> (result matches Ok(composed) && composed.wf()
                && composed.forward_map() == compose(self.forward_map(), next.forward_map())),
    {
        proof {
            use_type_invariant(self);
            use_type_invariant(next);
            lemma_ids_ordered();
        }
        let self_target = set_of(&map_keys(&self.backward));
        let next_source = set_of(&map_keys(&next.forward));
        if !same_ids(&self_target, &next_source) {
            return Err(IdentityTransportError::CompositionDomainMismatch);
        }
        let source = set_of(&map_keys(&self.forward));
        let target = set_of(&map_keys(&next.backward));
        let keys = map_keys(&self.forward);
        let mut composed: BTreeMap<EntityId, EntityId> = BTreeMap::new();
        let mut i: usize = 0;
        while i < keys.len()
            invariant
                i <= keys@.len(),
                increasing_ids(keys@),
                keys@.to_set() == self.forward@.dom(),
                inverse_maps(self.forward@, self.backward@),
                inverse_maps(next.forward@, next.backward@),
                self.backward@.dom() == next.forward@.dom(),
                forall|j: int| 0 <= j < i ==> composed@.contains_key(#[trigger] keys@[j])
                    && composed@[keys@[j]] == next.forward@[self.forward@[keys@[j]]],
                forall|k: EntityId| #[trigger] composed@.contains_key(k) ==> exists|j: int| 0 <= j < i && keys@[j] == k,
            decreases keys@.len() - i,
        {
            let old = keys[i];
            assert(keys@.to_set().contains(old));
            let middle = match self.forward.get(&old) {
                Some(middle) => *middle,
                None => {
                    proof {
                        assert(false);
                    }
                    0
                },
            };
            let new = match next.forward.get(&middle) {
                Some(new) => *new,
                None => {
                    proof {
                        assert(self.backward@.contains_key(middle));
                    }
                    return Err(IdentityTransportError::CompositionDomainMismatch);
                },
            };
            composed.insert(old, new);
            proof {
                assert forall|j: int| 0 <= j < i + 1 implies composed@.contains_key(#[trigger] keys@[j])
                    && composed@[keys@[j]] == next.forward@[self.forward@[keys@[j]]] by {
                    if j < i {
                        assert(keys@[j] < keys@[i as int]);
                    }
                }
                assert forall|k: EntityId| #[trigger] composed@.contains_key(k) implies exists|j: int| 0 <= j < i + 1 && keys@[j] == k by {
                    if k != old {
                        let j = choose|j: int| 0 <= j < i && keys@[j] == k;
                        assert(keys@[j] == k);
                    } else {
                        assert(keys@[i as int] == k);
                    }
                }
            }
            i = i + 1;
        }
        let ghost f = self.forward@;
        let ghost g = next.forward@;
        proof {
            assert forall|x: EntityId| #[trigger] composed@.contains_key(x) <==> f.contains_key(x) by {
                if composed@.contains_key(x) {
                    let j = choose|j: int| 0 <= j < i && keys@[j] == x;
                    assert(keys@.to_set().contains(keys@[j]));
                }
                if f.contains_key(x) {
                    assert(keys@.to_set().contains(x));
                    let j = choose|j: int| 0 <= j < keys@.len() && keys@[j] == x;
                    assert(composed@.contains_key(keys@[j]));
                }
            }
            assert(composed@.dom() =~= source@);
            assert(composed@ =~= compose(f, g)) by {
                assert forall|x: EntityId| #[trigger] composed@.contains_key(x) implies composed@[x] == g[f[x]] by {
                    let j = choose|j: int| 0 <= j < i && keys@[j] == x;
                    assert(composed@.contains_key(keys@[j]));
                }
                assert forall|x: EntityId| #[trigger] compose(f, g).contains_key(x) <==> composed@.contains_key(x) by {
                    if f.contains_key(x) {
                        assert(self.backward@.contains_key(f[x]));
                    }
                }
            }
            assert(injective(composed@)) by {
                assert forall|x: EntityId, y: EntityId| #[trigger] composed@.contains_key(x) && #[trigger] composed@.contains_key(y)
                    && composed@[x] == composed@[y] implies x == y by {
                    assert(self.backward@.contains_key(f[x]));
                    assert(self.backward@.contains_key(f[y]));
                    assert(g.contains_key(f[x]) && g.contains_key(f[y]));
                    assert(next.backward@[g[f[x]]] == f[x]);
                    assert(next.backward@[g[f[y]]] == f[y]);
                }
            }
            assert(image_of(composed@) =~= target@) by {
                assert forall|y: EntityId| #[trigger] image_of(composed@).contains(y) <==> target@.contains(y) by {
                    if image_of(composed@).contains(y) {
                        let x = choose|x: EntityId| #[trigger] composed@.contains_key(x) && composed@[x] == y;
                        assert(self.backward@.contains_key(f[x]));
                        assert(g.contains_key(f[x]));
                    }
                    if target@.contains(y) {
                        let m = next.backward@[y];
                        assert(g.contains_key(m));
                        assert(self.backward@.contains_key(m));
                        let x = self.backward@[m];
                        assert(f.contains_key(x) && f[x] == m);
                        assert(composed@.contains_key(x));
                        assert(composed@[x] == y);
                    }
                }
            }
        }
        IdentityTransport::new(&source, &target, composed)
    }
}

/// A transport and its inverse undo each other.
pub proof fn lemma_inverse_undoes(transport: IdentityTransport, x: EntityId, y: EntityId)
    requires
        transport.wf(),
    ensures
        (transport.forward_map().contains_key(x) && transport.forward_map()[x] == y)
            <==> (transport.backward_map().contains_key(y) && transport.backward_map()[y] == x),
{
}

/// Composition of transports is associative.
pub proof fn lemma_compose_associative(f: Map<EntityId, EntityId>, g: Map<EntityId, EntityId>, h: Map<EntityId, EntityId>)
    ensures
        compose(compose(f, g), h) == compose(f, compose(g, h)),
{
    assert(compose(compose(f, g), h) =~= compose(f, compose(g, h)));
}

/// The identities on the source and on the image are neutral for composition.
pub proof fn lemma_compose_identity(f: Map<EntityId, EntityId>)
    ensures
        compose(identity_on(f.dom()), f) == f,
        compose(f, identity_on(image_of(f))) == f,
{
    assert(compose(identity_on(f.dom()), f) =~= f);
    assert forall|x: EntityId| #[trigger] f.contains_key(x) implies image_of(f).contains(f[x]) by {}
    assert(compose(f, identity_on(image_of(f))) =~= f);
}

/// A transport followed by its inverse is the identity on its sources, and
/// the inverse followed by the transport is the identity on its targets.
pub proof fn lemma_compose_inverse(f: Map<EntityId, EntityId>, g: Map<EntityId, EntityId>)
    requires
        inverse_maps(f, g),
    ensures
        compose(f, g) == identity_on(f.dom()),
        compose(g, f) == identity_on(g.dom()),
{
    assert(compose(f, g) =~= identity_on(f.dom()));
    assert(compose(g, f) =~= identity_on(g.dom()));
}

/// The inverse of a composite is the composite of the inverses, in reverse order.
pub proof fn lemma_inverse_of_compose(f1: Map<EntityId, EntityId>, g1: Map<EntityId, EntityId>, f2: Map<EntityId, EntityId>,
    g2: Map<EntityId, EntityId>)
    requires
        inverse_maps(f1, g1),
        inverse_maps(f2, g2),
        g1.dom() == f2.dom(),
    ensures
        inverse_maps(compose(f1, f2), compose(g2, g1)),
{
    let c = compose(f1, f2);
    let d = compose(g2, g1);
    assert forall|x: EntityId| #[trigger] c.contains_key(x) implies d.contains_key(c[x]) && d[c[x]] == x by {
        assert(g2.contains_key(f2[f1[x]]));
    }
    assert forall|y: EntityId| #[trigger] d.contains_key(y) implies c.contains_key(d[y]) && c[d[y]] == y by {
        assert(g1.contains_key(g2[y]));
        assert(f2.contains_key(g2[y]));
        assert(f1.contains_key(g1[g2[y]]));
    }
}

} // verus!
