//! Ordered sets and maps of entity ids, read out as increasing sequences.

use std::collections::{BTreeMap, BTreeSet};
use vstd::prelude::*;
use vstd::std_specs::cmp::OrdSpec;
use vstd::std_specs::iter::IteratorSpec;
use crate::identity::EntityId;

verus! {

broadcast use vstd::std_specs::btree::group_btree_axioms, vstd::laws_cmp::group_laws_cmp;

/// Ordered collections of ids order them as integers.
pub(crate) proof fn lemma_ids_ordered()
    ensures
        vstd::std_specs::btree::key_obeys_cmp_spec::<EntityId>(),
        vstd::laws_cmp::obeys_cmp::<EntityId>(),
{
}

/// `a` comes before `b` in the order the collections keep.
pub(crate) open spec fn ordered_before<K: Ord>(a: K, b: K) -> bool {
    a.cmp_spec(&b) is Less
}

pub(crate) proof fn lemma_increasing_ids(s: Seq<&EntityId>)
    requires
        vstd::std_specs::btree::increasing_seq(s),
    ensures
        forall|i: int, j: int| 0 <= i < j < s.len() ==> *s[i] < *s[j],
{
    assert(vstd::laws_cmp::obeys_cmp::<&EntityId>());
    vstd::std_specs::btree::axiom_increasing_seq_meaning(s);
    assert forall|i: int, j: int| 0 <= i < j < s.len() implies *s[i] < *s[j] by {
        assert(ordered_before(s[i], s[j]));
    }
}

/// Strictly increasing ids.
pub open spec fn increasing_ids(s: Seq<EntityId>) -> bool {
    forall|i: int, j: int| 0 <= i < j < s.len() ==> s[i] < s[j]
}

/// The members of `s` in increasing order.
pub open spec fn enumeration(s: Set<EntityId>) -> Seq<EntityId> {
    choose|q: Seq<EntityId>| increasing_ids(q) && q.to_set() == s
}

/// An increasing sequence of the members of `s` is its enumeration.
pub proof fn lemma_enumeration(q: Seq<EntityId>, s: Set<EntityId>)
    requires
        increasing_ids(q),
        q.to_set() == s,
    ensures
        enumeration(s) == q,
{
    let e = enumeration(s);
    assert(increasing_ids(e) && e.to_set() == s);
    lemma_increasing_ids_unique(e, q);
}

/// The ids of `set` in increasing order.
pub(crate) fn set_elements(set: &BTreeSet<EntityId>) -> (ids: Vec<EntityId>)
    ensures
        ids@ == enumeration(set@),
        increasing_ids(ids@),
        ids@.to_set() == set@,
        ids@.len() == set@.len(),
        set@.finite(),
{
    let mut ids: Vec<EntityId> = Vec::new();
    proof {
        assert(vstd::std_specs::btree::key_obeys_cmp_spec::<EntityId>());
    }
    let ghost rem = vstd::std_specs::btree::spec_btree_keys_iter(set).remaining();
    for x in it: set.iter()
        invariant
            it.seq() == rem,
            ids@ == rem.take(it.index()).map_values(|r: &EntityId| *r),
    {
        ids.push(*x);
    }
    proof {
        assert(ids@ =~= rem.unref());
        lemma_increasing_ids(rem);
        ids@.unique_seq_to_set();
        lemma_enumeration(ids@, set@);
    }
    ids
}

/// The keys of `map` in increasing order.
pub(crate) fn map_keys(map: &BTreeMap<EntityId, EntityId>) -> (keys: Vec<EntityId>)
    ensures
        increasing_ids(keys@),
        keys@.to_set() == map@.dom(),
        keys@.len() == map@.dom().len(),
        map@.dom().finite(),
{
    let mut keys: Vec<EntityId> = Vec::new();
    proof {
        assert(vstd::std_specs::btree::key_obeys_cmp_spec::<EntityId>());
    }
    let ghost rem = vstd::std_specs::btree::spec_keys_iter(map).remaining();
    for x in it: map.keys()
        invariant
            it.seq() == rem,
            keys@ == rem.take(it.index()).map_values(|r: &EntityId| *r),
    {
        keys.push(*x);
    }
    proof {
        assert(keys@ =~= rem.unref());
        lemma_increasing_ids(rem);
        keys@.unique_seq_to_set();
    }
    keys
}

/// The set holding `ids`.
pub(crate) fn set_of(ids: &Vec<EntityId>) -> (set: BTreeSet<EntityId>)
    ensures
        set@ == ids@.to_set(),
{
    let mut set: BTreeSet<EntityId> = BTreeSet::new();
    let mut i: usize = 0;
    while i < ids.len()
        invariant
            i <= ids@.len(),
            set@ == ids@.take(i as int).to_set(),
        decreases ids@.len() - i,
    {
        set.insert(ids[i]);
        proof {
            assert(ids@.take(i + 1) =~= ids@.take(i as int).push(ids@[i as int]));
            let prev = ids@.take(i as int);
            let next = ids@.take(i + 1);
            assert forall|x: EntityId| next.to_set().contains(x) <==> prev.to_set().insert(ids@[i as int]).contains(x) by {
                if next.to_set().contains(x) {
                    let k = choose|k: int| 0 <= k < next.len() && next[k] == x;
                    if k < i {
                        assert(prev[k] == x);
                    }
                }
                if prev.to_set().contains(x) {
                    let k = choose|k: int| 0 <= k < prev.len() && prev[k] == x;
                    assert(next[k] == x);
                }
                if x == ids@[i as int] {
                    assert(next[i as int] == x);
                }
            }
            assert(next.to_set() =~= prev.to_set().insert(ids@[i as int]));
        }
        i = i + 1;
    }
    proof {
        assert(ids@.take(i as int) =~= ids@);
    }
    set
}

/// Whether two sets hold the same ids.
pub(crate) fn same_ids(a: &BTreeSet<EntityId>, b: &BTreeSet<EntityId>) -> (same: bool)
    ensures
        same == (a@ == b@),
{
    let xs = set_elements(a);
    let ys = set_elements(b);
    if xs.len() != ys.len() {
        return false;
    }
    let mut i: usize = 0;
    while i < xs.len()
        invariant
            i <= xs@.len(),
            xs@.len() == ys@.len(),
            increasing_ids(xs@),
            increasing_ids(ys@),
            xs@.to_set() == a@,
            ys@.to_set() == b@,
            forall|j: int| 0 <= j < i ==> xs@[j] == ys@[j],
        decreases xs@.len() - i,
    {
        if xs[i] != ys[i] {
            proof {
                if a@ == b@ {
                    lemma_increasing_ids_unique(xs@, ys@);
                }
            }
            return false;
        }
        i = i + 1;
    }
    assert(xs@ =~= ys@);
    true
}

/// Increasing sequences with the same members are equal.
pub proof fn lemma_increasing_ids_unique(a: Seq<EntityId>, b: Seq<EntityId>)
    requires
        increasing_ids(a),
        increasing_ids(b),
        a.to_set() == b.to_set(),
    ensures
        a == b,
    decreases a.len(),
{
    if a.len() == 0 {
        if b.len() > 0 {
            assert(b.to_set().contains(b[0]));
        }
        assert(a =~= b);
    } else {
        assert(a.to_set().contains(a[0]));
        assert(b.len() > 0);
        assert(b.to_set().contains(b[0]));
        let ka = choose|k: int| 0 <= k < a.len() && a[k] == b[0];
        let kb = choose|k: int| 0 <= k < b.len() && b[k] == a[0];
        if ka > 0 {
            assert(a[0] < a[ka]);
        }
        if kb > 0 {
            assert(b[0] < b[kb]);
        }
        let ra = a.drop_first();
        let rb = b.drop_first();
        assert forall|x: EntityId| ra.to_set().contains(x) <==> rb.to_set().contains(x) by {
            if ra.to_set().contains(x) {
                let k = choose|k: int| 0 <= k < ra.len() && ra[k] == x;
                assert(a[k + 1] == x);
                assert(a[0] < a[k + 1]);
                assert(a.to_set().contains(x));
                let j = choose|j: int| 0 <= j < b.len() && b[j] == x;
                assert(j != 0);
                assert(rb[j - 1] == x);
            }
            if rb.to_set().contains(x) {
                let k = choose|k: int| 0 <= k < rb.len() && rb[k] == x;
                assert(b[k + 1] == x);
                assert(b[0] < b[k + 1]);
                assert(b.to_set().contains(x));
                let j = choose|j: int| 0 <= j < a.len() && a[j] == x;
                assert(j != 0);
                assert(ra[j - 1] == x);
            }
        }
        assert(ra.to_set() =~= rb.to_set());
        lemma_increasing_ids_unique(ra, rb);
        assert(a =~= seq![a[0]] + ra);
        assert(b =~= seq![b[0]] + rb);
    }
}

/// `a` comes before `b` in the lexicographic order of pairs.
pub open spec fn pair_lt(a: (EntityId, EntityId), b: (EntityId, EntityId)) -> bool {
    a.0 < b.0 || (a.0 == b.0 && a.1 < b.1)
}

/// Strictly increasing pairs.
pub open spec fn increasing_pairs(s: Seq<(EntityId, EntityId)>) -> bool {
    forall|i: int, j: int| 0 <= i < j < s.len() ==> pair_lt(s[i], s[j])
}

/// The members of `s` in increasing order.
pub open spec fn pair_enumeration(s: Set<(EntityId, EntityId)>) -> Seq<(EntityId, EntityId)> {
    choose|q: Seq<(EntityId, EntityId)>| increasing_pairs(q) && q.to_set() == s
}

pub(crate) proof fn lemma_pairs_ordered()
    ensures
        vstd::std_specs::btree::key_obeys_cmp_spec::<(EntityId, EntityId)>(),
        vstd::laws_cmp::obeys_cmp::<(EntityId, EntityId)>(),
{
    assert(vstd::laws_cmp::obeys_cmp::<EntityId>());
}

proof fn lemma_increasing_pair_refs(s: Seq<&(EntityId, EntityId)>)
    requires
        vstd::std_specs::btree::increasing_seq(s),
    ensures
        forall|i: int, j: int| 0 <= i < j < s.len() ==> pair_lt(*s[i], *s[j]),
{
    lemma_pairs_ordered();
    assert(vstd::laws_cmp::obeys_cmp::<&(EntityId, EntityId)>());
    vstd::std_specs::btree::axiom_increasing_seq_meaning(s);
    assert forall|i: int, j: int| 0 <= i < j < s.len() implies pair_lt(*s[i], *s[j]) by {
        assert(ordered_before(s[i], s[j]));
    }
}

/// Increasing pair sequences with the same members are equal.
pub proof fn lemma_increasing_pairs_unique(a: Seq<(EntityId, EntityId)>, b: Seq<(EntityId, EntityId)>)
    requires
        increasing_pairs(a),
        increasing_pairs(b),
        a.to_set() == b.to_set(),
    ensures
        a == b,
    decreases a.len(),
{
    if a.len() == 0 {
        if b.len() > 0 {
            assert(b.to_set().contains(b[0]));
        }
        assert(a =~= b);
    } else {
        assert(a.to_set().contains(a[0]));
        assert(b.len() > 0);
        assert(b.to_set().contains(b[0]));
        let ka = choose|k: int| 0 <= k < a.len() && a[k] == b[0];
        let kb = choose|k: int| 0 <= k < b.len() && b[k] == a[0];
        if ka > 0 {
            assert(pair_lt(a[0], a[ka]));
        }
        if kb > 0 {
            assert(pair_lt(b[0], b[kb]));
        }
        assert(a[0] == b[0]);
        let ra = a.drop_first();
        let rb = b.drop_first();
        assert forall|x: (EntityId, EntityId)| ra.to_set().contains(x) <==> rb.to_set().contains(x) by {
            if ra.to_set().contains(x) {
                let k = choose|k: int| 0 <= k < ra.len() && ra[k] == x;
                assert(a[k + 1] == x);
                assert(pair_lt(a[0], a[k + 1]));
                assert(a.to_set().contains(x));
                let j = choose|j: int| 0 <= j < b.len() && b[j] == x;
                assert(j != 0);
                assert(rb[j - 1] == x);
            }
            if rb.to_set().contains(x) {
                let k = choose|k: int| 0 <= k < rb.len() && rb[k] == x;
                assert(b[k + 1] == x);
                assert(pair_lt(b[0], b[k + 1]));
                assert(b.to_set().contains(x));
                let j = choose|j: int| 0 <= j < a.len() && a[j] == x;
                assert(j != 0);
                assert(ra[j - 1] == x);
            }
        }
        assert(ra.to_set() =~= rb.to_set());
        lemma_increasing_pairs_unique(ra, rb);
        assert(a =~= seq![a[0]] + ra);
        assert(b =~= seq![b[0]] + rb);
    }
}

/// The pairs of `set` in increasing order.
pub(crate) fn pair_set_elements(set: &BTreeSet<(EntityId, EntityId)>) -> (pairs: Vec<(EntityId, EntityId)>)
    ensures
        pairs@ == pair_enumeration(set@),
        increasing_pairs(pairs@),
        pairs@.to_set() == set@,
        pairs@.len() == set@.len(),
        set@.finite(),
{
    let mut pairs: Vec<(EntityId, EntityId)> = Vec::new();
    proof {
        lemma_pairs_ordered();
    }
    let ghost rem = vstd::std_specs::btree::spec_btree_keys_iter(set).remaining();
    for x in it: set.iter()
        invariant
            it.seq() == rem,
            pairs@ == rem.take(it.index()).map_values(|r: &(EntityId, EntityId)| *r),
    {
        pairs.push(*x);
    }
    proof {
        assert(pairs@ =~= rem.unref());
        lemma_increasing_pair_refs(rem);
        pairs@.unique_seq_to_set();
        lemma_pair_enumeration(pairs@, set@);
    }
    pairs
}

/// Every finite set of ids has an increasing enumeration.
pub proof fn lemma_enumeration_exists(s: Set<EntityId>)
    requires
        s.finite(),
    ensures
        increasing_ids(enumeration(s)),
        enumeration(s).to_set() == s,
    decreases s.len(),
{
    if s.len() == 0 {
        let w = Seq::<EntityId>::empty();
        assert(w.to_set() =~= s);
        lemma_enumeration(w, s);
    } else {
        let le = |a: EntityId, b: EntityId| a <= b;
        assert(vstd::relations::total_ordering(le));
        s.find_unique_minimal_ensures(le);
        let m = s.find_unique_minimal(le);
        let rest = s.remove(m);
        lemma_enumeration_exists(rest);
        let q = enumeration(rest);
        let w = seq![m] + q;
        assert forall|x: EntityId| rest.contains(x) implies m < x by {
            assert(le(x, m) ==> le(m, x));
        }
        assert forall|i: int, j: int| 0 <= i < j < w.len() implies w[i] < w[j] by {
            if i == 0 {
                assert(q.to_set().contains(q[j - 1]));
            } else {
                assert(w[i] == q[i - 1] && w[j] == q[j - 1]);
            }
        }
        assert forall|x: EntityId| w.to_set().contains(x) <==> s.contains(x) by {
            if w.to_set().contains(x) {
                let k = choose|k: int| 0 <= k < w.len() && w[k] == x;
                if k > 0 {
                    assert(q[k - 1] == x);
                    assert(q.to_set().contains(x));
                }
            }
            if s.contains(x) && x != m {
                assert(rest.contains(x));
                assert(q.to_set().contains(x));
                let k = choose|k: int| 0 <= k < q.len() && q[k] == x;
                assert(w[k + 1] == x);
            }
            if x == m {
                assert(w[0] == x);
            }
        }
        assert(w.to_set() =~= s);
        lemma_enumeration(w, s);
    }
}

/// An increasing sequence of the members of `s` is its enumeration.
pub proof fn lemma_pair_enumeration(q: Seq<(EntityId, EntityId)>, s: Set<(EntityId, EntityId)>)
    requires
        increasing_pairs(q),
        q.to_set() == s,
    ensures
        pair_enumeration(s) == q,
{
    let e = pair_enumeration(s);
    assert(increasing_pairs(e) && e.to_set() == s);
    lemma_increasing_pairs_unique(e, q);
}

/// Every finite set of pairs has an increasing enumeration.
pub proof fn lemma_pair_enumeration_exists(s: Set<(EntityId, EntityId)>)
    requires
        s.finite(),
    ensures
        increasing_pairs(pair_enumeration(s)),
        pair_enumeration(s).to_set() == s,
    decreases s.len(),
{
    if s.len() == 0 {
        let w = Seq::<(EntityId, EntityId)>::empty();
        assert(w.to_set() =~= s);
        lemma_pair_enumeration(w, s);
    } else {
        let le = |a: (EntityId, EntityId), b: (EntityId, EntityId)| a == b || pair_lt(a, b);
        assert(vstd::relations::total_ordering(le));
        s.find_unique_minimal_ensures(le);
        let m = s.find_unique_minimal(le);
        let rest = s.remove(m);
        lemma_pair_enumeration_exists(rest);
        let q = pair_enumeration(rest);
        let w = seq![m] + q;
        assert forall|x: (EntityId, EntityId)| rest.contains(x) implies pair_lt(m, x) by {
            assert(le(x, m) ==> le(m, x));
        }
        assert forall|i: int, j: int| 0 <= i < j < w.len() implies pair_lt(w[i], w[j]) by {
            if i == 0 {
                assert(q.to_set().contains(q[j - 1]));
            } else {
                assert(w[i] == q[i - 1] && w[j] == q[j - 1]);
            }
        }
        assert forall|x: (EntityId, EntityId)| w.to_set().contains(x) <==> s.contains(x) by {
            if w.to_set().contains(x) {
                let k = choose|k: int| 0 <= k < w.len() && w[k] == x;
                if k > 0 {
                    assert(q[k - 1] == x);
                    assert(q.to_set().contains(x));
                }
            }
            if s.contains(x) && x != m {
                assert(rest.contains(x));
                assert(q.to_set().contains(x));
                let k = choose|k: int| 0 <= k < q.len() && q[k] == x;
                assert(w[k + 1] == x);
            }
            if x == m {
                assert(w[0] == x);
            }
        }
        assert(w.to_set() =~= s);
        lemma_pair_enumeration(w, s);
    }
}

} // verus!
