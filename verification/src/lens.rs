//! Structural lenses over logical values: a lens splits a source value into
//! the view it exposes and an explicit complement, and restores a source
//! from a (possibly edited) view and that complement.

use vstd::prelude::*;

verus! {

/// The identifier of a product field.
pub type SemanticId = u64;

/// A logical value: a scalar, or a product of values keyed by field.
#[derive(Debug, PartialEq, Eq)]
pub enum Value {
    I64(i64),
    Bool(bool),
    Text(String),
    Product(Fields),
}

/// The fields of a product value, held in increasing field order, each field once.
#[derive(Debug, PartialEq, Eq)]
pub struct Fields {
    entries: Vec<(SemanticId, Value)>,
}

/// A logical value as a mathematical object.
pub enum ValueModel {
    I64(i64),
    Bool(bool),
    Text(Seq<char>),
    Product(Map<SemanticId, ValueModel>),
}

/// Field ids that strictly increase along `entries`.
pub open spec fn sorted_keys(entries: Seq<(SemanticId, Value)>) -> bool {
    forall|i: int, j: int| 0 <= i < j < entries.len() ==> (#[trigger] entries[i]).0 < (#[trigger] entries[j]).0
}

/// The mathematical value of `v`.
pub closed spec fn value_model(v: Value) -> ValueModel
    decreases v, 0int,
{
    match v {
        Value::I64(x) => ValueModel::I64(x),
        Value::Bool(b) => ValueModel::Bool(b),
        Value::Text(s) => ValueModel::Text(s@),
        Value::Product(fields) => ValueModel::Product(entries_model(fields.entries@)),
    }
}

/// The map from field to value that `entries` build, a later entry for a
/// field replacing an earlier one.
pub closed spec fn entries_model(entries: Seq<(SemanticId, Value)>) -> Map<SemanticId, ValueModel>
    decreases entries, 1int,
{
    if entries.len() == 0 {
        Map::empty()
    } else {
        let last = entries[entries.len() - 1];
        entries_model(entries.subrange(0, entries.len() - 1)).insert(last.0, value_model(last.1))
    }
}

/// Whether some entry of `entries` is for `field`.
pub open spec fn has_field(entries: Seq<(SemanticId, Value)>, field: SemanticId) -> bool {
    exists|i: int| 0 <= i < entries.len() && (#[trigger] entries[i]).0 == field
}

/// The entries' fields, each with the mathematical value of its entry.
pub open spec fn keyed_models(entries: Seq<(SemanticId, Value)>) -> Seq<(SemanticId, ValueModel)> {
    entries.map_values(|e: (SemanticId, Value)| (e.0, value_model(e.1)))
}

proof fn lemma_entries_model_step(entries: Seq<(SemanticId, Value)>, i: int)
    requires
        0 <= i < entries.len(),
    ensures
        entries_model(entries.take(i + 1)) == entries_model(entries.take(i)).insert(entries[i].0, value_model(entries[i].1)),
{
    let next = entries.take(i + 1);
    assert(next.subrange(0, next.len() - 1) =~= entries.take(i));
    assert(next[next.len() - 1] == entries[i]);
}

/// The map that `entries` build holds exactly their fields, and, when each
/// field occurs once, each entry's value under its field.
proof fn lemma_entries_model(entries: Seq<(SemanticId, Value)>)
    ensures
        forall|k: SemanticId| #[trigger] entries_model(entries).contains_key(k) <==> has_field(entries, k),
        sorted_keys(entries) ==> forall|i: int| 0 <= i < entries.len() ==>
            entries_model(entries)[(#[trigger] entries[i]).0] == value_model(entries[i].1),
    decreases entries.len(),
{
    if entries.len() > 0 {
        let n = entries.len() as int;
        let init = entries.subrange(0, n - 1);
        lemma_entries_model(init);
        assert forall|k: SemanticId| #[trigger] entries_model(entries).contains_key(k) <==> has_field(entries, k) by {
            if has_field(init, k) {
                let i = choose|i: int| 0 <= i < init.len() && (#[trigger] init[i]).0 == k;
                assert(entries[i] == init[i]);
            }
            if has_field(entries, k) && k != entries[n - 1].0 {
                let i = choose|i: int| 0 <= i < entries.len() && (#[trigger] entries[i]).0 == k;
                assert(init[i] == entries[i]);
            }
        }
        if sorted_keys(entries) {
            assert(sorted_keys(init)) by {
                assert forall|i: int, j: int| 0 <= i < j < init.len() implies (#[trigger] init[i]).0 < (#[trigger] init[j]).0 by {
                    assert(init[i] == entries[i] && init[j] == entries[j]);
                }
            }
            assert forall|i: int| 0 <= i < entries.len() implies
                entries_model(entries)[(#[trigger] entries[i]).0] == value_model(entries[i].1) by {
                if i < n - 1 {
                    assert(init[i] == entries[i]);
                    assert(entries[i].0 < entries[n - 1].0);
                }
            }
        }
    }
}

proof fn lemma_sorted_init(entries: Seq<(SemanticId, Value)>)
    requires
        sorted_keys(entries),
        entries.len() > 0,
    ensures
        sorted_keys(entries.subrange(0, entries.len() - 1)),
        !has_field(entries.subrange(0, entries.len() - 1), entries[entries.len() - 1].0),
{
    let n = entries.len() as int;
    let init = entries.subrange(0, n - 1);
    assert forall|i: int, j: int| 0 <= i < j < init.len() implies (#[trigger] init[i]).0 < (#[trigger] init[j]).0 by {
        assert(init[i] == entries[i] && init[j] == entries[j]);
    }
    if has_field(init, entries[n - 1].0) {
        let i = choose|i: int| 0 <= i < init.len() && (#[trigger] init[i]).0 == entries[n - 1].0;
        assert(init[i] == entries[i]);
    }
}

/// Two field lists in increasing field order that build the same map are
/// the same fields with the same values, entry by entry.
proof fn lemma_entries_canonical(s: Seq<(SemanticId, Value)>, t: Seq<(SemanticId, Value)>)
    requires
        sorted_keys(s),
        sorted_keys(t),
        entries_model(s) == entries_model(t),
    ensures
        keyed_models(s) == keyed_models(t),
    decreases s.len(),
{
    lemma_entries_model(s);
    lemma_entries_model(t);
    if s.len() == 0 {
        if t.len() > 0 {
            assert(has_field(t, t[0].0));
            assert(entries_model(t).contains_key(t[0].0));
        }
        assert(keyed_models(s) =~= keyed_models(t));
    } else {
        if t.len() == 0 {
            assert(has_field(s, s[0].0));
            assert(entries_model(s).contains_key(s[0].0));
        }
        let ns = s.len() as int;
        let nt = t.len() as int;
        let ks = s[ns - 1].0;
        let kt = t[nt - 1].0;
        assert(has_field(s, ks));
        assert(entries_model(t).contains_key(ks));
        let j = choose|j: int| 0 <= j < t.len() && (#[trigger] t[j]).0 == ks;
        assert(ks <= kt) by {
            if j < nt - 1 {
                assert(t[j].0 < t[nt - 1].0);
            }
        }
        assert(has_field(t, kt));
        assert(entries_model(s).contains_key(kt));
        let i = choose|i: int| 0 <= i < s.len() && (#[trigger] s[i]).0 == kt;
        assert(kt <= ks) by {
            if i < ns - 1 {
                assert(s[i].0 < s[ns - 1].0);
            }
        }
        let si = s.subrange(0, ns - 1);
        let ti = t.subrange(0, nt - 1);
        lemma_sorted_init(s);
        lemma_sorted_init(t);
        lemma_entries_model(si);
        lemma_entries_model(ti);
        assert(entries_model(si) =~= entries_model(s).remove(ks));
        assert(entries_model(ti) =~= entries_model(t).remove(kt));
        lemma_entries_canonical(si, ti);
        assert(value_model(s[ns - 1].1) == value_model(t[nt - 1].1)) by {
            assert(entries_model(s)[ks] == value_model(s[ns - 1].1));
            assert(entries_model(t)[kt] == value_model(t[nt - 1].1));
        }
        assert(keyed_models(si).len() == keyed_models(ti).len());
        assert forall|k: int| 0 <= k < s.len() implies keyed_models(s)[k] == keyed_models(t)[k] by {
            if k < ns - 1 {
                assert(keyed_models(si)[k] == keyed_models(ti)[k]);
                assert(si[k] == s[k] && ti[k] == t[k]);
            }
        }
        assert(keyed_models(s) =~= keyed_models(t));
    }
}

/// Entries with the same fields and values, entry by entry, build the same map.
proof fn lemma_entries_same_models(s: Seq<(SemanticId, Value)>, t: Seq<(SemanticId, Value)>)
    requires
        keyed_models(s) == keyed_models(t),
    ensures
        entries_model(s) == entries_model(t),
    decreases s.len(),
{
    assert(s.len() == keyed_models(s).len());
    assert(t.len() == keyed_models(t).len());
    if s.len() > 0 {
        let n = s.len() as int;
        let si = s.subrange(0, n - 1);
        let ti = t.subrange(0, n - 1);
        assert(keyed_models(si) =~= keyed_models(ti)) by {
            assert forall|k: int| 0 <= k < n - 1 implies keyed_models(si)[k] == keyed_models(ti)[k] by {
                assert(keyed_models(s)[k] == keyed_models(t)[k]);
            }
        }
        lemma_entries_same_models(si, ti);
        assert(keyed_models(s)[n - 1] == keyed_models(t)[n - 1]);
    }
}

proof fn lemma_entries_model_push(entries: Seq<(SemanticId, Value)>, e: (SemanticId, Value))
    ensures
        entries_model(entries.push(e)) == entries_model(entries).insert(e.0, value_model(e.1)),
{
    let next = entries.push(e);
    assert(next.subrange(0, next.len() - 1) =~= entries);
    assert(next[next.len() - 1] == e);
}

impl Fields {
    #[verifier::type_invariant]
    closed spec fn fields_increase(self) -> bool {
        sorted_keys(self.entries@)
    }

    /// The product's fields and their values.
    pub closed spec fn model(self) -> Map<SemanticId, ValueModel> {
        entries_model(self.entries@)
    }

    /// No fields.
    pub fn new() -> (fields: Self)
        ensures
            fields.model() == Map::<SemanticId, ValueModel>::empty(),
    {
        Fields { entries: Vec::new() }
    }

    /// The value of `field`, if the product has it.
    pub fn get(&self, field: SemanticId) -> (value: Option<&Value>)
        ensures
            value is None <==> !self.model().contains_key(field),
            value matches Some(v) ==> value_model(*v) == self.model()[field],
    {
        let mut i: usize = 0;
        while i < self.entries.len()
            invariant
                i <= self.entries@.len(),
                forall|j: int| 0 <= j < i ==> (#[trigger] self.entries@[j]).0 != field,
            decreases self.entries@.len() - i,
        {
            if self.entries[i].0 == field {
                proof {
                    use_type_invariant(self);
                    lemma_entries_model(self.entries@);
                    assert(has_field(self.entries@, field));
                }
                return Some(&self.entries[i].1);
            }
            i = i + 1;
        }
        proof {
            lemma_entries_model(self.entries@);
        }
        None
    }

    /// The product with `field` set to `value`, added when it was absent and
    /// replaced when it was present.
    #[verifier::rlimit(50)]
    pub fn with_field(&self, field: SemanticId, value: Value) -> (fields: Fields)
        ensures
            fields.model() == self.model().insert(field, value_model(value)),
    {
        proof {
            use_type_invariant(self);
        }
        let ghost s = self.entries@;
        let n = self.entries.len();
        let mut out: Vec<(SemanticId, Value)> = Vec::new();
        let mut i: usize = 0;
        while i < n && self.entries[i].0 < field
            invariant
                i <= n == s.len(),
                s == self.entries@,
                sorted_keys(s),
                sorted_keys(out@),
                forall|j: int, t: int| 0 <= j < out@.len() && i <= t < n ==> (#[trigger] out@[j]).0 < (#[trigger] s[t]).0,
                forall|j: int| 0 <= j < out@.len() ==> (#[trigger] out@[j]).0 < field,
                entries_model(out@) == entries_model(s.take(i as int)),
            decreases n - i,
        {
            let k = self.entries[i].0;
            let v = self.entries[i].1.duplicate();
            proof {
                lemma_entries_model_push(out@, (k, v));
                lemma_entries_model_step(s, i as int);
            }
            out.push((k, v));
            i = i + 1;
            proof {
                assert forall|j: int, t: int| 0 <= j < out@.len() && i <= t < n implies (#[trigger] out@[j]).0 < (#[trigger] s[t]).0 by {
                    if j < out@.len() - 1 {
                        assert(out@[j].0 < s[t].0);
                    } else {
                        assert(s[i - 1].0 < s[t].0);
                    }
                }
            }
        }
        let p = i;
        let q = if p < n && self.entries[p].0 == field { p + 1 } else { p };
        proof {
            lemma_entries_model_push(out@, (field, value));
            if q == p + 1 {
                lemma_entries_model_step(s, p as int);
                assert(entries_model(s.take(q as int)).insert(field, value_model(value))
                    =~= entries_model(s.take(p as int)).insert(field, value_model(value)));
            }
        }
        out.push((field, value));
        i = q;
        proof {
            assert forall|t: int| q <= t < n implies field < #[trigger] s[t].0 by {
                assert(s[p as int].0 >= field);
                if t > p {
                    assert(s[p as int].0 < s[t].0);
                }
            }
        }
        while i < n
            invariant
                q <= i <= n == s.len(),
                s == self.entries@,
                sorted_keys(s),
                sorted_keys(out@),
                forall|j: int, t: int| 0 <= j < out@.len() && i <= t < n ==> (#[trigger] out@[j]).0 < (#[trigger] s[t]).0,
                entries_model(out@) == entries_model(s.take(i as int)).insert(field, value_model(value)),
                forall|t: int| q <= t < n ==> field != #[trigger] s[t].0,
            decreases n - i,
        {
            let k = self.entries[i].0;
            let v = self.entries[i].1.duplicate();
            proof {
                lemma_entries_model_push(out@, (k, v));
                lemma_entries_model_step(s, i as int);
                assert(k != field);
                assert(entries_model(s.take(i as int)).insert(field, value_model(value)).insert(k, value_model(v))
                    =~= entries_model(s.take(i as int)).insert(k, value_model(v)).insert(field, value_model(value)));
            }
            out.push((k, v));
            i = i + 1;
            proof {
                assert forall|j: int, t: int| 0 <= j < out@.len() && i <= t < n implies (#[trigger] out@[j]).0 < (#[trigger] s[t]).0 by {
                    if j < out@.len() - 1 {
                        assert(out@[j].0 < s[t].0);
                    } else {
                        assert(s[i - 1].0 < s[t].0);
                    }
                }
            }
        }
        assert(s.take(n as int) =~= s);
        Fields { entries: out }
    }

    /// The product without `field`.
    pub fn without(&self, field: SemanticId) -> (fields: Fields)
        ensures
            fields.model() == self.model().remove(field),
    {
        proof {
            use_type_invariant(self);
        }
        let ghost s = self.entries@;
        let n = self.entries.len();
        let mut out: Vec<(SemanticId, Value)> = Vec::new();
        let mut i: usize = 0;
        assert(entries_model(out@) =~= entries_model(s.take(0)).remove(field));
        while i < n
            invariant
                i <= n == s.len(),
                s == self.entries@,
                sorted_keys(s),
                sorted_keys(out@),
                forall|j: int, t: int| 0 <= j < out@.len() && i <= t < n ==> (#[trigger] out@[j]).0 < (#[trigger] s[t]).0,
                entries_model(out@) == entries_model(s.take(i as int)).remove(field),
            decreases n - i,
        {
            let k = self.entries[i].0;
            proof {
                lemma_entries_model_step(s, i as int);
            }
            if k != field {
                let v = self.entries[i].1.duplicate();
                proof {
                    lemma_entries_model_push(out@, (k, v));
                    assert(entries_model(s.take(i as int)).remove(field).insert(k, value_model(v))
                        =~= entries_model(s.take(i as int)).insert(k, value_model(v)).remove(field));
                }
                out.push((k, v));
            } else {
                assert(entries_model(s.take(i as int)).insert(k, value_model(s[i as int].1)).remove(field)
                    =~= entries_model(s.take(i as int)).remove(field));
            }
            i = i + 1;
            proof {
                assert forall|j: int, t: int| 0 <= j < out@.len() && i <= t < n implies (#[trigger] out@[j]).0 < (#[trigger] s[t]).0 by {
                    if k != field && j == out@.len() - 1 {
                        assert(s[i - 1].0 < s[t].0);
                    } else {
                        assert(out@[j].0 < s[i - 1].0);
                        assert(s[i - 1].0 < s[t].0);
                    }
                }
            }
        }
        assert(s.take(n as int) =~= s);
        Fields { entries: out }
    }

    /// The product of `pairs`, a later pair for a field replacing an earlier one.
    pub fn from_pairs(pairs: Vec<(SemanticId, Value)>) -> (fields: Fields)
        ensures
            fields.model() == entries_model(pairs@),
    {
        let mut fields = Fields::new();
        let mut i: usize = 0;
        assert(entries_model(pairs@.take(0)) =~= Map::<SemanticId, ValueModel>::empty());
        while i < pairs.len()
            invariant
                i <= pairs@.len(),
                fields.model() == entries_model(pairs@.take(i as int)),
            decreases pairs@.len() - i,
        {
            proof {
                lemma_entries_model_step(pairs@, i as int);
            }
            fields = fields.with_field(pairs[i].0, pairs[i].1.duplicate());
            i = i + 1;
        }
        assert(pairs@.take(i as int) =~= pairs@);
        fields
    }

    /// Copies of the fields in order, each value duplicated.
    fn duplicate_entries(&self) -> (entries: Vec<(SemanticId, Value)>)
        ensures
            keyed_models(entries@) == keyed_models(self.entries@),
        decreases self, 0int,
    {
        let mut entries: Vec<(SemanticId, Value)> = Vec::new();
        let mut i: usize = 0;
        while i < self.entries.len()
            invariant
                i <= self.entries@.len(),
                keyed_models(entries@) == keyed_models(self.entries@.take(i as int)),
            decreases self.entries@.len() - i,
        {
            let value = self.entries[i].1.duplicate();
            let ghost before = entries@;
            entries.push((self.entries[i].0, value));
            proof {
                let next = self.entries@.take(i + 1);
                assert(keyed_models(before).len() == before.len());
                assert(before.len() == i);
                assert(entries@ == before.push((self.entries@[i as int].0, value)));
                assert forall|j: int| 0 <= j < i + 1 implies #[trigger] keyed_models(entries@)[j] == keyed_models(next)[j] by {
                    if j < i {
                        assert(entries@[j] == before[j]);
                        assert(keyed_models(before)[j] == keyed_models(self.entries@.take(i as int))[j]);
                        assert(next[j] == self.entries@.take(i as int)[j]);
                    } else {
                        assert(entries@[j] == (self.entries@[i as int].0, value));
                        assert(next[j] == self.entries@[i as int]);
                    }
                }
            }
            i = i + 1;
            assert(keyed_models(entries@) =~= keyed_models(self.entries@.take(i as int)));
        }
        assert(self.entries@.take(i as int) =~= self.entries@);
        entries
    }

    /// A copy of the product's fields.
    pub fn duplicate(&self) -> (fields: Fields)
        ensures
            fields.model() == self.model(),
        decreases self, 1int,
    {
        proof {
            use_type_invariant(self);
        }
        let entries = self.duplicate_entries();
        proof {
            lemma_entries_same_models(entries@, self.entries@);
            assert(keyed_models(entries@).len() == entries@.len());
            assert(keyed_models(self.entries@).len() == self.entries@.len());
            assert forall|i: int, j: int| 0 <= i < j < entries@.len() implies
                (#[trigger] entries@[i]).0 < (#[trigger] entries@[j]).0 by {
                assert(keyed_models(entries@)[i] == keyed_models(self.entries@)[i]);
                assert(keyed_models(entries@)[j] == keyed_models(self.entries@)[j]);
                assert(keyed_models(entries@)[i].0 == entries@[i].0);
                assert(keyed_models(entries@)[j].0 == entries@[j].0);
                assert(keyed_models(self.entries@)[i].0 == self.entries@[i].0);
                assert(keyed_models(self.entries@)[j].0 == self.entries@[j].0);
            }
        }
        Fields { entries }
    }

    /// Whether the two products have the same fields with the same values.
    pub fn same_as(&self, other: &Fields) -> (same: bool)
        ensures
            same == (self.model() == other.model()),
        decreases self,
    {
        proof {
            use_type_invariant(self);
            use_type_invariant(other);
        }
        if self.entries.len() != other.entries.len() {
            proof {
                if self.model() == other.model() {
                    lemma_entries_canonical(self.entries@, other.entries@);
                    assert(keyed_models(self.entries@).len() == keyed_models(other.entries@).len());
                }
            }
            return false;
        }
        let mut i: usize = 0;
        while i < self.entries.len()
            invariant
                i <= self.entries@.len(),
                self.entries@.len() == other.entries@.len(),
                sorted_keys(self.entries@),
                sorted_keys(other.entries@),
                forall|j: int| 0 <= j < i ==> keyed_models(self.entries@)[j] == keyed_models(other.entries@)[j],
            decreases self.entries@.len() - i,
        {
            let same_field = self.entries[i].0 == other.entries[i].0;
            if !same_field || !self.entries[i].1.same_as(&other.entries[i].1) {
                proof {
                    if self.model() == other.model() {
                        lemma_entries_canonical(self.entries@, other.entries@);
                        assert(keyed_models(self.entries@)[i as int] == keyed_models(other.entries@)[i as int]);
                    }
                }
                return false;
            }
            assert(keyed_models(self.entries@)[i as int] == keyed_models(other.entries@)[i as int]);
            i = i + 1;
        }
        proof {
            assert(keyed_models(self.entries@) =~= keyed_models(other.entries@));
            lemma_entries_same_models(self.entries@, other.entries@);
        }
        true
    }
}

impl Value {
    /// The value as a mathematical object.
    pub closed spec fn model(self) -> ValueModel {
        value_model(self)
    }

    /// A copy of the value.
    pub fn duplicate(&self) -> (value: Value)
        ensures
            value_model(value) == value_model(*self),
        decreases self,
    {
        match self {
            Value::I64(x) => Value::I64(*x),
            Value::Bool(b) => Value::Bool(*b),
            Value::Text(t) => Value::Text(t.clone()),
            Value::Product(fields) => Value::Product(fields.duplicate()),
        }
    }

    /// Whether the two values are the same logical value.
    pub fn same_as(&self, other: &Value) -> (same: bool)
        ensures
            same == (value_model(*self) == value_model(*other)),
        decreases self,
    {
        match (self, other) {
            (Value::I64(x), Value::I64(y)) => *x == *y,
            (Value::Bool(x), Value::Bool(y)) => *x == *y,
            (Value::Text(x), Value::Text(y)) => x.eq(y),
            (Value::Product(x), Value::Product(y)) => x.same_as(y),
            _ => false,
        }
    }
}

impl Value {
    /// The product of `pairs`, a later pair for a field replacing an earlier one.
    pub fn product(pairs: Vec<(SemanticId, Value)>) -> (value: Value)
        ensures
            value_model(value) == ValueModel::Product(entries_model(pairs@)),
    {
        Value::Product(Fields::from_pairs(pairs))
    }
}

impl Clone for Value {
    fn clone(&self) -> (value: Self)
        ensures
            value_model(value) == value_model(*self),
    {
        self.duplicate()
    }
}

impl Clone for Fields {
    fn clone(&self) -> (fields: Self)
        ensures
            fields.model() == self.model(),
    {
        self.duplicate()
    }
}

/// Why a lens cannot split a source or restore one.
#[derive(Debug, Clone, Copy, PartialEq, Eq, Structural)]
pub enum LensError {
    TypeMismatch,
    FieldMissing(SemanticId),
    ComplementMismatch,
}

/// A structural lens: the whole value, one field of a product, or one lens
/// applied to the view of another.
#[derive(Debug, PartialEq, Eq)]
pub enum LensExpr {
    Identity,
    ProductField(SemanticId),
    Compose(Box<LensExpr>, Box<LensExpr>),
}

impl Clone for LensExpr {
    fn clone(&self) -> (lens: Self)
        ensures
            lens == *self,
    {
        self.duplicate()
    }
}

/// The explicit, dependent complement captured while a lens projects a
/// source: what the view leaves out, and nothing physical.
#[derive(Debug, PartialEq, Eq)]
pub enum LensComplement {
    Identity,
    ProductRemainder { field: SemanticId, remainder: Fields },
    Compose { outer: Box<LensComplement>, inner: Box<LensComplement> },
}

/// A complement as a mathematical object.
pub enum ComplementModel {
    Identity,
    ProductRemainder { field: SemanticId, remainder: Map<SemanticId, ValueModel> },
    Compose { outer: Box<ComplementModel>, inner: Box<ComplementModel> },
}

pub open spec fn complement_model(c: LensComplement) -> ComplementModel
    decreases c,
{
    match c {
        LensComplement::Identity => ComplementModel::Identity,
        LensComplement::ProductRemainder { field, remainder } => ComplementModel::ProductRemainder { field, remainder: remainder.model() },
        LensComplement::Compose { outer, inner } => ComplementModel::Compose {
            outer: Box::new(complement_model(*outer)),
            inner: Box::new(complement_model(*inner)),
        },
    }
}

/// What `lens` splits `source` into: the view and the complement.
pub open spec fn spec_split(lens: LensExpr, source: ValueModel) -> Result<(ValueModel, ComplementModel), LensError>
    decreases lens,
{
    match lens {
        LensExpr::Identity => Ok((source, ComplementModel::Identity)),
        LensExpr::ProductField(field) => match source {
            ValueModel::Product(fields) => if fields.contains_key(field) {
                Ok((fields[field], ComplementModel::ProductRemainder { field, remainder: fields.remove(field) }))
            } else {
                Err(LensError::FieldMissing(field))
            },
            _ => Err(LensError::TypeMismatch),
        },
        LensExpr::Compose(outer, inner) => match spec_split(*outer, source) {
            Ok((middle, outer_complement)) => match spec_split(*inner, middle) {
                Ok((view, inner_complement)) => Ok((view, ComplementModel::Compose {
                    outer: Box::new(outer_complement),
                    inner: Box::new(inner_complement),
                })),
                Err(e) => Err(e),
            },
            Err(e) => Err(e),
        },
    }
}

/// What `lens` restores from `view` and `complement`.
pub open spec fn spec_restore(lens: LensExpr, view: ValueModel, complement: ComplementModel) -> Result<ValueModel, LensError>
    decreases lens,
{
    match (lens, complement) {
        (LensExpr::Identity, ComplementModel::Identity) => Ok(view),
        (LensExpr::ProductField(expected), ComplementModel::ProductRemainder { field, remainder }) => if expected == field {
            Ok(ValueModel::Product(remainder.insert(field, view)))
        } else {
            Err(LensError::ComplementMismatch)
        },
        (LensExpr::Compose(outer, inner), ComplementModel::Compose { outer: outer_complement, inner: inner_complement }) =>
            match spec_restore(*inner, view, *inner_complement) {
                Ok(middle) => spec_restore(*outer, middle, *outer_complement),
                Err(e) => Err(e),
            },
        _ => Err(LensError::ComplementMismatch),
    }
}

/// The view `lens` exposes of `source`.
pub open spec fn spec_get(lens: LensExpr, source: ValueModel) -> Result<ValueModel, LensError> {
    match spec_split(lens, source) {
        Ok((view, _)) => Ok(view),
        Err(e) => Err(e),
    }
}

/// `source` with its view under `lens` replaced by `view`.
pub open spec fn spec_put(lens: LensExpr, source: ValueModel, view: ValueModel) -> Result<ValueModel, LensError> {
    match spec_split(lens, source) {
        Ok((_, complement)) => spec_restore(lens, view, complement),
        Err(e) => Err(e),
    }
}

pub open spec fn split_view(result: Result<(Value, LensComplement), LensError>) -> Result<(ValueModel, ComplementModel), LensError> {
    match result {
        Ok((view, complement)) => Ok((value_model(view), complement_model(complement))),
        Err(e) => Err(e),
    }
}

pub open spec fn value_result_view(result: Result<Value, LensError>) -> Result<ValueModel, LensError> {
    match result {
        Ok(value) => Ok(value_model(value)),
        Err(e) => Err(e),
    }
}

/// Complement round trip: restoring from the view and the complement that a
/// split captured gives back the source.
pub proof fn lemma_split_restore(lens: LensExpr, source: ValueModel)
    ensures
        spec_split(lens, source) matches Ok((view, complement)) ==> spec_restore(lens, view, complement) == Ok::<ValueModel, LensError>(source),
    decreases lens,
{
    match lens {
        LensExpr::Identity => {},
        LensExpr::ProductField(field) => {
            if let ValueModel::Product(fields) = source {
                if fields.contains_key(field) {
                    assert(fields.remove(field).insert(field, fields[field]) =~= fields);
                }
            }
        },
        LensExpr::Compose(outer, inner) => {
            lemma_split_restore(*outer, source);
            if let Ok((middle, _)) = spec_split(*outer, source) {
                lemma_split_restore(*inner, middle);
            }
        },
    }
}

/// Restoring from a complement that a split captured succeeds for every
/// view, and splitting the restored source gives back that view and the
/// same complement.
pub proof fn lemma_restore_split(lens: LensExpr, source: ValueModel, view: ValueModel)
    ensures
        spec_split(lens, source) matches Ok((old_view, complement)) ==> {
            &&& spec_restore(lens, view, complement) is Ok
            &&& spec_split(lens, spec_restore(lens, view, complement)->Ok_0) == Ok::<(ValueModel, ComplementModel), LensError>((view, complement))
        },
    decreases lens,
{
    match lens {
        LensExpr::Identity => {},
        LensExpr::ProductField(field) => {
            if let ValueModel::Product(fields) = source {
                if fields.contains_key(field) {
                    assert(fields.remove(field).insert(field, view).remove(field) =~= fields.remove(field));
                }
            }
        },
        LensExpr::Compose(outer, inner) => {
            if let Ok((middle, outer_complement)) = spec_split(*outer, source) {
                if let Ok((_, inner_complement)) = spec_split(*inner, middle) {
                    lemma_restore_split(*inner, middle, view);
                    let new_middle = spec_restore(*inner, view, inner_complement)->Ok_0;
                    lemma_restore_split(*outer, source, new_middle);
                }
            }
        },
    }
}

/// GetPut: putting back the view a lens gets leaves the source unchanged.
pub proof fn lemma_lens_get_put(lens: LensExpr, source: ValueModel)
    ensures
        spec_get(lens, source) matches Ok(view) ==> spec_put(lens, source, view) == Ok::<ValueModel, LensError>(source),
{
    lemma_split_restore(lens, source);
}

/// PutGet: the view of what a put gives is the view that was put.
pub proof fn lemma_lens_put_get(lens: LensExpr, source: ValueModel, view: ValueModel)
    ensures
        spec_put(lens, source, view) matches Ok(updated) ==> spec_get(lens, updated) == Ok::<ValueModel, LensError>(view),
{
    lemma_restore_split(lens, source, view);
}

/// PutPut: a second put overrides the first entirely.
pub proof fn lemma_lens_put_put(lens: LensExpr, source: ValueModel, first: ValueModel, second: ValueModel)
    ensures
        spec_put(lens, source, first) matches Ok(after_first) ==> spec_put(lens, after_first, second) == spec_put(lens, source, second),
{
    lemma_restore_split(lens, source, first);
}

/// A put succeeds exactly when the lens can get the source's view.
pub proof fn lemma_lens_put_defined(lens: LensExpr, source: ValueModel, view: ValueModel)
    ensures
        spec_put(lens, source, view) is Ok <==> spec_get(lens, source) is Ok,
{
    lemma_restore_split(lens, source, view);
}

impl LensExpr {
    /// A copy of the lens.
    pub fn duplicate(&self) -> (lens: LensExpr)
        ensures
            lens == *self,
        decreases self,
    {
        match self {
            LensExpr::Identity => LensExpr::Identity,
            LensExpr::ProductField(field) => LensExpr::ProductField(*field),
            LensExpr::Compose(outer, inner) => LensExpr::Compose(Box::new(outer.duplicate()), Box::new(inner.duplicate())),
        }
    }

    /// Projects `source` to the view this lens exposes, capturing the complement.
    pub fn split(&self, source: &Value) -> (result: Result<(Value, LensComplement), LensError>)
        ensures
            split_view(result) == spec_split(*self, value_model(*source)),
        decreases self,
    {
        match self {
            LensExpr::Identity => Ok((source.duplicate(), LensComplement::Identity)),
            LensExpr::ProductField(field) => {
                let fields = match source {
                    Value::Product(fields) => fields,
                    _ => {
                        return Err(LensError::TypeMismatch);
                    },
                };
                let view = match fields.get(*field) {
                    Some(view) => view.duplicate(),
                    None => {
                        return Err(LensError::FieldMissing(*field));
                    },
                };
                let remainder = fields.without(*field);
                Ok((view, LensComplement::ProductRemainder { field: *field, remainder }))
            },
            LensExpr::Compose(outer, inner) => {
                let (middle, outer_complement) = match outer.split(source) {
                    Ok(parts) => parts,
                    Err(e) => {
                        return Err(e);
                    },
                };
                let (view, inner_complement) = match inner.split(&middle) {
                    Ok(parts) => parts,
                    Err(e) => {
                        return Err(e);
                    },
                };
                Ok((view, LensComplement::Compose { outer: Box::new(outer_complement), inner: Box::new(inner_complement) }))
            },
        }
    }

    /// Rebuilds a source from `view` and a complement this lens captured.
    pub fn restore(&self, view: &Value, complement: &LensComplement) -> (result: Result<Value, LensError>)
        ensures
            value_result_view(result) == spec_restore(*self, value_model(*view), complement_model(*complement)),
        decreases self,
    {
        match (self, complement) {
            (LensExpr::Identity, LensComplement::Identity) => Ok(view.duplicate()),
            (LensExpr::ProductField(expected), LensComplement::ProductRemainder { field, remainder }) => {
                if *expected != *field {
                    return Err(LensError::ComplementMismatch);
                }
                Ok(Value::Product(remainder.with_field(*field, view.duplicate())))
            },
            (LensExpr::Compose(outer, inner), LensComplement::Compose { outer: outer_complement, inner: inner_complement }) => {
                let middle = match inner.restore(view, inner_complement) {
                    Ok(middle) => middle,
                    Err(e) => {
                        return Err(e);
                    },
                };
                outer.restore(&middle, outer_complement)
            },
            _ => Err(LensError::ComplementMismatch),
        }
    }
    /// The view this lens exposes of `source`.
    pub fn get(&self, source: &Value) -> (result: Result<Value, LensError>)
        ensures
            value_result_view(result) == spec_get(*self, value_model(*source)),
    {
        match self.split(source) {
            Ok((view, _)) => Ok(view),
            Err(e) => Err(e),
        }
    }

    /// The complement this lens captures of `source`.
    pub fn complement(&self, source: &Value) -> (result: Result<LensComplement, LensError>)
        ensures
            result matches Ok(c) ==> spec_split(*self, value_model(*source)) matches Ok((_, sc)) && complement_model(c) == sc,
            result matches Err(e) ==> spec_split(*self, value_model(*source)) == Err::<(ValueModel, ComplementModel), LensError>(e),
    {
        match self.split(source) {
            Ok((_, complement)) => Ok(complement),
            Err(e) => Err(e),
        }
    }

    /// `source` with its view replaced by `view`.
    pub fn put(&self, source: &Value, view: &Value) -> (result: Result<Value, LensError>)
        ensures
            value_result_view(result) == spec_put(*self, value_model(*source), value_model(*view)),
    {
        let complement = match self.split(source) {
            Ok((_, complement)) => complement,
            Err(e) => {
                return Err(e);
            },
        };
        self.restore(view, &complement)
    }

    /// Whether putting back the view of `source` gives `source`: true
    /// whenever the lens can get that view.
    pub fn check_get_put(&self, source: &Value) -> (result: Result<bool, LensError>)
        ensures
            spec_get(*self, value_model(*source)) is Ok ==> result == Ok::<bool, LensError>(true),
            spec_get(*self, value_model(*source)) matches Err(e) ==> result == Err::<bool, LensError>(e),
    {
        proof {
            lemma_lens_get_put(*self, value_model(*source));
        }
        let view = match self.get(source) {
            Ok(view) => view,
            Err(e) => {
                return Err(e);
            },
        };
        let restored = match self.put(source, &view) {
            Ok(restored) => restored,
            Err(e) => {
                return Err(e);
            },
        };
        Ok(restored.same_as(source))
    }

    /// Whether the view of `source` with `view` put into it is `view`: true
    /// whenever the lens can get the view of `source`.
    pub fn check_put_get(&self, source: &Value, view: &Value) -> (result: Result<bool, LensError>)
        ensures
            spec_get(*self, value_model(*source)) is Ok ==> result == Ok::<bool, LensError>(true),
            spec_get(*self, value_model(*source)) matches Err(e) ==> result == Err::<bool, LensError>(e),
    {
        proof {
            lemma_lens_put_get(*self, value_model(*source), value_model(*view));
            lemma_lens_put_defined(*self, value_model(*source), value_model(*view));
        }
        let updated = match self.put(source, view) {
            Ok(updated) => updated,
            Err(e) => {
                return Err(e);
            },
        };
        let got = match self.get(&updated) {
            Ok(got) => got,
            Err(e) => {
                return Err(e);
            },
        };
        Ok(got.same_as(view))
    }

    /// Whether putting `first` and then `second` gives what putting `second`
    /// alone gives: true whenever the lens can get the view of `source`.
    pub fn check_put_put(&self, source: &Value, first: &Value, second: &Value) -> (result: Result<bool, LensError>)
        ensures
            spec_get(*self, value_model(*source)) is Ok ==> result == Ok::<bool, LensError>(true),
            spec_get(*self, value_model(*source)) matches Err(e) ==> result == Err::<bool, LensError>(e),
    {
        proof {
            lemma_lens_put_put(*self, value_model(*source), value_model(*first), value_model(*second));
            lemma_lens_put_defined(*self, value_model(*source), value_model(*first));
            lemma_lens_put_defined(*self, value_model(*source), value_model(*second));
            if let Ok(after_first) = spec_put(*self, value_model(*source), value_model(*first)) {
                lemma_lens_put_defined(*self, after_first, value_model(*second));
            }
        }
        let after_first = match self.put(source, first) {
            Ok(after_first) => after_first,
            Err(e) => {
                return Err(e);
            },
        };
        let after_both = match self.put(&after_first, second) {
            Ok(after_both) => after_both,
            Err(e) => {
                return Err(e);
            },
        };
        let second_only = match self.put(source, second) {
            Ok(second_only) => second_only,
            Err(e) => {
                return Err(e);
            },
        };
        Ok(after_both.same_as(&second_only))
    }

    /// Whether restoring from the view and complement of `source` gives
    /// `source`: true whenever the lens can split `source`.
    pub fn check_complement_round_trip(&self, source: &Value) -> (result: Result<bool, LensError>)
        ensures
            spec_split(*self, value_model(*source)) is Ok ==> result == Ok::<bool, LensError>(true),
            spec_split(*self, value_model(*source)) matches Err(e) ==> result == Err::<bool, LensError>(e),
    {
        proof {
            lemma_split_restore(*self, value_model(*source));
        }
        let (view, complement) = match self.split(source) {
            Ok(parts) => parts,
            Err(e) => {
                return Err(e);
            },
        };
        let restored = match self.restore(&view, &complement) {
            Ok(restored) => restored,
            Err(e) => {
                return Err(e);
            },
        };
        Ok(restored.same_as(source))
    }
}

} // verus!
