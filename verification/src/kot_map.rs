//! An insertion-ordered, read-only key/value association with the Kotlin
//! `Map` method surface.
//!
//! Keys and values are held in two index-aligned vectors; key lookup is a
//! linear scan with value equality, and key uniqueness is an invariant of
//! every construction path.

use vstd::prelude::*;

use crate::errors::KotError;
use crate::kot_list::KotList;
use crate::kot_set::KotSet;
use crate::model::{
    assoc_equiv, drop_keys, entries_match, first_index_of, has_key, key_index,
    lemma_drop_keys_unique, lemma_key_index, lemma_put_entry, lookup, put_all, put_entry,
    remove_key, unique_keys,
};
use crate::value::{lemma_views_of, views_of, Kind, ValSpec, Value};
use crate::vec_ops::{clone_values, contains_value, find_first};

verus! {

/// The entries modelled by two index-aligned value vectors.
pub open spec fn zip_views(keys: Seq<Value>, vals: Seq<Value>) -> Seq<(ValSpec, ValSpec)> {
    Seq::new(keys.len() as nat, |i: int| (keys[i]@, vals[i]@))
}

/// The entries modelled by a vector of key/value pairs.
pub open spec fn pair_views(s: Seq<(Value, Value)>) -> Seq<(ValSpec, ValSpec)> {
    Seq::new(s.len() as nat, |i: int| (s[i].0@, s[i].1@))
}

/// Looking a key up among zipped entries is searching the key vector.
pub proof fn lemma_key_index_is_first_index(keys: Seq<Value>, vals: Seq<Value>, k: ValSpec)
    requires
        keys.len() == vals.len(),
    ensures
        key_index(zip_views(keys, vals), k) == first_index_of(views_of(keys), k),
    decreases keys.len(),
{
    lemma_views_of(keys);
    if keys.len() > 0 {
        lemma_key_index_is_first_index(keys.drop_first(), vals.drop_first(), k);
        lemma_views_of(keys.drop_first());
        assert(zip_views(keys, vals).drop_first() =~= zip_views(
            keys.drop_first(),
            vals.drop_first(),
        ));
        assert(views_of(keys).drop_first() =~= views_of(keys.drop_first()));
        assert(zip_views(keys, vals)[0].0 == views_of(keys)[0]);
    }
}

/// Vectors with the same element views zip to the same entries.
proof fn lemma_zip_same(ka: Seq<Value>, va: Seq<Value>, kb: Seq<Value>, vb: Seq<Value>)
    requires
        views_of(ka) == views_of(kb),
        views_of(va) == views_of(vb),
        ka.len() == va.len(),
    ensures
        zip_views(ka, va) == zip_views(kb, vb),
{
    lemma_views_of(ka);
    lemma_views_of(kb);
    lemma_views_of(va);
    lemma_views_of(vb);
    assert forall|i: int| 0 <= i < ka.len() implies zip_views(ka, va)[i] == zip_views(
        kb,
        vb,
    )[i] by {
        assert(views_of(ka)[i] == ka[i]@);
        assert(views_of(kb)[i] == kb[i]@);
        if i < va.len() {
            assert(views_of(va)[i] == va[i]@);
            assert(views_of(vb)[i] == vb[i]@);
        }
    }
    assert(zip_views(ka, va) =~= zip_views(kb, vb));
}

/// Replace the value at `key` when present, else append the pair; returns
/// the replaced value.
pub(crate) fn upsert_pair(keys: &mut Vec<Value>, values: &mut Vec<Value>, key: Value, value: Value) -> (r:
    Option<Value>)
    requires
        old(keys)@.len() == old(values)@.len(),
    ensures
        final(keys)@.len() == final(values)@.len(),
        zip_views(final(keys)@, final(values)@) == put_entry(
            zip_views(old(keys)@, old(values)@),
            key@,
            value@,
        ),
        match r {
            Some(v) => has_key(zip_views(old(keys)@, old(values)@), key@) && v@ == lookup(
                zip_views(old(keys)@, old(values)@),
                key@,
            ),
            None => !has_key(zip_views(old(keys)@, old(values)@), key@),
        },
{
    let ghost before = zip_views(old(keys)@, old(values)@);
    proof {
        lemma_views_of(keys@);
        lemma_key_index_is_first_index(keys@, values@, key@);
        lemma_key_index(before, key@);
    }
    match find_first(keys, &key) {
        Some(i) => {
            let old_value = values[i].deep_copy();
            values.set(i, value);
            proof {
                assert(zip_views(final(keys)@, final(values)@) =~= put_entry(
                    before,
                    key@,
                    value@,
                ));
                assert(old_value@ == lookup(before, key@));
            }
            Some(old_value)
        },
        None => {
            keys.push(key);
            values.push(value);
            proof {
                assert(zip_views(final(keys)@, final(values)@) =~= put_entry(
                    before,
                    key@,
                    value@,
                ));
            }
            None
        },
    }
}

/// An insertion-ordered, read-only association of keys to values.
///
/// `put`-style construction preserves the insertion order of first-seen
/// keys: overwriting a key's value never moves the key.
#[derive(Debug)]
pub struct KotMap {
    pub keys: Vec<Value>,
    pub values: Vec<Value>,
    pub key_type: Option<Kind>,
    pub value_type: Option<Kind>,
}

impl View for KotMap {
    type V = Seq<(ValSpec, ValSpec)>;

    open spec fn view(&self) -> Seq<(ValSpec, ValSpec)> {
        zip_views(self.keys@, self.values@)
    }
}

impl KotMap {
    /// The association invariant: index-aligned storage and no two entries
    /// sharing a key.
    pub open spec fn wf(self) -> bool {
        self.keys@.len() == self.values@.len() && unique_keys(self@)
    }

    /// Wrap the given vectors and kinds as they stand, with no uniqueness
    /// check.
    pub fn new_with_types(
        keys: Vec<Value>,
        values: Vec<Value>,
        key_type: Option<Kind>,
        value_type: Option<Kind>,
    ) -> (r: KotMap)
        ensures
            r@ == zip_views(keys@, values@),
            r.keys@ == keys@,
            r.values@ == values@,
            r.key_type == key_type,
            r.value_type == value_type,
    {
        KotMap { keys, values, key_type, value_type }
    }

    /// An association built by upserting each pair in turn: a later pair
    /// with a seen key overwrites the value in place.
    pub fn new(pairs: Vec<(Value, Value)>) -> (r: KotMap)
        ensures
            r@ == put_all(Seq::empty(), pair_views(pairs@)),
            r.wf(),
            r.key_type is None,
            r.value_type is None,
    {
        let mut keys: Vec<Value> = Vec::new();
        let mut values: Vec<Value> = Vec::new();
        let ghost ps = pair_views(pairs@);
        let mut i: usize = 0;
        proof {
            assert(zip_views(keys@, values@) =~= Seq::<(ValSpec, ValSpec)>::empty());
            assert(ps.skip(0) =~= ps);
        }
        while i < pairs.len()
            invariant
                i <= pairs@.len(),
                keys@.len() == values@.len(),
                unique_keys(zip_views(keys@, values@)),
                put_all(zip_views(keys@, values@), ps.skip(i as int)) == put_all(
                    Seq::empty(),
                    ps,
                ),
            decreases pairs@.len() - i,
        {
            let ghost cur = zip_views(keys@, values@);
            proof {
                assert(ps.skip(i as int)[0] == ps[i as int]);
                assert(ps.skip(i as int).drop_first() =~= ps.skip(i + 1));
                lemma_put_entry(cur, ps[i as int].0, ps[i as int].1);
            }
            let (k, v) = (pairs[i].0.deep_copy(), pairs[i].1.deep_copy());
            proof {
                assert(k@ == ps[i as int].0 && v@ == ps[i as int].1);
            }
            upsert_pair(&mut keys, &mut values, k, v);
            i = i + 1;
        }
        proof {
            assert(ps.skip(pairs@.len() as int) =~= Seq::<(ValSpec, ValSpec)>::empty());
        }
        KotMap { keys, values, key_type: None, value_type: None }
    }

    /// An association with declared key and value kinds, built by
    /// upserting each pair in turn.
    pub fn of_types(key_type: Kind, value_type: Kind, pairs: Vec<(Value, Value)>) -> (r: KotMap)
        ensures
            r@ == put_all(Seq::empty(), pair_views(pairs@)),
            r.wf(),
            r.key_type == Option::Some(key_type),
            r.value_type == Option::Some(value_type),
    {
        let base = KotMap::new(pairs);
        KotMap {
            keys: base.keys,
            values: base.values,
            key_type: Some(key_type),
            value_type: Some(value_type),
        }
    }

    /// The number of entries.
    pub fn size(&self) -> (r: usize)
        ensures
            r == self@.len(),
    {
        self.keys.len()
    }

    /// Whether the association holds no entry.
    pub fn is_empty(&self) -> (r: bool)
        ensures
            r == (self@.len() == 0),
    {
        self.keys.len() == 0
    }

    /// Whether the association holds some entry.
    pub fn is_not_empty(&self) -> (r: bool)
        ensures
            r == (self@.len() > 0),
    {
        self.keys.len() != 0
    }

    /// Whether some entry has key `key`.
    pub fn contains_key(&self, key: &Value) -> (r: bool)
        requires
            self.wf(),
        ensures
            r == has_key(self@, key@),
    {
        proof {
            lemma_views_of(self.keys@);
            lemma_key_index_is_first_index(self.keys@, self.values@, key@);
            crate::model::lemma_first_index_of(views_of(self.keys@), key@);
        }
        match find_first(&self.keys, key) {
            Some(_) => true,
            None => false,
        }
    }

    /// Whether some entry has value `value`.
    pub fn contains_value(&self, value: &Value) -> (r: bool)
        requires
            self.wf(),
        ensures
            r == exists|i: int| 0 <= i < self@.len() && (#[trigger] self@[i]).1 == value@,
    {
        proof {
            lemma_views_of(self.values@);
        }
        let found = contains_value(&self.values, value);
        proof {
            if found {
                let w = choose|w: int|
                    0 <= w < views_of(self.values@).len() && views_of(self.values@)[w] == value@;
                assert(self@[w].1 == value@);
            } else {
                assert forall|i: int|
                    0 <= i < self@.len() implies (#[trigger] self@[i]).1 != value@ by {
                    assert(views_of(self.values@)[i] == self@[i].1);
                    assert(views_of(self.values@).contains(views_of(self.values@)[i]) == false
                        || views_of(self.values@)[i] != value@) by {
                        if views_of(self.values@)[i] == value@ {
                            assert(views_of(self.values@).contains(value@));
                        }
                    }
                }
            }
        }
        found
    }

    /// The value at `key`, or nothing when the key is absent.
    pub fn get(&self, key: &Value) -> (r: Option<Value>)
        requires
            self.wf(),
        ensures
            match r {
                Some(v) => has_key(self@, key@) && v@ == lookup(self@, key@),
                None => !has_key(self@, key@),
            },
    {
        proof {
            lemma_views_of(self.keys@);
            lemma_key_index_is_first_index(self.keys@, self.values@, key@);
            lemma_key_index(self@, key@);
        }
        match find_first(&self.keys, key) {
            Some(i) => {
                let v = self.values[i].deep_copy();
                proof {
                    assert(self@[i as int].1 == v@);
                }
                Some(v)
            },
            None => None,
        }
    }

    /// The value at `key`, or the given default when the key is absent.
    pub fn get_or_default(&self, key: &Value, default_value: Value) -> (r: Value)
        requires
            self.wf(),
        ensures
            has_key(self@, key@) ==> r@ == lookup(self@, key@),
            !has_key(self@, key@) ==> r == default_value,
    {
        match self.get(key) {
            Some(v) => v,
            None => default_value,
        }
    }

    /// The value at `key`, or an output of the zero-argument supplier
    /// when the key is absent.
    pub fn get_or_else<F: Fn() -> Value>(&self, key: &Value, default_value: F) -> (r: Value)
        requires
            self.wf(),
            call_requires(default_value, ()),
        ensures
            has_key(self@, key@) ==> r@ == lookup(self@, key@),
            !has_key(self@, key@) ==> call_ensures(default_value, (), r),
    {
        match self.get(key) {
            Some(v) => v,
            None => default_value(),
        }
    }

    /// The value at `key`; a key-not-found failure exactly when absent.
    pub fn get_value(&self, key: &Value) -> (r: Result<Value, KotError>)
        requires
            self.wf(),
        ensures
            match r {
                Ok(v) => has_key(self@, key@) && v@ == lookup(self@, key@),
                Err(e) => e == KotError::KeyNotFound && !has_key(self@, key@),
            },
    {
        match self.get(key) {
            Some(v) => Ok(v),
            None => Err(KotError::KeyNotFound),
        }
    }

    /// The value at `key`, or nothing when the key is absent.
    pub fn get_or_null(&self, key: &Value) -> (r: Option<Value>)
        requires
            self.wf(),
        ensures
            match r {
                Some(v) => has_key(self@, key@) && v@ == lookup(self@, key@),
                None => !has_key(self@, key@),
            },
    {
        self.get(key)
    }

    /// The keys, in insertion order, as a read-only set.
    pub fn keys(&self) -> (r: KotSet)
        requires
            self.wf(),
        ensures
            r@ == crate::model::keys_of(self@),
            r.element_type == self.key_type,
            unique_keys(self@) ==> crate::model::unique_vals(r@),
    {
        proof {
            lemma_views_of(self.keys@);
        }
        let r = KotSet {
            elements: clone_values(&self.keys),
            element_type: self.key_type,
        };
        proof {
            assert(r@ =~= crate::model::keys_of(self@));
            if unique_keys(self@) {
                assert forall|a: int, b: int| 0 <= a < b < r@.len() implies r@[a] != r@[b] by {
                    assert(self@[a].0 != self@[b].0);
                }
            }
        }
        r
    }

    /// The values, in insertion order, as a read-only list.
    pub fn values(&self) -> (r: KotList)
        requires
            self.wf(),
        ensures
            r@ == crate::model::values_of(self@),
            r.element_type == self.value_type,
    {
        proof {
            lemma_views_of(self.values@);
        }
        let r = KotList {
            elements: clone_values(&self.values),
            element_type: self.value_type,
        };
        proof {
            assert(r@ =~= crate::model::values_of(self@));
        }
        r
    }

    /// The entries, in insertion order, as a list of two-item list values.
    pub fn to_list(&self) -> (r: KotList)
        requires
            self.wf(),
        ensures
            r@.len() == self@.len(),
            forall|i: int|
                0 <= i < self@.len() ==> #[trigger] r@[i] == ValSpec::List(
                    seq![self@[i].0, self@[i].1],
                ),
            r.element_type is None,
    {
        proof {
            lemma_views_of(self.keys@);
            lemma_views_of(self.values@);
        }
        let mut out: Vec<Value> = Vec::new();
        let mut i: usize = 0;
        while i < self.keys.len()
            invariant
                self.wf(),
                i <= self.keys@.len(),
                out@.len() == i,
                forall|j: int|
                    0 <= j < i ==> #[trigger] out@[j]@ == ValSpec::List(
                        seq![self@[j].0, self@[j].1],
                    ),
            decreases self.keys@.len() - i,
        {
            let mut pair: Vec<Value> = Vec::new();
            pair.push(self.keys[i].deep_copy());
            pair.push(self.values[i].deep_copy());
            let pair_value = Value::List(pair);
            proof {
                lemma_views_of(pair@);
                assert(views_of(pair@) =~= seq![self@[i as int].0, self@[i as int].1]);
            }
            out.push(pair_value);
            i = i + 1;
        }
        proof {
            lemma_views_of(out@);
        }
        KotList { elements: out, element_type: None }
    }

    /// Whether this association and `other` hold the same entries: every
    /// key of one present in the other with an equal value, in any order.
    pub fn equals(&self, other: &KotMap) -> (r: bool)
        requires
            self.wf(),
            other.wf(),
        ensures
            r == assoc_equiv(self@, other@),
    {
        proof {
            lemma_views_of(self.keys@);
            lemma_views_of(other.keys@);
        }
        if self.keys.len() != other.keys.len() {
            return false;
        }
        let mut i: usize = 0;
        while i < self.keys.len()
            invariant
                self.wf(),
                other.wf(),
                i <= self.keys@.len(),
                self@.len() == other@.len(),
                forall|j: int|
                    0 <= j < i ==> has_key(other@, #[trigger] self@[j].0) && lookup(
                        other@,
                        self@[j].0,
                    ) == self@[j].1,
            decreases self.keys@.len() - i,
        {
            match other.get(&self.keys[i]) {
                Some(v) => {
                    if !crate::value::eq_value(&v, &self.values[i]) {
                        assert(lookup(other@, self@[i as int].0) != self@[i as int].1);
                        return false;
                    }
                },
                None => {
                    assert(!has_key(other@, self@[i as int].0));
                    return false;
                },
            }
            i = i + 1;
        }
        let mut j: usize = 0;
        while j < other.keys.len()
            invariant
                self.wf(),
                other.wf(),
                j <= other.keys@.len(),
                self@.len() == other@.len(),
                entries_match(self@, other@),
                forall|t: int|
                    0 <= t < j ==> has_key(self@, #[trigger] other@[t].0) && lookup(
                        self@,
                        other@[t].0,
                    ) == other@[t].1,
            decreases other.keys@.len() - j,
        {
            match self.get(&other.keys[j]) {
                Some(v) => {
                    if !crate::value::eq_value(&v, &other.values[j]) {
                        assert(lookup(self@, other@[j as int].0) != other@[j as int].1);
                        return false;
                    }
                },
                None => {
                    assert(!has_key(self@, other@[j as int].0));
                    return false;
                },
            }
            j = j + 1;
        }
        true
    }

    /// This association upserted with every entry of `other`, left to
    /// right: `other`'s value wins for a shared key, and first-seen key
    /// order is kept.
    pub fn plus(&self, other: &KotMap) -> (r: KotMap)
        requires
            self.wf(),
            other.wf(),
        ensures
            r@ == put_all(self@, other@),
            r.wf(),
            r.key_type == self.key_type,
            r.value_type == self.value_type,
    {
        let mut keys = clone_values(&self.keys);
        let mut values = clone_values(&self.values);
        let ghost base = self@;
        let mut i: usize = 0;
        proof {
            lemma_views_of(self.keys@);
            lemma_views_of(self.values@);
            lemma_views_of(keys@);
            lemma_views_of(values@);
            lemma_zip_same(keys@, values@, self.keys@, self.values@);
            assert(other@.skip(0) =~= other@);
            lemma_views_of(other.keys@);
            lemma_views_of(other.values@);
        }
        while i < other.keys.len()
            invariant
                other.wf(),
                i <= other.keys@.len(),
                keys@.len() == values@.len(),
                unique_keys(zip_views(keys@, values@)),
                put_all(zip_views(keys@, values@), other@.skip(i as int)) == put_all(
                    base,
                    other@,
                ),
            decreases other.keys@.len() - i,
        {
            let ghost cur = zip_views(keys@, values@);
            proof {
                assert(other@.skip(i as int)[0] == other@[i as int]);
                assert(other@.skip(i as int).drop_first() =~= other@.skip(i + 1));
                lemma_put_entry(cur, other@[i as int].0, other@[i as int].1);
            }
            let k = other.keys[i].deep_copy();
            let v = other.values[i].deep_copy();
            proof {
                assert(k@ == other@[i as int].0 && v@ == other@[i as int].1);
            }
            upsert_pair(&mut keys, &mut values, k, v);
            i = i + 1;
        }
        proof {
            assert(other@.skip(other.keys@.len() as int) =~= Seq::<(ValSpec, ValSpec)>::empty());
        }
        KotMap { keys, values, key_type: self.key_type, value_type: self.value_type }
    }

    /// This association upserted with the single pair `key` to `value`.
    pub fn plus_entry(&self, key: &Value, value: &Value) -> (r: KotMap)
        requires
            self.wf(),
        ensures
            r@ == put_entry(self@, key@, value@),
            r.wf(),
            r.key_type == self.key_type,
            r.value_type == self.value_type,
    {
        let mut keys = clone_values(&self.keys);
        let mut values = clone_values(&self.values);
        proof {
            lemma_views_of(self.keys@);
            lemma_views_of(self.values@);
            lemma_views_of(keys@);
            lemma_views_of(values@);
            lemma_zip_same(keys@, values@, self.keys@, self.values@);
            lemma_put_entry(self@, key@, value@);
        }
        upsert_pair(&mut keys, &mut values, key.deep_copy(), value.deep_copy());
        KotMap { keys, values, key_type: self.key_type, value_type: self.value_type }
    }

    /// The entries whose key does not occur in `keys_to_remove`, in order.
    pub fn minus(&self, keys_to_remove: &KotList) -> (r: KotMap)
        requires
            self.wf(),
        ensures
            r@ == drop_keys(self@, keys_to_remove@),
            r.wf(),
            r.key_type == self.key_type,
            r.value_type == self.value_type,
    {
        proof {
            lemma_views_of(self.keys@);
            lemma_views_of(self.values@);
            lemma_views_of(keys_to_remove.elements@);
        }
        let ghost pred = |e: (ValSpec, ValSpec)| !keys_to_remove@.contains(e.0);
        let mut keys: Vec<Value> = Vec::new();
        let mut values: Vec<Value> = Vec::new();
        let mut i: usize = 0;
        proof {
            reveal(Seq::filter);
            assert(self@.take(0) =~= Seq::<(ValSpec, ValSpec)>::empty());
            assert(self@.take(0).filter(pred) =~= Seq::<(ValSpec, ValSpec)>::empty());
            assert(zip_views(keys@, values@) =~= Seq::<(ValSpec, ValSpec)>::empty());
        }
        while i < self.keys.len()
            invariant
                self.wf(),
                i <= self.keys@.len(),
                keys@.len() == values@.len(),
                zip_views(keys@, values@) == self@.take(i as int).filter(pred),
            decreases self.keys@.len() - i,
        {
            let ghost p = self@.take(i as int);
            proof {
                assert(self@.take(i + 1) =~= p.push(self@[i as int]));
                Seq::lemma_filter_push(p, self@[i as int], pred);
            }
            if !contains_value(&keys_to_remove.elements, &self.keys[i]) {
                let ghost kb = keys@;
                let ghost vb = values@;
                keys.push(self.keys[i].deep_copy());
                values.push(self.values[i].deep_copy());
                proof {
                    assert(zip_views(keys@, values@) =~= zip_views(kb, vb).push(
                        self@[i as int],
                    ));
                }
            }
            i = i + 1;
        }
        proof {
            assert(self@.take(self.keys@.len() as int) =~= self@);
            lemma_drop_keys_unique(self@, keys_to_remove@);
        }
        KotMap { keys, values, key_type: self.key_type, value_type: self.value_type }
    }

    /// The entries other than the one at `key`, in order.
    pub fn minus_key(&self, key: &Value) -> (r: KotMap)
        requires
            self.wf(),
        ensures
            r@ == remove_key(self@, key@),
            r.wf(),
            r.key_type == self.key_type,
            r.value_type == self.value_type,
    {
        proof {
            lemma_views_of(self.keys@);
            lemma_key_index_is_first_index(self.keys@, self.values@, key@);
            lemma_key_index(self@, key@);
        }
        let mut keys = clone_values(&self.keys);
        let mut values = clone_values(&self.values);
        proof {
            lemma_views_of(keys@);
            lemma_views_of(values@);
            lemma_zip_same(keys@, values@, self.keys@, self.values@);
        }
        match find_first(&self.keys, key) {
            Some(i) => {
                let ghost kb = keys@;
                let ghost vb = values@;
                keys.remove(i);
                values.remove(i);
                proof {
                    assert(zip_views(keys@, values@) =~= self@.remove(i as int)) by {
                        crate::vec_ops::lemma_views_of_remove(kb, i as int);
                        crate::vec_ops::lemma_views_of_remove(vb, i as int);
                        lemma_views_of(kb.remove(i as int));
                        lemma_views_of(vb.remove(i as int));
                        assert forall|j: int|
                            0 <= j < kb.len() - 1 implies zip_views(keys@, values@)[j] == self@
                            .remove(i as int)[j] by {
                            if j < i {
                                assert(keys@[j] == kb[j] && values@[j] == vb[j]);
                            } else {
                                assert(keys@[j] == kb[j + 1] && values@[j] == vb[j + 1]);
                            }
                        }
                    }
                    assert forall|a: int, b: int|
                        0 <= a < b < zip_views(keys@, values@).len() implies zip_views(
                        keys@,
                        values@,
                    )[a].0 != zip_views(keys@, values@)[b].0 by {
                        let aa: int = if a < i {
                            a
                        } else {
                            a + 1
                        };
                        let bb: int = if b < i {
                            b
                        } else {
                            b + 1
                        };
                        assert(self@.remove(i as int)[a] == self@[aa]);
                        assert(self@.remove(i as int)[b] == self@[bb]);
                    }
                }
                KotMap { keys, values, key_type: self.key_type, value_type: self.value_type }
            },
            None => {
                KotMap { keys, values, key_type: self.key_type, value_type: self.value_type }
            },
        }
    }

    /// A fresh association holding the same entries and declared kinds.
    pub fn to_kot_map(&self) -> (r: KotMap)
        requires
            self.wf(),
        ensures
            r@ == self@,
            r.wf(),
            r.key_type == self.key_type,
            r.value_type == self.value_type,
    {
        let keys = clone_values(&self.keys);
        let values = clone_values(&self.values);
        proof {
            lemma_views_of(self.keys@);
            lemma_views_of(self.values@);
            lemma_views_of(keys@);
            lemma_views_of(values@);
            lemma_zip_same(keys@, values@, self.keys@, self.values@);
        }
        KotMap { keys, values, key_type: self.key_type, value_type: self.value_type }
    }
}


/// A snapshot iterator over an association's keys: it captures the elements at creation,
/// so later mutation of the source cannot affect it.
#[derive(Debug)]
pub struct KotMapKeyIterator {
    pub elements: Vec<Value>,
    pub index: usize,
}

impl View for KotMapKeyIterator {
    type V = Seq<ValSpec>;

    open spec fn view(&self) -> Seq<ValSpec> {
        views_of(self.elements@)
    }
}

impl KotMapKeyIterator {
    /// The next element, advancing the cursor; nothing once the snapshot
    /// is exhausted.
    pub fn next(&mut self) -> (r: Option<Value>)
        ensures
            final(self)@ == old(self)@,
            match r {
                Some(v) => old(self).index < old(self)@.len() && v@ == old(self)@[
                    old(self).index as int] && final(self).index == old(self).index + 1,
                None => old(self).index >= old(self)@.len() && final(self).index == old(self).index,
            },
    {
        proof {
            lemma_views_of(self.elements@);
        }
        if self.index < self.elements.len() {
            let v = self.elements[self.index].deep_copy();
            self.index = self.index + 1;
            Some(v)
        } else {
            None
        }
    }
}

impl KotMap {
    /// A snapshot iterator over the keys in insertion order.
    pub fn key_iterator(&self) -> (r: KotMapKeyIterator)
        requires
            self.wf(),
        ensures
            r@ == crate::model::keys_of(self@),
            r.index == 0,
    {
        proof {
            lemma_views_of(self.keys@);
        }
        let r = KotMapKeyIterator { elements: clone_values(&self.keys), index: 0 };
        proof {
            assert(r@ =~= crate::model::keys_of(self@));
        }
        r
    }
}


/// The entries kept by the mask `d`, in order.
pub open spec fn masked_entries(keys: Seq<Value>, vals: Seq<Value>, d: Seq<bool>) -> Seq<
    (ValSpec, ValSpec),
>
    recommends
        d.len() == keys.len(),
        vals.len() == keys.len(),
    decreases keys.len(),
{
    if keys.len() == 0 {
        Seq::empty()
    } else {
        let p = masked_entries(keys.drop_last(), vals.drop_last(), d.drop_last());
        if d.len() == keys.len() && vals.len() == keys.len() && d.last() {
            p.push((keys.last()@, vals.last()@))
        } else {
            p
        }
    }
}

/// Every entry kept by a mask is an entry of the zipped source; a mask
/// keeps unique keys unique.
pub proof fn lemma_masked_entries(keys: Seq<Value>, vals: Seq<Value>, d: Seq<bool>)
    requires
        d.len() == keys.len(),
        vals.len() == keys.len(),
    ensures
        masked_entries(keys, vals, d).len() <= keys.len(),
        forall|j: int|
            0 <= j < masked_entries(keys, vals, d).len() ==> zip_views(keys, vals).contains(
                #[trigger] masked_entries(keys, vals, d)[j],
            ),
        unique_keys(zip_views(keys, vals)) ==> unique_keys(masked_entries(keys, vals, d)),
    decreases keys.len(),
{
    if keys.len() > 0 {
        let kp = keys.drop_last();
        let vp = vals.drop_last();
        let dp = d.drop_last();
        lemma_masked_entries(kp, vp, dp);
        let m = masked_entries(keys, vals, d);
        let p = masked_entries(kp, vp, dp);
        assert(zip_views(kp, vp) =~= zip_views(keys, vals).drop_last());
        assert forall|j: int| 0 <= j < m.len() implies zip_views(keys, vals).contains(
            #[trigger] m[j],
        ) by {
            if d.last() && j == m.len() - 1 {
                assert(m[j] == zip_views(keys, vals)[keys.len() - 1]);
            } else {
                assert(m[j] == p[j]);
                assert(zip_views(kp, vp).contains(p[j]));
                let i = choose|i: int|
                    0 <= i < zip_views(kp, vp).len() && zip_views(kp, vp)[i] == p[j];
                assert(m[j] == zip_views(keys, vals)[i]);
            }
        }
        if unique_keys(zip_views(keys, vals)) {
            assert(unique_keys(zip_views(kp, vp))) by {
                assert(forall|i: int|
                    0 <= i < kp.len() ==> zip_views(kp, vp)[i] == zip_views(keys, vals)[i]);
            }
            if d.last() {
                assert forall|a: int, b: int| 0 <= a < b < m.len() implies m[a].0 != m[b].0 by {
                    if b == m.len() - 1 {
                        assert(m[a] == p[a]);
                        assert(zip_views(kp, vp).contains(p[a]));
                        let i = choose|i: int|
                            0 <= i < zip_views(kp, vp).len() && zip_views(kp, vp)[i] == p[a];
                        assert(m[a].0 == zip_views(keys, vals)[i].0);
                        assert(m[b].0 == zip_views(keys, vals)[keys.len() - 1].0);
                    } else {
                        assert(m[a] == p[a] && m[b] == p[b]);
                    }
                }
            }
        }
    }
}

impl KotMap {
    /// Each entry transformed by the callable — handed the key and value —
    /// in order, as a read-only list declaring no kind.
    pub fn map<F: Fn(&Value, &Value) -> Value>(&self, transform: F) -> (r: KotList)
        requires
            self.wf(),
            forall|i: int|
                0 <= i < self.keys@.len() ==> call_requires(
                    transform,
                    (&self.keys@[i], &self.values@[i]),
                ),
        ensures
            r.element_type is None,
            r@.len() == self@.len(),
            exists|outs: Seq<Value>|
                {
                    &&& outs.len() == self.keys@.len()
                    &&& forall|i: int|
                        0 <= i < outs.len() ==> call_ensures(
                            transform,
                            (&self.keys@[i], &self.values@[i]),
                            #[trigger] outs[i],
                        )
                    &&& r@ == views_of(outs)
                },
    {
        let ghost mut outs: Seq<Value> = Seq::empty();
        let mut result: Vec<Value> = Vec::new();
        let mut i: usize = 0;
        while i < self.keys.len()
            invariant
                self.wf(),
                i <= self.keys@.len(),
                outs.len() == i,
                result@ == outs,
                forall|t: int|
                    0 <= t < self.keys@.len() ==> call_requires(
                        transform,
                        (&self.keys@[t], &self.values@[t]),
                    ),
                forall|t: int|
                    0 <= t < i ==> call_ensures(
                        transform,
                        (&self.keys@[t], &self.values@[t]),
                        #[trigger] outs[t],
                    ),
            decreases self.keys@.len() - i,
        {
            let transformed = transform(&self.keys[i], &self.values[i]);
            proof {
                outs = outs.push(transformed);
            }
            result.push(transformed);
            i = i + 1;
        }
        proof {
            lemma_views_of(result@);
            lemma_views_of(outs);
            assert(views_of(result@) =~= views_of(outs));
        }
        KotList { elements: result, element_type: None }
    }

    /// The same keys with each value transformed — the callable is handed
    /// the key and value — keeping entry order and the declared kinds.
    pub fn map_values<F: Fn(&Value, &Value) -> Value>(&self, transform: F) -> (r: KotMap)
        requires
            self.wf(),
            forall|i: int|
                0 <= i < self.keys@.len() ==> call_requires(
                    transform,
                    (&self.keys@[i], &self.values@[i]),
                ),
        ensures
            r.wf(),
            r.key_type == self.key_type,
            r.value_type is None,
            r@.len() == self@.len(),
            exists|outs: Seq<Value>|
                {
                    &&& #[trigger] views_of(outs).len() == outs.len()
                    &&& outs.len() == self.keys@.len()
                    &&& forall|i: int|
                        0 <= i < outs.len() ==> call_ensures(
                            transform,
                            (&self.keys@[i], &self.values@[i]),
                            #[trigger] outs[i],
                        )
                    &&& forall|i: int|
                        0 <= i < outs.len() ==> r@[i] == (self@[i].0, (#[trigger] outs[i])@)
                },
    {
        proof {
            lemma_views_of(self.keys@);
        }
        let keys = clone_values(&self.keys);
        let ghost mut outs: Seq<Value> = Seq::empty();
        let mut values: Vec<Value> = Vec::new();
        let mut i: usize = 0;
        proof {
            lemma_views_of(keys@);
        }
        while i < self.values.len()
            invariant
                self.wf(),
                i <= self.values@.len(),
                outs.len() == i,
                values@ == outs,
                forall|t: int|
                    0 <= t < self.keys@.len() ==> call_requires(
                        transform,
                        (&self.keys@[t], &self.values@[t]),
                    ),
                forall|t: int|
                    0 <= t < i ==> call_ensures(
                        transform,
                        (&self.keys@[t], &self.values@[t]),
                        #[trigger] outs[t],
                    ),
            decreases self.values@.len() - i,
        {
            let transformed = transform(&self.keys[i], &self.values[i]);
            proof {
                outs = outs.push(transformed);
            }
            values.push(transformed);
            i = i + 1;
        }
        let r = KotMap { keys, values, key_type: self.key_type, value_type: None };
        proof {
            lemma_views_of(outs);
            assert(views_of(outs).len() == outs.len());
            assert forall|t: int| 0 <= t < outs.len() implies #[trigger] r@[t] == (
            self@[t].0, outs[t]@) by {
                assert(views_of(r.keys@)[t] == r.keys@[t]@);
                assert(views_of(self.keys@)[t] == self.keys@[t]@);
            }
            assert forall|a: int, b: int| 0 <= a < b < r@.len() implies r@[a].0 != r@[b].0 by {
                assert(r@[a].0 == self@[a].0 && r@[b].0 == self@[b].0);
            }
        }
        r
    }

    /// The entries whose key the predicate accepts, in order.
    pub fn filter_keys<F: Fn(&Value) -> bool>(&self, predicate: F) -> (r: KotMap)
        requires
            self.wf(),
            forall|i: int| 0 <= i < self.keys@.len() ==> call_requires(predicate, (&self.keys@[i],)),
        ensures
            r.wf(),
            r.key_type == self.key_type,
            r.value_type == self.value_type,
            exists|d: Seq<bool>|
                {
                    &&& d.len() == self.keys@.len()
                    &&& forall|i: int|
                        0 <= i < d.len() ==> call_ensures(
                            predicate,
                            (&self.keys@[i],),
                            #[trigger] d[i],
                        )
                    &&& r@ == #[trigger] masked_entries(self.keys@, self.values@, d)
                },
    {
        let ghost mut d: Seq<bool> = Seq::empty();
        let mut keys: Vec<Value> = Vec::new();
        let mut values: Vec<Value> = Vec::new();
        let mut i: usize = 0;
        proof {
            assert(zip_views(keys@, values@) =~= Seq::<(ValSpec, ValSpec)>::empty());
        }
        while i < self.keys.len()
            invariant
                self.wf(),
                i <= self.keys@.len(),
                d.len() == i,
                keys@.len() == values@.len(),
                forall|t: int|
                    0 <= t < self.keys@.len() ==> call_requires(predicate, (&self.keys@[t],)),
                forall|t: int|
                    0 <= t < i ==> call_ensures(predicate, (&self.keys@[t],), #[trigger] d[t]),
                zip_views(keys@, values@) == masked_entries(
                    self.keys@.subrange(0, i as int),
                    self.values@.subrange(0, i as int),
                    d,
                ),
            decreases self.keys@.len() - i,
        {
            let keep = predicate(&self.keys[i]);
            proof {
                assert(self.keys@.subrange(0, i + 1).drop_last() =~= self.keys@.subrange(
                    0,
                    i as int,
                ));
                assert(self.values@.subrange(0, i + 1).drop_last() =~= self.values@.subrange(
                    0,
                    i as int,
                ));
                assert(d.push(keep).drop_last() =~= d);
            }
            if keep {
                let ghost kb = keys@;
                let ghost vb = values@;
                keys.push(self.keys[i].deep_copy());
                values.push(self.values[i].deep_copy());
                proof {
                    assert(zip_views(keys@, values@) =~= zip_views(kb, vb).push(
                        (self.keys@[i as int]@, self.values@[i as int]@),
                    ));
                }
            }
            proof {
                d = d.push(keep);
            }
            i = i + 1;
        }
        proof {
            assert(self.keys@.subrange(0, self.keys@.len() as int) =~= self.keys@);
            assert(self.values@.subrange(0, self.values@.len() as int) =~= self.values@);
            lemma_masked_entries(self.keys@, self.values@, d);
        }
        KotMap { keys, values, key_type: self.key_type, value_type: self.value_type }
    }

    /// The entries whose value the predicate accepts, in order.
    pub fn filter_values<F: Fn(&Value) -> bool>(&self, predicate: F) -> (r: KotMap)
        requires
            self.wf(),
            forall|i: int|
                0 <= i < self.values@.len() ==> call_requires(predicate, (&self.values@[i],)),
        ensures
            r.wf(),
            r.key_type == self.key_type,
            r.value_type == self.value_type,
            exists|d: Seq<bool>|
                {
                    &&& d.len() == self.keys@.len()
                    &&& forall|i: int|
                        0 <= i < d.len() ==> call_ensures(
                            predicate,
                            (&self.values@[i],),
                            #[trigger] d[i],
                        )
                    &&& r@ == #[trigger] masked_entries(self.keys@, self.values@, d)
                },
    {
        let ghost mut d: Seq<bool> = Seq::empty();
        let mut keys: Vec<Value> = Vec::new();
        let mut values: Vec<Value> = Vec::new();
        let mut i: usize = 0;
        proof {
            assert(zip_views(keys@, values@) =~= Seq::<(ValSpec, ValSpec)>::empty());
        }
        while i < self.keys.len()
            invariant
                self.wf(),
                i <= self.keys@.len(),
                d.len() == i,
                keys@.len() == values@.len(),
                forall|t: int|
                    0 <= t < self.values@.len() ==> call_requires(predicate, (&self.values@[t],)),
                forall|t: int|
                    0 <= t < i ==> call_ensures(predicate, (&self.values@[t],), #[trigger] d[t]),
                zip_views(keys@, values@) == masked_entries(
                    self.keys@.subrange(0, i as int),
                    self.values@.subrange(0, i as int),
                    d,
                ),
            decreases self.keys@.len() - i,
        {
            let keep = predicate(&self.values[i]);
            proof {
                assert(self.keys@.subrange(0, i + 1).drop_last() =~= self.keys@.subrange(
                    0,
                    i as int,
                ));
                assert(self.values@.subrange(0, i + 1).drop_last() =~= self.values@.subrange(
                    0,
                    i as int,
                ));
                assert(d.push(keep).drop_last() =~= d);
            }
            if keep {
                let ghost kb = keys@;
                let ghost vb = values@;
                keys.push(self.keys[i].deep_copy());
                values.push(self.values[i].deep_copy());
                proof {
                    assert(zip_views(keys@, values@) =~= zip_views(kb, vb).push(
                        (self.keys@[i as int]@, self.values@[i as int]@),
                    ));
                }
            }
            proof {
                d = d.push(keep);
            }
            i = i + 1;
        }
        proof {
            assert(self.keys@.subrange(0, self.keys@.len() as int) =~= self.keys@);
            assert(self.values@.subrange(0, self.values@.len() as int) =~= self.values@);
            lemma_masked_entries(self.keys@, self.values@, d);
        }
        KotMap { keys, values, key_type: self.key_type, value_type: self.value_type }
    }

    /// Whether every entry passes the predicate, which is handed the key
    /// and value.
    pub fn all<F: Fn(&Value, &Value) -> bool>(&self, predicate: F) -> (r: bool)
        requires
            self.wf(),
            forall|i: int|
                0 <= i < self.keys@.len() ==> call_requires(
                    predicate,
                    (&self.keys@[i], &self.values@[i]),
                ),
        ensures
            r ==> forall|i: int|
                0 <= i < self.keys@.len() ==> call_ensures(
                    predicate,
                    (&#[trigger] self.keys@[i], &self.values@[i]),
                    true,
                ),
            !r ==> exists|i: int|
                0 <= i < self.keys@.len() && call_ensures(
                    predicate,
                    (&#[trigger] self.keys@[i], &self.values@[i]),
                    false,
                ),
    {
        let mut i: usize = 0;
        while i < self.keys.len()
            invariant
                self.wf(),
                i <= self.keys@.len(),
                forall|t: int|
                    0 <= t < self.keys@.len() ==> call_requires(
                        predicate,
                        (&self.keys@[t], &self.values@[t]),
                    ),
                forall|t: int|
                    0 <= t < i ==> call_ensures(
                        predicate,
                        (&#[trigger] self.keys@[t], &self.values@[t]),
                        true,
                    ),
            decreases self.keys@.len() - i,
        {
            if !predicate(&self.keys[i], &self.values[i]) {
                return false;
            }
            i = i + 1;
        }
        true
    }

    /// Whether some entry passes the predicate, which is handed the key
    /// and value.
    pub fn any<F: Fn(&Value, &Value) -> bool>(&self, predicate: F) -> (r: bool)
        requires
            self.wf(),
            forall|i: int|
                0 <= i < self.keys@.len() ==> call_requires(
                    predicate,
                    (&self.keys@[i], &self.values@[i]),
                ),
        ensures
            r ==> exists|i: int|
                0 <= i < self.keys@.len() && call_ensures(
                    predicate,
                    (&#[trigger] self.keys@[i], &self.values@[i]),
                    true,
                ),
            !r ==> forall|i: int|
                0 <= i < self.keys@.len() ==> call_ensures(
                    predicate,
                    (&#[trigger] self.keys@[i], &self.values@[i]),
                    false,
                ),
    {
        let mut i: usize = 0;
        while i < self.keys.len()
            invariant
                self.wf(),
                i <= self.keys@.len(),
                forall|t: int|
                    0 <= t < self.keys@.len() ==> call_requires(
                        predicate,
                        (&self.keys@[t], &self.values@[t]),
                    ),
                forall|t: int|
                    0 <= t < i ==> call_ensures(
                        predicate,
                        (&#[trigger] self.keys@[t], &self.values@[t]),
                        false,
                    ),
            decreases self.keys@.len() - i,
        {
            if predicate(&self.keys[i], &self.values[i]) {
                return true;
            }
            i = i + 1;
        }
        false
    }

    /// How many entries pass one run of the predicate.
    pub fn count<F: Fn(&Value, &Value) -> bool>(&self, predicate: F) -> (r: usize)
        requires
            self.wf(),
            forall|i: int|
                0 <= i < self.keys@.len() ==> call_requires(
                    predicate,
                    (&self.keys@[i], &self.values@[i]),
                ),
        ensures
            r <= self@.len(),
            exists|d: Seq<bool>|
                {
                    &&& d.len() == self.keys@.len()
                    &&& forall|i: int|
                        0 <= i < d.len() ==> call_ensures(
                            predicate,
                            (&self.keys@[i], &self.values@[i]),
                            #[trigger] d[i],
                        )
                    &&& r == crate::vec_ops::num_true(d)
                },
    {
        let ghost mut d: Seq<bool> = Seq::empty();
        let mut n: usize = 0;
        let mut i: usize = 0;
        while i < self.keys.len()
            invariant
                self.wf(),
                i <= self.keys@.len(),
                d.len() == i,
                n <= i,
                forall|t: int|
                    0 <= t < self.keys@.len() ==> call_requires(
                        predicate,
                        (&self.keys@[t], &self.values@[t]),
                    ),
                forall|t: int|
                    0 <= t < i ==> call_ensures(
                        predicate,
                        (&self.keys@[t], &self.values@[t]),
                        #[trigger] d[t],
                    ),
                n == crate::vec_ops::num_true(d),
            decreases self.keys@.len() - i,
        {
            let hit = predicate(&self.keys[i], &self.values[i]);
            proof {
                assert(d.push(hit).drop_last() =~= d);
            }
            if hit {
                n = n + 1;
            }
            proof {
                d = d.push(hit);
            }
            i = i + 1;
        }
        n
    }
}


impl KotMap {
    /// The entries, in insertion order, as a read-only set of two-item
    /// list values; entries are distinct because keys are.
    pub fn entries(&self) -> (r: KotSet)
        requires
            self.wf(),
        ensures
            r@.len() == self@.len(),
            forall|i: int|
                0 <= i < self@.len() ==> #[trigger] r@[i] == ValSpec::List(
                    seq![self@[i].0, self@[i].1],
                ),
            r.element_type is None,
            crate::model::unique_vals(r@),
    {
        let pairs = self.to_list();
        let r = KotSet { elements: pairs.elements, element_type: None };
        proof {
            assert forall|a: int, b: int| 0 <= a < b < r@.len() implies r@[a] != r@[b] by {
                assert(self@[a].0 != self@[b].0);
                assert(r@[a] == ValSpec::List(seq![self@[a].0, self@[a].1]));
                assert(r@[b] == ValSpec::List(seq![self@[b].0, self@[b].1]));
                if r@[a] == r@[b] {
                    assert(seq![self@[a].0, self@[a].1][0] == seq![self@[b].0, self@[b].1][0]);
                }
            }
        }
        r
    }

    /// The entries one run of the predicate accepts — handed the key and
    /// value — in order.
    pub fn filter<F: Fn(&Value, &Value) -> bool>(&self, predicate: F) -> (r: KotMap)
        requires
            self.wf(),
            forall|i: int|
                0 <= i < self.keys@.len() ==> call_requires(
                    predicate,
                    (&self.keys@[i], &self.values@[i]),
                ),
        ensures
            r.wf(),
            r.key_type == self.key_type,
            r.value_type == self.value_type,
            exists|d: Seq<bool>|
                {
                    &&& d.len() == self.keys@.len()
                    &&& forall|i: int|
                        0 <= i < d.len() ==> call_ensures(
                            predicate,
                            (&self.keys@[i], &self.values@[i]),
                            #[trigger] d[i],
                        )
                    &&& r@ == #[trigger] masked_entries(self.keys@, self.values@, d)
                },
    {
        let ghost mut d: Seq<bool> = Seq::empty();
        let mut keys: Vec<Value> = Vec::new();
        let mut values: Vec<Value> = Vec::new();
        let mut i: usize = 0;
        proof {
            assert(zip_views(keys@, values@) =~= Seq::<(ValSpec, ValSpec)>::empty());
        }
        while i < self.keys.len()
            invariant
                self.wf(),
                i <= self.keys@.len(),
                d.len() == i,
                keys@.len() == values@.len(),
                forall|t: int|
                    0 <= t < self.keys@.len() ==> call_requires(
                        predicate,
                        (&self.keys@[t], &self.values@[t]),
                    ),
                forall|t: int|
                    0 <= t < i ==> call_ensures(
                        predicate,
                        (&self.keys@[t], &self.values@[t]),
                        #[trigger] d[t],
                    ),
                zip_views(keys@, values@) == masked_entries(
                    self.keys@.subrange(0, i as int),
                    self.values@.subrange(0, i as int),
                    d,
                ),
            decreases self.keys@.len() - i,
        {
            let keep = predicate(&self.keys[i], &self.values[i]);
            proof {
                assert(self.keys@.subrange(0, i + 1).drop_last() =~= self.keys@.subrange(
                    0,
                    i as int,
                ));
                assert(self.values@.subrange(0, i + 1).drop_last() =~= self.values@.subrange(
                    0,
                    i as int,
                ));
                assert(d.push(keep).drop_last() =~= d);
            }
            if keep {
                let ghost kb = keys@;
                let ghost vb = values@;
                keys.push(self.keys[i].deep_copy());
                values.push(self.values[i].deep_copy());
                proof {
                    assert(zip_views(keys@, values@) =~= zip_views(kb, vb).push(
                        (self.keys@[i as int]@, self.values@[i as int]@),
                    ));
                }
            }
            proof {
                d = d.push(keep);
            }
            i = i + 1;
        }
        proof {
            assert(self.keys@.subrange(0, self.keys@.len() as int) =~= self.keys@);
            assert(self.values@.subrange(0, self.values@.len() as int) =~= self.values@);
            lemma_masked_entries(self.keys@, self.values@, d);
        }
        KotMap { keys, values, key_type: self.key_type, value_type: self.value_type }
    }

    /// Whether no entry passes the predicate: the negation of `any`.
    pub fn none<F: Fn(&Value, &Value) -> bool>(&self, predicate: F) -> (r: bool)
        requires
            self.wf(),
            forall|i: int|
                0 <= i < self.keys@.len() ==> call_requires(
                    predicate,
                    (&self.keys@[i], &self.values@[i]),
                ),
        ensures
            !r ==> exists|i: int|
                0 <= i < self.keys@.len() && call_ensures(
                    predicate,
                    (&#[trigger] self.keys@[i], &self.values@[i]),
                    true,
                ),
            r ==> forall|i: int|
                0 <= i < self.keys@.len() ==> call_ensures(
                    predicate,
                    (&#[trigger] self.keys@[i], &self.values@[i]),
                    false,
                ),
    {
        !self.any(predicate)
    }

    /// Each key transformed by the callable — handed the key and value —
    /// and upserted with the entry's value, left to right: entries whose
    /// transformed keys collide keep the later value.
    pub fn map_keys<F: Fn(&Value, &Value) -> Value>(&self, transform: F) -> (r: KotMap)
        requires
            self.wf(),
            forall|i: int|
                0 <= i < self.keys@.len() ==> call_requires(
                    transform,
                    (&self.keys@[i], &self.values@[i]),
                ),
        ensures
            r.wf(),
            r.key_type is None,
            r.value_type == self.value_type,
            exists|kouts: Seq<Value>|
                {
                    &&& #[trigger] views_of(kouts).len() == kouts.len()
                    &&& kouts.len() == self.keys@.len()
                    &&& forall|i: int|
                        0 <= i < kouts.len() ==> call_ensures(
                            transform,
                            (&self.keys@[i], &self.values@[i]),
                            #[trigger] kouts[i],
                        )
                    &&& r@ == #[trigger] crate::model::apply_puts(
                        Seq::empty(),
                        views_of(kouts),
                        crate::model::values_of(self@),
                    )
                },
    {
        proof {
            lemma_views_of(self.values@);
        }
        let ghost mut kouts: Seq<Value> = Seq::empty();
        let mut keys: Vec<Value> = Vec::new();
        let mut values: Vec<Value> = Vec::new();
        let ghost vals = crate::model::values_of(self@);
        let mut i: usize = 0;
        proof {
            assert(zip_views(keys@, values@) =~= Seq::<(ValSpec, ValSpec)>::empty());
            assert(vals.take(0) =~= Seq::<ValSpec>::empty());
        }
        while i < self.keys.len()
            invariant
                self.wf(),
                i <= self.keys@.len(),
                kouts.len() == i,
                keys@.len() == values@.len(),
                forall|t: int|
                    0 <= t < self.keys@.len() ==> call_requires(
                        transform,
                        (&self.keys@[t], &self.values@[t]),
                    ),
                forall|t: int|
                    0 <= t < i ==> call_ensures(
                        transform,
                        (&self.keys@[t], &self.values@[t]),
                        #[trigger] kouts[t],
                    ),
                vals == crate::model::values_of(self@),
                crate::model::unique_keys(zip_views(keys@, values@)),
                zip_views(keys@, values@) == crate::model::apply_puts(
                    Seq::empty(),
                    views_of(kouts),
                    vals.take(i as int),
                ),
            decreases self.keys@.len() - i,
        {
            let ghost cur = zip_views(keys@, values@);
            let ghost old_kouts = kouts;
            let k = transform(&self.keys[i], &self.values[i]);
            let ghost kv = k;
            let copied = self.values[i].deep_copy();
            proof {
                crate::vec_ops::lemma_views_of_push(kouts, kv);
                crate::model::lemma_put_entry(cur, kv@, copied@);
            }
            upsert_pair(&mut keys, &mut values, k, copied);
            proof {
                kouts = kouts.push(kv);
                assert(views_of(kouts).drop_last() =~= views_of(old_kouts));
                assert(vals.take(i + 1).drop_last() =~= vals.take(i as int));
                assert(vals.take(i + 1).last() == vals[i as int]);
                assert(vals[i as int] == self.values@[i as int]@);
                assert(zip_views(keys@, values@) == crate::model::apply_puts(
                    Seq::empty(),
                    views_of(kouts),
                    vals.take(i + 1),
                ));
            }
            i = i + 1;
        }
        proof {
            assert(vals.take(self.keys@.len() as int) =~= vals);
            lemma_views_of(kouts);
        }
        KotMap { keys, values, key_type: None, value_type: self.value_type }
    }

    /// A fresh mutable association holding the same entries and declared
    /// kinds.
    pub fn to_kot_mutable_map(&self) -> (r: crate::kot_mutable_map::KotMutableMap)
        requires
            self.wf(),
        ensures
            r@ == self@,
            r.wf(),
            r.key_type == self.key_type,
            r.value_type == self.value_type,
    {
        let base = self.to_kot_map();
        crate::kot_mutable_map::KotMutableMap {
            keys: base.keys,
            values: base.values,
            key_type: base.key_type,
            value_type: base.value_type,
        }
    }

    /// This association, or an output of the supplier when it is empty.
    pub fn if_empty<F: Fn() -> KotMap>(&self, default_value: F) -> (r: KotMap)
        requires
            self.wf(),
            call_requires(default_value, ()),
        ensures
            self@.len() > 0 ==> r@ == self@ && r.key_type == self.key_type && r.value_type
                == self.value_type,
            self@.len() == 0 ==> call_ensures(default_value, (), r),
    {
        if self.keys.len() > 0 {
            self.to_kot_map()
        } else {
            default_value()
        }
    }
}

} // verus!
