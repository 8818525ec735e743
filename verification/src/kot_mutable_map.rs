//! An insertion-ordered key/value association with in-place mutation and
//! the Kotlin `MutableMap` method surface.
//!
//! `put` returns the previous value and never moves a present key;
//! `compute`, `merge` and their variants combine lookup, one callback call
//! and an upsert or a deletion as one step.

use vstd::prelude::*;

use crate::errors::KotError;
use crate::kot_list::KotList;
use crate::kot_map::{lemma_key_index_is_first_index, pair_views, upsert_pair, zip_views, KotMap};
use crate::kot_mutable_list::KotMutableList;
use crate::kot_mutable_set::KotMutableSet;
use crate::model::{
    drop_keys, has_key, lemma_key_index, lemma_put_entry, lookup, put_all, put_entry,
    remove_key, unique_keys,
};
use crate::value::{lemma_views_of, views_of, Kind, ValSpec, Value};
use crate::vec_ops::{clone_values, contains_value, find_first};

verus! {

/// An insertion-ordered association of keys to values, mutable in place,
/// with the same key-uniqueness invariant as [`KotMap`].
#[derive(Debug)]
pub struct KotMutableMap {
    pub keys: Vec<Value>,
    pub values: Vec<Value>,
    pub key_type: Option<Kind>,
    pub value_type: Option<Kind>,
}

impl View for KotMutableMap {
    type V = Seq<(ValSpec, ValSpec)>;

    open spec fn view(&self) -> Seq<(ValSpec, ValSpec)> {
        zip_views(self.keys@, self.values@)
    }
}

impl KotMutableMap {
    /// The association invariant: index-aligned storage and no two entries
    /// sharing a key.
    pub open spec fn wf(self) -> bool {
        self.keys@.len() == self.values@.len() && unique_keys(self@)
    }

    /// Wrap the given vectors and kinds as they stand, with no uniqueness
    /// check.
    pub fn new_with_types(
        keys: Vec<Value>,
        values: Vec<Value>,
        key_type: Option<Kind>,
        value_type: Option<Kind>,
    ) -> (r: KotMutableMap)
        ensures
            r@ == zip_views(keys@, values@),
            r.key_type == key_type,
            r.value_type == value_type,
    {
        KotMutableMap { keys, values, key_type, value_type }
    }

    /// An association built by upserting each pair in turn.
    pub fn new(pairs: Vec<(Value, Value)>) -> (r: KotMutableMap)
        ensures
            r@ == put_all(Seq::empty(), pair_views(pairs@)),
            r.wf(),
            r.key_type is None,
            r.value_type is None,
    {
        let base = KotMap::new(pairs);
        KotMutableMap { keys: base.keys, values: base.values, key_type: None, value_type: None }
    }

    /// An association with declared key and value kinds, built by
    /// upserting each pair in turn.
    pub fn of_types(key_type: Kind, value_type: Kind, pairs: Vec<(Value, Value)>) -> (r:
        KotMutableMap)
        ensures
            r@ == put_all(Seq::empty(), pair_views(pairs@)),
            r.wf(),
            r.key_type == Option::Some(key_type),
            r.value_type == Option::Some(value_type),
    {
        let base = KotMap::new(pairs);
        KotMutableMap {
            keys: base.keys,
            values: base.values,
            key_type: Some(key_type),
            value_type: Some(value_type),
        }
    }

    /// The number of entries.
    pub fn size(&self) -> (r: usize)
        ensures
            r == self@.len(),
    {
        self.keys.len()
    }

    /// Whether the association holds no entry.
    pub fn is_empty(&self) -> (r: bool)
        ensures
            r == (self@.len() == 0),
    {
        self.keys.len() == 0
    }

    /// Whether the association holds some entry.
    pub fn is_not_empty(&self) -> (r: bool)
        ensures
            r == (self@.len() > 0),
    {
        self.keys.len() != 0
    }

    /// A read-only view of the entries.
    pub fn to_kot_map(&self) -> (r: KotMap)
        requires
            self.wf(),
        ensures
            r@ == self@,
            r.wf(),
            r.key_type == self.key_type,
            r.value_type == self.value_type,
    {
        let m = KotMap {
            keys: clone_values(&self.keys),
            values: clone_values(&self.values),
            key_type: self.key_type,
            value_type: self.value_type,
        };
        proof {
            self.lemma_same_zip(m.keys@, m.values@);
        }
        m
    }

    /// A fresh mutable association holding the same entries.
    pub fn to_kot_mutable_map(&self) -> (r: KotMutableMap)
        requires
            self.wf(),
        ensures
            r@ == self@,
            r.wf(),
            r.key_type == self.key_type,
            r.value_type == self.value_type,
    {
        let m = KotMutableMap {
            keys: clone_values(&self.keys),
            values: clone_values(&self.values),
            key_type: self.key_type,
            value_type: self.value_type,
        };
        proof {
            self.lemma_same_zip(m.keys@, m.values@);
        }
        m
    }

    /// Cloned key and value vectors zip to this association's entries.
    proof fn lemma_same_zip(&self, ka: Seq<Value>, va: Seq<Value>)
        requires
            self.wf(),
            views_of(ka) == views_of(self.keys@),
            views_of(va) == views_of(self.values@),
        ensures
            zip_views(ka, va) == self@,
    {
        lemma_views_of(ka);
        lemma_views_of(va);
        lemma_views_of(self.keys@);
        lemma_views_of(self.values@);
        assert forall|i: int| 0 <= i < ka.len() implies zip_views(ka, va)[i] == self@[i] by {
            assert(views_of(ka)[i] == ka[i]@);
            assert(views_of(self.keys@)[i] == self.keys@[i]@);
            assert(views_of(va)[i] == va[i]@);
            assert(views_of(self.values@)[i] == self.values@[i]@);
        }
        assert(zip_views(ka, va) =~= self@);
    }

    /// Whether some entry has key `key`.
    pub fn contains_key(&self, key: &Value) -> (r: bool)
        requires
            self.wf(),
        ensures
            r == has_key(self@, key@),
    {
        proof {
            lemma_views_of(self.keys@);
            lemma_key_index_is_first_index(self.keys@, self.values@, key@);
            crate::model::lemma_first_index_of(views_of(self.keys@), key@);
        }
        match find_first(&self.keys, key) {
            Some(_) => true,
            None => false,
        }
    }

    /// Whether some entry has value `value`.
    pub fn contains_value(&self, value: &Value) -> (r: bool)
        requires
            self.wf(),
        ensures
            r == exists|i: int| 0 <= i < self@.len() && (#[trigger] self@[i]).1 == value@,
    {
        proof {
            lemma_views_of(self.values@);
        }
        let found = contains_value(&self.values, value);
        proof {
            if found {
                let w = choose|w: int|
                    0 <= w < views_of(self.values@).len() && views_of(self.values@)[w] == value@;
                assert(self@[w].1 == value@);
            } else {
                assert forall|i: int|
                    0 <= i < self@.len() implies (#[trigger] self@[i]).1 != value@ by {
                    assert(views_of(self.values@)[i] == self@[i].1);
                    if views_of(self.values@)[i] == value@ {
                        assert(views_of(self.values@).contains(value@));
                    }
                }
            }
        }
        found
    }

    /// The value at `key`, or nothing when the key is absent.
    pub fn get(&self, key: &Value) -> (r: Option<Value>)
        requires
            self.wf(),
        ensures
            match r {
                Some(v) => has_key(self@, key@) && v@ == lookup(self@, key@),
                None => !has_key(self@, key@),
            },
    {
        proof {
            lemma_views_of(self.keys@);
            lemma_key_index_is_first_index(self.keys@, self.values@, key@);
            lemma_key_index(self@, key@);
        }
        match find_first(&self.keys, key) {
            Some(i) => {
                let v = self.values[i].deep_copy();
                proof {
                    assert(self@[i as int].1 == v@);
                }
                Some(v)
            },
            None => None,
        }
    }

    /// The value at `key`, or the given default when the key is absent.
    pub fn get_or_default(&self, key: &Value, default_value: Value) -> (r: Value)
        requires
            self.wf(),
        ensures
            has_key(self@, key@) ==> r@ == lookup(self@, key@),
            !has_key(self@, key@) ==> r == default_value,
    {
        match self.get(key) {
            Some(v) => v,
            None => default_value,
        }
    }

    /// The value at `key`, or an output of the zero-argument supplier
    /// when the key is absent.
    pub fn get_or_else<F: Fn() -> Value>(&self, key: &Value, default_value: F) -> (r: Value)
        requires
            self.wf(),
            call_requires(default_value, ()),
        ensures
            has_key(self@, key@) ==> r@ == lookup(self@, key@),
            !has_key(self@, key@) ==> call_ensures(default_value, (), r),
    {
        match self.get(key) {
            Some(v) => v,
            None => default_value(),
        }
    }

    /// The value at `key`; a key-not-found failure exactly when absent.
    pub fn get_value(&self, key: &Value) -> (r: Result<Value, KotError>)
        requires
            self.wf(),
        ensures
            match r {
                Ok(v) => has_key(self@, key@) && v@ == lookup(self@, key@),
                Err(e) => e == KotError::KeyNotFound && !has_key(self@, key@),
            },
    {
        match self.get(key) {
            Some(v) => Ok(v),
            None => Err(KotError::KeyNotFound),
        }
    }

    /// The value at `key`, or nothing when the key is absent.
    pub fn get_or_null(&self, key: &Value) -> (r: Option<Value>)
        requires
            self.wf(),
        ensures
            match r {
                Some(v) => has_key(self@, key@) && v@ == lookup(self@, key@),
                None => !has_key(self@, key@),
            },
    {
        self.get(key)
    }

    /// The keys, in insertion order, as a mutable set.
    pub fn keys(&self) -> (r: KotMutableSet)
        requires
            self.wf(),
        ensures
            r@ == crate::model::keys_of(self@),
            r.element_type == self.key_type,
    {
        proof {
            lemma_views_of(self.keys@);
        }
        let r = KotMutableSet {
            elements: clone_values(&self.keys),
            element_type: self.key_type,
        };
        proof {
            assert(r@ =~= crate::model::keys_of(self@));
        }
        r
    }

    /// The values, in insertion order, as a mutable list.
    pub fn values(&self) -> (r: KotMutableList)
        requires
            self.wf(),
        ensures
            r@ == crate::model::values_of(self@),
            r.element_type == self.value_type,
    {
        proof {
            lemma_views_of(self.values@);
        }
        let r = KotMutableList {
            elements: clone_values(&self.values),
            element_type: self.value_type,
        };
        proof {
            assert(r@ =~= crate::model::values_of(self@));
        }
        r
    }

    /// Upsert: overwrite the value when the key is present — the key keeps
    /// its position — else append the pair. Returns the previous value, or
    /// nothing when the key was absent.
    pub fn put(&mut self, key: Value, value: Value) -> (r: Option<Value>)
        requires
            old(self).wf(),
        ensures
            final(self)@ == put_entry(old(self)@, key@, value@),
            final(self).wf(),
            final(self).key_type == old(self).key_type,
            final(self).value_type == old(self).value_type,
            final(self)@.len() == if has_key(old(self)@, key@) {
                old(self)@.len() as int
            } else {
                old(self)@.len() + 1 as int
            },
            has_key(final(self)@, key@) && lookup(final(self)@, key@) == value@,
            match r {
                Some(v) => has_key(old(self)@, key@) && v@ == lookup(old(self)@, key@),
                None => !has_key(old(self)@, key@),
            },
    {
        proof {
            lemma_put_entry(old(self)@, key@, value@);
        }
        upsert_pair(&mut self.keys, &mut self.values, key, value)
    }

    /// Upsert every entry of `from`, left to right.
    pub fn put_all(&mut self, from: &KotMap) -> (r: ())
        requires
            old(self).wf(),
            from.wf(),
        ensures
            final(self)@ == put_all(old(self)@, from@),
            final(self).wf(),
            final(self).key_type == old(self).key_type,
            final(self).value_type == old(self).value_type,
    {
        proof {
            lemma_views_of(from.keys@);
            lemma_views_of(from.values@);
            assert(from@.skip(0) =~= from@);
        }
        let ghost base = old(self)@;
        let mut i: usize = 0;
        while i < from.keys.len()
            invariant
                from.wf(),
                i <= from.keys@.len(),
                self.wf(),
                self.key_type == old(self).key_type,
                self.value_type == old(self).value_type,
                put_all(self@, from@.skip(i as int)) == put_all(base, from@),
            decreases from.keys@.len() - i,
        {
            let ghost cur = self@;
            proof {
                assert(from@.skip(i as int)[0] == from@[i as int]);
                assert(from@.skip(i as int).drop_first() =~= from@.skip(i + 1));
                lemma_put_entry(cur, from@[i as int].0, from@[i as int].1);
            }
            let k = from.keys[i].deep_copy();
            let v = from.values[i].deep_copy();
            proof {
                assert(k@ == from@[i as int].0 && v@ == from@[i as int].1);
            }
            upsert_pair(&mut self.keys, &mut self.values, k, v);
            i = i + 1;
        }
        proof {
            assert(from@.skip(from.keys@.len() as int) =~= Seq::<(ValSpec, ValSpec)>::empty());
        }
    }

    /// Insert the pair only when the key is absent; returns the present
    /// value otherwise.
    pub fn put_if_absent(&mut self, key: Value, value: Value) -> (r: Option<Value>)
        requires
            old(self).wf(),
        ensures
            final(self).wf(),
            final(self).key_type == old(self).key_type,
            final(self).value_type == old(self).value_type,
            match r {
                Some(v) => has_key(old(self)@, key@) && v@ == lookup(old(self)@, key@) && final(self)@ == old(self)@,
                None => !has_key(old(self)@, key@) && final(self)@ == put_entry(
                    old(self)@,
                    key@,
                    value@,
                ),
            },
    {
        proof {
            lemma_views_of(self.keys@);
            lemma_key_index_is_first_index(self.keys@, self.values@, key@);
            lemma_key_index(self@, key@);
            lemma_put_entry(old(self)@, key@, value@);
        }
        match find_first(&self.keys, &key) {
            Some(i) => {
                let v = self.values[i].deep_copy();
                proof {
                    assert(self@[i as int].1 == v@);
                }
                Some(v)
            },
            None => {
                self.put(key, value);
                None
            },
        }
    }

    /// The value at `key`, inserting one produced by `default_value` first
    /// when the key is absent.
    pub fn get_or_put<F: Fn() -> Value>(&mut self, key: Value, default_value: F) -> (r: Value)
        requires
            old(self).wf(),
            call_requires(default_value, ()),
        ensures
            final(self).wf(),
            final(self).key_type == old(self).key_type,
            final(self).value_type == old(self).value_type,
            has_key(old(self)@, key@) ==> r@ == lookup(old(self)@, key@) && final(self)@ == old(self)@,
            !has_key(old(self)@, key@) ==> exists|v: Value|
                call_ensures(default_value, (), v) && r@ == v@ && final(self)@ == put_entry(
                    old(self)@,
                    key@,
                    v@,
                ),
    {
        proof {
            lemma_views_of(self.keys@);
            lemma_key_index_is_first_index(self.keys@, self.values@, key@);
            lemma_key_index(self@, key@);
        }
        match find_first(&self.keys, &key) {
            Some(i) => {
                let v = self.values[i].deep_copy();
                proof {
                    assert(self@[i as int].1 == v@);
                }
                v
            },
            None => {
                let produced = default_value();
                let copy = produced.deep_copy();
                proof {
                    lemma_put_entry(old(self)@, key@, produced@);
                }
                self.put(key, produced);
                copy
            },
        }
    }

    /// Remove the entry at `key`, returning its value; nothing changes
    /// when the key is absent.
    pub fn remove(&mut self, key: &Value) -> (r: Option<Value>)
        requires
            old(self).wf(),
        ensures
            final(self)@ == remove_key(old(self)@, key@),
            final(self).wf(),
            final(self).key_type == old(self).key_type,
            final(self).value_type == old(self).value_type,
            match r {
                Some(v) => has_key(old(self)@, key@) && v@ == lookup(old(self)@, key@),
                None => !has_key(old(self)@, key@),
            },
    {
        proof {
            lemma_views_of(self.keys@);
            lemma_key_index_is_first_index(self.keys@, self.values@, key@);
            lemma_key_index(self@, key@);
        }
        match find_first(&self.keys, key) {
            Some(i) => {
                let ghost kb = self.keys@;
                let ghost vb = self.values@;
                self.keys.remove(i);
                let removed = self.values.remove(i);
                proof {
                    assert(removed@ == lookup(old(self)@, key@));
                    assert(zip_views(self.keys@, self.values@) =~= old(self)@.remove(
                        i as int,
                    )) by {
                        crate::vec_ops::lemma_views_of_remove(kb, i as int);
                        crate::vec_ops::lemma_views_of_remove(vb, i as int);
                        lemma_views_of(kb.remove(i as int));
                        lemma_views_of(vb.remove(i as int));
                        assert forall|j: int|
                            0 <= j < kb.len() - 1 implies zip_views(self.keys@, self.values@)[j]
                            == old(self)@.remove(i as int)[j] by {
                            if j < i {
                                assert(self.keys@[j] == kb[j] && self.values@[j] == vb[j]);
                            } else {
                                assert(self.keys@[j] == kb[j + 1] && self.values@[j] == vb[j
                                    + 1]);
                            }
                        }
                    }
                    assert forall|a: int, b: int|
                        0 <= a < b < final(self)@.len() implies final(self)@[a].0 != final(self)@[b].0 by {
                        let aa: int = if a < i {
                            a
                        } else {
                            a + 1
                        };
                        let bb: int = if b < i {
                            b
                        } else {
                            b + 1
                        };
                        assert(final(self)@[a] == old(self)@[aa]);
                        assert(final(self)@[b] == old(self)@[bb]);
                    }
                }
                Some(removed)
            },
            None => None,
        }
    }

    /// Remove the entry at `key` only when its value equals `value`;
    /// returns whether an entry was removed.
    pub fn remove_entry(&mut self, key: &Value, value: &Value) -> (r: bool)
        requires
            old(self).wf(),
        ensures
            final(self).wf(),
            final(self).key_type == old(self).key_type,
            final(self).value_type == old(self).value_type,
            r == (has_key(old(self)@, key@) && lookup(old(self)@, key@) == value@),
            r ==> final(self)@ == remove_key(old(self)@, key@),
            !r ==> final(self)@ == old(self)@,
    {
        proof {
            lemma_views_of(self.keys@);
            lemma_key_index_is_first_index(self.keys@, self.values@, key@);
            lemma_key_index(self@, key@);
        }
        match find_first(&self.keys, key) {
            Some(i) => {
                if crate::value::eq_value(&self.values[i], value) {
                    self.remove(key);
                    true
                } else {
                    assert(lookup(old(self)@, key@) != value@);
                    false
                }
            },
            None => false,
        }
    }

    /// Remove every entry; the declared kinds stay.
    pub fn clear(&mut self)
        ensures
            final(self)@ == Seq::<(ValSpec, ValSpec)>::empty(),
            final(self).wf(),
            final(self).key_type == old(self).key_type,
            final(self).value_type == old(self).value_type,
    {
        self.keys.clear();
        self.values.clear();
        proof {
            assert(zip_views(self.keys@, self.values@) =~= Seq::<(ValSpec, ValSpec)>::empty());
        }
    }

    /// Look the key up, hand the key and its current value — null when
    /// absent — to the callback, and apply its decision: a null result
    /// removes the entry, any other upserts it. Returns the applied
    /// value, or nothing after a removal.
    pub fn compute<F: Fn(&Value, &Value) -> Value>(&mut self, key: &Value, remapping_function: F)
        -> (r: Option<Value>)
        requires
            old(self).wf(),
            forall|a: Value, b: Value| call_requires(remapping_function, (&a, &b)),
        ensures
            final(self).wf(),
            final(self).key_type == old(self).key_type,
            final(self).value_type == old(self).value_type,
            exists|cur: Value, nv: Value|
                {
                    &&& cur@ == if has_key(old(self)@, key@) {
                        lookup(old(self)@, key@)
                    } else {
                        ValSpec::Null
                    }
                    &&& #[trigger] call_ensures(remapping_function, (key, &cur), nv)
                    &&& if nv@ == ValSpec::Null {
                        final(self)@ == remove_key(old(self)@, key@) && r is None
                    } else {
                        final(self)@ == put_entry(old(self)@, key@, nv@) && (r matches Some(v)
                            && v@ == nv@)
                    }
                },
    {
        proof {
            lemma_views_of(self.keys@);
            lemma_key_index_is_first_index(self.keys@, self.values@, key@);
            lemma_key_index(self@, key@);
        }
        let current = match find_first(&self.keys, key) {
            Some(i) => self.values[i].deep_copy(),
            None => Value::Null,
        };
        let new_value = remapping_function(key, &current);
        let is_null = match &new_value {
            Value::Null => true,
            _ => false,
        };
        if is_null {
            self.remove(key);
            proof {
                assert(call_ensures(remapping_function, (key, &current), new_value));
            }
            None
        } else {
            let reported = new_value.deep_copy();
            proof {
                lemma_put_entry(old(self)@, key@, new_value@);
                assert(call_ensures(remapping_function, (key, &current), new_value));
            }
            self.put(key.deep_copy(), new_value);
            Some(reported)
        }
    }

    /// The value at `key`, inserting the callback's output for the key
    /// first when absent.
    pub fn compute_if_absent<F: Fn(&Value) -> Value>(&mut self, key: &Value, mapping_function: F)
        -> (r: Value)
        requires
            old(self).wf(),
            forall|a: Value| call_requires(mapping_function, (&a,)),
        ensures
            final(self).wf(),
            final(self).key_type == old(self).key_type,
            final(self).value_type == old(self).value_type,
            has_key(old(self)@, key@) ==> r@ == lookup(old(self)@, key@) && final(self)@ == old(self)@,
            !has_key(old(self)@, key@) ==> exists|v: Value|
                #[trigger] call_ensures(mapping_function, (key, ), v) && r@ == v@ && final(self)@
                    == put_entry(old(self)@, key@, v@),
    {
        proof {
            lemma_views_of(self.keys@);
            lemma_key_index_is_first_index(self.keys@, self.values@, key@);
            lemma_key_index(self@, key@);
        }
        match find_first(&self.keys, key) {
            Some(i) => {
                let v = self.values[i].deep_copy();
                proof {
                    assert(self@[i as int].1 == v@);
                }
                v
            },
            None => {
                let produced = mapping_function(key);
                let copy = produced.deep_copy();
                proof {
                    lemma_put_entry(old(self)@, key@, produced@);
                }
                self.put(key.deep_copy(), produced);
                copy
            },
        }
    }

    /// When the key is present, hand the key and current value to the
    /// callback and apply its decision: null removes the entry, any other
    /// value replaces it. Nothing changes when the key is absent.
    pub fn compute_if_present<F: Fn(&Value, &Value) -> Value>(
        &mut self,
        key: &Value,
        remapping_function: F,
    ) -> (r: Option<Value>)
        requires
            old(self).wf(),
            forall|a: Value, b: Value| call_requires(remapping_function, (&a, &b)),
        ensures
            final(self).wf(),
            final(self).key_type == old(self).key_type,
            final(self).value_type == old(self).value_type,
            !has_key(old(self)@, key@) ==> final(self)@ == old(self)@ && r is None,
            has_key(old(self)@, key@) ==> exists|cur: Value, nv: Value|
                {
                    &&& cur@ == lookup(old(self)@, key@)
                    &&& #[trigger] call_ensures(remapping_function, (key, &cur), nv)
                    &&& if nv@ == ValSpec::Null {
                        final(self)@ == remove_key(old(self)@, key@) && r is None
                    } else {
                        final(self)@ == put_entry(old(self)@, key@, nv@) && (r matches Some(v)
                            && v@ == nv@)
                    }
                },
    {
        proof {
            lemma_views_of(self.keys@);
            lemma_key_index_is_first_index(self.keys@, self.values@, key@);
            lemma_key_index(self@, key@);
        }
        match find_first(&self.keys, key) {
            Some(i) => {
                let current = self.values[i].deep_copy();
                let new_value = remapping_function(key, &current);
                let is_null = match &new_value {
                    Value::Null => true,
                    _ => false,
                };
                if is_null {
                    self.remove(key);
                    proof {
                        assert(call_ensures(remapping_function, (key, &current), new_value));
                    }
                    None
                } else {
                    let reported = new_value.deep_copy();
                    proof {
                        lemma_put_entry(old(self)@, key@, new_value@);
                        assert(call_ensures(remapping_function, (key, &current), new_value));
                    }
                    self.put(key.deep_copy(), new_value);
                    Some(reported)
                }
            },
            None => None,
        }
    }

    /// Insert the pair when the key is absent; else hand the current and
    /// the offered value to the callback and apply its decision: null
    /// removes the entry, any other value replaces it.
    pub fn merge<F: Fn(&Value, &Value) -> Value>(
        &mut self,
        key: &Value,
        value: Value,
        remapping_function: F,
    ) -> (r: Option<Value>)
        requires
            old(self).wf(),
            forall|a: Value, b: Value| call_requires(remapping_function, (&a, &b)),
        ensures
            final(self).wf(),
            final(self).key_type == old(self).key_type,
            final(self).value_type == old(self).value_type,
            !has_key(old(self)@, key@) ==> final(self)@ == put_entry(old(self)@, key@, value@)
                && (r matches Some(v) && v@ == value@),
            has_key(old(self)@, key@) ==> exists|cur: Value, nv: Value|
                {
                    &&& cur@ == lookup(old(self)@, key@)
                    &&& #[trigger] call_ensures(remapping_function, (&cur, &value), nv)
                    &&& if nv@ == ValSpec::Null {
                        final(self)@ == remove_key(old(self)@, key@) && r is None
                    } else {
                        final(self)@ == put_entry(old(self)@, key@, nv@) && (r matches Some(v)
                            && v@ == nv@)
                    }
                },
    {
        proof {
            lemma_views_of(self.keys@);
            lemma_key_index_is_first_index(self.keys@, self.values@, key@);
            lemma_key_index(self@, key@);
        }
        match find_first(&self.keys, key) {
            Some(i) => {
                let current = self.values[i].deep_copy();
                let new_value = remapping_function(&current, &value);
                let is_null = match &new_value {
                    Value::Null => true,
                    _ => false,
                };
                if is_null {
                    self.remove(key);
                    proof {
                        assert(call_ensures(remapping_function, (&current, &value), new_value));
                    }
                    None
                } else {
                    let reported = new_value.deep_copy();
                    proof {
                        lemma_put_entry(old(self)@, key@, new_value@);
                        assert(call_ensures(remapping_function, (&current, &value), new_value));
                    }
                    self.put(key.deep_copy(), new_value);
                    Some(reported)
                }
            },
            None => {
                let reported = value.deep_copy();
                proof {
                    lemma_put_entry(old(self)@, key@, value@);
                }
                self.put(key.deep_copy(), value);
                Some(reported)
            },
        }
    }

    /// Replace the value only when the key is present; returns the old
    /// value.
    pub fn replace(&mut self, key: &Value, value: Value) -> (r: Option<Value>)
        requires
            old(self).wf(),
        ensures
            final(self).wf(),
            final(self).key_type == old(self).key_type,
            final(self).value_type == old(self).value_type,
            match r {
                Some(v) => has_key(old(self)@, key@) && v@ == lookup(old(self)@, key@) && final(self)@ == put_entry(old(self)@, key@, value@),
                None => !has_key(old(self)@, key@) && final(self)@ == old(self)@,
            },
    {
        proof {
            lemma_views_of(self.keys@);
            lemma_key_index_is_first_index(self.keys@, self.values@, key@);
            lemma_key_index(self@, key@);
            lemma_put_entry(old(self)@, key@, value@);
        }
        match find_first(&self.keys, key) {
            Some(_) => self.put(key.deep_copy(), value),
            None => None,
        }
    }

    /// Replace the value only when the key currently maps to `old_value`;
    /// returns whether a replacement happened.
    pub fn replace_entry(&mut self, key: &Value, old_value: &Value, new_value: Value) -> (r: bool)
        requires
            old(self).wf(),
        ensures
            final(self).wf(),
            final(self).key_type == old(self).key_type,
            final(self).value_type == old(self).value_type,
            r == (has_key(old(self)@, key@) && lookup(old(self)@, key@) == old_value@),
            r ==> final(self)@ == put_entry(old(self)@, key@, new_value@),
            !r ==> final(self)@ == old(self)@,
    {
        proof {
            lemma_views_of(self.keys@);
            lemma_key_index_is_first_index(self.keys@, self.values@, key@);
            lemma_key_index(self@, key@);
            lemma_put_entry(old(self)@, key@, new_value@);
        }
        match find_first(&self.keys, key) {
            Some(i) => {
                if crate::value::eq_value(&self.values[i], old_value) {
                    self.put(key.deep_copy(), new_value);
                    true
                } else {
                    assert(lookup(old(self)@, key@) != old_value@);
                    false
                }
            },
            None => false,
        }
    }

    /// This association upserted with every entry of `other`, as a
    /// read-only association.
    pub fn plus(&self, other: &KotMap) -> (r: KotMap)
        requires
            self.wf(),
            other.wf(),
        ensures
            r@ == put_all(self@, other@),
            r.wf(),
    {
        self.to_kot_map().plus(other)
    }

    /// The entries whose key does not occur in `keys_to_remove`, as a
    /// read-only association.
    pub fn minus(&self, keys_to_remove: &KotList) -> (r: KotMap)
        requires
            self.wf(),
        ensures
            r@ == drop_keys(self@, keys_to_remove@),
            r.wf(),
    {
        self.to_kot_map().minus(keys_to_remove)
    }
}


/// A snapshot iterator over a mutable association's keys: it captures the elements at creation,
/// so later mutation of the source cannot affect it.
#[derive(Debug)]
pub struct KotMutableMapKeyIterator {
    pub elements: Vec<Value>,
    pub index: usize,
}

impl View for KotMutableMapKeyIterator {
    type V = Seq<ValSpec>;

    open spec fn view(&self) -> Seq<ValSpec> {
        views_of(self.elements@)
    }
}

impl KotMutableMapKeyIterator {
    /// The next element, advancing the cursor; nothing once the snapshot
    /// is exhausted.
    pub fn next(&mut self) -> (r: Option<Value>)
        ensures
            final(self)@ == old(self)@,
            match r {
                Some(v) => old(self).index < old(self)@.len() && v@ == old(self)@[
                    old(self).index as int] && final(self).index == old(self).index + 1,
                None => old(self).index >= old(self)@.len() && final(self).index == old(self).index,
            },
    {
        proof {
            lemma_views_of(self.elements@);
        }
        if self.index < self.elements.len() {
            let v = self.elements[self.index].deep_copy();
            self.index = self.index + 1;
            Some(v)
        } else {
            None
        }
    }
}

impl KotMutableMap {
    /// A snapshot iterator over the keys in insertion order; later
    /// mutation of the association does not affect it.
    pub fn key_iterator(&self) -> (r: KotMutableMapKeyIterator)
        requires
            self.wf(),
        ensures
            r@ == crate::model::keys_of(self@),
            r.index == 0,
    {
        proof {
            lemma_views_of(self.keys@);
        }
        let r = KotMutableMapKeyIterator { elements: clone_values(&self.keys), index: 0 };
        proof {
            assert(r@ =~= crate::model::keys_of(self@));
        }
        r
    }
}


impl KotMutableMap {
    /// Replace every value with the callable's output for its key and
    /// current value, in place, keeping every key in its position.
    pub fn replace_all<F: Fn(&Value, &Value) -> Value>(&mut self, function: F)
        requires
            old(self).wf(),
            forall|a: Value, b: Value| call_requires(function, (&a, &b)),
        ensures
            final(self).wf(),
            final(self).keys@ == old(self).keys@,
            final(self).key_type == old(self).key_type,
            final(self).value_type == old(self).value_type,
            final(self)@.len() == old(self)@.len(),
            exists|outs: Seq<Value>|
                {
                    &&& #[trigger] views_of(outs).len() == outs.len()
                    &&& outs.len() == old(self)@.len()
                    &&& forall|i: int|
                        0 <= i < outs.len() ==> call_ensures(
                            function,
                            (&old(self).keys@[i], &old(self).values@[i]),
                            #[trigger] outs[i],
                        )
                    &&& forall|i: int|
                        0 <= i < outs.len() ==> final(self)@[i] == (
                            old(self)@[i].0,
                            (#[trigger] outs[i])@,
                        )
                },
    {
        let ghost old_values = self.values@;
        let ghost mut outs: Seq<Value> = Seq::empty();
        let mut i: usize = 0;
        let n = self.keys.len();
        while i < n
            invariant
                i <= n,
                n == self.keys@.len(),
                self.keys@ == old(self).keys@,
                self.key_type == old(self).key_type,
                self.value_type == old(self).value_type,
                self.values@.len() == old_values.len(),
                old_values.len() == n,
                old_values == old(self).values@,
                outs.len() == i,
                forall|a: Value, b: Value| call_requires(function, (&a, &b)),
                forall|j: int|
                    0 <= j < i ==> call_ensures(
                        function,
                        (&old(self).keys@[j], &old_values[j]),
                        #[trigger] outs[j],
                    ),
                forall|j: int| 0 <= j < i ==> self.values@[j] == outs[j],
                forall|j: int| i <= j < n ==> self.values@[j] == old_values[j],
            decreases n - i,
        {
            let new_value = function(&self.keys[i], &self.values[i]);
            proof {
                outs = outs.push(new_value);
            }
            self.values.set(i, new_value);
            i = i + 1;
        }
        proof {
            lemma_views_of(outs);
            assert(views_of(outs).len() == outs.len());
            assert forall|t: int| 0 <= t < outs.len() implies final(self)@[t] == (
            old(self)@[t].0, outs[t]@) by {
            }
            assert forall|a: int, b: int|
                0 <= a < b < final(self)@.len() implies final(self)@[a].0 != final(self)@[b].0 by {
                assert(final(self)@[a].0 == old(self)@[a].0);
                assert(final(self)@[b].0 == old(self)@[b].0);
            }
        }
    }
}

} // verus!
