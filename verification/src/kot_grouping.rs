//! A lazy group-and-fold helper over a source sequence and a key selector.
//!
//! A grouping holds a snapshot of a source list's elements and an opaque
//! key-selector callable; nothing is grouped until a terminal operation
//! makes its single left-to-right pass, seeding a per-key accumulator at
//! each key's first occurrence — so no group is ever empty and a reduction
//! never fails.

use vstd::prelude::*;

use crate::kot_map::{lemma_key_index_is_first_index, zip_views, KotMap};
use crate::kot_mutable_map::KotMutableMap;
use crate::model::{
    apply_puts, bump_count, count_fold, has_key, int_succ, key_index, last_prior,
    lemma_key_index, lemma_last_prior, lemma_last_prior_stable, lemma_put_entry, lookup,
    put_entry, unique_keys,
};
use crate::value::{lemma_views_of, views_of, ValSpec, Value};
use crate::vec_ops::find_first;

verus! {

/// A source snapshot paired with a key selector, consumed by one terminal
/// fold, count, aggregate or reduce call.
pub struct KotGrouping<F> {
    pub elements: Vec<Value>,
    pub key_selector: F,
}

impl<F: Fn(&Value) -> Value> KotGrouping<F> {
    /// A grouping over the given elements and key selector.
    pub fn new(elements: Vec<Value>, key_selector: F) -> (r: KotGrouping<F>)
        ensures
            r.elements@ == elements@,
            r.key_selector == key_selector,
    {
        KotGrouping { elements, key_selector }
    }

    /// How many source elements fall under each key, as an association
    /// from key to count in first-occurrence order, under one run of the
    /// key selector.
    pub fn each_count(&self) -> (r: KotMap)
        requires
            self.elements@.len() <= i64::MAX,
            forall|i: int|
                0 <= i < self.elements@.len() ==> call_requires(
                    self.key_selector,
                    (&self.elements@[i],),
                ),
        ensures
            r.wf(),
            exists|kvals: Seq<Value>|
                {
                    &&& kvals.len() == self.elements@.len()
                    &&& forall|i: int|
                        0 <= i < kvals.len() ==> call_ensures(
                            self.key_selector,
                            (&self.elements@[i],),
                            #[trigger] kvals[i],
                        )
                    &&& r@ == count_fold(Seq::empty(), views_of(kvals))
                },
    {
        let mut keys: Vec<Value> = Vec::new();
        let mut values: Vec<Value> = Vec::new();
        let ghost mut kvals: Seq<Value> = Seq::empty();
        let mut i: usize = 0;
        proof {
            lemma_views_of(kvals);
            assert(zip_views(keys@, values@) =~= Seq::<(ValSpec, ValSpec)>::empty());
            assert(views_of(kvals) =~= Seq::<ValSpec>::empty());
        }
        while i < self.elements.len()
            invariant
                i <= self.elements@.len(),
                self.elements@.len() <= i64::MAX,
                forall|t: int|
                    0 <= t < self.elements@.len() ==> call_requires(
                        self.key_selector,
                        (&self.elements@[t],),
                    ),
                kvals.len() == i,
                forall|t: int|
                    0 <= t < i ==> call_ensures(
                        self.key_selector,
                        (&self.elements@[t],),
                        #[trigger] kvals[t],
                    ),
                keys@.len() == values@.len(),
                unique_keys(zip_views(keys@, values@)),
                zip_views(keys@, values@) == count_fold(Seq::empty(), views_of(kvals)),
                forall|t: int|
                    0 <= t < values@.len() ==> ((#[trigger] zip_views(keys@, values@)[t].1)
                        matches ValSpec::Int(m) && 1 <= m <= i),
            decreases self.elements@.len() - i,
        {
            let ghost es = zip_views(keys@, values@);
            let k = (self.key_selector)(&self.elements[i]);
            let ghost kv = k;
            proof {
                lemma_views_of(keys@);
                lemma_key_index_is_first_index(keys@, values@, kv@);
                lemma_key_index(es, kv@);
                crate::vec_ops::lemma_views_of_push(kvals, kv);
                assert(views_of(kvals.push(kv)).drop_last() =~= views_of(kvals));
            }
            match find_first(&keys, &k) {
                Some(idx) => {
                    let current: i64 = match &values[idx] {
                        Value::Int(n) => *n,
                        _ => 0,
                    };
                    proof {
                        assert(es[idx as int].1 matches ValSpec::Int(m) && 1 <= m <= i);
                        assert(values@[idx as int]@ == es[idx as int].1);
                        assert(current as int == es[idx as int].1->Int_0);
                        lemma_put_entry(es, kv@, int_succ(lookup(es, kv@)));
                    }
                    let ghost vb = values@;
                    values.set(idx, Value::Int(current + 1));
                    proof {
                        assert(zip_views(keys@, values@) =~= put_entry(
                            es,
                            kv@,
                            int_succ(lookup(es, kv@)),
                        ));
                        assert(zip_views(keys@, values@) == bump_count(es, kv@));
                    }
                },
                None => {
                    proof {
                        lemma_put_entry(es, kv@, ValSpec::Int(1));
                    }
                    let ghost kb = keys@;
                    let ghost vb = values@;
                    keys.push(k);
                    values.push(Value::Int(1));
                    proof {
                        assert(zip_views(keys@, values@) =~= put_entry(es, kv@, ValSpec::Int(1)));
                        assert(zip_views(keys@, values@) == bump_count(es, kv@));
                    }
                },
            }
            proof {
                kvals = kvals.push(kv);
                assert forall|t: int|
                    0 <= t < values@.len() implies (#[trigger] zip_views(keys@, values@)[t].1)
                    matches ValSpec::Int(m) && 1 <= m <= i + 1 by {
                    if zip_views(keys@, values@)[t] == es[t] {
                    } else {
                        assert(zip_views(keys@, values@)[t].1 == int_succ(lookup(es, kv@))
                            || zip_views(keys@, values@)[t].1 == ValSpec::Int(1));
                    }
                }
            }
            i = i + 1;
        }
        KotMap { keys, values, key_type: None, value_type: None }
    }
}


/// Step `i` of a grouping fold is sanctioned: the element's key is
/// `kvals[i]`, and `outs[i]` is an output the operation may produce — from
/// a seed the initial-value selector may produce at the key's first
/// occurrence, or from the previous accumulator of the same key.
pub open spec fn fold_step_ok<G: Fn(&Value) -> Value, H: Fn(&Value, &Value, &Value) -> Value>(
    initial_value_selector: G,
    operation: H,
    elems: Seq<Value>,
    kvals: Seq<Value>,
    outs: Seq<Value>,
    i: int,
) -> bool {
    let p = last_prior(views_of(kvals), i, views_of(kvals)[i]);
    if p == -1 {
        exists|init: Value|
            call_ensures(initial_value_selector, (&kvals[i],), init) && call_ensures(
                operation,
                (&kvals[i], &init, &elems[i]),
                outs[i],
            )
    } else {
        call_ensures(operation, (&kvals[i], &outs[p], &elems[i]), outs[i])
    }
}

/// A sanctioned step stays sanctioned when a later element is appended.
proof fn transfer_fold_step<G: Fn(&Value) -> Value, H: Fn(&Value, &Value, &Value) -> Value>(
    initial_value_selector: G,
    operation: H,
    elems: Seq<Value>,
    old_kvals: Seq<Value>,
    new_kvals: Seq<Value>,
    old_outs: Seq<Value>,
    new_outs: Seq<Value>,
    t: int,
)
    requires
        0 <= t < old_kvals.len(),
        old_outs.len() == old_kvals.len(),
        new_kvals.drop_last() == old_kvals,
        new_outs.drop_last() == old_outs,
        new_kvals.len() == old_kvals.len() + 1,
        new_outs.len() == old_outs.len() + 1,
        fold_step_ok(initial_value_selector, operation, elems, old_kvals, old_outs, t),
    ensures
        fold_step_ok(initial_value_selector, operation, elems, new_kvals, new_outs, t),
{
    lemma_views_of(old_kvals);
    lemma_views_of(new_kvals);
    assert(forall|j: int| 0 <= j < old_kvals.len() ==> #[trigger] new_kvals[j] == old_kvals[j]);
    assert(forall|j: int| 0 <= j < old_outs.len() ==> #[trigger] new_outs[j] == old_outs[j]);
    assert forall|j: int| 0 <= j <= t implies #[trigger] views_of(new_kvals)[j] == views_of(
        old_kvals,
    )[j] by {
        assert(views_of(new_kvals)[j] == new_kvals[j]@);
        assert(views_of(old_kvals)[j] == old_kvals[j]@);
    }
    lemma_last_prior_stable(views_of(new_kvals), views_of(old_kvals), t, views_of(new_kvals)[t]);
    let p = last_prior(views_of(old_kvals), t, views_of(old_kvals)[t]);
    lemma_last_prior(views_of(old_kvals), t, views_of(old_kvals)[t]);
    if p == -1 {
        let init = choose|init: Value|
            call_ensures(initial_value_selector, (&old_kvals[t],), init) && call_ensures(
                operation,
                (&old_kvals[t], &init, &elems[t]),
                old_outs[t],
            );
        assert(call_ensures(initial_value_selector, (&new_kvals[t],), init) && call_ensures(
            operation,
            (&new_kvals[t], &init, &elems[t]),
            new_outs[t],
        ));
    } else {
        assert(new_outs[p] == old_outs[p]);
    }
}


/// Step `i` of a grouping reduce is sanctioned: the first element of a
/// group stands for itself, a later one is an output the operation may
/// produce from the previous accumulator.
pub open spec fn reduce_step_ok<H: Fn(&Value, &Value, &Value) -> Value>(
    operation: H,
    elems: Seq<Value>,
    kvals: Seq<Value>,
    outs: Seq<Value>,
    i: int,
) -> bool {
    let p = last_prior(views_of(kvals), i, views_of(kvals)[i]);
    if p == -1 {
        outs[i]@ == elems[i]@
    } else {
        call_ensures(operation, (&kvals[i], &outs[p], &elems[i]), outs[i])
    }
}

/// A sanctioned reduce step stays sanctioned when a later element is
/// appended.
proof fn transfer_reduce_step<H: Fn(&Value, &Value, &Value) -> Value>(
    operation: H,
    elems: Seq<Value>,
    old_kvals: Seq<Value>,
    new_kvals: Seq<Value>,
    old_outs: Seq<Value>,
    new_outs: Seq<Value>,
    t: int,
)
    requires
        0 <= t < old_kvals.len(),
        old_outs.len() == old_kvals.len(),
        new_kvals.drop_last() == old_kvals,
        new_outs.drop_last() == old_outs,
        new_kvals.len() == old_kvals.len() + 1,
        new_outs.len() == old_outs.len() + 1,
        reduce_step_ok(operation, elems, old_kvals, old_outs, t),
    ensures
        reduce_step_ok(operation, elems, new_kvals, new_outs, t),
{
    lemma_views_of(old_kvals);
    lemma_views_of(new_kvals);
    assert(forall|j: int| 0 <= j < old_kvals.len() ==> #[trigger] new_kvals[j] == old_kvals[j]);
    assert(forall|j: int| 0 <= j < old_outs.len() ==> #[trigger] new_outs[j] == old_outs[j]);
    assert forall|j: int| 0 <= j <= t implies #[trigger] views_of(new_kvals)[j] == views_of(
        old_kvals,
    )[j] by {
        assert(views_of(new_kvals)[j] == new_kvals[j]@);
        assert(views_of(old_kvals)[j] == old_kvals[j]@);
    }
    lemma_last_prior_stable(views_of(new_kvals), views_of(old_kvals), t, views_of(new_kvals)[t]);
    let p = last_prior(views_of(old_kvals), t, views_of(old_kvals)[t]);
    lemma_last_prior(views_of(old_kvals), t, views_of(old_kvals)[t]);
    if p >= 0 {
        assert(new_outs[p] == old_outs[p]);
    }
}

/// Step `i` of a grouping aggregate is sanctioned: the operation may
/// produce `outs[i]` from a null accumulator and a raised first-element
/// flag at a key's first occurrence, or from the previous accumulator
/// with the flag lowered.
pub open spec fn aggregate_step_ok<H: Fn(&Value, &Value, &Value, bool) -> Value>(
    operation: H,
    elems: Seq<Value>,
    kvals: Seq<Value>,
    outs: Seq<Value>,
    i: int,
) -> bool {
    let p = last_prior(views_of(kvals), i, views_of(kvals)[i]);
    if p == -1 {
        exists|nl: Value|
            nl@ == ValSpec::Null && call_ensures(
                operation,
                (&kvals[i], &nl, &elems[i], true),
                outs[i],
            )
    } else {
        call_ensures(operation, (&kvals[i], &outs[p], &elems[i], false), outs[i])
    }
}

/// A sanctioned aggregate step stays sanctioned when a later element is
/// appended.
proof fn transfer_aggregate_step<H: Fn(&Value, &Value, &Value, bool) -> Value>(
    operation: H,
    elems: Seq<Value>,
    old_kvals: Seq<Value>,
    new_kvals: Seq<Value>,
    old_outs: Seq<Value>,
    new_outs: Seq<Value>,
    t: int,
)
    requires
        0 <= t < old_kvals.len(),
        old_outs.len() == old_kvals.len(),
        new_kvals.drop_last() == old_kvals,
        new_outs.drop_last() == old_outs,
        new_kvals.len() == old_kvals.len() + 1,
        new_outs.len() == old_outs.len() + 1,
        aggregate_step_ok(operation, elems, old_kvals, old_outs, t),
    ensures
        aggregate_step_ok(operation, elems, new_kvals, new_outs, t),
{
    lemma_views_of(old_kvals);
    lemma_views_of(new_kvals);
    assert(forall|j: int| 0 <= j < old_kvals.len() ==> #[trigger] new_kvals[j] == old_kvals[j]);
    assert(forall|j: int| 0 <= j < old_outs.len() ==> #[trigger] new_outs[j] == old_outs[j]);
    assert forall|j: int| 0 <= j <= t implies #[trigger] views_of(new_kvals)[j] == views_of(
        old_kvals,
    )[j] by {
        assert(views_of(new_kvals)[j] == new_kvals[j]@);
        assert(views_of(old_kvals)[j] == old_kvals[j]@);
    }
    lemma_last_prior_stable(views_of(new_kvals), views_of(old_kvals), t, views_of(new_kvals)[t]);
    let p = last_prior(views_of(old_kvals), t, views_of(old_kvals)[t]);
    lemma_last_prior(views_of(old_kvals), t, views_of(old_kvals)[t]);
    if p == -1 {
        let nl = choose|nl: Value|
            nl@ == ValSpec::Null && call_ensures(
                operation,
                (&old_kvals[t], &nl, &elems[t], true),
                old_outs[t],
            );
        assert(nl@ == ValSpec::Null && call_ensures(
            operation,
            (&new_kvals[t], &nl, &elems[t], true),
            new_outs[t],
        ));
    } else {
        assert(new_outs[p] == old_outs[p]);
    }
}


/// A list value with one more item, or a fresh one-item list value over
/// anything else.
pub open spec fn list_push(v: ValSpec, x: ValSpec) -> ValSpec {
    match v {
        ValSpec::List(xs) => ValSpec::List(xs.push(x)),
        _ => ValSpec::List(seq![x]),
    }
}

/// Step `i` of a grouping is sanctioned: the first element of a group
/// starts its list value, a later one is appended to it.
pub open spec fn group_step_ok(
    elems: Seq<Value>,
    kvals: Seq<Value>,
    outs: Seq<Value>,
    i: int,
) -> bool {
    let p = last_prior(views_of(kvals), i, views_of(kvals)[i]);
    if p == -1 {
        outs[i]@ == ValSpec::List(seq![elems[i]@])
    } else {
        outs[i]@ == list_push(outs[p]@, elems[i]@)
    }
}

/// A sanctioned grouping step stays sanctioned when a later element is
/// appended.
proof fn transfer_group_step(
    elems: Seq<Value>,
    old_kvals: Seq<Value>,
    new_kvals: Seq<Value>,
    old_outs: Seq<Value>,
    new_outs: Seq<Value>,
    t: int,
)
    requires
        0 <= t < old_kvals.len(),
        old_outs.len() == old_kvals.len(),
        new_kvals.drop_last() == old_kvals,
        new_outs.drop_last() == old_outs,
        new_kvals.len() == old_kvals.len() + 1,
        new_outs.len() == old_outs.len() + 1,
        group_step_ok(elems, old_kvals, old_outs, t),
    ensures
        group_step_ok(elems, new_kvals, new_outs, t),
{
    lemma_views_of(old_kvals);
    lemma_views_of(new_kvals);
    assert(forall|j: int| 0 <= j < old_kvals.len() ==> #[trigger] new_kvals[j] == old_kvals[j]);
    assert(forall|j: int| 0 <= j < old_outs.len() ==> #[trigger] new_outs[j] == old_outs[j]);
    assert forall|j: int| 0 <= j <= t implies #[trigger] views_of(new_kvals)[j] == views_of(
        old_kvals,
    )[j] by {
        assert(views_of(new_kvals)[j] == new_kvals[j]@);
        assert(views_of(old_kvals)[j] == old_kvals[j]@);
    }
    lemma_last_prior_stable(views_of(new_kvals), views_of(old_kvals), t, views_of(new_kvals)[t]);
    let p = last_prior(views_of(old_kvals), t, views_of(old_kvals)[t]);
    lemma_last_prior(views_of(old_kvals), t, views_of(old_kvals)[t]);
    if p >= 0 {
        assert(new_outs[p] == old_outs[p]);
    }
}

impl<F: Fn(&Value) -> Value> KotGrouping<F> {
    /// Group and fold in one pass: at a key's first occurrence the
    /// accumulator is seeded by `initial_value_selector` for the key and
    /// folded with the element; afterwards each element is folded into
    /// its key's accumulator. The result maps each key, in
    /// first-occurrence order, to its final accumulator, under one run of
    /// the callables.
    pub fn fold<G: Fn(&Value) -> Value, H: Fn(&Value, &Value, &Value) -> Value>(
        &self,
        initial_value_selector: G,
        operation: H,
    ) -> (r: KotMap)
        requires
            forall|i: int|
                0 <= i < self.elements@.len() ==> call_requires(
                    self.key_selector,
                    (&self.elements@[i],),
                ),
            forall|a: Value| call_requires(initial_value_selector, (&a,)),
            forall|a: Value, b: Value, c: Value| call_requires(operation, (&a, &b, &c)),
        ensures
            r.wf(),
            exists|kvals: Seq<Value>, outs: Seq<Value>|
                {
                    &&& kvals.len() == self.elements@.len()
                    &&& outs.len() == self.elements@.len()
                    &&& forall|i: int|
                        0 <= i < kvals.len() ==> call_ensures(
                            self.key_selector,
                            (&self.elements@[i],),
                            #[trigger] kvals[i],
                        )
                    &&& forall|i: int|
                        0 <= i < outs.len() ==> #[trigger] fold_step_ok(
                            initial_value_selector,
                            operation,
                            self.elements@,
                            kvals,
                            outs,
                            i,
                        )
                    &&& r@ == #[trigger] apply_puts(Seq::empty(), views_of(kvals), views_of(outs))
                },
    {
        let ghost elems = self.elements@;
        let mut keys: Vec<Value> = Vec::new();
        let mut values: Vec<Value> = Vec::new();
        let ghost mut kvals: Seq<Value> = Seq::empty();
        let ghost mut outs: Seq<Value> = Seq::empty();
        let ghost mut slot_src: Seq<int> = Seq::empty();
        let mut i: usize = 0;
        proof {
            lemma_views_of(kvals);
            lemma_views_of(outs);
            assert(zip_views(keys@, values@) =~= Seq::<(ValSpec, ValSpec)>::empty());
            assert(views_of(kvals) =~= Seq::<ValSpec>::empty());
            assert(views_of(outs) =~= Seq::<ValSpec>::empty());
        }
        while i < self.elements.len()
            invariant
                i <= self.elements@.len(),
                elems == self.elements@,
                forall|t: int|
                    0 <= t < self.elements@.len() ==> call_requires(
                        self.key_selector,
                        (&self.elements@[t],),
                    ),
                forall|a: Value| call_requires(initial_value_selector, (&a,)),
                forall|a: Value, b: Value, c: Value| call_requires(operation, (&a, &b, &c)),
                kvals.len() == i,
                outs.len() == i,
                forall|t: int|
                    0 <= t < i ==> call_ensures(
                        self.key_selector,
                        (&self.elements@[t],),
                        #[trigger] kvals[t],
                    ),
                forall|t: int|
                    0 <= t < i ==> #[trigger] fold_step_ok(
                        initial_value_selector,
                        operation,
                        elems,
                        kvals,
                        outs,
                        t,
                    ),
                keys@.len() == values@.len(),
                unique_keys(zip_views(keys@, values@)),
                zip_views(keys@, values@) == apply_puts(
                    Seq::empty(),
                    views_of(kvals),
                    views_of(outs),
                ),
                forall|j: int|
                    0 <= j < i ==> has_key(zip_views(keys@, values@), views_of(kvals)[j]),
                slot_src.len() == keys@.len(),
                forall|t: int|
                    0 <= t < slot_src.len() ==> {
                        &&& 0 <= #[trigger] slot_src[t] < i
                        &&& values@[t] == outs[slot_src[t]]
                        &&& views_of(kvals)[slot_src[t]] == zip_views(keys@, values@)[t].0
                        &&& forall|j: int|
                            slot_src[t] < j < i ==> views_of(kvals)[j] != zip_views(
                                keys@,
                                values@,
                            )[t].0
                    },
            decreases self.elements@.len() - i,
        {
            let ghost es = zip_views(keys@, values@);
            let ghost old_kvals = kvals;
            let ghost old_outs = outs;
            let k = (self.key_selector)(&self.elements[i]);
            let ghost kv = k;
            proof {
                lemma_views_of(keys@);
                lemma_key_index_is_first_index(keys@, values@, kv@);
                lemma_key_index(es, kv@);
                crate::vec_ops::lemma_views_of_push(kvals, kv);
            }
            match find_first(&keys, &k) {
                Some(idx) => {
                    let ghost p = slot_src[idx as int];
                    proof {
                        assert(es[idx as int].0 == kv@);
                        assert(values@[idx as int] == outs[p]);
                    }
                    let new_value = operation(&k, &values[idx], &self.elements[i]);
                    let ghost nv = new_value;
                    proof {
                        assert(call_ensures(
                            operation,
                            (&kv, &old_outs[p], &self.elements@[i as int]),
                            nv,
                        ));
                        lemma_put_entry(es, kv@, nv@);
                    }
                    values.set(idx, new_value);
                    proof {
                        kvals = kvals.push(kv);
                        outs = outs.push(nv);
                        slot_src = slot_src.update(idx as int, i as int);
                        crate::vec_ops::lemma_views_of_push(old_outs, nv);
                        assert(zip_views(keys@, values@) =~= put_entry(es, kv@, nv@));
                        assert(views_of(kvals).drop_last() =~= views_of(old_kvals));
                        assert(views_of(outs).drop_last() =~= views_of(old_outs));
                        assert(kvals.drop_last() =~= old_kvals);
                        assert(outs.drop_last() =~= old_outs);
                        lemma_views_of(kvals);
                        lemma_views_of(outs);
                        assert(zip_views(keys@, values@) == apply_puts(
                            Seq::empty(),
                            views_of(kvals),
                            views_of(outs),
                        ));
                        lemma_last_prior(views_of(kvals), i as int, kv@);
                        assert(views_of(kvals)[p] == kv@);
                        assert(last_prior(views_of(kvals), i as int, kv@) == p) by {
                            let lp = last_prior(views_of(kvals), i as int, kv@);
                            if lp > p {
                                assert(views_of(old_kvals)[lp] != es[idx as int].0);
                            }
                            if lp < p {
                                assert(views_of(kvals)[p] != kv@);
                            }
                        }
                        assert(fold_step_ok(
                            initial_value_selector,
                            operation,
                            elems,
                            kvals,
                            outs,
                            i as int,
                        )) by {
                            assert(kvals[i as int] == kv);
                            assert(outs[i as int] == nv);
                            assert(outs[p] == old_outs[p]);
                            assert(views_of(kvals)[i as int] == kv@);
                        }
                        self.lemma_fold_step_stable(old_kvals, kvals, old_outs, outs, i as int);
                        assert forall|t: int| 0 <= t < i as int implies #[trigger] fold_step_ok(
                            initial_value_selector,
                            operation,
                            elems,
                            kvals,
                            outs,
                            t,
                        ) by {
                            transfer_fold_step(
                                initial_value_selector,
                                operation,
                                elems,
                                old_kvals,
                                kvals,
                                old_outs,
                                outs,
                                t,
                            );
                        }
                    }
                },
                None => {
                    proof {
                        assert(!has_key(es, kv@));
                        assert forall|j: int| 0 <= j < i implies views_of(old_kvals)[j]
                            != kv@ by {
                            if views_of(old_kvals)[j] == kv@ {
                                assert(has_key(es, views_of(old_kvals)[j]));
                            }
                        }
                    }
                    let init = initial_value_selector(&k);
                    let ghost gi = init;
                    let new_value = operation(&k, &init, &self.elements[i]);
                    let ghost nv = new_value;
                    proof {
                        assert(call_ensures(initial_value_selector, (&kv,), gi));
                        assert(call_ensures(
                            operation,
                            (&kv, &gi, &self.elements@[i as int]),
                            nv,
                        ));
                        lemma_put_entry(es, kv@, nv@);
                    }
                    keys.push(k);
                    values.push(new_value);
                    proof {
                        kvals = kvals.push(kv);
                        outs = outs.push(nv);
                        slot_src = slot_src.push(i as int);
                        crate::vec_ops::lemma_views_of_push(old_outs, nv);
                        assert(zip_views(keys@, values@) =~= put_entry(es, kv@, nv@));
                        assert(views_of(kvals).drop_last() =~= views_of(old_kvals));
                        assert(views_of(outs).drop_last() =~= views_of(old_outs));
                        assert(kvals.drop_last() =~= old_kvals);
                        assert(outs.drop_last() =~= old_outs);
                        lemma_views_of(kvals);
                        lemma_views_of(outs);
                        assert(zip_views(keys@, values@) == apply_puts(
                            Seq::empty(),
                            views_of(kvals),
                            views_of(outs),
                        ));
                        lemma_last_prior(views_of(kvals), i as int, kv@);
                        assert(last_prior(views_of(kvals), i as int, kv@) == -1) by {
                            let lp = last_prior(views_of(kvals), i as int, kv@);
                            if lp >= 0 {
                                assert(views_of(kvals)[lp] == kv@);
                                assert(views_of(old_kvals)[lp] == kv@);
                            }
                        }
                        assert(fold_step_ok(
                            initial_value_selector,
                            operation,
                            elems,
                            kvals,
                            outs,
                            i as int,
                        )) by {
                            assert(kvals[i as int] == kv);
                            assert(outs[i as int] == nv);
                            assert(views_of(kvals)[i as int] == kv@);
                            assert(call_ensures(initial_value_selector, (&kvals[i as int],), gi)
                                && call_ensures(
                                operation,
                                (&kvals[i as int], &gi, &elems[i as int]),
                                outs[i as int],
                            ));
                        }
                        self.lemma_fold_step_stable(old_kvals, kvals, old_outs, outs, i as int);
                        assert forall|t: int| 0 <= t < i as int implies #[trigger] fold_step_ok(
                            initial_value_selector,
                            operation,
                            elems,
                            kvals,
                            outs,
                            t,
                        ) by {
                            transfer_fold_step(
                                initial_value_selector,
                                operation,
                                elems,
                                old_kvals,
                                kvals,
                                old_outs,
                                outs,
                                t,
                            );
                        }
                    }
                },
            }
            i = i + 1;
        }
        proof {
            lemma_views_of(keys@);
            assert(zip_views(keys@, values@) == apply_puts(
                Seq::empty(),
                views_of(kvals),
                views_of(outs),
            ));
        }
        KotMap { keys, values, key_type: None, value_type: None }
    }

    /// The elements grouped by key: an association from each key, in
    /// first-occurrence order, to the list value holding its group's
    /// elements in source order, under one run of the key selector.
    pub fn groups(&self) -> (r: KotMap)
        requires
            forall|i: int|
                0 <= i < self.elements@.len() ==> call_requires(
                    self.key_selector,
                    (&self.elements@[i],),
                ),
        ensures
            r.wf(),
            exists|kvals: Seq<Value>, outs: Seq<Value>|
                {
                    &&& kvals.len() == self.elements@.len()
                    &&& outs.len() == self.elements@.len()
                    &&& forall|i: int|
                        0 <= i < kvals.len() ==> call_ensures(
                            self.key_selector,
                            (&self.elements@[i],),
                            #[trigger] kvals[i],
                        )
                    &&& forall|i: int|
                        0 <= i < outs.len() ==> #[trigger] group_step_ok(
                            self.elements@,
                            kvals,
                            outs,
                            i,
                        )
                    &&& r@ == #[trigger] apply_puts(Seq::empty(), views_of(kvals), views_of(outs))
                },
    {
        let ghost elems = self.elements@;
        let mut keys: Vec<Value> = Vec::new();
        let mut values: Vec<Value> = Vec::new();
        let ghost mut kvals: Seq<Value> = Seq::empty();
        let ghost mut outs: Seq<Value> = Seq::empty();
        let ghost mut slot_src: Seq<int> = Seq::empty();
        let mut i: usize = 0;
        proof {
            lemma_views_of(kvals);
            lemma_views_of(outs);
            assert(zip_views(keys@, values@) =~= Seq::<(ValSpec, ValSpec)>::empty());
            assert(views_of(kvals) =~= Seq::<ValSpec>::empty());
            assert(views_of(outs) =~= Seq::<ValSpec>::empty());
        }
        while i < self.elements.len()
            invariant
                i <= self.elements@.len(),
                elems == self.elements@,
                forall|t: int|
                    0 <= t < self.elements@.len() ==> call_requires(
                        self.key_selector,
                        (&self.elements@[t],),
                    ),
                kvals.len() == i,
                outs.len() == i,
                forall|t: int|
                    0 <= t < i ==> call_ensures(
                        self.key_selector,
                        (&self.elements@[t],),
                        #[trigger] kvals[t],
                    ),
                forall|t: int|
                    0 <= t < i ==> #[trigger] group_step_ok(
                        elems,
                        kvals,
                        outs,
                        t,
                    ),
                keys@.len() == values@.len(),
                unique_keys(zip_views(keys@, values@)),
                zip_views(keys@, values@) == apply_puts(
                    Seq::empty(),
                    views_of(kvals),
                    views_of(outs),
                ),
                forall|j: int|
                    0 <= j < i ==> has_key(zip_views(keys@, values@), views_of(kvals)[j]),
                forall|t: int|
                    0 <= t < values@.len() ==> (#[trigger] values@[t]) matches Value::List(_),
                slot_src.len() == keys@.len(),
                forall|t: int|
                    0 <= t < slot_src.len() ==> {
                        &&& 0 <= #[trigger] slot_src[t] < i
                        &&& values@[t] == outs[slot_src[t]]
                        &&& views_of(kvals)[slot_src[t]] == zip_views(keys@, values@)[t].0
                        &&& forall|j: int|
                            slot_src[t] < j < i ==> views_of(kvals)[j] != zip_views(
                                keys@,
                                values@,
                            )[t].0
                    },
            decreases self.elements@.len() - i,
        {
            let ghost es = zip_views(keys@, values@);
            let ghost old_kvals = kvals;
            let ghost old_outs = outs;
            let k = (self.key_selector)(&self.elements[i]);
            let ghost kv = k;
            proof {
                lemma_views_of(keys@);
                lemma_key_index_is_first_index(keys@, values@, kv@);
                lemma_key_index(es, kv@);
                crate::vec_ops::lemma_views_of_push(kvals, kv);
            }
            match find_first(&keys, &k) {
                Some(idx) => {
                    let ghost p = slot_src[idx as int];
                    proof {
                        assert(es[idx as int].0 == kv@);
                        assert(values@[idx as int] == outs[p]);
                    }
                    let new_value = match &values[idx] {
                        Value::List(items) => {
                            proof {
                                lemma_views_of(items@);
                                assert(values@[idx as int]@ == ValSpec::List(views_of(items@)));
                            }
                            let mut grp = crate::vec_ops::clone_values(items);
                            let appended = self.elements[i].deep_copy();
                            proof {
                                crate::vec_ops::lemma_views_of_push(grp@, appended);
                            }
                            grp.push(appended);
                            Value::List(grp)
                        },
                        _ => {
                            // The slot invariant rules every other variant out.
                            assert(false);
                            Value::Null
                        },
                    };
                    let ghost nv = new_value;
                    proof {
                        assert(nv@ == list_push(old_outs[p]@, self.elements@[i as int]@));
                        lemma_put_entry(es, kv@, nv@);
                    }
                    values.set(idx, new_value);
                    proof {
                        kvals = kvals.push(kv);
                        outs = outs.push(nv);
                        slot_src = slot_src.update(idx as int, i as int);
                        crate::vec_ops::lemma_views_of_push(old_outs, nv);
                        assert(zip_views(keys@, values@) =~= put_entry(es, kv@, nv@));
                        assert(views_of(kvals).drop_last() =~= views_of(old_kvals));
                        assert(views_of(outs).drop_last() =~= views_of(old_outs));
                        assert(kvals.drop_last() =~= old_kvals);
                        assert(outs.drop_last() =~= old_outs);
                        lemma_views_of(kvals);
                        lemma_views_of(outs);
                        assert(zip_views(keys@, values@) == apply_puts(
                            Seq::empty(),
                            views_of(kvals),
                            views_of(outs),
                        ));
                        lemma_last_prior(views_of(kvals), i as int, kv@);
                        assert(views_of(kvals)[p] == kv@);
                        assert(last_prior(views_of(kvals), i as int, kv@) == p) by {
                            let lp = last_prior(views_of(kvals), i as int, kv@);
                            if lp > p {
                                assert(views_of(old_kvals)[lp] != es[idx as int].0);
                            }
                            if lp < p {
                                assert(views_of(kvals)[p] != kv@);
                            }
                        }
                        assert(group_step_ok(
                            elems,
                            kvals,
                            outs,
                            i as int,
                        )) by {
                            assert(kvals[i as int] == kv);
                            assert(outs[i as int] == nv);
                            assert(outs[p] == old_outs[p]);
                            assert(views_of(kvals)[i as int] == kv@);
                        }
                        self.lemma_fold_step_stable(old_kvals, kvals, old_outs, outs, i as int);
                        assert forall|t: int| 0 <= t < i as int implies #[trigger] group_step_ok(
                            elems,
                            kvals,
                            outs,
                            t,
                        ) by {
                            transfer_group_step(
                                elems,
                                old_kvals,
                                kvals,
                                old_outs,
                                outs,
                                t,
                            );
                        }
                    }
                },
                None => {
                    proof {
                        assert(!has_key(es, kv@));
                        assert forall|j: int| 0 <= j < i implies views_of(old_kvals)[j]
                            != kv@ by {
                            if views_of(old_kvals)[j] == kv@ {
                                assert(has_key(es, views_of(old_kvals)[j]));
                            }
                        }
                    }
                    let mut grp: Vec<Value> = Vec::new();
                    let seeded = self.elements[i].deep_copy();
                    proof {
                        crate::vec_ops::lemma_views_of_push(grp@, seeded);
                        lemma_views_of(Seq::<Value>::empty());
                    }
                    grp.push(seeded);
                    let new_value = Value::List(grp);
                    let ghost nv = new_value;
                    proof {
                        assert(nv@ == ValSpec::List(views_of(grp@)));
                        assert(views_of(grp@) =~= seq![self.elements@[i as int]@]);
                        lemma_put_entry(es, kv@, nv@);
                    }
                    keys.push(k);
                    values.push(new_value);
                    proof {
                        kvals = kvals.push(kv);
                        outs = outs.push(nv);
                        slot_src = slot_src.push(i as int);
                        crate::vec_ops::lemma_views_of_push(old_outs, nv);
                        assert(zip_views(keys@, values@) =~= put_entry(es, kv@, nv@));
                        assert(views_of(kvals).drop_last() =~= views_of(old_kvals));
                        assert(views_of(outs).drop_last() =~= views_of(old_outs));
                        assert(kvals.drop_last() =~= old_kvals);
                        assert(outs.drop_last() =~= old_outs);
                        lemma_views_of(kvals);
                        lemma_views_of(outs);
                        assert(zip_views(keys@, values@) == apply_puts(
                            Seq::empty(),
                            views_of(kvals),
                            views_of(outs),
                        ));
                        lemma_last_prior(views_of(kvals), i as int, kv@);
                        assert(last_prior(views_of(kvals), i as int, kv@) == -1) by {
                            let lp = last_prior(views_of(kvals), i as int, kv@);
                            if lp >= 0 {
                                assert(views_of(kvals)[lp] == kv@);
                                assert(views_of(old_kvals)[lp] == kv@);
                            }
                        }
                        assert(group_step_ok(
                            elems,
                            kvals,
                            outs,
                            i as int,
                        )) by {
                            assert(kvals[i as int] == kv);
                            assert(outs[i as int] == nv);
                            assert(views_of(kvals)[i as int] == kv@);
                            assert(outs[i as int]@ == ValSpec::List(seq![elems[i as int]@]));
                        }
                        self.lemma_fold_step_stable(old_kvals, kvals, old_outs, outs, i as int);
                        assert forall|t: int| 0 <= t < i as int implies #[trigger] group_step_ok(
                            elems,
                            kvals,
                            outs,
                            t,
                        ) by {
                            transfer_group_step(
                                elems,
                                old_kvals,
                                kvals,
                                old_outs,
                                outs,
                                t,
                            );
                        }
                    }
                },
            }
            i = i + 1;
        }
        proof {
            lemma_views_of(keys@);
            assert(zip_views(keys@, values@) == apply_puts(
                Seq::empty(),
                views_of(kvals),
                views_of(outs),
            ));
        }
        KotMap { keys, values, key_type: None, value_type: None }
    }

    /// Group and reduce in one pass: the first element with a key becomes
    /// that key's accumulator, and each later element of the group is
    /// folded in by `operation`. No group is ever empty, so the reduction
    /// cannot fail.
    pub fn reduce<H: Fn(&Value, &Value, &Value) -> Value>(&self, operation: H) -> (r: KotMap)
        requires
            forall|i: int|
                0 <= i < self.elements@.len() ==> call_requires(
                    self.key_selector,
                    (&self.elements@[i],),
                ),
            forall|a: Value, b: Value, c: Value| call_requires(operation, (&a, &b, &c)),
        ensures
            r.wf(),
            exists|kvals: Seq<Value>, outs: Seq<Value>|
                {
                    &&& kvals.len() == self.elements@.len()
                    &&& outs.len() == self.elements@.len()
                    &&& forall|i: int|
                        0 <= i < kvals.len() ==> call_ensures(
                            self.key_selector,
                            (&self.elements@[i],),
                            #[trigger] kvals[i],
                        )
                    &&& forall|i: int|
                        0 <= i < outs.len() ==> #[trigger] reduce_step_ok(
                            operation,
                            self.elements@,
                            kvals,
                            outs,
                            i,
                        )
                    &&& r@ == #[trigger] apply_puts(Seq::empty(), views_of(kvals), views_of(outs))
                },
    {
        let ghost elems = self.elements@;
        let mut keys: Vec<Value> = Vec::new();
        let mut values: Vec<Value> = Vec::new();
        let ghost mut kvals: Seq<Value> = Seq::empty();
        let ghost mut outs: Seq<Value> = Seq::empty();
        let ghost mut slot_src: Seq<int> = Seq::empty();
        let mut i: usize = 0;
        proof {
            lemma_views_of(kvals);
            lemma_views_of(outs);
            assert(zip_views(keys@, values@) =~= Seq::<(ValSpec, ValSpec)>::empty());
            assert(views_of(kvals) =~= Seq::<ValSpec>::empty());
            assert(views_of(outs) =~= Seq::<ValSpec>::empty());
        }
        while i < self.elements.len()
            invariant
                i <= self.elements@.len(),
                elems == self.elements@,
                forall|t: int|
                    0 <= t < self.elements@.len() ==> call_requires(
                        self.key_selector,
                        (&self.elements@[t],),
                    ),
                forall|a: Value, b: Value, c: Value| call_requires(operation, (&a, &b, &c)),
                kvals.len() == i,
                outs.len() == i,
                forall|t: int|
                    0 <= t < i ==> call_ensures(
                        self.key_selector,
                        (&self.elements@[t],),
                        #[trigger] kvals[t],
                    ),
                forall|t: int|
                    0 <= t < i ==> #[trigger] reduce_step_ok(
                        operation,
                        elems,
                        kvals,
                        outs,
                        t,
                    ),
                keys@.len() == values@.len(),
                unique_keys(zip_views(keys@, values@)),
                zip_views(keys@, values@) == apply_puts(
                    Seq::empty(),
                    views_of(kvals),
                    views_of(outs),
                ),
                forall|j: int|
                    0 <= j < i ==> has_key(zip_views(keys@, values@), views_of(kvals)[j]),
                slot_src.len() == keys@.len(),
                forall|t: int|
                    0 <= t < slot_src.len() ==> {
                        &&& 0 <= #[trigger] slot_src[t] < i
                        &&& values@[t] == outs[slot_src[t]]
                        &&& views_of(kvals)[slot_src[t]] == zip_views(keys@, values@)[t].0
                        &&& forall|j: int|
                            slot_src[t] < j < i ==> views_of(kvals)[j] != zip_views(
                                keys@,
                                values@,
                            )[t].0
                    },
            decreases self.elements@.len() - i,
        {
            let ghost es = zip_views(keys@, values@);
            let ghost old_kvals = kvals;
            let ghost old_outs = outs;
            let k = (self.key_selector)(&self.elements[i]);
            let ghost kv = k;
            proof {
                lemma_views_of(keys@);
                lemma_key_index_is_first_index(keys@, values@, kv@);
                lemma_key_index(es, kv@);
                crate::vec_ops::lemma_views_of_push(kvals, kv);
            }
            match find_first(&keys, &k) {
                Some(idx) => {
                    let ghost p = slot_src[idx as int];
                    proof {
                        assert(es[idx as int].0 == kv@);
                        assert(values@[idx as int] == outs[p]);
                    }
                    let new_value = operation(&k, &values[idx], &self.elements[i]);
                    let ghost nv = new_value;
                    proof {
                        assert(call_ensures(
                            operation,
                            (&kv, &old_outs[p], &self.elements@[i as int]),
                            nv,
                        ));
                        lemma_put_entry(es, kv@, nv@);
                    }
                    values.set(idx, new_value);
                    proof {
                        kvals = kvals.push(kv);
                        outs = outs.push(nv);
                        slot_src = slot_src.update(idx as int, i as int);
                        crate::vec_ops::lemma_views_of_push(old_outs, nv);
                        assert(zip_views(keys@, values@) =~= put_entry(es, kv@, nv@));
                        assert(views_of(kvals).drop_last() =~= views_of(old_kvals));
                        assert(views_of(outs).drop_last() =~= views_of(old_outs));
                        assert(kvals.drop_last() =~= old_kvals);
                        assert(outs.drop_last() =~= old_outs);
                        lemma_views_of(kvals);
                        lemma_views_of(outs);
                        assert(zip_views(keys@, values@) == apply_puts(
                            Seq::empty(),
                            views_of(kvals),
                            views_of(outs),
                        ));
                        lemma_last_prior(views_of(kvals), i as int, kv@);
                        assert(views_of(kvals)[p] == kv@);
                        assert(last_prior(views_of(kvals), i as int, kv@) == p) by {
                            let lp = last_prior(views_of(kvals), i as int, kv@);
                            if lp > p {
                                assert(views_of(old_kvals)[lp] != es[idx as int].0);
                            }
                            if lp < p {
                                assert(views_of(kvals)[p] != kv@);
                            }
                        }
                        assert(reduce_step_ok(
                            operation,
                            elems,
                            kvals,
                            outs,
                            i as int,
                        )) by {
                            assert(kvals[i as int] == kv);
                            assert(outs[i as int] == nv);
                            assert(outs[p] == old_outs[p]);
                            assert(views_of(kvals)[i as int] == kv@);
                        }
                        self.lemma_fold_step_stable(old_kvals, kvals, old_outs, outs, i as int);
                        assert forall|t: int| 0 <= t < i as int implies #[trigger] reduce_step_ok(
                            operation,
                            elems,
                            kvals,
                            outs,
                            t,
                        ) by {
                            transfer_reduce_step(
                                operation,
                                elems,
                                old_kvals,
                                kvals,
                                old_outs,
                                outs,
                                t,
                            );
                        }
                    }
                },
                None => {
                    proof {
                        assert(!has_key(es, kv@));
                        assert forall|j: int| 0 <= j < i implies views_of(old_kvals)[j]
                            != kv@ by {
                            if views_of(old_kvals)[j] == kv@ {
                                assert(has_key(es, views_of(old_kvals)[j]));
                            }
                        }
                    }
                    let new_value = self.elements[i].deep_copy();
                    let ghost nv = new_value;
                    proof {
                        assert(nv@ == self.elements@[i as int]@);
                        lemma_put_entry(es, kv@, nv@);
                    }
                    keys.push(k);
                    values.push(new_value);
                    proof {
                        kvals = kvals.push(kv);
                        outs = outs.push(nv);
                        slot_src = slot_src.push(i as int);
                        crate::vec_ops::lemma_views_of_push(old_outs, nv);
                        assert(zip_views(keys@, values@) =~= put_entry(es, kv@, nv@));
                        assert(views_of(kvals).drop_last() =~= views_of(old_kvals));
                        assert(views_of(outs).drop_last() =~= views_of(old_outs));
                        assert(kvals.drop_last() =~= old_kvals);
                        assert(outs.drop_last() =~= old_outs);
                        lemma_views_of(kvals);
                        lemma_views_of(outs);
                        assert(zip_views(keys@, values@) == apply_puts(
                            Seq::empty(),
                            views_of(kvals),
                            views_of(outs),
                        ));
                        lemma_last_prior(views_of(kvals), i as int, kv@);
                        assert(last_prior(views_of(kvals), i as int, kv@) == -1) by {
                            let lp = last_prior(views_of(kvals), i as int, kv@);
                            if lp >= 0 {
                                assert(views_of(kvals)[lp] == kv@);
                                assert(views_of(old_kvals)[lp] == kv@);
                            }
                        }
                        assert(reduce_step_ok(
                            operation,
                            elems,
                            kvals,
                            outs,
                            i as int,
                        )) by {
                            assert(kvals[i as int] == kv);
                            assert(outs[i as int] == nv);
                            assert(views_of(kvals)[i as int] == kv@);
                            assert(outs[i as int]@ == elems[i as int]@);
                        }
                        self.lemma_fold_step_stable(old_kvals, kvals, old_outs, outs, i as int);
                        assert forall|t: int| 0 <= t < i as int implies #[trigger] reduce_step_ok(
                            operation,
                            elems,
                            kvals,
                            outs,
                            t,
                        ) by {
                            transfer_reduce_step(
                                operation,
                                elems,
                                old_kvals,
                                kvals,
                                old_outs,
                                outs,
                                t,
                            );
                        }
                    }
                },
            }
            i = i + 1;
        }
        proof {
            lemma_views_of(keys@);
            assert(zip_views(keys@, values@) == apply_puts(
                Seq::empty(),
                views_of(kvals),
                views_of(outs),
            ));
        }
        KotMap { keys, values, key_type: None, value_type: None }
    }

    /// Group and aggregate in one pass: `operation` receives the key, the
    /// accumulator — null at the key's first occurrence — the element, and
    /// whether this is the group's first element, and its output becomes
    /// the new accumulator.
    pub fn aggregate<H: Fn(&Value, &Value, &Value, bool) -> Value>(&self, operation: H) -> (r:
        KotMap)
        requires
            forall|i: int|
                0 <= i < self.elements@.len() ==> call_requires(
                    self.key_selector,
                    (&self.elements@[i],),
                ),
            forall|a: Value, b: Value, c: Value, d: bool|
                call_requires(operation, (&a, &b, &c, d)),
        ensures
            r.wf(),
            exists|kvals: Seq<Value>, outs: Seq<Value>|
                {
                    &&& kvals.len() == self.elements@.len()
                    &&& outs.len() == self.elements@.len()
                    &&& forall|i: int|
                        0 <= i < kvals.len() ==> call_ensures(
                            self.key_selector,
                            (&self.elements@[i],),
                            #[trigger] kvals[i],
                        )
                    &&& forall|i: int|
                        0 <= i < outs.len() ==> #[trigger] aggregate_step_ok(
                            operation,
                            self.elements@,
                            kvals,
                            outs,
                            i,
                        )
                    &&& r@ == #[trigger] apply_puts(Seq::empty(), views_of(kvals), views_of(outs))
                },
    {
        let ghost elems = self.elements@;
        let mut keys: Vec<Value> = Vec::new();
        let mut values: Vec<Value> = Vec::new();
        let ghost mut kvals: Seq<Value> = Seq::empty();
        let ghost mut outs: Seq<Value> = Seq::empty();
        let ghost mut slot_src: Seq<int> = Seq::empty();
        let mut i: usize = 0;
        proof {
            lemma_views_of(kvals);
            lemma_views_of(outs);
            assert(zip_views(keys@, values@) =~= Seq::<(ValSpec, ValSpec)>::empty());
            assert(views_of(kvals) =~= Seq::<ValSpec>::empty());
            assert(views_of(outs) =~= Seq::<ValSpec>::empty());
        }
        while i < self.elements.len()
            invariant
                i <= self.elements@.len(),
                elems == self.elements@,
                forall|t: int|
                    0 <= t < self.elements@.len() ==> call_requires(
                        self.key_selector,
                        (&self.elements@[t],),
                    ),
                forall|a: Value, b: Value, c: Value, d: bool|
                    call_requires(operation, (&a, &b, &c, d)),
                kvals.len() == i,
                outs.len() == i,
                forall|t: int|
                    0 <= t < i ==> call_ensures(
                        self.key_selector,
                        (&self.elements@[t],),
                        #[trigger] kvals[t],
                    ),
                forall|t: int|
                    0 <= t < i ==> #[trigger] aggregate_step_ok(
                        operation,
                        elems,
                        kvals,
                        outs,
                        t,
                    ),
                keys@.len() == values@.len(),
                unique_keys(zip_views(keys@, values@)),
                zip_views(keys@, values@) == apply_puts(
                    Seq::empty(),
                    views_of(kvals),
                    views_of(outs),
                ),
                forall|j: int|
                    0 <= j < i ==> has_key(zip_views(keys@, values@), views_of(kvals)[j]),
                slot_src.len() == keys@.len(),
                forall|t: int|
                    0 <= t < slot_src.len() ==> {
                        &&& 0 <= #[trigger] slot_src[t] < i
                        &&& values@[t] == outs[slot_src[t]]
                        &&& views_of(kvals)[slot_src[t]] == zip_views(keys@, values@)[t].0
                        &&& forall|j: int|
                            slot_src[t] < j < i ==> views_of(kvals)[j] != zip_views(
                                keys@,
                                values@,
                            )[t].0
                    },
            decreases self.elements@.len() - i,
        {
            let ghost es = zip_views(keys@, values@);
            let ghost old_kvals = kvals;
            let ghost old_outs = outs;
            let k = (self.key_selector)(&self.elements[i]);
            let ghost kv = k;
            proof {
                lemma_views_of(keys@);
                lemma_key_index_is_first_index(keys@, values@, kv@);
                lemma_key_index(es, kv@);
                crate::vec_ops::lemma_views_of_push(kvals, kv);
            }
            match find_first(&keys, &k) {
                Some(idx) => {
                    let ghost p = slot_src[idx as int];
                    proof {
                        assert(es[idx as int].0 == kv@);
                        assert(values@[idx as int] == outs[p]);
                    }
                    let new_value = operation(&k, &values[idx], &self.elements[i], false);
                    let ghost nv = new_value;
                    proof {
                        assert(call_ensures(
                            operation,
                            (&kv, &old_outs[p], &self.elements@[i as int], false),
                            nv,
                        ));
                        lemma_put_entry(es, kv@, nv@);
                    }
                    values.set(idx, new_value);
                    proof {
                        kvals = kvals.push(kv);
                        outs = outs.push(nv);
                        slot_src = slot_src.update(idx as int, i as int);
                        crate::vec_ops::lemma_views_of_push(old_outs, nv);
                        assert(zip_views(keys@, values@) =~= put_entry(es, kv@, nv@));
                        assert(views_of(kvals).drop_last() =~= views_of(old_kvals));
                        assert(views_of(outs).drop_last() =~= views_of(old_outs));
                        assert(kvals.drop_last() =~= old_kvals);
                        assert(outs.drop_last() =~= old_outs);
                        lemma_views_of(kvals);
                        lemma_views_of(outs);
                        assert(zip_views(keys@, values@) == apply_puts(
                            Seq::empty(),
                            views_of(kvals),
                            views_of(outs),
                        ));
                        lemma_last_prior(views_of(kvals), i as int, kv@);
                        assert(views_of(kvals)[p] == kv@);
                        assert(last_prior(views_of(kvals), i as int, kv@) == p) by {
                            let lp = last_prior(views_of(kvals), i as int, kv@);
                            if lp > p {
                                assert(views_of(old_kvals)[lp] != es[idx as int].0);
                            }
                            if lp < p {
                                assert(views_of(kvals)[p] != kv@);
                            }
                        }
                        assert(aggregate_step_ok(
                            operation,
                            elems,
                            kvals,
                            outs,
                            i as int,
                        )) by {
                            assert(kvals[i as int] == kv);
                            assert(outs[i as int] == nv);
                            assert(outs[p] == old_outs[p]);
                            assert(views_of(kvals)[i as int] == kv@);
                        }
                        self.lemma_fold_step_stable(old_kvals, kvals, old_outs, outs, i as int);
                        assert forall|t: int| 0 <= t < i as int implies #[trigger] aggregate_step_ok(
                            operation,
                            elems,
                            kvals,
                            outs,
                            t,
                        ) by {
                            transfer_aggregate_step(
                                operation,
                                elems,
                                old_kvals,
                                kvals,
                                old_outs,
                                outs,
                                t,
                            );
                        }
                    }
                },
                None => {
                    proof {
                        assert(!has_key(es, kv@));
                        assert forall|j: int| 0 <= j < i implies views_of(old_kvals)[j]
                            != kv@ by {
                            if views_of(old_kvals)[j] == kv@ {
                                assert(has_key(es, views_of(old_kvals)[j]));
                            }
                        }
                    }
                    let null_acc = Value::Null;
                    let ghost gn = null_acc;
                    let new_value = operation(&k, &null_acc, &self.elements[i], true);
                    let ghost nv = new_value;
                    proof {
                        assert(call_ensures(
                            operation,
                            (&kv, &gn, &self.elements@[i as int], true),
                            nv,
                        ));
                        lemma_put_entry(es, kv@, nv@);
                    }
                    keys.push(k);
                    values.push(new_value);
                    proof {
                        kvals = kvals.push(kv);
                        outs = outs.push(nv);
                        slot_src = slot_src.push(i as int);
                        crate::vec_ops::lemma_views_of_push(old_outs, nv);
                        assert(zip_views(keys@, values@) =~= put_entry(es, kv@, nv@));
                        assert(views_of(kvals).drop_last() =~= views_of(old_kvals));
                        assert(views_of(outs).drop_last() =~= views_of(old_outs));
                        assert(kvals.drop_last() =~= old_kvals);
                        assert(outs.drop_last() =~= old_outs);
                        lemma_views_of(kvals);
                        lemma_views_of(outs);
                        assert(zip_views(keys@, values@) == apply_puts(
                            Seq::empty(),
                            views_of(kvals),
                            views_of(outs),
                        ));
                        lemma_last_prior(views_of(kvals), i as int, kv@);
                        assert(last_prior(views_of(kvals), i as int, kv@) == -1) by {
                            let lp = last_prior(views_of(kvals), i as int, kv@);
                            if lp >= 0 {
                                assert(views_of(kvals)[lp] == kv@);
                                assert(views_of(old_kvals)[lp] == kv@);
                            }
                        }
                        assert(aggregate_step_ok(
                            operation,
                            elems,
                            kvals,
                            outs,
                            i as int,
                        )) by {
                            assert(kvals[i as int] == kv);
                            assert(outs[i as int] == nv);
                            assert(views_of(kvals)[i as int] == kv@);
                            assert(gn@ == ValSpec::Null);
                            assert(call_ensures(
                                operation,
                                (&kvals[i as int], &gn, &elems[i as int], true),
                                outs[i as int],
                            ));
                        }
                        self.lemma_fold_step_stable(old_kvals, kvals, old_outs, outs, i as int);
                        assert forall|t: int| 0 <= t < i as int implies #[trigger] aggregate_step_ok(
                            operation,
                            elems,
                            kvals,
                            outs,
                            t,
                        ) by {
                            transfer_aggregate_step(
                                operation,
                                elems,
                                old_kvals,
                                kvals,
                                old_outs,
                                outs,
                                t,
                            );
                        }
                    }
                },
            }
            i = i + 1;
        }
        proof {
            lemma_views_of(keys@);
            assert(zip_views(keys@, values@) == apply_puts(
                Seq::empty(),
                views_of(kvals),
                views_of(outs),
            ));
        }
        KotMap { keys, values, key_type: None, value_type: None }
    }

    /// Appending an element leaves every earlier `last_prior` unchanged.
    proof fn lemma_fold_step_stable(
        &self,
        old_kvals: Seq<Value>,
        new_kvals: Seq<Value>,
        old_outs: Seq<Value>,
        new_outs: Seq<Value>,
        i: int,
    )
        requires
            new_kvals.len() == old_kvals.len() + 1,
            new_outs.len() == old_outs.len() + 1,
            old_kvals.len() == i,
            old_outs.len() == i,
            views_of(new_kvals).drop_last() == views_of(old_kvals),
            views_of(new_outs).drop_last() == views_of(old_outs),
            new_kvals.drop_last() == old_kvals,
            new_outs.drop_last() == old_outs,
        ensures
            forall|t: int|
                0 <= t < i ==> last_prior(
                    views_of(new_kvals),
                    t,
                    #[trigger] views_of(new_kvals)[t],
                ) == last_prior(views_of(old_kvals), t, views_of(old_kvals)[t]),
            forall|t: int| 0 <= t < i ==> #[trigger] new_kvals[t] == old_kvals[t],
            forall|t: int| 0 <= t < i ==> #[trigger] new_outs[t] == old_outs[t],
            forall|t: int| 0 <= t < i ==> #[trigger] views_of(new_kvals)[t] == views_of(
                old_kvals,
            )[t],
    {
        lemma_views_of(new_kvals);
        lemma_views_of(old_kvals);
        lemma_views_of(new_outs);
        lemma_views_of(old_outs);
        assert(forall|t: int| 0 <= t < i ==> #[trigger] new_kvals[t] == new_kvals.drop_last()[t]);
        assert(forall|t: int| 0 <= t < i ==> #[trigger] new_outs[t] == new_outs.drop_last()[t]);
        assert forall|t: int| 0 <= t < i implies #[trigger] views_of(new_kvals)[t] == views_of(
            old_kvals,
        )[t] by {
            assert(views_of(new_kvals)[t] == views_of(new_kvals).drop_last()[t]);
        }
        assert forall|t: int| 0 <= t < i implies last_prior(
            views_of(new_kvals),
            t,
            #[trigger] views_of(new_kvals)[t],
        ) == last_prior(views_of(old_kvals), t, views_of(old_kvals)[t]) by {
            lemma_last_prior_stable(
                views_of(new_kvals),
                views_of(old_kvals),
                t,
                views_of(new_kvals)[t],
            );
        }
    }
}



/// Step `i` of a grouping fold into a destination is sanctioned: a key
/// already touched in this pass folds onto its previous accumulator, a
/// key the destination already held folds onto that held value, and a
/// fresh key is seeded by the initial-value selector.
pub open spec fn fold_to_step_ok<G: Fn(&Value) -> Value, H: Fn(&Value, &Value, &Value) -> Value>(
    initial_value_selector: G,
    operation: H,
    base: Seq<(ValSpec, ValSpec)>,
    elems: Seq<Value>,
    kvals: Seq<Value>,
    outs: Seq<Value>,
    i: int,
) -> bool {
    let p = last_prior(views_of(kvals), i, views_of(kvals)[i]);
    if p >= 0 {
        call_ensures(operation, (&kvals[i], &outs[p], &elems[i]), outs[i])
    } else if has_key(base, views_of(kvals)[i]) {
        exists|cur: Value|
            cur@ == lookup(base, views_of(kvals)[i]) && call_ensures(
                operation,
                (&kvals[i], &cur, &elems[i]),
                outs[i],
            )
    } else {
        exists|init: Value|
            call_ensures(initial_value_selector, (&kvals[i],), init) && call_ensures(
                operation,
                (&kvals[i], &init, &elems[i]),
                outs[i],
            )
    }
}

/// A sanctioned destination-fold step stays sanctioned when a later
/// element is appended.
proof fn transfer_fold_to_step<G: Fn(&Value) -> Value, H: Fn(&Value, &Value, &Value) -> Value>(
    initial_value_selector: G,
    operation: H,
    base: Seq<(ValSpec, ValSpec)>,
    elems: Seq<Value>,
    old_kvals: Seq<Value>,
    new_kvals: Seq<Value>,
    old_outs: Seq<Value>,
    new_outs: Seq<Value>,
    t: int,
)
    requires
        0 <= t < old_kvals.len(),
        old_outs.len() == old_kvals.len(),
        new_kvals.drop_last() == old_kvals,
        new_outs.drop_last() == old_outs,
        new_kvals.len() == old_kvals.len() + 1,
        new_outs.len() == old_outs.len() + 1,
        fold_to_step_ok(initial_value_selector, operation, base, elems, old_kvals, old_outs, t),
    ensures
        fold_to_step_ok(initial_value_selector, operation, base, elems, new_kvals, new_outs, t),
{
    lemma_views_of(old_kvals);
    lemma_views_of(new_kvals);
    assert(forall|j: int| 0 <= j < old_kvals.len() ==> #[trigger] new_kvals[j] == old_kvals[j]);
    assert(forall|j: int| 0 <= j < old_outs.len() ==> #[trigger] new_outs[j] == old_outs[j]);
    assert forall|j: int| 0 <= j <= t implies #[trigger] views_of(new_kvals)[j] == views_of(
        old_kvals,
    )[j] by {
        assert(views_of(new_kvals)[j] == new_kvals[j]@);
        assert(views_of(old_kvals)[j] == old_kvals[j]@);
    }
    lemma_last_prior_stable(views_of(new_kvals), views_of(old_kvals), t, views_of(new_kvals)[t]);
    let p = last_prior(views_of(old_kvals), t, views_of(old_kvals)[t]);
    lemma_last_prior(views_of(old_kvals), t, views_of(old_kvals)[t]);
    if p >= 0 {
        assert(new_outs[p] == old_outs[p]);
    } else if has_key(base, views_of(old_kvals)[t]) {
        let cur = choose|cur: Value|
            cur@ == lookup(base, views_of(old_kvals)[t]) && call_ensures(
                operation,
                (&old_kvals[t], &cur, &elems[t]),
                old_outs[t],
            );
        assert(cur@ == lookup(base, views_of(new_kvals)[t]) && call_ensures(
            operation,
            (&new_kvals[t], &cur, &elems[t]),
            new_outs[t],
        ));
    } else {
        let init = choose|init: Value|
            call_ensures(initial_value_selector, (&old_kvals[t],), init) && call_ensures(
                operation,
                (&old_kvals[t], &init, &elems[t]),
                old_outs[t],
            );
        assert(call_ensures(initial_value_selector, (&new_kvals[t],), init) && call_ensures(
            operation,
            (&new_kvals[t], &init, &elems[t]),
            new_outs[t],
        ));
    }
}

impl<F: Fn(&Value) -> Value> KotGrouping<F> {
    /// Count each source element's key into `destination`, continuing any
    /// tally it already holds: an integer value is incremented once per
    /// occurrence, any other value restarts its key at one.
    pub fn each_count_to(&self, destination: &mut KotMutableMap)
        requires
            old(destination).wf(),
            self.elements@.len() <= i64::MAX,
            forall|i: int|
                0 <= i < self.elements@.len() ==> call_requires(
                    self.key_selector,
                    (&self.elements@[i],),
                ),
            forall|j: int|
                0 <= j < old(destination)@.len() ==> ((#[trigger] old(destination)@[j].1)
                    matches ValSpec::Int(n) ==> n + self.elements@.len() <= i64::MAX),
        ensures
            final(destination).wf(),
            final(destination).key_type == old(destination).key_type,
            final(destination).value_type == old(destination).value_type,
            exists|kvals: Seq<Value>|
                {
                    &&& kvals.len() == self.elements@.len()
                    &&& forall|i: int|
                        0 <= i < kvals.len() ==> call_ensures(
                            self.key_selector,
                            (&self.elements@[i],),
                            #[trigger] kvals[i],
                        )
                    &&& final(destination)@ == #[trigger] count_fold(
                        old(destination)@,
                        views_of(kvals),
                    )
                },
    {
        let ghost base = old(destination)@;
        let ghost mut kvals: Seq<Value> = Seq::empty();
        let mut i: usize = 0;
        proof {
            lemma_views_of(kvals);
            assert(views_of(kvals) =~= Seq::<ValSpec>::empty());
        }
        while i < self.elements.len()
            invariant
                i <= self.elements@.len(),
                self.elements@.len() <= i64::MAX,
                forall|t: int|
                    0 <= t < self.elements@.len() ==> call_requires(
                        self.key_selector,
                        (&self.elements@[t],),
                    ),
                kvals.len() == i,
                forall|t: int|
                    0 <= t < i ==> call_ensures(
                        self.key_selector,
                        (&self.elements@[t],),
                        #[trigger] kvals[t],
                    ),
                destination.wf(),
                destination.key_type == old(destination).key_type,
                destination.value_type == old(destination).value_type,
                destination@ == count_fold(base, views_of(kvals)),
                forall|t: int|
                    0 <= t < destination@.len() ==> ((#[trigger] destination@[t].1)
                        matches ValSpec::Int(m) ==> m + (self.elements@.len() - i)
                        <= i64::MAX),
            decreases self.elements@.len() - i,
        {
            let ghost es = destination@;
            let k = (self.key_selector)(&self.elements[i]);
            let ghost kv = k;
            proof {
                lemma_views_of(destination.keys@);
                lemma_key_index_is_first_index(destination.keys@, destination.values@, kv@);
                lemma_key_index(es, kv@);
                crate::vec_ops::lemma_views_of_push(kvals, kv);
                assert(views_of(kvals.push(kv)).drop_last() =~= views_of(kvals));
            }
            match find_first(&destination.keys, &k) {
                Some(idx) => {
                    let current: i64 = match &destination.values[idx] {
                        Value::Int(n) => *n,
                        _ => 0,
                    };
                    proof {
                        assert(destination.values@[idx as int]@ == es[idx as int].1);
                        if let ValSpec::Int(m) = es[idx as int].1 {
                            assert(current as int == m);
                            assert(m + (self.elements@.len() - i) <= i64::MAX);
                        }
                        lemma_put_entry(es, kv@, int_succ(lookup(es, kv@)));
                    }
                    destination.values.set(idx, Value::Int(current + 1));
                    proof {
                        assert(zip_views(destination.keys@, destination.values@) =~= put_entry(
                            es,
                            kv@,
                            int_succ(lookup(es, kv@)),
                        ));
                        assert(destination@ == bump_count(es, kv@));
                    }
                },
                None => {
                    proof {
                        lemma_put_entry(es, kv@, ValSpec::Int(1));
                    }
                    destination.keys.push(k);
                    destination.values.push(Value::Int(1));
                    proof {
                        assert(zip_views(destination.keys@, destination.values@) =~= put_entry(
                            es,
                            kv@,
                            ValSpec::Int(1),
                        ));
                        assert(destination@ == bump_count(es, kv@));
                    }
                },
            }
            proof {
                kvals = kvals.push(kv);
                assert forall|t: int|
                    0 <= t < destination@.len() implies ((#[trigger] destination@[t].1)
                    matches ValSpec::Int(m) ==> m + (self.elements@.len() - i - 1)
                    <= i64::MAX) by {
                    if destination@[t] == es[t] {
                    } else {
                        assert(destination@[t].1 == int_succ(lookup(es, kv@)) || destination@[
                            t].1 == ValSpec::Int(1));
                    }
                }
            }
            i = i + 1;
        }
    }
}


/// Step `i` of a grouping reduce into a destination is sanctioned: a key
/// already touched folds onto its previous accumulator, a key the
/// destination held folds onto that value, and a fresh key's element
/// stands for itself.
pub open spec fn reduce_to_step_ok<H: Fn(&Value, &Value, &Value) -> Value>(
    operation: H,
    base: Seq<(ValSpec, ValSpec)>,
    elems: Seq<Value>,
    kvals: Seq<Value>,
    outs: Seq<Value>,
    i: int,
) -> bool {
    let p = last_prior(views_of(kvals), i, views_of(kvals)[i]);
    if p >= 0 {
        call_ensures(operation, (&kvals[i], &outs[p], &elems[i]), outs[i])
    } else if has_key(base, views_of(kvals)[i]) {
        exists|cur: Value|
            cur@ == lookup(base, views_of(kvals)[i]) && call_ensures(
                operation,
                (&kvals[i], &cur, &elems[i]),
                outs[i],
            )
    } else {
        outs[i]@ == elems[i]@
    }
}

/// A sanctioned destination-reduce step stays sanctioned when a later
/// element is appended.
proof fn transfer_reduce_to_step<H: Fn(&Value, &Value, &Value) -> Value>(
    operation: H,
    base: Seq<(ValSpec, ValSpec)>,
    elems: Seq<Value>,
    old_kvals: Seq<Value>,
    new_kvals: Seq<Value>,
    old_outs: Seq<Value>,
    new_outs: Seq<Value>,
    t: int,
)
    requires
        0 <= t < old_kvals.len(),
        old_outs.len() == old_kvals.len(),
        new_kvals.drop_last() == old_kvals,
        new_outs.drop_last() == old_outs,
        new_kvals.len() == old_kvals.len() + 1,
        new_outs.len() == old_outs.len() + 1,
        reduce_to_step_ok(operation, base, elems, old_kvals, old_outs, t),
    ensures
        reduce_to_step_ok(operation, base, elems, new_kvals, new_outs, t),
{
    lemma_views_of(old_kvals);
    lemma_views_of(new_kvals);
    assert(forall|j: int| 0 <= j < old_kvals.len() ==> #[trigger] new_kvals[j] == old_kvals[j]);
    assert(forall|j: int| 0 <= j < old_outs.len() ==> #[trigger] new_outs[j] == old_outs[j]);
    assert forall|j: int| 0 <= j <= t implies #[trigger] views_of(new_kvals)[j] == views_of(
        old_kvals,
    )[j] by {
        assert(views_of(new_kvals)[j] == new_kvals[j]@);
        assert(views_of(old_kvals)[j] == old_kvals[j]@);
    }
    lemma_last_prior_stable(views_of(new_kvals), views_of(old_kvals), t, views_of(new_kvals)[t]);
    let p = last_prior(views_of(old_kvals), t, views_of(old_kvals)[t]);
    lemma_last_prior(views_of(old_kvals), t, views_of(old_kvals)[t]);
    if p >= 0 {
        assert(new_outs[p] == old_outs[p]);
    } else if has_key(base, views_of(old_kvals)[t]) {
        let cur = choose|cur: Value|
            cur@ == lookup(base, views_of(old_kvals)[t]) && call_ensures(
                operation,
                (&old_kvals[t], &cur, &elems[t]),
                old_outs[t],
            );
        assert(cur@ == lookup(base, views_of(new_kvals)[t]) && call_ensures(
            operation,
            (&new_kvals[t], &cur, &elems[t]),
            new_outs[t],
        ));
    }
}

/// Step `i` of a grouping aggregate into a destination is sanctioned: the
/// flag is raised only for a key neither touched in this pass nor held by
/// the destination, whose accumulator is then null.
pub open spec fn aggregate_to_step_ok<H: Fn(&Value, &Value, &Value, bool) -> Value>(
    operation: H,
    base: Seq<(ValSpec, ValSpec)>,
    elems: Seq<Value>,
    kvals: Seq<Value>,
    outs: Seq<Value>,
    i: int,
) -> bool {
    let p = last_prior(views_of(kvals), i, views_of(kvals)[i]);
    if p >= 0 {
        call_ensures(operation, (&kvals[i], &outs[p], &elems[i], false), outs[i])
    } else if has_key(base, views_of(kvals)[i]) {
        exists|cur: Value|
            cur@ == lookup(base, views_of(kvals)[i]) && call_ensures(
                operation,
                (&kvals[i], &cur, &elems[i], false),
                outs[i],
            )
    } else {
        exists|nl: Value|
            nl@ == ValSpec::Null && call_ensures(
                operation,
                (&kvals[i], &nl, &elems[i], true),
                outs[i],
            )
    }
}

/// A sanctioned destination-aggregate step stays sanctioned when a later
/// element is appended.
proof fn transfer_aggregate_to_step<H: Fn(&Value, &Value, &Value, bool) -> Value>(
    operation: H,
    base: Seq<(ValSpec, ValSpec)>,
    elems: Seq<Value>,
    old_kvals: Seq<Value>,
    new_kvals: Seq<Value>,
    old_outs: Seq<Value>,
    new_outs: Seq<Value>,
    t: int,
)
    requires
        0 <= t < old_kvals.len(),
        old_outs.len() == old_kvals.len(),
        new_kvals.drop_last() == old_kvals,
        new_outs.drop_last() == old_outs,
        new_kvals.len() == old_kvals.len() + 1,
        new_outs.len() == old_outs.len() + 1,
        aggregate_to_step_ok(operation, base, elems, old_kvals, old_outs, t),
    ensures
        aggregate_to_step_ok(operation, base, elems, new_kvals, new_outs, t),
{
    lemma_views_of(old_kvals);
    lemma_views_of(new_kvals);
    assert(forall|j: int| 0 <= j < old_kvals.len() ==> #[trigger] new_kvals[j] == old_kvals[j]);
    assert(forall|j: int| 0 <= j < old_outs.len() ==> #[trigger] new_outs[j] == old_outs[j]);
    assert forall|j: int| 0 <= j <= t implies #[trigger] views_of(new_kvals)[j] == views_of(
        old_kvals,
    )[j] by {
        assert(views_of(new_kvals)[j] == new_kvals[j]@);
        assert(views_of(old_kvals)[j] == old_kvals[j]@);
    }
    lemma_last_prior_stable(views_of(new_kvals), views_of(old_kvals), t, views_of(new_kvals)[t]);
    let p = last_prior(views_of(old_kvals), t, views_of(old_kvals)[t]);
    lemma_last_prior(views_of(old_kvals), t, views_of(old_kvals)[t]);
    if p >= 0 {
        assert(new_outs[p] == old_outs[p]);
    } else if has_key(base, views_of(old_kvals)[t]) {
        let cur = choose|cur: Value|
            cur@ == lookup(base, views_of(old_kvals)[t]) && call_ensures(
                operation,
                (&old_kvals[t], &cur, &elems[t], false),
                old_outs[t],
            );
        assert(cur@ == lookup(base, views_of(new_kvals)[t]) && call_ensures(
            operation,
            (&new_kvals[t], &cur, &elems[t], false),
            new_outs[t],
        ));
    } else {
        let nl = choose|nl: Value|
            nl@ == ValSpec::Null && call_ensures(
                operation,
                (&old_kvals[t], &nl, &elems[t], true),
                old_outs[t],
            );
        assert(nl@ == ValSpec::Null && call_ensures(
            operation,
            (&new_kvals[t], &nl, &elems[t], true),
            new_outs[t],
        ));
    }
}

impl<F: Fn(&Value) -> Value> KotGrouping<F> {
    /// Group and fold into `destination`, continuing any accumulation it
    /// already holds: a key the destination holds folds onto its held
    /// value, a fresh key is seeded by `initial_value_selector`, and
    /// every later element of a group folds onto the group's previous
    /// accumulator.
    pub fn fold_to<G: Fn(&Value) -> Value, H: Fn(&Value, &Value, &Value) -> Value>(
        &self,
        destination: &mut KotMutableMap,
        initial_value_selector: G,
        operation: H,
    )
        requires
            old(destination).wf(),
            forall|i: int|
                0 <= i < self.elements@.len() ==> call_requires(
                    self.key_selector,
                    (&self.elements@[i],),
                ),
            forall|a: Value| call_requires(initial_value_selector, (&a,)),
            forall|a: Value, b: Value, c: Value| call_requires(operation, (&a, &b, &c)),
        ensures
            final(destination).wf(),
            final(destination).key_type == old(destination).key_type,
            final(destination).value_type == old(destination).value_type,
            exists|kvals: Seq<Value>, outs: Seq<Value>|
                {
                    &&& kvals.len() == self.elements@.len()
                    &&& outs.len() == self.elements@.len()
                    &&& forall|i: int|
                        0 <= i < kvals.len() ==> call_ensures(
                            self.key_selector,
                            (&self.elements@[i],),
                            #[trigger] kvals[i],
                        )
                    &&& forall|i: int|
                        0 <= i < outs.len() ==> #[trigger] fold_to_step_ok(
                            initial_value_selector,
                            operation,
                            old(destination)@,
                            self.elements@,
                            kvals,
                            outs,
                            i,
                        )
                    &&& final(destination)@ == #[trigger] apply_puts(
                        old(destination)@,
                        views_of(kvals),
                        views_of(outs),
                    )
                },
    {
        let ghost elems = self.elements@;
        let ghost base = old(destination)@;
        let ghost base_values = old(destination).values@;
        let ghost mut kvals: Seq<Value> = Seq::empty();
        let ghost mut outs: Seq<Value> = Seq::empty();
        let ghost mut slot_src: Seq<int> = Seq::new(base.len(), |t: int| -1);
        let mut i: usize = 0;
        proof {
            lemma_views_of(kvals);
            lemma_views_of(outs);
            assert(views_of(kvals) =~= Seq::<ValSpec>::empty());
            assert(views_of(outs) =~= Seq::<ValSpec>::empty());
        }
        while i < self.elements.len()
            invariant
                i <= self.elements@.len(),
                elems == self.elements@,
                forall|t: int|
                    0 <= t < self.elements@.len() ==> call_requires(
                        self.key_selector,
                        (&self.elements@[t],),
                    ),
                forall|a: Value| call_requires(initial_value_selector, (&a,)),
                forall|a: Value, b: Value, c: Value| call_requires(operation, (&a, &b, &c)),
                kvals.len() == i,
                outs.len() == i,
                forall|t: int|
                    0 <= t < i ==> call_ensures(
                        self.key_selector,
                        (&self.elements@[t],),
                        #[trigger] kvals[t],
                    ),
                forall|t: int|
                    0 <= t < i ==> #[trigger] fold_to_step_ok(
                        initial_value_selector,
                        operation,
                        base,
                        elems,
                        kvals,
                        outs,
                        t,
                    ),
                destination.wf(),
                destination.key_type == old(destination).key_type,
                destination.value_type == old(destination).value_type,
                destination@ == apply_puts(base, views_of(kvals), views_of(outs)),
                forall|j: int| 0 <= j < i ==> has_key(destination@, views_of(kvals)[j]),
                base.len() <= destination@.len(),
                forall|t: int|
                    0 <= t < base.len() ==> (#[trigger] destination@[t]).0 == base[t].0,
                slot_src.len() == destination@.len(),
                forall|t: int|
                    0 <= t < slot_src.len() ==> (#[trigger] slot_src[t] >= 0 ==> {
                        &&& slot_src[t] < i
                        &&& destination.values@[t] == outs[slot_src[t]]
                        &&& views_of(kvals)[slot_src[t]] == destination@[t].0
                        &&& forall|j: int|
                            slot_src[t] < j < i ==> views_of(kvals)[j] != destination@[t].0
                    }),
                forall|t: int|
                    0 <= t < slot_src.len() ==> (#[trigger] slot_src[t] == -1 ==> {
                        &&& t < base.len()
                        &&& destination.values@[t] == base_values[t]
                        &&& destination@[t].1 == base[t].1
                        &&& forall|j: int| 0 <= j < i ==> views_of(kvals)[j] != destination@[t].0
                    }),
                forall|t: int| 0 <= t < slot_src.len() ==> #[trigger] slot_src[t] >= -1,
            decreases self.elements@.len() - i,
        {
            let ghost es = destination@;
            let ghost old_kvals = kvals;
            let ghost old_outs = outs;
            let ghost old_values = destination.values@;
            let k = (self.key_selector)(&self.elements[i]);
            let ghost kv = k;
            proof {
                lemma_views_of(destination.keys@);
                lemma_key_index_is_first_index(destination.keys@, destination.values@, kv@);
                lemma_key_index(es, kv@);
                crate::vec_ops::lemma_views_of_push(kvals, kv);
            }
            match find_first(&destination.keys, &k) {
                Some(idx) => {
                    proof {
                        assert(es[idx as int].0 == kv@);
                    }
                    let new_value = operation(&k, &destination.values[idx], &self.elements[i]);
                    let ghost nv = new_value;
                    let ghost acc = destination.values@[idx as int];
                    proof {
                        assert(call_ensures(
                            operation,
                            (&kv, &acc, &self.elements@[i as int]),
                            nv,
                        ));
                        lemma_put_entry(es, kv@, nv@);
                    }
                    destination.values.set(idx, new_value);
                    proof {
                        kvals = kvals.push(kv);
                        outs = outs.push(nv);
                        let ghost p = slot_src[idx as int];
                        slot_src = slot_src.update(idx as int, i as int);
                        crate::vec_ops::lemma_views_of_push(old_outs, nv);
                        assert(zip_views(destination.keys@, destination.values@) =~= put_entry(
                            es,
                            kv@,
                            nv@,
                        ));
                        assert(views_of(kvals).drop_last() =~= views_of(old_kvals));
                        assert(views_of(outs).drop_last() =~= views_of(old_outs));
                        assert(kvals.drop_last() =~= old_kvals);
                        assert(outs.drop_last() =~= old_outs);
                        lemma_views_of(kvals);
                        lemma_views_of(outs);
                        assert(destination@ == apply_puts(base, views_of(kvals), views_of(outs)));
                        lemma_last_prior(views_of(kvals), i as int, kv@);
                        if p >= 0 {
                            assert(views_of(kvals)[p] == kv@);
                            assert(last_prior(views_of(kvals), i as int, kv@) == p) by {
                                let lp = last_prior(views_of(kvals), i as int, kv@);
                                if lp > p {
                                    assert(views_of(old_kvals)[lp] != es[idx as int].0);
                                }
                                if lp < p {
                                    assert(views_of(kvals)[p] != kv@);
                                }
                            }
                            assert(acc == old_outs[p]);
                        } else {
                            assert(last_prior(views_of(kvals), i as int, kv@) == -1) by {
                                let lp = last_prior(views_of(kvals), i as int, kv@);
                                if lp >= 0 {
                                    assert(views_of(old_kvals)[lp] == kv@);
                                    assert(views_of(old_kvals)[lp] != es[idx as int].0);
                                }
                            }
                            assert(idx < base.len());
                            assert(base[idx as int].0 == kv@);
                            assert(has_key(base, kv@) && lookup(base, kv@) == base[
                                idx as int].1) by {
                                lemma_key_index(base, kv@);
                                if key_index(base, kv@) == -1 {
                                    assert(base[idx as int].0 != kv@);
                                }
                                let bi = key_index(base, kv@);
                                assert(base[bi].0 == kv@);
                                if bi != idx as int {
                                    assert(base[bi].0 != base[idx as int].0);
                                }
                            }
                            assert(acc@ == lookup(base, kv@));
                        }
                        assert(fold_to_step_ok(
                            initial_value_selector,
                            operation,
                            base,
                            elems,
                            kvals,
                            outs,
                            i as int,
                        )) by {
                            assert(kvals[i as int] == kv);
                            assert(outs[i as int] == nv);
                            assert(views_of(kvals)[i as int] == kv@);
                        }
                        assert forall|t: int| 0 <= t < i as int implies #[trigger] fold_to_step_ok(
                            initial_value_selector,
                            operation,
                            base,
                            elems,
                            kvals,
                            outs,
                            t,
                        ) by {
                            transfer_fold_to_step(
                                initial_value_selector,
                                operation,
                                base,
                                elems,
                                old_kvals,
                                kvals,
                                old_outs,
                                outs,
                                t,
                            );
                        }
                    }
                },
                None => {
                    proof {
                        assert(!has_key(es, kv@));
                        assert forall|j: int| 0 <= j < i implies views_of(old_kvals)[j]
                            != kv@ by {
                            if views_of(old_kvals)[j] == kv@ {
                                assert(has_key(es, views_of(old_kvals)[j]));
                            }
                        }
                        assert(!has_key(base, kv@)) by {
                            if has_key(base, kv@) {
                                lemma_key_index(base, kv@);
                                let bi = key_index(base, kv@);
                                assert(es[bi].0 == base[bi].0);
                                assert(key_index(es, kv@) == -1);
                                assert(es[bi].0 != kv@);
                            }
                        }
                    }
                    let init = initial_value_selector(&k);
                    let ghost gi = init;
                    let new_value = operation(&k, &init, &self.elements[i]);
                    let ghost nv = new_value;
                    proof {
                        assert(call_ensures(initial_value_selector, (&kv,), gi));
                        assert(call_ensures(
                            operation,
                            (&kv, &gi, &self.elements@[i as int]),
                            nv,
                        ));
                        lemma_put_entry(es, kv@, nv@);
                    }
                    destination.keys.push(k);
                    destination.values.push(new_value);
                    proof {
                        kvals = kvals.push(kv);
                        outs = outs.push(nv);
                        slot_src = slot_src.push(i as int);
                        crate::vec_ops::lemma_views_of_push(old_outs, nv);
                        assert(zip_views(destination.keys@, destination.values@) =~= put_entry(
                            es,
                            kv@,
                            nv@,
                        ));
                        assert(views_of(kvals).drop_last() =~= views_of(old_kvals));
                        assert(views_of(outs).drop_last() =~= views_of(old_outs));
                        assert(kvals.drop_last() =~= old_kvals);
                        assert(outs.drop_last() =~= old_outs);
                        lemma_views_of(kvals);
                        lemma_views_of(outs);
                        assert(destination@ == apply_puts(base, views_of(kvals), views_of(outs)));
                        lemma_last_prior(views_of(kvals), i as int, kv@);
                        assert(last_prior(views_of(kvals), i as int, kv@) == -1) by {
                            let lp = last_prior(views_of(kvals), i as int, kv@);
                            if lp >= 0 {
                                assert(views_of(kvals)[lp] == kv@);
                                assert(views_of(old_kvals)[lp] == kv@);
                            }
                        }
                        assert(fold_to_step_ok(
                            initial_value_selector,
                            operation,
                            base,
                            elems,
                            kvals,
                            outs,
                            i as int,
                        )) by {
                            assert(kvals[i as int] == kv);
                            assert(outs[i as int] == nv);
                            assert(views_of(kvals)[i as int] == kv@);
                            assert(call_ensures(initial_value_selector, (&kvals[i as int],), gi)
                                && call_ensures(
                                operation,
                                (&kvals[i as int], &gi, &elems[i as int]),
                                outs[i as int],
                            ));
                        }
                        assert forall|t: int| 0 <= t < i as int implies #[trigger] fold_to_step_ok(
                            initial_value_selector,
                            operation,
                            base,
                            elems,
                            kvals,
                            outs,
                            t,
                        ) by {
                            transfer_fold_to_step(
                                initial_value_selector,
                                operation,
                                base,
                                elems,
                                old_kvals,
                                kvals,
                                old_outs,
                                outs,
                                t,
                            );
                        }
                    }
                },
            }
            i = i + 1;
        }
        proof {
            assert(destination@ == apply_puts(base, views_of(kvals), views_of(outs)));
        }
    }
}

impl<F: Fn(&Value) -> Value> KotGrouping<F> {
    /// Group and reduce into `destination`: a key the destination holds
    /// folds onto its held value, a fresh key's first element stands for
    /// itself, and every later element of a group folds onto the group's
    /// previous accumulator.
    pub fn reduce_to<H: Fn(&Value, &Value, &Value) -> Value>(
        &self,
        destination: &mut KotMutableMap,
        operation: H,
    )
        requires
            old(destination).wf(),
            forall|i: int|
                0 <= i < self.elements@.len() ==> call_requires(
                    self.key_selector,
                    (&self.elements@[i],),
                ),
            forall|a: Value, b: Value, c: Value| call_requires(operation, (&a, &b, &c)),
        ensures
            final(destination).wf(),
            final(destination).key_type == old(destination).key_type,
            final(destination).value_type == old(destination).value_type,
            exists|kvals: Seq<Value>, outs: Seq<Value>|
                {
                    &&& kvals.len() == self.elements@.len()
                    &&& outs.len() == self.elements@.len()
                    &&& forall|i: int|
                        0 <= i < kvals.len() ==> call_ensures(
                            self.key_selector,
                            (&self.elements@[i],),
                            #[trigger] kvals[i],
                        )
                    &&& forall|i: int|
                        0 <= i < outs.len() ==> #[trigger] reduce_to_step_ok(
                            operation,
                            old(destination)@,
                            self.elements@,
                            kvals,
                            outs,
                            i,
                        )
                    &&& final(destination)@ == #[trigger] apply_puts(
                        old(destination)@,
                        views_of(kvals),
                        views_of(outs),
                    )
                },
    {
        let ghost elems = self.elements@;
        let ghost base = old(destination)@;
        let ghost base_values = old(destination).values@;
        let ghost mut kvals: Seq<Value> = Seq::empty();
        let ghost mut outs: Seq<Value> = Seq::empty();
        let ghost mut slot_src: Seq<int> = Seq::new(base.len(), |t: int| -1);
        let mut i: usize = 0;
        proof {
            lemma_views_of(kvals);
            lemma_views_of(outs);
            assert(views_of(kvals) =~= Seq::<ValSpec>::empty());
            assert(views_of(outs) =~= Seq::<ValSpec>::empty());
        }
        while i < self.elements.len()
            invariant
                i <= self.elements@.len(),
                elems == self.elements@,
                forall|t: int|
                    0 <= t < self.elements@.len() ==> call_requires(
                        self.key_selector,
                        (&self.elements@[t],),
                    ),
                forall|a: Value, b: Value, c: Value| call_requires(operation, (&a, &b, &c)),
                kvals.len() == i,
                outs.len() == i,
                forall|t: int|
                    0 <= t < i ==> call_ensures(
                        self.key_selector,
                        (&self.elements@[t],),
                        #[trigger] kvals[t],
                    ),
                forall|t: int|
                    0 <= t < i ==> #[trigger] reduce_to_step_ok(
                        operation,
                        base,
                        elems,
                        kvals,
                        outs,
                        t,
                    ),
                destination.wf(),
                destination.key_type == old(destination).key_type,
                destination.value_type == old(destination).value_type,
                destination@ == apply_puts(base, views_of(kvals), views_of(outs)),
                forall|j: int| 0 <= j < i ==> has_key(destination@, views_of(kvals)[j]),
                base.len() <= destination@.len(),
                forall|t: int|
                    0 <= t < base.len() ==> (#[trigger] destination@[t]).0 == base[t].0,
                slot_src.len() == destination@.len(),
                forall|t: int|
                    0 <= t < slot_src.len() ==> (#[trigger] slot_src[t] >= 0 ==> {
                        &&& slot_src[t] < i
                        &&& destination.values@[t] == outs[slot_src[t]]
                        &&& views_of(kvals)[slot_src[t]] == destination@[t].0
                        &&& forall|j: int|
                            slot_src[t] < j < i ==> views_of(kvals)[j] != destination@[t].0
                    }),
                forall|t: int|
                    0 <= t < slot_src.len() ==> (#[trigger] slot_src[t] == -1 ==> {
                        &&& t < base.len()
                        &&& destination.values@[t] == base_values[t]
                        &&& destination@[t].1 == base[t].1
                        &&& forall|j: int| 0 <= j < i ==> views_of(kvals)[j] != destination@[t].0
                    }),
                forall|t: int| 0 <= t < slot_src.len() ==> #[trigger] slot_src[t] >= -1,
            decreases self.elements@.len() - i,
        {
            let ghost es = destination@;
            let ghost old_kvals = kvals;
            let ghost old_outs = outs;
            let ghost old_values = destination.values@;
            let k = (self.key_selector)(&self.elements[i]);
            let ghost kv = k;
            proof {
                lemma_views_of(destination.keys@);
                lemma_key_index_is_first_index(destination.keys@, destination.values@, kv@);
                lemma_key_index(es, kv@);
                crate::vec_ops::lemma_views_of_push(kvals, kv);
            }
            match find_first(&destination.keys, &k) {
                Some(idx) => {
                    proof {
                        assert(es[idx as int].0 == kv@);
                    }
                    let new_value = operation(&k, &destination.values[idx], &self.elements[i]);
                    let ghost nv = new_value;
                    let ghost acc = destination.values@[idx as int];
                    proof {
                        assert(call_ensures(
                            operation,
                            (&kv, &acc, &self.elements@[i as int]),
                            nv,
                        ));
                        lemma_put_entry(es, kv@, nv@);
                    }
                    destination.values.set(idx, new_value);
                    proof {
                        kvals = kvals.push(kv);
                        outs = outs.push(nv);
                        let ghost p = slot_src[idx as int];
                        slot_src = slot_src.update(idx as int, i as int);
                        crate::vec_ops::lemma_views_of_push(old_outs, nv);
                        assert(zip_views(destination.keys@, destination.values@) =~= put_entry(
                            es,
                            kv@,
                            nv@,
                        ));
                        assert(views_of(kvals).drop_last() =~= views_of(old_kvals));
                        assert(views_of(outs).drop_last() =~= views_of(old_outs));
                        assert(kvals.drop_last() =~= old_kvals);
                        assert(outs.drop_last() =~= old_outs);
                        lemma_views_of(kvals);
                        lemma_views_of(outs);
                        assert(destination@ == apply_puts(base, views_of(kvals), views_of(outs)));
                        lemma_last_prior(views_of(kvals), i as int, kv@);
                        if p >= 0 {
                            assert(views_of(kvals)[p] == kv@);
                            assert(last_prior(views_of(kvals), i as int, kv@) == p) by {
                                let lp = last_prior(views_of(kvals), i as int, kv@);
                                if lp > p {
                                    assert(views_of(old_kvals)[lp] != es[idx as int].0);
                                }
                                if lp < p {
                                    assert(views_of(kvals)[p] != kv@);
                                }
                            }
                            assert(acc == old_outs[p]);
                        } else {
                            assert(last_prior(views_of(kvals), i as int, kv@) == -1) by {
                                let lp = last_prior(views_of(kvals), i as int, kv@);
                                if lp >= 0 {
                                    assert(views_of(old_kvals)[lp] == kv@);
                                    assert(views_of(old_kvals)[lp] != es[idx as int].0);
                                }
                            }
                            assert(idx < base.len());
                            assert(base[idx as int].0 == kv@);
                            assert(has_key(base, kv@) && lookup(base, kv@) == base[
                                idx as int].1) by {
                                lemma_key_index(base, kv@);
                                if key_index(base, kv@) == -1 {
                                    assert(base[idx as int].0 != kv@);
                                }
                                let bi = key_index(base, kv@);
                                assert(base[bi].0 == kv@);
                                if bi != idx as int {
                                    assert(base[bi].0 != base[idx as int].0);
                                }
                            }
                            assert(acc@ == lookup(base, kv@));
                        }
                        assert(reduce_to_step_ok(
                            operation,
                            base,
                            elems,
                            kvals,
                            outs,
                            i as int,
                        )) by {
                            assert(kvals[i as int] == kv);
                            assert(outs[i as int] == nv);
                            assert(views_of(kvals)[i as int] == kv@);
                        }
                        assert forall|t: int| 0 <= t < i as int implies #[trigger] reduce_to_step_ok(
                            operation,
                            base,
                            elems,
                            kvals,
                            outs,
                            t,
                        ) by {
                            transfer_reduce_to_step(
                                operation,
                                base,
                                elems,
                                old_kvals,
                                kvals,
                                old_outs,
                                outs,
                                t,
                            );
                        }
                    }
                },
                None => {
                    proof {
                        assert(!has_key(es, kv@));
                        assert forall|j: int| 0 <= j < i implies views_of(old_kvals)[j]
                            != kv@ by {
                            if views_of(old_kvals)[j] == kv@ {
                                assert(has_key(es, views_of(old_kvals)[j]));
                            }
                        }
                        assert(!has_key(base, kv@)) by {
                            if has_key(base, kv@) {
                                lemma_key_index(base, kv@);
                                let bi = key_index(base, kv@);
                                assert(es[bi].0 == base[bi].0);
                                assert(key_index(es, kv@) == -1);
                                assert(es[bi].0 != kv@);
                            }
                        }
                    }
                    let new_value = self.elements[i].deep_copy();
                    let ghost nv = new_value;
                    proof {
                        assert(nv@ == self.elements@[i as int]@);
                        lemma_put_entry(es, kv@, nv@);
                    }
                    destination.keys.push(k);
                    destination.values.push(new_value);
                    proof {
                        kvals = kvals.push(kv);
                        outs = outs.push(nv);
                        slot_src = slot_src.push(i as int);
                        crate::vec_ops::lemma_views_of_push(old_outs, nv);
                        assert(zip_views(destination.keys@, destination.values@) =~= put_entry(
                            es,
                            kv@,
                            nv@,
                        ));
                        assert(views_of(kvals).drop_last() =~= views_of(old_kvals));
                        assert(views_of(outs).drop_last() =~= views_of(old_outs));
                        assert(kvals.drop_last() =~= old_kvals);
                        assert(outs.drop_last() =~= old_outs);
                        lemma_views_of(kvals);
                        lemma_views_of(outs);
                        assert(destination@ == apply_puts(base, views_of(kvals), views_of(outs)));
                        lemma_last_prior(views_of(kvals), i as int, kv@);
                        assert(last_prior(views_of(kvals), i as int, kv@) == -1) by {
                            let lp = last_prior(views_of(kvals), i as int, kv@);
                            if lp >= 0 {
                                assert(views_of(kvals)[lp] == kv@);
                                assert(views_of(old_kvals)[lp] == kv@);
                            }
                        }
                        assert(reduce_to_step_ok(
                            operation,
                            base,
                            elems,
                            kvals,
                            outs,
                            i as int,
                        )) by {
                            assert(kvals[i as int] == kv);
                            assert(outs[i as int] == nv);
                            assert(views_of(kvals)[i as int] == kv@);
                            assert(outs[i as int]@ == elems[i as int]@);
                        }
                        assert forall|t: int| 0 <= t < i as int implies #[trigger] reduce_to_step_ok(
                            operation,
                            base,
                            elems,
                            kvals,
                            outs,
                            t,
                        ) by {
                            transfer_reduce_to_step(
                                operation,
                                base,
                                elems,
                                old_kvals,
                                kvals,
                                old_outs,
                                outs,
                                t,
                            );
                        }
                    }
                },
            }
            i = i + 1;
        }
        proof {
            assert(destination@ == apply_puts(base, views_of(kvals), views_of(outs)));
        }
    }
}

impl<F: Fn(&Value) -> Value> KotGrouping<F> {
    /// Group and aggregate into `destination`: `operation` receives the
    /// key, the accumulator — the destination's held value for a key it
    /// holds, null otherwise — the element, and whether the accumulator
    /// is fresh, and its output becomes the new accumulator.
    pub fn aggregate_to<H: Fn(&Value, &Value, &Value, bool) -> Value>(
        &self,
        destination: &mut KotMutableMap,
        operation: H,
    )
        requires
            old(destination).wf(),
            forall|i: int|
                0 <= i < self.elements@.len() ==> call_requires(
                    self.key_selector,
                    (&self.elements@[i],),
                ),
            forall|a: Value, b: Value, c: Value, d: bool|
                call_requires(operation, (&a, &b, &c, d)),
        ensures
            final(destination).wf(),
            final(destination).key_type == old(destination).key_type,
            final(destination).value_type == old(destination).value_type,
            exists|kvals: Seq<Value>, outs: Seq<Value>|
                {
                    &&& kvals.len() == self.elements@.len()
                    &&& outs.len() == self.elements@.len()
                    &&& forall|i: int|
                        0 <= i < kvals.len() ==> call_ensures(
                            self.key_selector,
                            (&self.elements@[i],),
                            #[trigger] kvals[i],
                        )
                    &&& forall|i: int|
                        0 <= i < outs.len() ==> #[trigger] aggregate_to_step_ok(
                            operation,
                            old(destination)@,
                            self.elements@,
                            kvals,
                            outs,
                            i,
                        )
                    &&& final(destination)@ == #[trigger] apply_puts(
                        old(destination)@,
                        views_of(kvals),
                        views_of(outs),
                    )
                },
    {
        let ghost elems = self.elements@;
        let ghost base = old(destination)@;
        let ghost base_values = old(destination).values@;
        let ghost mut kvals: Seq<Value> = Seq::empty();
        let ghost mut outs: Seq<Value> = Seq::empty();
        let ghost mut slot_src: Seq<int> = Seq::new(base.len(), |t: int| -1);
        let mut i: usize = 0;
        proof {
            lemma_views_of(kvals);
            lemma_views_of(outs);
            assert(views_of(kvals) =~= Seq::<ValSpec>::empty());
            assert(views_of(outs) =~= Seq::<ValSpec>::empty());
        }
        while i < self.elements.len()
            invariant
                i <= self.elements@.len(),
                elems == self.elements@,
                forall|t: int|
                    0 <= t < self.elements@.len() ==> call_requires(
                        self.key_selector,
                        (&self.elements@[t],),
                    ),
                forall|a: Value, b: Value, c: Value, d: bool|
                    call_requires(operation, (&a, &b, &c, d)),
                kvals.len() == i,
                outs.len() == i,
                forall|t: int|
                    0 <= t < i ==> call_ensures(
                        self.key_selector,
                        (&self.elements@[t],),
                        #[trigger] kvals[t],
                    ),
                forall|t: int|
                    0 <= t < i ==> #[trigger] aggregate_to_step_ok(
                        operation,
                        base,
                        elems,
                        kvals,
                        outs,
                        t,
                    ),
                destination.wf(),
                destination.key_type == old(destination).key_type,
                destination.value_type == old(destination).value_type,
                destination@ == apply_puts(base, views_of(kvals), views_of(outs)),
                forall|j: int| 0 <= j < i ==> has_key(destination@, views_of(kvals)[j]),
                base.len() <= destination@.len(),
                forall|t: int|
                    0 <= t < base.len() ==> (#[trigger] destination@[t]).0 == base[t].0,
                slot_src.len() == destination@.len(),
                forall|t: int|
                    0 <= t < slot_src.len() ==> (#[trigger] slot_src[t] >= 0 ==> {
                        &&& slot_src[t] < i
                        &&& destination.values@[t] == outs[slot_src[t]]
                        &&& views_of(kvals)[slot_src[t]] == destination@[t].0
                        &&& forall|j: int|
                            slot_src[t] < j < i ==> views_of(kvals)[j] != destination@[t].0
                    }),
                forall|t: int|
                    0 <= t < slot_src.len() ==> (#[trigger] slot_src[t] == -1 ==> {
                        &&& t < base.len()
                        &&& destination.values@[t] == base_values[t]
                        &&& destination@[t].1 == base[t].1
                        &&& forall|j: int| 0 <= j < i ==> views_of(kvals)[j] != destination@[t].0
                    }),
                forall|t: int| 0 <= t < slot_src.len() ==> #[trigger] slot_src[t] >= -1,
            decreases self.elements@.len() - i,
        {
            let ghost es = destination@;
            let ghost old_kvals = kvals;
            let ghost old_outs = outs;
            let ghost old_values = destination.values@;
            let k = (self.key_selector)(&self.elements[i]);
            let ghost kv = k;
            proof {
                lemma_views_of(destination.keys@);
                lemma_key_index_is_first_index(destination.keys@, destination.values@, kv@);
                lemma_key_index(es, kv@);
                crate::vec_ops::lemma_views_of_push(kvals, kv);
            }
            match find_first(&destination.keys, &k) {
                Some(idx) => {
                    proof {
                        assert(es[idx as int].0 == kv@);
                    }
                    let new_value = operation(
                        &k,
                        &destination.values[idx],
                        &self.elements[i],
                        false,
                    );
                    let ghost nv = new_value;
                    let ghost acc = destination.values@[idx as int];
                    proof {
                        assert(call_ensures(
                            operation,
                            (&kv, &acc, &self.elements@[i as int], false),
                            nv,
                        ));
                        lemma_put_entry(es, kv@, nv@);
                    }
                    destination.values.set(idx, new_value);
                    proof {
                        kvals = kvals.push(kv);
                        outs = outs.push(nv);
                        let ghost p = slot_src[idx as int];
                        slot_src = slot_src.update(idx as int, i as int);
                        crate::vec_ops::lemma_views_of_push(old_outs, nv);
                        assert(zip_views(destination.keys@, destination.values@) =~= put_entry(
                            es,
                            kv@,
                            nv@,
                        ));
                        assert(views_of(kvals).drop_last() =~= views_of(old_kvals));
                        assert(views_of(outs).drop_last() =~= views_of(old_outs));
                        assert(kvals.drop_last() =~= old_kvals);
                        assert(outs.drop_last() =~= old_outs);
                        lemma_views_of(kvals);
                        lemma_views_of(outs);
                        assert(destination@ == apply_puts(base, views_of(kvals), views_of(outs)));
                        lemma_last_prior(views_of(kvals), i as int, kv@);
                        if p >= 0 {
                            assert(views_of(kvals)[p] == kv@);
                            assert(last_prior(views_of(kvals), i as int, kv@) == p) by {
                                let lp = last_prior(views_of(kvals), i as int, kv@);
                                if lp > p {
                                    assert(views_of(old_kvals)[lp] != es[idx as int].0);
                                }
                                if lp < p {
                                    assert(views_of(kvals)[p] != kv@);
                                }
                            }
                            assert(acc == old_outs[p]);
                        } else {
                            assert(last_prior(views_of(kvals), i as int, kv@) == -1) by {
                                let lp = last_prior(views_of(kvals), i as int, kv@);
                                if lp >= 0 {
                                    assert(views_of(old_kvals)[lp] == kv@);
                                    assert(views_of(old_kvals)[lp] != es[idx as int].0);
                                }
                            }
                            assert(idx < base.len());
                            assert(base[idx as int].0 == kv@);
                            assert(has_key(base, kv@) && lookup(base, kv@) == base[
                                idx as int].1) by {
                                lemma_key_index(base, kv@);
                                if key_index(base, kv@) == -1 {
                                    assert(base[idx as int].0 != kv@);
                                }
                                let bi = key_index(base, kv@);
                                assert(base[bi].0 == kv@);
                                if bi != idx as int {
                                    assert(base[bi].0 != base[idx as int].0);
                                }
                            }
                            assert(acc@ == lookup(base, kv@));
                        }
                        assert(aggregate_to_step_ok(
                            operation,
                            base,
                            elems,
                            kvals,
                            outs,
                            i as int,
                        )) by {
                            assert(kvals[i as int] == kv);
                            assert(outs[i as int] == nv);
                            assert(views_of(kvals)[i as int] == kv@);
                        }
                        assert forall|t: int| 0 <= t < i as int implies #[trigger] aggregate_to_step_ok(
                            operation,
                            base,
                            elems,
                            kvals,
                            outs,
                            t,
                        ) by {
                            transfer_aggregate_to_step(
                                operation,
                                base,
                                elems,
                                old_kvals,
                                kvals,
                                old_outs,
                                outs,
                                t,
                            );
                        }
                    }
                },
                None => {
                    proof {
                        assert(!has_key(es, kv@));
                        assert forall|j: int| 0 <= j < i implies views_of(old_kvals)[j]
                            != kv@ by {
                            if views_of(old_kvals)[j] == kv@ {
                                assert(has_key(es, views_of(old_kvals)[j]));
                            }
                        }
                        assert(!has_key(base, kv@)) by {
                            if has_key(base, kv@) {
                                lemma_key_index(base, kv@);
                                let bi = key_index(base, kv@);
                                assert(es[bi].0 == base[bi].0);
                                assert(key_index(es, kv@) == -1);
                                assert(es[bi].0 != kv@);
                            }
                        }
                    }
                    let null_acc = Value::Null;
                    let ghost gn = null_acc;
                    let new_value = operation(&k, &null_acc, &self.elements[i], true);
                    let ghost nv = new_value;
                    proof {
                        assert(call_ensures(
                            operation,
                            (&kv, &gn, &self.elements@[i as int], true),
                            nv,
                        ));
                        lemma_put_entry(es, kv@, nv@);
                    }
                    destination.keys.push(k);
                    destination.values.push(new_value);
                    proof {
                        kvals = kvals.push(kv);
                        outs = outs.push(nv);
                        slot_src = slot_src.push(i as int);
                        crate::vec_ops::lemma_views_of_push(old_outs, nv);
                        assert(zip_views(destination.keys@, destination.values@) =~= put_entry(
                            es,
                            kv@,
                            nv@,
                        ));
                        assert(views_of(kvals).drop_last() =~= views_of(old_kvals));
                        assert(views_of(outs).drop_last() =~= views_of(old_outs));
                        assert(kvals.drop_last() =~= old_kvals);
                        assert(outs.drop_last() =~= old_outs);
                        lemma_views_of(kvals);
                        lemma_views_of(outs);
                        assert(destination@ == apply_puts(base, views_of(kvals), views_of(outs)));
                        lemma_last_prior(views_of(kvals), i as int, kv@);
                        assert(last_prior(views_of(kvals), i as int, kv@) == -1) by {
                            let lp = last_prior(views_of(kvals), i as int, kv@);
                            if lp >= 0 {
                                assert(views_of(kvals)[lp] == kv@);
                                assert(views_of(old_kvals)[lp] == kv@);
                            }
                        }
                        assert(aggregate_to_step_ok(
                            operation,
                            base,
                            elems,
                            kvals,
                            outs,
                            i as int,
                        )) by {
                            assert(kvals[i as int] == kv);
                            assert(outs[i as int] == nv);
                            assert(views_of(kvals)[i as int] == kv@);
                            assert(gn@ == ValSpec::Null);
                            assert(call_ensures(
                                operation,
                                (&kvals[i as int], &gn, &elems[i as int], true),
                                outs[i as int],
                            ));
                        }
                        assert forall|t: int| 0 <= t < i as int implies #[trigger] aggregate_to_step_ok(
                            operation,
                            base,
                            elems,
                            kvals,
                            outs,
                            t,
                        ) by {
                            transfer_aggregate_to_step(
                                operation,
                                base,
                                elems,
                                old_kvals,
                                kvals,
                                old_outs,
                                outs,
                                t,
                            );
                        }
                    }
                },
            }
            i = i + 1;
        }
        proof {
            assert(destination@ == apply_puts(base, views_of(kvals), views_of(outs)));
        }
    }
}

} // verus!
