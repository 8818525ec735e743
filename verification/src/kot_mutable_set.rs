//! An insertion-ordered, duplicate-free set with in-place mutation and the
//! Kotlin `MutableSet` method surface.

use vstd::prelude::*;

use crate::errors::KotError;
use crate::kot_list::{homogeneous, KotList};
use crate::kot_set::KotSet;
use crate::model::{
    all_of_kind, dedup_first, drop_in, keep_in, lemma_dedup_first, lemma_filter_unique,
    remove_first, unique_vals,
};
use crate::value::{kind_of, lemma_views_of, views_of, Kind, ValSpec, Value};
use crate::vec_ops::{
    all_values_of_kind, clone_values, contains_value, drop_in_values, find_first,
    keep_in_values, masked_views,
};

verus! {

/// An insertion-ordered collection of distinct [`Value`]s that may be
/// mutated in place, with the same uniqueness and declared-kind invariant
/// as [`KotSet`].
#[derive(Debug)]
pub struct KotMutableSet {
    pub elements: Vec<Value>,
    pub element_type: Option<Kind>,
}

impl View for KotMutableSet {
    type V = Seq<ValSpec>;

    open spec fn view(&self) -> Seq<ValSpec> {
        views_of(self.elements@)
    }
}

impl KotMutableSet {
    /// The set invariant: no two elements equal, and every element of the
    /// declared kind when one is declared.
    pub open spec fn wf(self) -> bool {
        unique_vals(self@) && (self.element_type matches Some(k) ==> all_of_kind(self@, k))
    }

    /// The kind the set would enforce after accepting a value of kind `k`.
    pub open spec fn kind_after(self, k: Kind) -> Option<Kind> {
        match self.element_type {
            Some(declared) => Some(declared),
            None => Some(k),
        }
    }

    /// Whether a value of kind `k` may be inserted.
    pub open spec fn admits(self, k: Kind) -> bool {
        match self.element_type {
            Some(declared) => declared == k,
            None => true,
        }
    }

    /// Wrap the given elements and declared kind as they stand, with no
    /// duplicate or kind check.
    pub fn new_with_type(elements: Vec<Value>, element_type: Option<Kind>) -> (r: KotMutableSet)
        ensures
            r@ == views_of(elements@),
            r.element_type == element_type,
    {
        KotMutableSet { elements, element_type }
    }

    /// A mutable set of the given elements with duplicates dropped; the
    /// kind is inferred from the first element. Fails with a type mismatch
    /// exactly when the elements are not all of one kind.
    pub fn new(elements: Vec<Value>) -> (r: Result<KotMutableSet, KotError>)
        ensures
            match r {
                Ok(s) => homogeneous(views_of(elements@)) && s@ == dedup_first(
                    views_of(elements@),
                ) && s.wf() && s.element_type == if elements@.len() == 0 {
                    Option::<Kind>::None
                } else {
                    Option::Some(kind_of(views_of(elements@)[0]))
                },
                Err(e) => e == KotError::TypeMismatch && !homogeneous(views_of(elements@)),
            },
    {
        match KotSet::new(elements) {
            Ok(s) => Ok(
                KotMutableSet { elements: s.elements, element_type: s.element_type },
            ),
            Err(e) => Err(e),
        }
    }

    /// A mutable set with the kind declared up front; fails with a type
    /// mismatch exactly when some element is not of the declared kind.
    pub fn of_type(element_type: Kind, elements: Vec<Value>) -> (r: Result<
        KotMutableSet,
        KotError,
    >)
        ensures
            match r {
                Ok(s) => all_of_kind(views_of(elements@), element_type) && s@ == dedup_first(
                    views_of(elements@),
                ) && s.wf() && s.element_type == Option::Some(element_type),
                Err(e) => e == KotError::TypeMismatch && !all_of_kind(
                    views_of(elements@),
                    element_type,
                ),
            },
    {
        match KotSet::of_type(element_type, elements) {
            Ok(s) => Ok(
                KotMutableSet { elements: s.elements, element_type: s.element_type },
            ),
            Err(e) => Err(e),
        }
    }

    /// The number of elements.
    pub fn size(&self) -> (r: usize)
        ensures
            r == self@.len(),
    {
        proof {
            lemma_views_of(self.elements@);
        }
        self.elements.len()
    }

    /// Whether the set holds no element.
    pub fn is_empty(&self) -> (r: bool)
        ensures
            r == (self@.len() == 0),
    {
        proof {
            lemma_views_of(self.elements@);
        }
        self.elements.len() == 0
    }

    /// Whether the set holds some element.
    pub fn is_not_empty(&self) -> (r: bool)
        ensures
            r == (self@.len() > 0),
    {
        !self.is_empty()
    }

    /// Whether some element equals `element`.
    pub fn contains(&self, element: &Value) -> (r: bool)
        ensures
            r == self@.contains(element@),
    {
        contains_value(&self.elements, element)
    }

    /// Whether every element of `elements` occurs in this set.
    pub fn contains_all(&self, elements: &KotList) -> (r: bool)
        ensures
            r == forall|i: int| 0 <= i < elements@.len() ==> self@.contains(#[trigger] elements@[i]),
    {
        proof {
            lemma_views_of(elements.elements@);
        }
        let mut i: usize = 0;
        while i < elements.elements.len()
            invariant
                i <= elements.elements@.len(),
                forall|j: int| 0 <= j < i ==> self@.contains(#[trigger] elements@[j]),
            decreases elements.elements@.len() - i,
        {
            if !contains_value(&self.elements, &elements.elements[i]) {
                assert(!self@.contains(elements@[i as int]));
                return false;
            }
            i = i + 1;
        }
        true
    }

    /// The first element in insertion order; fails exactly on the empty
    /// set.
    pub fn first(&self) -> (r: Result<Value, KotError>)
        ensures
            match r {
                Ok(v) => self@.len() > 0 && v@ == self@[0],
                Err(e) => e == KotError::EmptyContainer && self@.len() == 0,
            },
    {
        proof {
            lemma_views_of(self.elements@);
        }
        if self.elements.len() > 0 {
            Ok(self.elements[0].deep_copy())
        } else {
            Err(KotError::EmptyContainer)
        }
    }

    /// The first element, or nothing for the empty set.
    pub fn first_or_null(&self) -> (r: Option<Value>)
        ensures
            match r {
                Some(v) => self@.len() > 0 && v@ == self@[0],
                None => self@.len() == 0,
            },
    {
        proof {
            lemma_views_of(self.elements@);
        }
        if self.elements.len() > 0 {
            Some(self.elements[0].deep_copy())
        } else {
            None
        }
    }

    /// The last element in insertion order; fails exactly on the empty
    /// set.
    pub fn last(&self) -> (r: Result<Value, KotError>)
        ensures
            match r {
                Ok(v) => self@.len() > 0 && v@ == self@[self@.len() - 1],
                Err(e) => e == KotError::EmptyContainer && self@.len() == 0,
            },
    {
        proof {
            lemma_views_of(self.elements@);
        }
        if self.elements.len() > 0 {
            Ok(self.elements[self.elements.len() - 1].deep_copy())
        } else {
            Err(KotError::EmptyContainer)
        }
    }

    /// The last element, or nothing for the empty set.
    pub fn last_or_null(&self) -> (r: Option<Value>)
        ensures
            match r {
                Some(v) => self@.len() > 0 && v@ == self@[self@.len() - 1],
                None => self@.len() == 0,
            },
    {
        proof {
            lemma_views_of(self.elements@);
        }
        if self.elements.len() > 0 {
            Some(self.elements[self.elements.len() - 1].deep_copy())
        } else {
            None
        }
    }

    /// Add `element` unless an equal one is present. The declared kind is
    /// checked first — and inferred from the element when none is declared
    /// — so even a duplicate of the wrong kind is rejected. Returns whether
    /// the set grew.
    pub fn add(&mut self, element: Value) -> (r: Result<bool, KotError>)
        ensures
            match r {
                Ok(b) => {
                    &&& old(self).admits(kind_of(element@))
                    &&& b == !old(self)@.contains(element@)
                    &&& final(self)@ == if old(self)@.contains(element@) {
                        old(self)@
                    } else {
                        old(self)@.push(element@)
                    }
                    &&& final(self).element_type == old(self).kind_after(kind_of(element@))
                    &&& ((old(self).wf() && (old(self).element_type is Some || old(self)@.len()
                        == 0)) ==> final(self).wf())
                },
                Err(e) => e == KotError::TypeMismatch && !old(self).admits(kind_of(element@))
                    && final(self)@ == old(self)@ && final(self).element_type == old(self).element_type,
            },
    {
        proof {
            lemma_views_of(self.elements@);
        }
        let k = element.kind();
        match self.element_type {
            Some(declared) => {
                if declared != k {
                    return Err(KotError::TypeMismatch);
                }
            },
            None => {
                self.element_type = Some(k);
            },
        }
        if contains_value(&self.elements, &element) {
            return Ok(false);
        }
        proof {
            crate::vec_ops::lemma_views_of_push(self.elements@, element);
        }
        self.elements.push(element);
        proof {
            if old(self).wf() && (old(self).element_type is Some || old(self)@.len() == 0) {
                assert forall|i: int| 0 <= i < final(self)@.len() implies kind_of(
                    #[trigger] final(self)@[i],
                ) == k by {
                    if i < old(self)@.len() {
                        assert(final(self)@[i] == old(self)@[i]);
                    } else {
                        assert(final(self)@[i] == element@);
                    }
                }
                assert forall|i: int, j: int|
                    0 <= i < j < final(self)@.len() implies final(self)@[i] != final(self)@[j] by {
                    if j == final(self)@.len() - 1 {
                        assert(final(self)@[j] == element@);
                        assert(final(self)@[i] == old(self)@[i]);
                        assert(old(self)@.contains(old(self)@[i]));
                    }
                }
            }
        }
        Ok(true)
    }

    /// Add every element of `elements` that is not yet present, in order,
    /// validating the whole batch against the declared kind first: on a
    /// type mismatch nothing is added. Returns whether the set grew.
    #[verifier::rlimit(30)]
    pub fn add_all(&mut self, elements: &KotList) -> (r: Result<bool, KotError>)
        requires
            old(self).wf(),
        ensures
            match r {
                Ok(b) => {
                    &&& final(self)@ == dedup_first(old(self)@ + elements@)
                    &&& b == (final(self)@.len() > old(self)@.len())
                    &&& match old(self).element_type {
                        Some(k) => all_of_kind(elements@, k) && final(self).element_type == Some(
                            k,
                        ),
                        None => homogeneous(elements@) && final(self).element_type == if elements@
                            .len() == 0 {
                            Option::<Kind>::None
                        } else {
                            Option::Some(kind_of(elements@[0]))
                        },
                    }
                    &&& (old(self).element_type is Some || old(self)@.len() == 0) ==> final(self).wf()
                },
                Err(e) => {
                    &&& e == KotError::TypeMismatch
                    &&& final(self)@ == old(self)@
                    &&& final(self).element_type == old(self).element_type
                    &&& match old(self).element_type {
                        Some(k) => !all_of_kind(elements@, k),
                        None => !homogeneous(elements@),
                    }
                },
            },
    {
        proof {
            lemma_views_of(self.elements@);
            lemma_views_of(elements.elements@);
            lemma_dedup_first(old(self)@);
        }
        if elements.elements.len() == 0 {
            proof {
                assert(old(self)@ + elements@ =~= old(self)@);
            }
            return Ok(false);
        }
        let batch_kind = match self.element_type {
            Some(declared) => declared,
            None => elements.elements[0].kind(),
        };
        if !all_values_of_kind(&elements.elements, batch_kind) {
            proof {
                if old(self).element_type is None {
                    assert(!homogeneous(elements@)) by {
                        let i = choose|i: int|
                            0 <= i < elements@.len() && kind_of(#[trigger] elements@[i])
                                != batch_kind;
                    }
                }
            }
            return Err(KotError::TypeMismatch);
        }
        let ghost base = old(self)@;
        let ghost batch = elements@;
        let before_len = self.elements.len();
        let mut k: usize = 0;
        proof {
            assert(base + batch.take(0) =~= base);
            assert(dedup_first(base) == base);
        }
        while k < elements.elements.len()
            invariant
                k <= elements.elements@.len(),
                self.element_type == old(self).element_type,
                views_of(self.elements@) == dedup_first(base + batch.take(k as int)),
                self.elements@.len() >= before_len,
                before_len == base.len(),
            decreases elements.elements@.len() - k,
        {
            let ghost sofar = base + batch.take(k as int);
            proof {
                lemma_dedup_first(sofar);
                assert((base + batch.take(k + 1)).drop_last() =~= sofar);
                assert((base + batch.take(k + 1)).last() == batch[k as int]);
            }
            if !contains_value(&self.elements, &elements.elements[k]) {
                assert(!sofar.contains(batch[k as int]));
                let copied = elements.elements[k].deep_copy();
                proof {
                    crate::vec_ops::lemma_views_of_push(self.elements@, copied);
                }
                self.elements.push(copied);
            } else {
                assert(sofar.contains(batch[k as int]));
            }
            k = k + 1;
        }
        self.element_type = Some(batch_kind);
        let after_len = self.elements.len();
        proof {
            assert(base + batch.take(batch.len() as int) =~= base + batch);
            lemma_views_of(self.elements@);
            lemma_dedup_first(base + batch);
            if old(self).element_type is Some || old(self)@.len() == 0 {
                assert forall|i: int| 0 <= i < final(self)@.len() implies kind_of(
                    #[trigger] final(self)@[i],
                ) == batch_kind by {
                    assert(final(self)@.contains(final(self)@[i]));
                    assert(final(self)@ == dedup_first(base + batch));
                    assert((base + batch).contains(final(self)@[i]));
                    let w = choose|w: int|
                        0 <= w < (base + batch).len() && (base + batch)[w] == final(self)@[i];
                    if w < base.len() {
                        assert(base[w] == final(self)@[i]);
                    } else {
                        assert(batch[w - base.len()] == final(self)@[i]);
                    }
                }
            }
        }
        Ok(after_len > before_len)
    }

    /// Remove the element equal to `element`; returns whether one was
    /// found.
    pub fn remove(&mut self, element: &Value) -> (r: bool)
        ensures
            r == old(self)@.contains(element@),
            final(self)@ == remove_first(old(self)@, element@),
            final(self).element_type == old(self).element_type,
            old(self).wf() ==> final(self).wf(),
    {
        proof {
            lemma_views_of(self.elements@);
            crate::model::lemma_first_index_of(self@, element@);
        }
        let ghost before = self.elements@;
        match find_first(&self.elements, element) {
            Some(i) => {
                proof {
                    crate::vec_ops::lemma_views_of_remove(before, i as int);
                }
                self.elements.remove(i);
                proof {
                    assert(old(self)@[crate::model::first_index_of(old(self)@, element@)]
                        == element@);
                    if old(self).wf() {
                        assert forall|a: int, b: int|
                            0 <= a < b < final(self)@.len() implies final(self)@[a] != final(self)@[b] by {
                            let aa: int = if a < i {
                                a
                            } else {
                                a + 1
                            };
                            let bb: int = if b < i {
                                b
                            } else {
                                b + 1
                            };
                            assert(final(self)@[a] == old(self)@[aa]);
                            assert(final(self)@[b] == old(self)@[bb]);
                        }
                        if old(self).element_type is Some {
                            assert forall|j: int| 0 <= j < final(self)@.len() implies kind_of(
                                #[trigger] final(self)@[j],
                            ) == old(self).element_type->0 by {
                                if j < i {
                                    assert(final(self)@[j] == old(self)@[j]);
                                } else {
                                    assert(final(self)@[j] == old(self)@[j + 1]);
                                }
                            }
                        }
                    }
                }
                true
            },
            None => {
                proof {
                    assert(!old(self)@.contains(element@)) by {
                        if old(self)@.contains(element@) {
                            let j = choose|j: int|
                                0 <= j < old(self)@.len() && old(self)@[j] == element@;
                        }
                    }
                }
                false
            },
        }
    }

    /// Remove every element that occurs in `elements`; returns whether the
    /// set shrank.
    pub fn remove_all(&mut self, elements: &KotList) -> (r: bool)
        ensures
            final(self)@ == drop_in(old(self)@, elements@),
            r == (final(self)@.len() < old(self)@.len()),
            final(self).element_type == old(self).element_type,
            old(self).wf() ==> final(self).wf(),
    {
        proof {
            lemma_views_of(self.elements@);
        }
        let before_len = self.elements.len();
        let kept = drop_in_values(&self.elements, &elements.elements);
        self.elements = kept;
        proof {
            lemma_views_of(self.elements@);
            if old(self).wf() {
                lemma_filter_unique(old(self)@, |x: ValSpec| !elements@.contains(x));
                if old(self).element_type is Some {
                    assert forall|j: int| 0 <= j < final(self)@.len() implies kind_of(
                        #[trigger] final(self)@[j],
                    ) == old(self).element_type->0 by {
                        let w = choose|w: int|
                            0 <= w < old(self)@.len() && old(self)@[w] == final(self)@[j];
                    }
                }
            }
        }
        self.elements.len() < before_len
    }

    /// Keep only the elements that occur in `elements`; returns whether
    /// the set shrank.
    pub fn retain_all(&mut self, elements: &KotList) -> (r: bool)
        ensures
            final(self)@ == keep_in(old(self)@, elements@),
            r == (final(self)@.len() < old(self)@.len()),
            final(self).element_type == old(self).element_type,
            old(self).wf() ==> final(self).wf(),
    {
        proof {
            lemma_views_of(self.elements@);
        }
        let before_len = self.elements.len();
        let kept = keep_in_values(&self.elements, &elements.elements);
        self.elements = kept;
        proof {
            lemma_views_of(self.elements@);
            if old(self).wf() {
                lemma_filter_unique(old(self)@, |x: ValSpec| elements@.contains(x));
                if old(self).element_type is Some {
                    assert forall|j: int| 0 <= j < final(self)@.len() implies kind_of(
                        #[trigger] final(self)@[j],
                    ) == old(self).element_type->0 by {
                        let w = choose|w: int|
                            0 <= w < old(self)@.len() && old(self)@[w] == final(self)@[j];
                    }
                }
            }
        }
        self.elements.len() < before_len
    }

    /// Remove every element the predicate accepts, in one pass; returns
    /// whether the set shrank.
    pub fn remove_if<F: Fn(&Value) -> bool>(&mut self, filter_predicate: F) -> (r: bool)
        requires
            forall|i: int|
                0 <= i < old(self).elements@.len() ==> call_requires(
                    filter_predicate,
                    (&old(self).elements@[i],),
                ),
        ensures
            final(self).element_type == old(self).element_type,
            r == (final(self)@.len() < old(self)@.len()),
            exists|d: Seq<bool>|
                {
                    &&& d.len() == old(self).elements@.len()
                    &&& forall|i: int|
                        0 <= i < d.len() ==> call_ensures(
                            filter_predicate,
                            (&old(self).elements@[i],),
                            !#[trigger] d[i],
                        )
                    &&& final(self)@ == masked_views(old(self).elements@, d)
                },
    {
        proof {
            lemma_views_of(self.elements@);
        }
        let ghost original = self.elements@;
        let ghost mut d: Seq<bool> = Seq::empty();
        let mut kept: Vec<Value> = Vec::new();
        let mut i: usize = 0;
        while i < self.elements.len()
            invariant
                i <= self.elements@.len(),
                self.elements@ == original,
                self.element_type == old(self).element_type,
                d.len() == i,
                forall|j: int|
                    0 <= j < i ==> call_ensures(filter_predicate, (&original[j],), !#[trigger] d[j]),
                views_of(kept@) == masked_views(original.subrange(0, i as int), d),
            decreases self.elements@.len() - i,
        {
            let keep = !filter_predicate(&self.elements[i]);
            proof {
                assert(original.subrange(0, i + 1).drop_last() =~= original.subrange(0, i as int));
                assert(d.push(keep).drop_last() =~= d);
            }
            if keep {
                let copied = self.elements[i].deep_copy();
                proof {
                    crate::vec_ops::lemma_views_of_push(kept@, copied);
                }
                kept.push(copied);
            }
            proof {
                d = d.push(keep);
            }
            i = i + 1;
        }
        proof {
            assert(original.subrange(0, original.len() as int) =~= original);
        }
        let shrank = kept.len() < self.elements.len();
        self.elements = kept;
        proof {
            lemma_views_of(self.elements@);
        }
        shrank
    }

    /// Remove every element; the declared kind, once set, stays.
    pub fn clear(&mut self)
        ensures
            final(self)@ == Seq::<ValSpec>::empty(),
            final(self).element_type == old(self).element_type,
            final(self).wf(),
    {
        self.elements.clear();
        proof {
            lemma_views_of(self.elements@);
            assert(views_of(self.elements@) =~= Seq::<ValSpec>::empty());
        }
    }

    /// The elements of this set that occur in `other`, as a read-only set.
    pub fn intersect(&self, other: &KotSet) -> (r: KotSet)
        ensures
            r@ == keep_in(self@, other@),
            r.element_type == self.element_type,
            self.wf() ==> r.wf(),
    {
        self.snapshot().intersect(other)
    }

    /// The elements of this set that do not occur in `other`, as a
    /// read-only set.
    pub fn subtract(&self, other: &KotSet) -> (r: KotSet)
        ensures
            r@ == drop_in(self@, other@),
            r.element_type == self.element_type,
            self.wf() ==> r.wf(),
    {
        self.snapshot().subtract(other)
    }

    /// This set's elements and then `other`'s unseen ones, as a read-only
    /// set with a freshly inferred kind; fails with a type mismatch
    /// exactly when the combined elements are not all of one kind.
    pub fn union(&self, other: &KotSet) -> (r: Result<KotSet, KotError>)
        ensures
            match r {
                Ok(s) => s@ == dedup_first(self@ + other@) && homogeneous(dedup_first(
                    self@ + other@,
                )) && s.wf(),
                Err(e) => e == KotError::TypeMismatch && !homogeneous(
                    dedup_first(self@ + other@),
                ),
            },
    {
        self.snapshot().union(other)
    }

    /// This set's elements and then the list's unseen ones, as a read-only
    /// set with a freshly inferred kind.
    pub fn plus(&self, other: &KotList) -> (r: Result<KotSet, KotError>)
        ensures
            match r {
                Ok(s) => s@ == dedup_first(self@ + other@) && homogeneous(dedup_first(
                    self@ + other@,
                )) && s.wf(),
                Err(e) => e == KotError::TypeMismatch && !homogeneous(
                    dedup_first(self@ + other@),
                ),
            },
    {
        self.snapshot().plus(other)
    }

    /// This set's elements with `element` appended when unseen, as a
    /// read-only set with a freshly inferred kind.
    pub fn plus_element(&self, element: &Value) -> (r: Result<KotSet, KotError>)
        ensures
            match r {
                Ok(s) => s@ == dedup_first(self@.push(element@)) && homogeneous(dedup_first(
                    self@.push(element@),
                )) && s.wf(),
                Err(e) => e == KotError::TypeMismatch && !homogeneous(
                    dedup_first(self@.push(element@)),
                ),
            },
    {
        self.snapshot().plus_element(element)
    }

    /// The elements of this set that do not occur in the list, as a
    /// read-only set.
    pub fn minus(&self, other: &KotList) -> (r: KotSet)
        ensures
            r@ == drop_in(self@, other@),
            r.element_type == self.element_type,
            self.wf() ==> r.wf(),
    {
        self.snapshot().minus(other)
    }

    /// The elements of this set other than `element`, as a read-only set.
    pub fn minus_element(&self, element: &Value) -> (r: KotSet)
        ensures
            r@ == drop_in(self@, seq![element@]),
            r.element_type == self.element_type,
            self.wf() ==> r.wf(),
    {
        self.snapshot().minus_element(element)
    }

    /// A read-only set holding the same elements and declared kind.
    pub fn to_kot_set(&self) -> (r: KotSet)
        ensures
            r@ == self@,
            r.element_type == self.element_type,
            self.wf() ==> r.wf(),
    {
        self.snapshot()
    }

    /// A fresh mutable set holding the same elements and declared kind.
    pub fn to_kot_mutable_set(&self) -> (r: KotMutableSet)
        ensures
            r@ == self@,
            r.element_type == self.element_type,
            self.wf() ==> r.wf(),
    {
        KotMutableSet {
            elements: clone_values(&self.elements),
            element_type: self.element_type,
        }
    }

    /// The elements as a read-only list, carrying the declared kind.
    pub fn to_kot_list(&self) -> (r: KotList)
        ensures
            r@ == self@,
            r.element_type == self.element_type,
    {
        KotList { elements: clone_values(&self.elements), element_type: self.element_type }
    }

    /// The elements as a plain vector.
    pub fn to_list(&self) -> (r: Vec<Value>)
        ensures
            views_of(r@) == self@,
    {
        clone_values(&self.elements)
    }

    /// A read-only copy used by the set-algebra operations.
    fn snapshot(&self) -> (r: KotSet)
        ensures
            r@ == self@,
            r.element_type == self.element_type,
            self.wf() ==> r.wf(),
    {
        KotSet { elements: clone_values(&self.elements), element_type: self.element_type }
    }
}


/// A snapshot iterator over a mutable set's elements: it captures the elements at creation,
/// so later mutation of the source cannot affect it.
#[derive(Debug)]
pub struct KotMutableSetIterator {
    pub elements: Vec<Value>,
    pub index: usize,
}

impl View for KotMutableSetIterator {
    type V = Seq<ValSpec>;

    open spec fn view(&self) -> Seq<ValSpec> {
        views_of(self.elements@)
    }
}

impl KotMutableSetIterator {
    /// The next element, advancing the cursor; nothing once the snapshot
    /// is exhausted.
    pub fn next(&mut self) -> (r: Option<Value>)
        ensures
            final(self)@ == old(self)@,
            match r {
                Some(v) => old(self).index < old(self)@.len() && v@ == old(self)@[
                    old(self).index as int] && final(self).index == old(self).index + 1,
                None => old(self).index >= old(self)@.len() && final(self).index == old(self).index,
            },
    {
        proof {
            lemma_views_of(self.elements@);
        }
        if self.index < self.elements.len() {
            let v = self.elements[self.index].deep_copy();
            self.index = self.index + 1;
            Some(v)
        } else {
            None
        }
    }
}

impl KotMutableSet {
    /// A snapshot iterator over the elements in insertion order; later
    /// mutation of the set does not affect it.
    pub fn iterator(&self) -> (r: KotMutableSetIterator)
        ensures
            r@ == self@,
            r.index == 0,
    {
        KotMutableSetIterator { elements: clone_values(&self.elements), index: 0 }
    }
}


impl KotMutableSet {
    /// Each element transformed, in insertion order, as a list declaring
    /// no kind.
    pub fn map<F: Fn(&Value) -> Value>(&self, transform: F) -> (r: KotList)
        requires
            forall|i: int|
                0 <= i < self.elements@.len() ==> call_requires(
                    transform,
                    (&self.elements@[i],),
                ),
        ensures
            r.element_type is None,
            r.elements@.len() == self@.len(),
            forall|i: int|
                0 <= i < self@.len() ==> call_ensures(
                    transform,
                    (&self.elements@[i],),
                    #[trigger] r.elements@[i],
                ),
            r@.len() == self@.len(),
    {
        let out = crate::vec_ops::map_values_with(&self.elements, transform);
        proof {
            lemma_views_of(out@);
            lemma_views_of(self.elements@);
        }
        KotList { elements: out, element_type: None }
    }

    /// The elements one run of the predicate accepts, in insertion order,
    /// keeping the declared kind.
    pub fn filter<F: Fn(&Value) -> bool>(&self, predicate: F) -> (r: KotSet)
        requires
            forall|i: int|
                0 <= i < self.elements@.len() ==> call_requires(
                    predicate,
                    (&self.elements@[i],),
                ),
        ensures
            r.element_type == self.element_type,
            self.wf() ==> r.wf(),
            exists|d: Seq<bool>|
                {
                    &&& d.len() == self.elements@.len()
                    &&& forall|i: int|
                        0 <= i < d.len() ==> call_ensures(
                            predicate,
                            (&self.elements@[i],),
                            #[trigger] d[i],
                        )
                    &&& r@ == #[trigger] masked_views(self.elements@, d)
                },
    {
        let out = crate::vec_ops::filter_values_with(&self.elements, predicate);
        let r = KotSet { elements: out, element_type: self.element_type };
        proof {
            let d = choose|d: Seq<bool>|
                {
                    &&& d.len() == self.elements@.len()
                    &&& forall|i: int|
                        0 <= i < d.len() ==> call_ensures(
                            predicate,
                            (&self.elements@[i],),
                            #[trigger] d[i],
                        )
                    &&& views_of(out@) == #[trigger] masked_views(self.elements@, d)
                };
            if self.wf() {
                crate::vec_ops::lemma_masked_unique(self.elements@, d);
                crate::vec_ops::lemma_masked_views(self.elements@, d);
                lemma_views_of(self.elements@);
                if self.element_type is Some {
                    assert forall|j: int| 0 <= j < r@.len() implies kind_of(#[trigger] r@[j])
                        == self.element_type->0 by {
                        let w = choose|w: int|
                            0 <= w < self.elements@.len() && #[trigger] masked_views(
                                self.elements@,
                                d,
                            )[j] == self.elements@[w]@ && d[w];
                        assert(self@[w] == self.elements@[w]@);
                    }
                }
            }
        }
        r
    }

    /// Whether every element passes the predicate.
    pub fn all<F: Fn(&Value) -> bool>(&self, predicate: F) -> (r: bool)
        requires
            forall|i: int|
                0 <= i < self.elements@.len() ==> call_requires(
                    predicate,
                    (&self.elements@[i],),
                ),
        ensures
            r ==> forall|i: int|
                0 <= i < self.elements@.len() ==> call_ensures(
                    predicate,
                    (&#[trigger] self.elements@[i],),
                    true,
                ),
            !r ==> exists|i: int|
                0 <= i < self.elements@.len() && call_ensures(
                    predicate,
                    (&#[trigger] self.elements@[i],),
                    false,
                ),
    {
        crate::vec_ops::all_values_with(&self.elements, predicate)
    }

    /// Whether some element passes the predicate.
    pub fn any<F: Fn(&Value) -> bool>(&self, predicate: F) -> (r: bool)
        requires
            forall|i: int|
                0 <= i < self.elements@.len() ==> call_requires(
                    predicate,
                    (&self.elements@[i],),
                ),
        ensures
            r ==> exists|i: int|
                0 <= i < self.elements@.len() && call_ensures(
                    predicate,
                    (&#[trigger] self.elements@[i],),
                    true,
                ),
            !r ==> forall|i: int|
                0 <= i < self.elements@.len() ==> call_ensures(
                    predicate,
                    (&#[trigger] self.elements@[i],),
                    false,
                ),
    {
        crate::vec_ops::any_values_with(&self.elements, predicate)
    }

    /// How many elements pass one run of the predicate.
    pub fn count<F: Fn(&Value) -> bool>(&self, predicate: F) -> (r: usize)
        requires
            forall|i: int|
                0 <= i < self.elements@.len() ==> call_requires(
                    predicate,
                    (&self.elements@[i],),
                ),
        ensures
            r <= self@.len(),
            exists|d: Seq<bool>|
                {
                    &&& d.len() == self.elements@.len()
                    &&& forall|i: int|
                        0 <= i < d.len() ==> call_ensures(
                            predicate,
                            (&self.elements@[i],),
                            #[trigger] d[i],
                        )
                    &&& r == crate::vec_ops::num_true(d)
                },
    {
        proof {
            lemma_views_of(self.elements@);
        }
        crate::vec_ops::count_values_with(&self.elements, predicate)
    }

    /// The accumulator after folding every element onto `initial`, in
    /// insertion order.
    pub fn fold<F: Fn(&Value, &Value) -> Value>(&self, initial: Value, operation: F) -> (r: Value)
        requires
            forall|a: Value, b: Value| call_requires(operation, (&a, &b)),
        ensures
            exists|accs: Seq<Value>|
                {
                    &&& accs.len() == self.elements@.len()
                    &&& forall|i: int|
                        0 < i < accs.len() ==> call_ensures(
                            operation,
                            (&accs[i - 1], &self.elements@[i]),
                            #[trigger] accs[i],
                        )
                    &&& accs.len() > 0 ==> call_ensures(
                        operation,
                        (&initial, &self.elements@[0]),
                        accs[0],
                    )
                    &&& r == if accs.len() == 0 {
                        initial
                    } else {
                        accs.last()
                    }
                },
    {
        crate::vec_ops::fold_values_with(&self.elements, initial, operation)
    }

    /// The accumulator after folding all later elements onto the first;
    /// fails exactly on the empty set.
    pub fn reduce<F: Fn(&Value, &Value) -> Value>(&self, operation: F) -> (r: Result<
        Value,
        crate::errors::KotError,
    >)
        requires
            forall|a: Value, b: Value| call_requires(operation, (&a, &b)),
        ensures
            match r {
                Ok(v) => self@.len() > 0 && exists|accs: Seq<Value>|
                    {
                        &&& accs.len() == self.elements@.len()
                        &&& accs[0]@ == self@[0]
                        &&& forall|i: int|
                            0 < i < accs.len() ==> call_ensures(
                                operation,
                                (&accs[i - 1], &self.elements@[i]),
                                #[trigger] accs[i],
                            )
                        &&& v == accs.last()
                    },
                Err(e) => e == crate::errors::KotError::EmptyContainer && self@.len() == 0,
            },
    {
        proof {
            lemma_views_of(self.elements@);
        }
        if self.elements.len() == 0 {
            return Err(crate::errors::KotError::EmptyContainer);
        }
        let mut acc = self.elements[0].deep_copy();
        let ghost mut accs: Seq<Value> = seq![acc];
        let mut i: usize = 1;
        while i < self.elements.len()
            invariant
                1 <= i <= self.elements@.len(),
                accs.len() == i,
                accs[0]@ == self@[0],
                forall|j: int|
                    0 < j < i ==> call_ensures(
                        operation,
                        (&accs[j - 1], &self.elements@[j]),
                        #[trigger] accs[j],
                    ),
                acc == accs.last(),
                forall|a: Value, b: Value| call_requires(operation, (&a, &b)),
            decreases self.elements@.len() - i,
        {
            acc = operation(&acc, &self.elements[i]);
            proof {
                accs = accs.push(acc);
            }
            i = i + 1;
        }
        Ok(acc)
    }
}

} // verus!
