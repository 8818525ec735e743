//! An ordered, duplicate-permitting list with in-place mutation and the
//! Kotlin `MutableList` method surface.
//!
//! Every insertion point re-validates the declared element kind before
//! it takes effect, and every mutating method either fully applies its effect or
//! fails leaving the list unchanged.

use vstd::prelude::*;

use crate::errors::KotError;
use crate::kot_list::{homogeneous, KotList};
use crate::model::{
    all_of_kind, dedup_first, drop_in, first_index_of, keep_in, last_index_of,
    lemma_first_index_of, lemma_last_index_of, remove_first, sortable, sorted_vals,
};
use crate::value::{kind_of, lemma_views_of, views_of, Kind, ValSpec, Value};
use crate::vec_ops::{
    all_values_of_kind, check_sortable, clone_values, contains_value, dedup_values, drop_in_values,
    find_first, find_last, keep_in_values, masked_views, sorted_values, values_equal,
};

verus! {

/// An ordered, duplicate-permitting container of [`Value`]s that may be
/// mutated in place. It carries the same declared-kind invariant as
/// [`KotList`]: once a kind is declared or inferred, every insertion must
/// match it, and the tag is never cleared.
#[derive(Debug)]
pub struct KotMutableList {
    pub elements: Vec<Value>,
    pub element_type: Option<Kind>,
}

impl View for KotMutableList {
    type V = Seq<ValSpec>;

    open spec fn view(&self) -> Seq<ValSpec> {
        views_of(self.elements@)
    }
}

impl KotMutableList {
    /// The declared-kind invariant: when a kind is declared, every element
    /// is of that kind.
    pub open spec fn wf(self) -> bool {
        self.element_type matches Some(k) ==> all_of_kind(self@, k)
    }

    /// The kind the list would enforce after accepting a value of kind
    /// `k`: the declared kind, or `k` itself when none is declared yet.
    pub open spec fn kind_after(self, k: Kind) -> Option<Kind> {
        match self.element_type {
            Some(declared) => Some(declared),
            None => Some(k),
        }
    }

    /// Whether a value of kind `k` may be inserted: it matches the
    /// declared kind, or no kind is declared yet.
    pub open spec fn admits(self, k: Kind) -> bool {
        match self.element_type {
            Some(declared) => declared == k,
            None => true,
        }
    }

    /// Wrap the given elements and declared kind as they stand, without
    /// checking the elements against the kind.
    pub fn new_with_type(elements: Vec<Value>, element_type: Option<Kind>) -> (r: KotMutableList)
        ensures
            r@ == views_of(elements@),
            r.element_type == element_type,
    {
        KotMutableList { elements, element_type }
    }

    /// A mutable list of the given elements, its kind inferred from the
    /// first; fails with a type mismatch exactly when the elements are not
    /// all of one kind.
    pub fn new(elements: Vec<Value>) -> (r: Result<KotMutableList, KotError>)
        ensures
            match r {
                Ok(l) => homogeneous(views_of(elements@)) && l@ == views_of(elements@) && l.wf()
                    && l.element_type == if elements@.len() == 0 {
                    Option::<Kind>::None
                } else {
                    Option::Some(kind_of(views_of(elements@)[0]))
                },
                Err(e) => e == KotError::TypeMismatch && !homogeneous(views_of(elements@)),
            },
    {
        proof {
            lemma_views_of(elements@);
        }
        if elements.len() == 0 {
            return Ok(KotMutableList { elements, element_type: None });
        }
        let k = elements[0].kind();
        if all_values_of_kind(&elements, k) {
            Ok(KotMutableList { elements, element_type: Some(k) })
        } else {
            assert(!homogeneous(views_of(elements@)));
            Err(KotError::TypeMismatch)
        }
    }

    /// A mutable list with the kind declared up front; fails with a type
    /// mismatch exactly when some element is not of the declared kind.
    pub fn of_type(element_type: Kind, elements: Vec<Value>) -> (r: Result<
        KotMutableList,
        KotError,
    >)
        ensures
            match r {
                Ok(l) => all_of_kind(views_of(elements@), element_type) && l@ == views_of(
                    elements@,
                ) && l.wf() && l.element_type == Option::Some(element_type),
                Err(e) => e == KotError::TypeMismatch && !all_of_kind(
                    views_of(elements@),
                    element_type,
                ),
            },
    {
        if all_values_of_kind(&elements, element_type) {
            Ok(KotMutableList { elements, element_type: Some(element_type) })
        } else {
            Err(KotError::TypeMismatch)
        }
    }

    /// An empty mutable list with no declared kind.
    pub fn empty() -> (r: KotMutableList)
        ensures
            r@ == Seq::<ValSpec>::empty(),
            r.element_type is None,
            r.wf(),
    {
        proof {
            lemma_views_of(Seq::<Value>::empty());
            assert(views_of(Seq::<Value>::empty()) =~= Seq::<ValSpec>::empty());
        }
        KotMutableList { elements: Vec::new(), element_type: None }
    }

    /// The number of elements.
    pub fn size(&self) -> (r: usize)
        ensures
            r == self@.len(),
    {
        proof {
            lemma_views_of(self.elements@);
        }
        self.elements.len()
    }

    /// Whether the list holds no element.
    pub fn is_empty(&self) -> (r: bool)
        ensures
            r == (self@.len() == 0),
    {
        proof {
            lemma_views_of(self.elements@);
        }
        self.elements.len() == 0
    }

    /// Whether the list holds some element.
    pub fn is_not_empty(&self) -> (r: bool)
        ensures
            r == (self@.len() > 0),
    {
        !self.is_empty()
    }

    /// The element at `index`; out of bounds exactly when `index` is not
    /// below the length.
    pub fn get(&self, index: usize) -> (r: Result<Value, KotError>)
        ensures
            match r {
                Ok(v) => index < self@.len() && v@ == self@[index as int],
                Err(e) => e == KotError::OutOfBounds && index >= self@.len(),
            },
    {
        proof {
            lemma_views_of(self.elements@);
        }
        if index < self.elements.len() {
            Ok(self.elements[index].deep_copy())
        } else {
            Err(KotError::OutOfBounds)
        }
    }

    /// The element at `index`, or nothing when out of bounds.
    pub fn get_or_null(&self, index: usize) -> (r: Option<Value>)
        ensures
            match r {
                Some(v) => index < self@.len() && v@ == self@[index as int],
                None => index >= self@.len(),
            },
    {
        proof {
            lemma_views_of(self.elements@);
        }
        if index < self.elements.len() {
            Some(self.elements[index].deep_copy())
        } else {
            None
        }
    }

    /// The element at a possibly negative `index`, counting from the end
    /// when negative.
    pub fn get_item(&self, index: i128) -> (r: Result<Value, KotError>)
        ensures
            match r {
                Ok(v) => {
                    let resolved = if index < 0 {
                        self@.len() + index
                    } else {
                        index as int
                    };
                    0 <= resolved < self@.len() && v@ == self@[resolved]
                },
                Err(e) => {
                    let resolved = if index < 0 {
                        self@.len() + index
                    } else {
                        index as int
                    };
                    e == KotError::OutOfBounds && !(0 <= resolved < self@.len())
                },
            },
    {
        proof {
            lemma_views_of(self.elements@);
        }
        let n = self.elements.len();
        let resolved: i128 = if index < 0 {
            n as i128 + index
        } else {
            index
        };
        if 0 <= resolved && resolved < n as i128 {
            Ok(self.elements[resolved as usize].deep_copy())
        } else {
            Err(KotError::OutOfBounds)
        }
    }

    /// The first element; fails exactly on the empty list.
    pub fn first(&self) -> (r: Result<Value, KotError>)
        ensures
            match r {
                Ok(v) => self@.len() > 0 && v@ == self@[0],
                Err(e) => e == KotError::EmptyContainer && self@.len() == 0,
            },
    {
        proof {
            lemma_views_of(self.elements@);
        }
        if self.elements.len() > 0 {
            Ok(self.elements[0].deep_copy())
        } else {
            Err(KotError::EmptyContainer)
        }
    }

    /// The first element, or nothing for the empty list.
    pub fn first_or_null(&self) -> (r: Option<Value>)
        ensures
            match r {
                Some(v) => self@.len() > 0 && v@ == self@[0],
                None => self@.len() == 0,
            },
    {
        proof {
            lemma_views_of(self.elements@);
        }
        if self.elements.len() > 0 {
            Some(self.elements[0].deep_copy())
        } else {
            None
        }
    }

    /// The last element; fails exactly on the empty list.
    pub fn last(&self) -> (r: Result<Value, KotError>)
        ensures
            match r {
                Ok(v) => self@.len() > 0 && v@ == self@[self@.len() - 1],
                Err(e) => e == KotError::EmptyContainer && self@.len() == 0,
            },
    {
        proof {
            lemma_views_of(self.elements@);
        }
        if self.elements.len() > 0 {
            Ok(self.elements[self.elements.len() - 1].deep_copy())
        } else {
            Err(KotError::EmptyContainer)
        }
    }

    /// The last element, or nothing for the empty list.
    pub fn last_or_null(&self) -> (r: Option<Value>)
        ensures
            match r {
                Some(v) => self@.len() > 0 && v@ == self@[self@.len() - 1],
                None => self@.len() == 0,
            },
    {
        proof {
            lemma_views_of(self.elements@);
        }
        if self.elements.len() > 0 {
            Some(self.elements[self.elements.len() - 1].deep_copy())
        } else {
            None
        }
    }

    /// Whether some element equals `element`.
    pub fn contains(&self, element: &Value) -> (r: bool)
        ensures
            r == self@.contains(element@),
    {
        contains_value(&self.elements, element)
    }

    /// The index of the first element equal to `element`, or `-1`.
    pub fn index_of(&self, element: &Value) -> (r: i128)
        ensures
            r == first_index_of(self@, element@),
    {
        proof {
            lemma_first_index_of(self@, element@);
        }
        match find_first(&self.elements, element) {
            Some(i) => i as i128,
            None => -1,
        }
    }

    /// The index of the last element equal to `element`, or `-1`.
    pub fn last_index_of(&self, element: &Value) -> (r: i128)
        ensures
            r == last_index_of(self@, element@),
    {
        proof {
            lemma_last_index_of(self@, element@);
        }
        match find_last(&self.elements, element) {
            Some(i) => i as i128,
            None => -1,
        }
    }

    /// Whether this list holds the same elements in the same order as
    /// `other`.
    pub fn equals(&self, other: &KotMutableList) -> (r: bool)
        ensures
            r == (self@ == other@),
    {
        values_equal(&self.elements, &other.elements)
    }

    /// Append `element`, inferring the declared kind from it when none is
    /// declared. Fails with a type mismatch, leaving the list unchanged,
    /// exactly when a declared kind exists and the element is not of it.
    pub fn add(&mut self, element: Value) -> (r: Result<bool, KotError>)
        ensures
            match r {
                Ok(b) => b && old(self).admits(kind_of(element@)) && final(self)@ == old(self)@.push(element@) && final(self).element_type == old(self).kind_after(
                    kind_of(element@),
                ) && ((old(self).wf() && (old(self).element_type is Some || old(self)@.len()
                    == 0)) ==> final(self).wf()),
                Err(e) => e == KotError::TypeMismatch && !old(self).admits(kind_of(element@))
                    && final(self)@ == old(self)@ && final(self).element_type == old(self).element_type,
            },
    {
        proof {
            lemma_views_of(self.elements@);
        }
        let k = element.kind();
        match self.element_type {
            Some(declared) => {
                if declared != k {
                    return Err(KotError::TypeMismatch);
                }
            },
            None => {
                self.element_type = Some(k);
            },
        }
        proof {
            crate::vec_ops::lemma_views_of_push(self.elements@, element);
        }
        self.elements.push(element);
        proof {
            if old(self).wf() && (old(self).element_type is Some || old(self)@.len() == 0) {
                assert forall|i: int| 0 <= i < final(self)@.len() implies kind_of(
                    #[trigger] final(self)@[i],
                ) == k by {
                    if i < old(self)@.len() {
                        assert(final(self)@[i] == old(self)@[i]);
                    } else {
                        assert(final(self)@[i] == element@);
                    }
                }
            }
        }
        Ok(true)
    }

    /// Insert `element` at `index`, shifting later elements up. Checks
    /// bounds first (`index` may equal the length), then the declared
    /// kind; on either failure the list is unchanged.
    pub fn add_at(&mut self, index: usize, element: Value) -> (r: Result<(), KotError>)
        ensures
            match r {
                Ok(_) => index <= old(self)@.len() && old(self).admits(kind_of(element@)) && final(self)@ == old(self)@.insert(index as int, element@) && final(self).element_type == old(self).kind_after(kind_of(element@)) && ((old(self).wf() && (old(self).element_type is Some
                    || old(self)@.len() == 0)) ==> final(self).wf()),
                Err(e) => final(self)@ == old(self)@ && final(self).element_type == old(self).element_type && ((e == KotError::OutOfBounds && index > old(self)@.len()) || (e
                    == KotError::TypeMismatch && index <= old(self)@.len() && !old(self).admits(
                    kind_of(element@),
                ))),
            },
    {
        proof {
            lemma_views_of(self.elements@);
        }
        if index > self.elements.len() {
            return Err(KotError::OutOfBounds);
        }
        let k = element.kind();
        match self.element_type {
            Some(declared) => {
                if declared != k {
                    return Err(KotError::TypeMismatch);
                }
            },
            None => {
                self.element_type = Some(k);
            },
        }
        let ghost before = self.elements@;
        self.elements.insert(index, element);
        proof {
            lemma_views_of(self.elements@);
            assert(views_of(self.elements@) =~= views_of(before).insert(
                index as int,
                element@,
            ));
            if old(self).wf() && (old(self).element_type is Some || old(self)@.len() == 0) {
                assert forall|i: int| 0 <= i < final(self)@.len() implies kind_of(
                    #[trigger] final(self)@[i],
                ) == k by {
                    if i < index {
                        assert(final(self)@[i] == old(self)@[i]);
                    } else if i > index {
                        assert(final(self)@[i] == old(self)@[i - 1]);
                    } else {
                        assert(final(self)@[i] == element@);
                    }
                }
            }
        }
        Ok(())
    }

    /// Append every element of `elements`, re-validating the declared kind
    /// for the whole batch before it takes effect: on a type mismatch nothing
    /// is appended. Returns whether anything was added.
    pub fn add_all(&mut self, elements: &KotList) -> (r: Result<bool, KotError>)
        ensures
            match r {
                Ok(b) => {
                    &&& b == (elements@.len() > 0)
                    &&& final(self)@ == old(self)@ + elements@
                    &&& ((old(self).wf() && (old(self).element_type is Some || old(self)@.len()
                        == 0)) ==> final(self).wf())
                    &&& match old(self).element_type {
                        Some(k) => all_of_kind(elements@, k) && final(self).element_type == Some(
                            k,
                        ),
                        None => homogeneous(elements@) && final(self).element_type == if elements@
                            .len() == 0 {
                            Option::<Kind>::None
                        } else {
                            Option::Some(kind_of(elements@[0]))
                        },
                    }
                },
                Err(e) => {
                    &&& e == KotError::TypeMismatch
                    &&& final(self)@ == old(self)@
                    &&& final(self).element_type == old(self).element_type
                    &&& match old(self).element_type {
                        Some(k) => !all_of_kind(elements@, k),
                        None => !homogeneous(elements@),
                    }
                },
            },
    {
        proof {
            lemma_views_of(self.elements@);
            lemma_views_of(elements.elements@);
        }
        if elements.elements.len() == 0 {
            proof {
                assert(final(self)@ =~= old(self)@ + elements@);
            }
            return Ok(false);
        }
        let batch_kind = match self.element_type {
            Some(declared) => declared,
            None => elements.elements[0].kind(),
        };
        if !all_values_of_kind(&elements.elements, batch_kind) {
            proof {
                if old(self).element_type is None {
                    assert(!homogeneous(elements@)) by {
                        let i = choose|i: int|
                            0 <= i < elements@.len() && kind_of(#[trigger] elements@[i])
                                != batch_kind;
                    }
                }
            }
            return Err(KotError::TypeMismatch);
        }
        let ghost before = self.elements@;
        let mut incoming = clone_values(&elements.elements);
        let ghost inc = incoming@;
        proof {
            lemma_views_of(inc);
        }
        self.elements.append(&mut incoming);
        self.element_type = Some(batch_kind);
        proof {
            lemma_views_of(self.elements@);
            assert(self.elements@ == before + inc);
            assert forall|i: int| 0 <= i < views_of(self.elements@).len() implies views_of(
                self.elements@,
            )[i] == (views_of(before) + elements@)[i] by {
                if i < before.len() {
                    assert(self.elements@[i] == before[i]);
                } else {
                    assert(self.elements@[i] == inc[i - before.len()]);
                    assert(views_of(inc)[i - before.len()] == elements@[i - before.len()]);
                }
            }
            assert(views_of(self.elements@) =~= views_of(before) + elements@);
            if old(self).wf() && (old(self).element_type is Some || old(self)@.len() == 0) {
                assert forall|i: int| 0 <= i < final(self)@.len() implies kind_of(
                    #[trigger] final(self)@[i],
                ) == batch_kind by {
                    if i < before.len() {
                        assert(final(self)@[i] == old(self)@[i]);
                    } else {
                        assert(final(self)@[i] == elements@[i - before.len()]);
                    }
                }
            }
        }
        Ok(true)
    }

    /// Replace the element at `index`, returning the old one. Checks
    /// bounds first, then the declared kind; on either failure the list is
    /// unchanged.
    pub fn set(&mut self, index: usize, element: Value) -> (r: Result<Value, KotError>)
        ensures
            match r {
                Ok(v) => index < old(self)@.len() && old(self).admits(kind_of(element@)) && v@
                    == old(self)@[index as int] && final(self)@ == old(self)@.update(
                    index as int,
                    element@,
                ) && final(self).element_type == old(self).kind_after(kind_of(element@)) && ((old(self).wf() && (old(self).element_type is Some || old(self)@.len() == 0)) ==> final(self).wf()),
                Err(e) => final(self)@ == old(self)@ && final(self).element_type == old(self).element_type && ((e == KotError::OutOfBounds && index >= old(self)@.len()) || (e
                    == KotError::TypeMismatch && index < old(self)@.len() && !old(self).admits(
                    kind_of(element@),
                ))),
            },
    {
        proof {
            lemma_views_of(self.elements@);
        }
        if index >= self.elements.len() {
            return Err(KotError::OutOfBounds);
        }
        let k = element.kind();
        match self.element_type {
            Some(declared) => {
                if declared != k {
                    return Err(KotError::TypeMismatch);
                }
            },
            None => {
                self.element_type = Some(k);
            },
        }
        let old_value = self.elements[index].deep_copy();
        let ghost before = self.elements@;
        self.elements.set(index, element);
        proof {
            lemma_views_of(self.elements@);
            assert(views_of(self.elements@) =~= views_of(before).update(index as int, element@));
            if old(self).wf() && (old(self).element_type is Some || old(self)@.len() == 0) {
                assert forall|i: int| 0 <= i < final(self)@.len() implies kind_of(
                    #[trigger] final(self)@[i],
                ) == k by {
                    if i != index {
                        assert(final(self)@[i] == old(self)@[i]);
                    } else {
                        assert(final(self)@[i] == element@);
                    }
                }
            }
        }
        Ok(old_value)
    }

    /// Remove and return the element at `index`; out of bounds exactly
    /// when `index` is not below the length.
    pub fn remove_at(&mut self, index: usize) -> (r: Result<Value, KotError>)
        ensures
            match r {
                Ok(v) => index < old(self)@.len() && v@ == old(self)@[index as int] && final(self)@ == old(self)@.remove(index as int),
                Err(e) => e == KotError::OutOfBounds && index >= old(self)@.len() && final(self)@
                    == old(self)@,
            },
            final(self).element_type == old(self).element_type,
            old(self).wf() ==> final(self).wf(),
    {
        proof {
            lemma_views_of(self.elements@);
        }
        if index >= self.elements.len() {
            return Err(KotError::OutOfBounds);
        }
        let ghost before = self.elements@;
        let removed = self.elements.remove(index);
        proof {
            crate::vec_ops::lemma_views_of_remove(before, index as int);
            if old(self).wf() && old(self).element_type is Some {
                assert forall|i: int| 0 <= i < final(self)@.len() implies kind_of(
                    #[trigger] final(self)@[i],
                ) == old(self).element_type->0 by {
                    if i < index {
                        assert(final(self)@[i] == old(self)@[i]);
                    } else {
                        assert(final(self)@[i] == old(self)@[i + 1]);
                    }
                }
            }
        }
        Ok(removed)
    }

    /// Remove the first element equal to `element`; returns whether one
    /// was found.
    pub fn remove(&mut self, element: &Value) -> (r: bool)
        ensures
            r == old(self)@.contains(element@),
            final(self)@ == remove_first(old(self)@, element@),
            final(self).element_type == old(self).element_type,
            old(self).wf() ==> final(self).wf(),
    {
        proof {
            lemma_views_of(self.elements@);
            lemma_first_index_of(self@, element@);
        }
        let ghost before = self.elements@;
        match find_first(&self.elements, element) {
            Some(i) => {
                proof {
                    crate::vec_ops::lemma_views_of_remove(before, i as int);
                }
                self.elements.remove(i);
                proof {
                    assert(old(self)@[first_index_of(old(self)@, element@)] == element@);
                    if old(self).wf() && old(self).element_type is Some {
                        assert forall|j: int| 0 <= j < final(self)@.len() implies kind_of(
                            #[trigger] final(self)@[j],
                        ) == old(self).element_type->0 by {
                            if j < i {
                                assert(final(self)@[j] == old(self)@[j]);
                            } else {
                                assert(final(self)@[j] == old(self)@[j + 1]);
                            }
                        }
                    }
                }
                true
            },
            None => {
                proof {
                    assert(!old(self)@.contains(element@)) by {
                        if old(self)@.contains(element@) {
                            let j = choose|j: int|
                                0 <= j < old(self)@.len() && old(self)@[j] == element@;
                        }
                    }
                }
                false
            },
        }
    }

    /// Remove every element that occurs in `elements`; returns whether the
    /// list shrank.
    pub fn remove_all(&mut self, elements: &KotList) -> (r: bool)
        ensures
            final(self)@ == drop_in(old(self)@, elements@),
            r == (final(self)@.len() < old(self)@.len()),
            final(self).element_type == old(self).element_type,
            old(self).wf() ==> final(self).wf(),
    {
        proof {
            lemma_views_of(self.elements@);
        }
        let before_len = self.elements.len();
        let kept = drop_in_values(&self.elements, &elements.elements);
        self.elements = kept;
        proof {
            lemma_views_of(self.elements@);
            if old(self).wf() && old(self).element_type is Some {
                assert forall|j: int| 0 <= j < final(self)@.len() implies kind_of(
                    #[trigger] final(self)@[j],
                ) == old(self).element_type->0 by {
                    let w = choose|w: int|
                        0 <= w < old(self)@.len() && old(self)@[w] == final(self)@[j];
                }
            }
        }
        self.elements.len() < before_len
    }

    /// Keep only the elements that occur in `elements`; returns whether
    /// the list shrank.
    pub fn retain_all(&mut self, elements: &KotList) -> (r: bool)
        ensures
            final(self)@ == keep_in(old(self)@, elements@),
            r == (final(self)@.len() < old(self)@.len()),
            final(self).element_type == old(self).element_type,
            old(self).wf() ==> final(self).wf(),
    {
        proof {
            lemma_views_of(self.elements@);
        }
        let before_len = self.elements.len();
        let kept = keep_in_values(&self.elements, &elements.elements);
        self.elements = kept;
        proof {
            lemma_views_of(self.elements@);
            if old(self).wf() && old(self).element_type is Some {
                assert forall|j: int| 0 <= j < final(self)@.len() implies kind_of(
                    #[trigger] final(self)@[j],
                ) == old(self).element_type->0 by {
                    let w = choose|w: int|
                        0 <= w < old(self)@.len() && old(self)@[w] == final(self)@[j];
                }
            }
        }
        self.elements.len() < before_len
    }

    /// Remove and return the first element; fails exactly on the empty
    /// list.
    pub fn remove_first(&mut self) -> (r: Result<Value, KotError>)
        ensures
            match r {
                Ok(v) => old(self)@.len() > 0 && v@ == old(self)@[0] && final(self)@ == old(self)@.drop_first(),
                Err(e) => e == KotError::EmptyContainer && old(self)@.len() == 0 && final(self)@
                    == old(self)@,
            },
            final(self).element_type == old(self).element_type,
            old(self).wf() ==> final(self).wf(),
    {
        proof {
            lemma_views_of(self.elements@);
        }
        if self.elements.len() == 0 {
            return Err(KotError::EmptyContainer);
        }
        let ghost before = self.elements@;
        let removed = self.elements.remove(0);
        proof {
            crate::vec_ops::lemma_views_of_remove(before, 0);
            assert(views_of(before).remove(0) =~= views_of(before).drop_first());
            if old(self).wf() && old(self).element_type is Some {
                assert forall|j: int| 0 <= j < final(self)@.len() implies kind_of(
                    #[trigger] final(self)@[j],
                ) == old(self).element_type->0 by {
                    assert(final(self)@[j] == old(self)@[j + 1]);
                }
            }
        }
        Ok(removed)
    }

    /// Remove and return the last element; fails exactly on the empty
    /// list.
    pub fn remove_last(&mut self) -> (r: Result<Value, KotError>)
        ensures
            match r {
                Ok(v) => old(self)@.len() > 0 && v@ == old(self)@.last() && final(self)@ == old(self)@.drop_last(),
                Err(e) => e == KotError::EmptyContainer && old(self)@.len() == 0 && final(self)@
                    == old(self)@,
            },
            final(self).element_type == old(self).element_type,
            old(self).wf() ==> final(self).wf(),
    {
        proof {
            lemma_views_of(self.elements@);
        }
        if self.elements.len() == 0 {
            return Err(KotError::EmptyContainer);
        }
        let ghost before = self.elements@;
        let removed = match self.elements.pop() {
            Some(v) => v,
            None => {
                assert(false);
                Value::Null
            },
        };
        proof {
            lemma_views_of(self.elements@);
            assert(views_of(self.elements@) =~= views_of(before).drop_last());
            if old(self).wf() && old(self).element_type is Some {
                assert forall|j: int| 0 <= j < final(self)@.len() implies kind_of(
                    #[trigger] final(self)@[j],
                ) == old(self).element_type->0 by {
                    assert(final(self)@[j] == old(self)@[j]);
                }
            }
        }
        Ok(removed)
    }

    /// Remove and return the first element, or nothing when empty.
    pub fn remove_first_or_null(&mut self) -> (r: Option<Value>)
        ensures
            match r {
                Some(v) => old(self)@.len() > 0 && v@ == old(self)@[0] && final(self)@ == old(self)@.drop_first(),
                None => old(self)@.len() == 0 && final(self)@ == old(self)@,
            },
            final(self).element_type == old(self).element_type,
            old(self).wf() ==> final(self).wf(),
    {
        match self.remove_first() {
            Ok(v) => Some(v),
            Err(_) => None,
        }
    }

    /// Remove and return the last element, or nothing when empty.
    pub fn remove_last_or_null(&mut self) -> (r: Option<Value>)
        ensures
            match r {
                Some(v) => old(self)@.len() > 0 && v@ == old(self)@.last() && final(self)@ == old(self)@.drop_last(),
                None => old(self)@.len() == 0 && final(self)@ == old(self)@,
            },
            final(self).element_type == old(self).element_type,
            old(self).wf() ==> final(self).wf(),
    {
        match self.remove_last() {
            Ok(v) => Some(v),
            Err(_) => None,
        }
    }

    /// Remove every element; the declared kind, once set, stays.
    pub fn clear(&mut self)
        ensures
            final(self)@ == Seq::<ValSpec>::empty(),
            final(self).element_type == old(self).element_type,
            final(self).wf(),
    {
        self.elements.clear();
        proof {
            lemma_views_of(self.elements@);
            assert(views_of(self.elements@) =~= Seq::<ValSpec>::empty());
        }
    }

    /// Reverse the elements in place.
    pub fn reverse(&mut self)
        ensures
            final(self)@ == old(self)@.reverse(),
            final(self).element_type == old(self).element_type,
            old(self).wf() ==> final(self).wf(),
    {
        proof {
            lemma_views_of(self.elements@);
        }
        let reversed = crate::vec_ops::reverse_values(&self.elements);
        self.elements = reversed;
        proof {
            if old(self).wf() && old(self).element_type is Some {
                assert forall|j: int| 0 <= j < final(self)@.len() implies kind_of(
                    #[trigger] final(self)@[j],
                ) == old(self).element_type->0 by {
                    assert(final(self)@[j] == old(self)@[old(self)@.len() - 1 - j]);
                }
            }
        }
    }

    /// Sort the elements in place, ascending. Fails with a type mismatch,
    /// leaving the list unchanged, exactly when the elements cannot all be
    /// ordered against one another.
    pub fn sort(&mut self) -> (r: Result<(), KotError>)
        ensures
            match r {
                Ok(_) => sortable(old(self)@) && sorted_vals(final(self)@) && final(self)@.to_multiset() == old(self)@.to_multiset() && final(self)@.len() == old(self)@.len(),
                Err(e) => e == KotError::TypeMismatch && !sortable(old(self)@) && final(self)@
                    == old(self)@,
            },
            final(self).element_type == old(self).element_type,
            old(self).wf() ==> final(self).wf(),
    {
        broadcast use vstd::seq_lib::group_to_multiset_ensures;

        proof {
            lemma_views_of(self.elements@);
        }
        if !check_sortable(&self.elements) {
            return Err(KotError::TypeMismatch);
        }
        if self.elements.len() <= 1 {
            return Ok(());
        }
        let sorted = sorted_values(&self.elements);
        self.elements = sorted;
        proof {
            lemma_views_of(self.elements@);
            if old(self).wf() && old(self).element_type is Some {
                assert forall|j: int| 0 <= j < final(self)@.len() implies kind_of(
                    #[trigger] final(self)@[j],
                ) == old(self).element_type->0 by {
                    assert(final(self)@.to_multiset().contains(final(self)@[j])) by {
                        assert(final(self)@.contains(final(self)@[j]));
                    }
                    assert(old(self)@.contains(final(self)@[j]));
                    let w = choose|w: int|
                        0 <= w < old(self)@.len() && old(self)@[w] == final(self)@[j];
                }
            }
        }
        Ok(())
    }

    /// Replace every element with `value`, after checking it against the
    /// declared kind; on a type mismatch the list is unchanged.
    pub fn fill(&mut self, value: &Value) -> (r: Result<(), KotError>)
        ensures
            match r {
                Ok(_) => old(self).admits(kind_of(value@)) && final(self)@ == Seq::new(
                    old(self)@.len(),
                    |i: int| value@,
                ) && final(self).element_type == old(self).kind_after(kind_of(value@)) && final(self).wf(),
                Err(e) => e == KotError::TypeMismatch && !old(self).admits(kind_of(value@))
                    && final(self)@ == old(self)@ && final(self).element_type == old(self).element_type,
            },
    {
        proof {
            lemma_views_of(self.elements@);
        }
        let k = value.kind();
        match self.element_type {
            Some(declared) => {
                if declared != k {
                    return Err(KotError::TypeMismatch);
                }
            },
            None => {
                self.element_type = Some(k);
            },
        }
        let n = self.elements.len();
        let mut fresh: Vec<Value> = Vec::new();
        let mut i: usize = 0;
        while i < n
            invariant
                i <= n,
                fresh@.len() == i,
                forall|j: int| 0 <= j < i ==> fresh@[j]@ == value@,
            decreases n - i,
        {
            fresh.push(value.deep_copy());
            i = i + 1;
        }
        self.elements = fresh;
        proof {
            lemma_views_of(self.elements@);
            assert(views_of(self.elements@) =~= Seq::new(old(self)@.len(), |i: int| value@));
        }
        Ok(())
    }

    /// The elements as a read-only list, carrying the declared kind.
    pub fn to_kot_list(&self) -> (r: KotList)
        ensures
            r@ == self@,
            r.element_type == self.element_type,
    {
        KotList { elements: clone_values(&self.elements), element_type: self.element_type }
    }

    /// A fresh mutable list holding the same elements and declared kind.
    pub fn to_kot_mutable_list(&self) -> (r: KotMutableList)
        ensures
            r@ == self@,
            r.element_type == self.element_type,
    {
        KotMutableList {
            elements: clone_values(&self.elements),
            element_type: self.element_type,
        }
    }

    /// The elements as a plain vector.
    pub fn to_list(&self) -> (r: Vec<Value>)
        ensures
            views_of(r@) == self@,
    {
        clone_values(&self.elements)
    }

    /// The elements with duplicates dropped, as a new mutable list.
    pub fn distinct(&self) -> (r: KotMutableList)
        ensures
            r@ == dedup_first(self@),
            r.element_type == self.element_type,
    {
        KotMutableList {
            elements: dedup_values(&self.elements),
            element_type: self.element_type,
        }
    }

    /// Remove every element the predicate accepts, in one pass; returns
    /// whether the list shrank.
    pub fn remove_if<F: Fn(&Value) -> bool>(&mut self, filter_predicate: F) -> (r: bool)
        requires
            forall|i: int|
                0 <= i < old(self).elements@.len() ==> call_requires(
                    filter_predicate,
                    (&old(self).elements@[i],),
                ),
        ensures
            final(self).element_type == old(self).element_type,
            old(self).wf() ==> final(self).wf(),
            r == (final(self)@.len() < old(self)@.len()),
            exists|d: Seq<bool>|
                {
                    &&& d.len() == old(self).elements@.len()
                    &&& forall|i: int|
                        0 <= i < d.len() ==> call_ensures(
                            filter_predicate,
                            (&old(self).elements@[i],),
                            !#[trigger] d[i],
                        )
                    &&& final(self)@ == masked_views(old(self).elements@, d)
                },
    {
        proof {
            lemma_views_of(self.elements@);
        }
        let ghost original = self.elements@;
        let ghost mut d: Seq<bool> = Seq::empty();
        let mut kept: Vec<Value> = Vec::new();
        let mut i: usize = 0;
        while i < self.elements.len()
            invariant
                i <= self.elements@.len(),
                self.elements@ == original,
                self.element_type == old(self).element_type,
                d.len() == i,
                forall|j: int|
                    0 <= j < i ==> call_ensures(filter_predicate, (&original[j],), !#[trigger] d[j]),
                views_of(kept@) == masked_views(original.subrange(0, i as int), d),
            decreases self.elements@.len() - i,
        {
            let keep = !filter_predicate(&self.elements[i]);
            proof {
                assert(original.subrange(0, i + 1).drop_last() =~= original.subrange(0, i as int));
                assert(d.push(keep).drop_last() =~= d);
            }
            if keep {
                let copied = self.elements[i].deep_copy();
                proof {
                    crate::vec_ops::lemma_views_of_push(kept@, copied);
                }
                kept.push(copied);
            }
            proof {
                d = d.push(keep);
            }
            i = i + 1;
        }
        proof {
            assert(original.subrange(0, original.len() as int) =~= original);
            crate::vec_ops::lemma_masked_views(original, d);
        }
        let shrank = kept.len() < self.elements.len();
        self.elements = kept;
        proof {
            lemma_views_of(self.elements@);
            if old(self).wf() && old(self).element_type is Some {
                assert forall|j: int| 0 <= j < final(self)@.len() implies kind_of(
                    #[trigger] final(self)@[j],
                ) == old(self).element_type->0 by {
                    let w = choose|w: int|
                        0 <= w < original.len() && final(self)@[j] == original[w]@ && d[w];
                    assert(old(self)@[w] == original[w]@);
                }
            }
        }
        shrank
    }
}


/// A snapshot iterator over a mutable list's elements: it captures the elements at creation,
/// so later mutation of the source cannot affect it.
#[derive(Debug)]
pub struct KotMutableListIterator {
    pub elements: Vec<Value>,
    pub index: usize,
}

impl View for KotMutableListIterator {
    type V = Seq<ValSpec>;

    open spec fn view(&self) -> Seq<ValSpec> {
        views_of(self.elements@)
    }
}

impl KotMutableListIterator {
    /// The next element, advancing the cursor; nothing once the snapshot
    /// is exhausted.
    pub fn next(&mut self) -> (r: Option<Value>)
        ensures
            final(self)@ == old(self)@,
            match r {
                Some(v) => old(self).index < old(self)@.len() && v@ == old(self)@[
                    old(self).index as int] && final(self).index == old(self).index + 1,
                None => old(self).index >= old(self)@.len() && final(self).index == old(self).index,
            },
    {
        proof {
            lemma_views_of(self.elements@);
        }
        if self.index < self.elements.len() {
            let v = self.elements[self.index].deep_copy();
            self.index = self.index + 1;
            Some(v)
        } else {
            None
        }
    }
}

impl KotMutableList {
    /// A snapshot iterator over the elements; later mutation of the list
    /// does not affect it.
    pub fn iterator(&self) -> (r: KotMutableListIterator)
        ensures
            r@ == self@,
            r.index == 0,
    {
        KotMutableListIterator { elements: clone_values(&self.elements), index: 0 }
    }
}

/// A bidirectional snapshot iterator with a cursor between positions. It
/// remembers the index most recently yielded by `next` or `previous`, and
/// `add`, `remove` and `set` edit the snapshot relative to it — failing
/// when no element has been yielded since the last structural change.
#[derive(Debug)]
pub struct MutableListIterator {
    pub elements: Vec<Value>,
    pub element_type: Option<Kind>,
    pub cursor: usize,
    pub last_returned: Option<usize>,
}

impl View for MutableListIterator {
    type V = Seq<ValSpec>;

    open spec fn view(&self) -> Seq<ValSpec> {
        views_of(self.elements@)
    }
}

impl MutableListIterator {
    /// The iterator invariant: the cursor lies between positions and the
    /// remembered index, when set, names an element.
    pub open spec fn wf(self) -> bool {
        self.cursor <= self@.len() && (self.last_returned matches Some(t) ==> t < self@.len())
    }

    /// Whether a `next` call would yield an element.
    pub fn has_next(&self) -> (r: bool)
        ensures
            r == (self.cursor < self@.len()),
    {
        proof {
            lemma_views_of(self.elements@);
        }
        self.cursor < self.elements.len()
    }

    /// The element after the cursor, advancing it; fails exactly at the
    /// end.
    pub fn next(&mut self) -> (r: Result<Value, KotError>)
        requires
            old(self).wf(),
        ensures
            final(self)@ == old(self)@,
            final(self).element_type == old(self).element_type,
            final(self).wf(),
            match r {
                Ok(v) => old(self).cursor < old(self)@.len() && v@ == old(self)@[
                    old(self).cursor as int] && final(self).cursor == old(self).cursor + 1 && final(self).last_returned == Some(old(self).cursor),
                Err(e) => e == KotError::NotFound && old(self).cursor >= old(self)@.len() && final(self).cursor == old(self).cursor && final(self).last_returned == old(self).last_returned,
            },
    {
        proof {
            lemma_views_of(self.elements@);
        }
        if self.cursor >= self.elements.len() {
            return Err(KotError::NotFound);
        }
        let v = self.elements[self.cursor].deep_copy();
        self.last_returned = Some(self.cursor);
        self.cursor = self.cursor + 1;
        Ok(v)
    }

    /// Whether a `previous` call would yield an element.
    pub fn has_previous(&self) -> (r: bool)
        ensures
            r == (self.cursor > 0),
    {
        self.cursor > 0
    }

    /// The element before the cursor, retreating it; fails exactly at the
    /// start.
    pub fn previous(&mut self) -> (r: Result<Value, KotError>)
        requires
            old(self).wf(),
        ensures
            final(self)@ == old(self)@,
            final(self).element_type == old(self).element_type,
            final(self).wf(),
            match r {
                Ok(v) => old(self).cursor > 0 && v@ == old(self)@[old(self).cursor - 1] && final(self).cursor == old(self).cursor - 1 && final(self).last_returned == Some(
                    (old(self).cursor - 1) as usize,
                ),
                Err(e) => e == KotError::NotFound && old(self).cursor == 0 && final(self).cursor
                    == old(self).cursor && final(self).last_returned == old(self).last_returned,
            },
    {
        proof {
            lemma_views_of(self.elements@);
        }
        if self.cursor == 0 {
            return Err(KotError::NotFound);
        }
        self.cursor = self.cursor - 1;
        let v = self.elements[self.cursor].deep_copy();
        self.last_returned = Some(self.cursor);
        Ok(v)
    }

    /// The index a `next` call would yield.
    pub fn next_index(&self) -> (r: usize)
        ensures
            r == self.cursor,
    {
        self.cursor
    }

    /// The index a `previous` call would yield, `-1` at the start.
    pub fn previous_index(&self) -> (r: i128)
        ensures
            r == self.cursor - 1,
    {
        self.cursor as i128 - 1
    }

    /// Insert `element` at the cursor; the cursor moves past it and the
    /// remembered index is cleared.
    pub fn add(&mut self, element: Value)
        requires
            old(self).wf(),
        ensures
            final(self)@ == old(self)@.insert(old(self).cursor as int, element@),
            final(self).cursor == old(self).cursor + 1,
            final(self).last_returned is None,
            final(self).element_type == old(self).element_type,
            final(self).wf(),
    {
        proof {
            lemma_views_of(self.elements@);
        }
        let ghost before = self.elements@;
        self.elements.insert(self.cursor, element);
        let n = self.elements.len();
        proof {
            assert(n == before.len() + 1);
            assert(self.cursor < n);
        }
        self.cursor = self.cursor + 1;
        self.last_returned = None;
        proof {
            lemma_views_of(self.elements@);
            assert(views_of(self.elements@) =~= views_of(before).insert(
                old(self).cursor as int,
                element@,
            ));
        }
    }

    /// Remove the element most recently yielded; fails exactly when none
    /// has been yielded since the last structural change.
    pub fn remove(&mut self) -> (r: Result<(), KotError>)
        requires
            old(self).wf(),
        ensures
            final(self).element_type == old(self).element_type,
            final(self).wf(),
            match r {
                Ok(_) => old(self).last_returned matches Some(t) && final(self)@ == old(self)@.remove(t as int) && final(self).last_returned is None && final(self).cursor
                    == if t < old(self).cursor {
                    (old(self).cursor - 1) as usize
                } else {
                    old(self).cursor
                },
                Err(e) => e == KotError::NotFound && old(self).last_returned is None && final(self)@ == old(self)@ && final(self).cursor == old(self).cursor && final(self).last_returned is None,
            },
    {
        proof {
            lemma_views_of(self.elements@);
        }
        match self.last_returned {
            Some(t) => {
                let ghost before = self.elements@;
                self.elements.remove(t);
                proof {
                    crate::vec_ops::lemma_views_of_remove(before, t as int);
                }
                if t < self.cursor {
                    self.cursor = self.cursor - 1;
                }
                self.last_returned = None;
                Ok(())
            },
            None => Err(KotError::NotFound),
        }
    }

    /// Replace the element most recently yielded; fails exactly when none
    /// has been yielded since the last structural change.
    pub fn set(&mut self, element: Value) -> (r: Result<(), KotError>)
        requires
            old(self).wf(),
        ensures
            final(self).element_type == old(self).element_type,
            final(self).cursor == old(self).cursor,
            final(self).last_returned == old(self).last_returned,
            final(self).wf(),
            match r {
                Ok(_) => old(self).last_returned matches Some(t) && final(self)@ == old(self)@.update(t as int, element@),
                Err(e) => e == KotError::NotFound && old(self).last_returned is None && final(self)@ == old(self)@,
            },
    {
        proof {
            lemma_views_of(self.elements@);
        }
        match self.last_returned {
            Some(t) => {
                let ghost before = self.elements@;
                self.elements.set(t, element);
                proof {
                    lemma_views_of(self.elements@);
                    assert(views_of(self.elements@) =~= views_of(before).update(
                        t as int,
                        element@,
                    ));
                }
                Ok(())
            },
            None => Err(KotError::NotFound),
        }
    }
}

impl KotMutableList {
    /// A bidirectional snapshot iterator starting with its cursor at
    /// `index`; out of bounds exactly when `index` exceeds the length.
    pub fn list_iterator(&self, index: usize) -> (r: Result<MutableListIterator, KotError>)
        ensures
            match r {
                Ok(it) => index <= self@.len() && it@ == self@ && it.cursor == index
                    && it.last_returned is None && it.element_type == self.element_type
                    && it.wf(),
                Err(e) => e == KotError::OutOfBounds && index > self@.len(),
            },
    {
        proof {
            lemma_views_of(self.elements@);
        }
        if index > self.elements.len() {
            return Err(KotError::OutOfBounds);
        }
        Ok(
            MutableListIterator {
                elements: clone_values(&self.elements),
                element_type: self.element_type,
                cursor: index,
                last_returned: None,
            },
        )
    }
}


impl KotMutableList {
    /// The elements as a set: duplicates dropped, the kind inferred
    /// afresh; fails with a type mismatch exactly when the elements are
    /// not all of one kind.
    pub fn to_kot_set(&self) -> (r: Result<crate::kot_set::KotSet, KotError>)
        ensures
            match r {
                Ok(s) => homogeneous(self@) && s@ == dedup_first(self@) && s.wf(),
                Err(e) => e == KotError::TypeMismatch && !homogeneous(self@),
            },
    {
        match crate::kot_set::KotSet::new(clone_values(&self.elements)) {
            Ok(s) => Ok(s),
            Err(e) => Err(e),
        }
    }

    /// The elements as a mutable set, exactly as `to_kot_set`.
    pub fn to_kot_mutable_set(&self) -> (r: Result<
        crate::kot_mutable_set::KotMutableSet,
        KotError,
    >)
        ensures
            match r {
                Ok(s) => homogeneous(self@) && s@ == dedup_first(self@) && s.wf(),
                Err(e) => e == KotError::TypeMismatch && !homogeneous(self@),
            },
    {
        match crate::kot_mutable_set::KotMutableSet::new(clone_values(&self.elements)) {
            Ok(s) => Ok(s),
            Err(e) => Err(e),
        }
    }

    /// The elements from `from_index` (inclusive) to `to_index`
    /// (exclusive) as a new mutable list; out of bounds unless
    /// `from_index <= to_index <= len`.
    pub fn sub_list(&self, from_index: usize, to_index: usize) -> (r: Result<
        KotMutableList,
        KotError,
    >)
        ensures
            match r {
                Ok(l) => from_index <= to_index <= self@.len() && l@ == self@.subrange(
                    from_index as int,
                    to_index as int,
                ) && l.element_type == self.element_type,
                Err(e) => e == KotError::OutOfBounds && !(from_index <= to_index <= self@.len()),
            },
    {
        proof {
            lemma_views_of(self.elements@);
        }
        if from_index > to_index || to_index > self.elements.len() {
            return Err(KotError::OutOfBounds);
        }
        let elements = crate::vec_ops::copy_range(&self.elements, from_index, to_index);
        Ok(KotMutableList { elements, element_type: self.element_type })
    }

    /// The elements in ascending order as a new mutable list; fails with
    /// a type mismatch exactly when they cannot all be ordered.
    pub fn sorted(&self) -> (r: Result<KotMutableList, KotError>)
        ensures
            match r {
                Ok(l) => sortable(self@) && sorted_vals(l@) && l@.to_multiset()
                    == self@.to_multiset() && l@.len() == self@.len() && l.element_type
                    == self.element_type,
                Err(e) => e == KotError::TypeMismatch && !sortable(self@),
            },
    {
        broadcast use vstd::seq_lib::group_to_multiset_ensures;

        proof {
            lemma_views_of(self.elements@);
        }
        if !check_sortable(&self.elements) {
            return Err(KotError::TypeMismatch);
        }
        if self.elements.len() <= 1 {
            let elements = clone_values(&self.elements);
            return Ok(KotMutableList { elements, element_type: self.element_type });
        }
        let elements = sorted_values(&self.elements);
        proof {
            lemma_views_of(elements@);
        }
        Ok(KotMutableList { elements, element_type: self.element_type })
    }

    /// The elements in reverse order as a new mutable list.
    pub fn reversed(&self) -> (r: KotMutableList)
        ensures
            r@ == self@.reverse(),
            r.element_type == self.element_type,
    {
        KotMutableList {
            elements: crate::vec_ops::reverse_values(&self.elements),
            element_type: self.element_type,
        }
    }

    /// Each element transformed, in order, as a read-only list declaring
    /// no kind.
    pub fn map<F: Fn(&Value) -> Value>(&self, transform: F) -> (r: KotList)
        requires
            forall|i: int|
                0 <= i < self.elements@.len() ==> call_requires(
                    transform,
                    (&self.elements@[i],),
                ),
        ensures
            r.element_type is None,
            r.elements@.len() == self@.len(),
            forall|i: int|
                0 <= i < self@.len() ==> call_ensures(
                    transform,
                    (&self.elements@[i],),
                    #[trigger] r.elements@[i],
                ),
            r@.len() == self@.len(),
    {
        let out = crate::vec_ops::map_values_with(&self.elements, transform);
        proof {
            lemma_views_of(out@);
            lemma_views_of(self.elements@);
        }
        KotList { elements: out, element_type: None }
    }

    /// The elements one run of the predicate accepts, in order, as a new
    /// mutable list keeping the declared kind.
    pub fn filter<F: Fn(&Value) -> bool>(&self, predicate: F) -> (r: KotMutableList)
        requires
            forall|i: int|
                0 <= i < self.elements@.len() ==> call_requires(
                    predicate,
                    (&self.elements@[i],),
                ),
        ensures
            r.element_type == self.element_type,
            exists|d: Seq<bool>|
                {
                    &&& d.len() == self.elements@.len()
                    &&& forall|i: int|
                        0 <= i < d.len() ==> call_ensures(
                            predicate,
                            (&self.elements@[i],),
                            #[trigger] d[i],
                        )
                    &&& r@ == #[trigger] masked_views(self.elements@, d)
                },
    {
        let out = crate::vec_ops::filter_values_with(&self.elements, predicate);
        KotMutableList { elements: out, element_type: self.element_type }
    }

    /// Whether every element passes the predicate.
    pub fn all<F: Fn(&Value) -> bool>(&self, predicate: F) -> (r: bool)
        requires
            forall|i: int|
                0 <= i < self.elements@.len() ==> call_requires(
                    predicate,
                    (&self.elements@[i],),
                ),
        ensures
            r ==> forall|i: int|
                0 <= i < self.elements@.len() ==> call_ensures(
                    predicate,
                    (&#[trigger] self.elements@[i],),
                    true,
                ),
            !r ==> exists|i: int|
                0 <= i < self.elements@.len() && call_ensures(
                    predicate,
                    (&#[trigger] self.elements@[i],),
                    false,
                ),
    {
        crate::vec_ops::all_values_with(&self.elements, predicate)
    }

    /// Whether some element passes the predicate.
    pub fn any<F: Fn(&Value) -> bool>(&self, predicate: F) -> (r: bool)
        requires
            forall|i: int|
                0 <= i < self.elements@.len() ==> call_requires(
                    predicate,
                    (&self.elements@[i],),
                ),
        ensures
            r ==> exists|i: int|
                0 <= i < self.elements@.len() && call_ensures(
                    predicate,
                    (&#[trigger] self.elements@[i],),
                    true,
                ),
            !r ==> forall|i: int|
                0 <= i < self.elements@.len() ==> call_ensures(
                    predicate,
                    (&#[trigger] self.elements@[i],),
                    false,
                ),
    {
        crate::vec_ops::any_values_with(&self.elements, predicate)
    }

    /// How many elements pass one run of the predicate.
    pub fn count<F: Fn(&Value) -> bool>(&self, predicate: F) -> (r: usize)
        requires
            forall|i: int|
                0 <= i < self.elements@.len() ==> call_requires(
                    predicate,
                    (&self.elements@[i],),
                ),
        ensures
            r <= self@.len(),
            exists|d: Seq<bool>|
                {
                    &&& d.len() == self.elements@.len()
                    &&& forall|i: int|
                        0 <= i < d.len() ==> call_ensures(
                            predicate,
                            (&self.elements@[i],),
                            #[trigger] d[i],
                        )
                    &&& r == crate::vec_ops::num_true(d)
                },
    {
        proof {
            lemma_views_of(self.elements@);
        }
        crate::vec_ops::count_values_with(&self.elements, predicate)
    }

    /// The accumulator after folding every element onto `initial`, left
    /// to right.
    pub fn fold<F: Fn(&Value, &Value) -> Value>(&self, initial: Value, operation: F) -> (r: Value)
        requires
            forall|a: Value, b: Value| call_requires(operation, (&a, &b)),
        ensures
            exists|accs: Seq<Value>|
                {
                    &&& accs.len() == self.elements@.len()
                    &&& forall|i: int|
                        0 < i < accs.len() ==> call_ensures(
                            operation,
                            (&accs[i - 1], &self.elements@[i]),
                            #[trigger] accs[i],
                        )
                    &&& accs.len() > 0 ==> call_ensures(
                        operation,
                        (&initial, &self.elements@[0]),
                        accs[0],
                    )
                    &&& r == if accs.len() == 0 {
                        initial
                    } else {
                        accs.last()
                    }
                },
    {
        crate::vec_ops::fold_values_with(&self.elements, initial, operation)
    }

    /// The accumulator after folding all later elements onto the first;
    /// fails exactly on the empty list.
    pub fn reduce<F: Fn(&Value, &Value) -> Value>(&self, operation: F) -> (r: Result<
        Value,
        KotError,
    >)
        requires
            forall|a: Value, b: Value| call_requires(operation, (&a, &b)),
        ensures
            match r {
                Ok(v) => self@.len() > 0 && exists|accs: Seq<Value>|
                    {
                        &&& accs.len() == self.elements@.len()
                        &&& accs[0]@ == self@[0]
                        &&& forall|i: int|
                            0 < i < accs.len() ==> call_ensures(
                                operation,
                                (&accs[i - 1], &self.elements@[i]),
                                #[trigger] accs[i],
                            )
                        &&& v == accs.last()
                    },
                Err(e) => e == KotError::EmptyContainer && self@.len() == 0,
            },
    {
        proof {
            lemma_views_of(self.elements@);
        }
        if self.elements.len() == 0 {
            return Err(KotError::EmptyContainer);
        }
        let mut acc = self.elements[0].deep_copy();
        let ghost mut accs: Seq<Value> = seq![acc];
        let mut i: usize = 1;
        while i < self.elements.len()
            invariant
                1 <= i <= self.elements@.len(),
                accs.len() == i,
                accs[0]@ == self@[0],
                forall|j: int|
                    0 < j < i ==> call_ensures(
                        operation,
                        (&accs[j - 1], &self.elements@[j]),
                        #[trigger] accs[j],
                    ),
                acc == accs.last(),
                forall|a: Value, b: Value| call_requires(operation, (&a, &b)),
            decreases self.elements@.len() - i,
        {
            acc = operation(&acc, &self.elements[i]);
            proof {
                accs = accs.push(acc);
            }
            i = i + 1;
        }
        Ok(acc)
    }

    /// Insert every element of `elements` at `index`, shifting later
    /// elements up. Checks bounds first, then validates the whole batch
    /// against the declared kind; on either failure nothing changes.
    /// Returns whether anything was inserted.
    pub fn add_all_at(&mut self, index: usize, elements: &KotList) -> (r: Result<bool, KotError>)
        ensures
            match r {
                Ok(b) => {
                    &&& index <= old(self)@.len()
                    &&& b == (elements@.len() > 0)
                    &&& final(self)@ == old(self)@.subrange(0, index as int) + elements@ + old(self)@.skip(index as int)
                    &&& match old(self).element_type {
                        Some(k) => all_of_kind(elements@, k) && final(self).element_type == if
                            elements@.len() == 0 {
                            old(self).element_type
                        } else {
                            Some(k)
                        },
                        None => homogeneous(elements@) && final(self).element_type == if elements@
                            .len() == 0 {
                            Option::<Kind>::None
                        } else {
                            Option::Some(kind_of(elements@[0]))
                        },
                    }
                },
                Err(e) => {
                    &&& final(self)@ == old(self)@
                    &&& final(self).element_type == old(self).element_type
                    &&& ((e == KotError::OutOfBounds && index > old(self)@.len()) || (e
                        == KotError::TypeMismatch && index <= old(self)@.len() && match old(self).element_type {
                        Some(k) => !all_of_kind(elements@, k),
                        None => !homogeneous(elements@),
                    }))
                },
            },
    {
        proof {
            lemma_views_of(self.elements@);
            lemma_views_of(elements.elements@);
        }
        if index > self.elements.len() {
            return Err(KotError::OutOfBounds);
        }
        if elements.elements.len() == 0 {
            proof {
                assert(final(self)@ =~= old(self)@.subrange(0, index as int) + elements@ + old(self)@.skip(index as int));
            }
            return Ok(false);
        }
        let batch_kind = match self.element_type {
            Some(declared) => declared,
            None => elements.elements[0].kind(),
        };
        if !all_values_of_kind(&elements.elements, batch_kind) {
            proof {
                if old(self).element_type is None {
                    assert(!homogeneous(elements@)) by {
                        let i = choose|i: int|
                            0 <= i < elements@.len() && kind_of(#[trigger] elements@[i])
                                != batch_kind;
                    }
                }
            }
            return Err(KotError::TypeMismatch);
        }
        let mut rebuilt = crate::vec_ops::copy_range(&self.elements, 0, index);
        let mut middle = clone_values(&elements.elements);
        let mut tail = crate::vec_ops::copy_range(&self.elements, index, self.elements.len());
        let ghost head_part = rebuilt@;
        let ghost mid_part = middle@;
        let ghost tail_part = tail@;
        proof {
            lemma_views_of(head_part);
            lemma_views_of(mid_part);
            lemma_views_of(tail_part);
        }
        rebuilt.append(&mut middle);
        rebuilt.append(&mut tail);
        self.elements = rebuilt;
        self.element_type = Some(batch_kind);
        proof {
            lemma_views_of(self.elements@);
            assert(self.elements@ == head_part + mid_part + tail_part);
            let ghost target = old(self)@.subrange(0, index as int) + elements@ + old(self)@.skip(index as int);
            assert forall|j: int|
                0 <= j < views_of(self.elements@).len() implies views_of(self.elements@)[j]
                == target[j] by {
                if j < head_part.len() {
                    assert(self.elements@[j] == head_part[j]);
                    assert(views_of(head_part)[j] == head_part[j]@);
                } else if j < head_part.len() + mid_part.len() {
                    assert(self.elements@[j] == mid_part[j - head_part.len()]);
                    assert(views_of(mid_part)[j - head_part.len()] == mid_part[j
                        - head_part.len()]@);
                } else {
                    assert(self.elements@[j] == tail_part[j - head_part.len() - mid_part.len()]);
                    assert(views_of(tail_part)[j - head_part.len() - mid_part.len()] == tail_part[
                        j - head_part.len() - mid_part.len()]@);
                }
            }
            assert(views_of(self.elements@) =~= old(self)@.subrange(0, index as int) + elements@
                + old(self)@.skip(index as int));
        }
        Ok(true)
    }

    /// Replace every element with the callable's output for it, checking
    /// the whole batch of outputs against the declared kind before
    /// it takes effect: on a type mismatch the list is unchanged.
    pub fn replace_all<F: Fn(&Value) -> Value>(&mut self, operator: F) -> (r: Result<
        (),
        KotError,
    >)
        requires
            forall|i: int|
                0 <= i < old(self).elements@.len() ==> call_requires(
                    operator,
                    (&old(self).elements@[i],),
                ),
        ensures
            exists|outs: Seq<Value>|
                {
                    &&& outs.len() == old(self).elements@.len()
                    &&& forall|i: int|
                        0 <= i < outs.len() ==> call_ensures(
                            operator,
                            (&old(self).elements@[i],),
                            #[trigger] outs[i],
                        )
                    &&& match r {
                        Ok(_) => final(self)@ == views_of(outs) && (match old(self).element_type {
                            Some(k) => all_of_kind(views_of(outs), k) && final(self).element_type
                                == Some(k),
                            None => homogeneous(views_of(outs)) && final(self).element_type == if
                                outs.len() == 0 {
                                Option::<Kind>::None
                            } else {
                                Option::Some(kind_of(views_of(outs)[0]))
                            },
                        }),
                        Err(e) => e == KotError::TypeMismatch && final(self)@ == old(self)@
                            && final(self).element_type == old(self).element_type && (match old(self).element_type {
                            Some(k) => !all_of_kind(views_of(outs), k),
                            None => !homogeneous(views_of(outs)),
                        }),
                    }
                },
    {
        proof {
            lemma_views_of(self.elements@);
        }
        let outs = crate::vec_ops::map_values_with(&self.elements, operator);
        proof {
            lemma_views_of(outs@);
        }
        if outs.len() == 0 {
            let ghost snapshot = outs@;
            proof {
                assert(views_of(snapshot) =~= Seq::<ValSpec>::empty());
                assert(final(self)@ =~= views_of(snapshot));
            }
            return Ok(());
        }
        let batch_kind = match self.element_type {
            Some(declared) => declared,
            None => outs[0].kind(),
        };
        if !all_values_of_kind(&outs, batch_kind) {
            proof {
                if old(self).element_type is None {
                    assert(!homogeneous(views_of(outs@))) by {
                        let i = choose|i: int|
                            0 <= i < views_of(outs@).len() && kind_of(
                                #[trigger] views_of(outs@)[i],
                            ) != batch_kind;
                    }
                }
            }
            return Err(KotError::TypeMismatch);
        }
        let ghost snapshot = outs@;
        self.elements = outs;
        self.element_type = Some(batch_kind);
        Ok(())
    }
}


impl KotMutableList {
    /// Replace the element at a possibly negative `index`, counting from
    /// the end when negative; checks bounds first, then the declared
    /// kind.
    pub fn set_item(&mut self, index: i128, element: Value) -> (r: Result<Value, KotError>)
        ensures
            ({
                let resolved = if index < 0 {
                    old(self)@.len() + index
                } else {
                    index as int
                };
                match r {
                    Ok(v) => 0 <= resolved < old(self)@.len() && old(self).admits(
                        kind_of(element@),
                    ) && v@ == old(self)@[resolved] && final(self)@ == old(self)@.update(
                        resolved,
                        element@,
                    ) && final(self).element_type == old(self).kind_after(kind_of(element@)),
                    Err(e) => final(self)@ == old(self)@ && final(self).element_type == old(self).element_type && ((e == KotError::OutOfBounds && !(0 <= resolved < old(self)@.len())) || (e == KotError::TypeMismatch && 0 <= resolved < old(self)@.len()
                        && !old(self).admits(kind_of(element@)))),
                }
            }),
    {
        proof {
            lemma_views_of(self.elements@);
        }
        let n = self.elements.len();
        let resolved: i128 = if index < 0 {
            n as i128 + index
        } else {
            index
        };
        if !(0 <= resolved && resolved < n as i128) {
            return Err(KotError::OutOfBounds);
        }
        self.set(resolved as usize, element)
    }

    /// Remove the element at a possibly negative `index`, counting from
    /// the end when negative.
    pub fn remove_item(&mut self, index: i128) -> (r: Result<Value, KotError>)
        ensures
            final(self).element_type == old(self).element_type,
            old(self).wf() ==> final(self).wf(),
            ({
                let resolved = if index < 0 {
                    old(self)@.len() + index
                } else {
                    index as int
                };
                match r {
                    Ok(v) => 0 <= resolved < old(self)@.len() && v@ == old(self)@[resolved]
                        && final(self)@ == old(self)@.remove(resolved),
                    Err(e) => e == KotError::OutOfBounds && !(0 <= resolved < old(self)@.len())
                        && final(self)@ == old(self)@,
                }
            }),
    {
        proof {
            lemma_views_of(self.elements@);
        }
        let n = self.elements.len();
        let resolved: i128 = if index < 0 {
            n as i128 + index
        } else {
            index
        };
        if !(0 <= resolved && resolved < n as i128) {
            return Err(KotError::OutOfBounds);
        }
        self.remove_at(resolved as usize)
    }

    /// Sort the elements in place, descending; fails with a type
    /// mismatch, leaving the list unchanged, exactly when the elements
    /// cannot all be ordered against one another.
    pub fn sort_descending(&mut self) -> (r: Result<(), KotError>)
        ensures
            match r {
                Ok(_) => sortable(old(self)@) && crate::model::sorted_vals_desc(final(self)@)
                    && final(self)@.to_multiset() == old(self)@.to_multiset() && final(self)@.len() == old(self)@.len(),
                Err(e) => e == KotError::TypeMismatch && !sortable(old(self)@) && final(self)@
                    == old(self)@,
            },
            final(self).element_type == old(self).element_type,
            old(self).wf() ==> final(self).wf(),
    {
        broadcast use vstd::seq_lib::group_to_multiset_ensures;

        let ghost before = self@;
        match self.sort() {
            Ok(_) => {
                let ghost asc = self@;
                self.reverse();
                proof {
                    asc.lemma_reverse_to_multiset();
                    assert forall|i: int, j: int|
                        0 <= i < j < final(self)@.len() implies crate::value::val_le(
                        final(self)@[j],
                        final(self)@[i],
                    ) by {
                        assert(final(self)@[i] == asc[asc.len() - 1 - i]);
                        assert(final(self)@[j] == asc[asc.len() - 1 - j]);
                    }
                }
                Ok(())
            },
            Err(e) => Err(e),
        }
    }

    /// The elements in reverse order, exactly as `reversed`.
    pub fn as_reversed(&self) -> (r: KotMutableList)
        ensures
            r@ == self@.reverse(),
            r.element_type == self.element_type,
    {
        self.reversed()
    }

    /// The first `n` elements as a new mutable list, or the whole list
    /// when `n` exceeds the length.
    pub fn take(&self, n: usize) -> (r: KotMutableList)
        ensures
            r@ == self@.take(if n <= self@.len() {
                n as int
            } else {
                self@.len() as int
            }),
            r.element_type == self.element_type,
    {
        proof {
            lemma_views_of(self.elements@);
        }
        let end = if n <= self.elements.len() {
            n
        } else {
            self.elements.len()
        };
        let elements = crate::vec_ops::copy_range(&self.elements, 0, end);
        proof {
            assert(views_of(elements@) =~= self@.take(end as int));
        }
        KotMutableList { elements, element_type: self.element_type }
    }

    /// All elements but the first `n`, as a new mutable list.
    pub fn drop(&self, n: usize) -> (r: KotMutableList)
        ensures
            r@ == self@.skip(if n <= self@.len() {
                n as int
            } else {
                self@.len() as int
            }),
            r.element_type == self.element_type,
    {
        proof {
            lemma_views_of(self.elements@);
        }
        let start = if n <= self.elements.len() {
            n
        } else {
            self.elements.len()
        };
        let elements = crate::vec_ops::copy_range(&self.elements, start, self.elements.len());
        proof {
            assert(views_of(elements@) =~= self@.skip(start as int));
        }
        KotMutableList { elements, element_type: self.element_type }
    }
}

} // verus!
