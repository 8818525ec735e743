//! An insertion-ordered, duplicate-free, read-only set with the Kotlin
//! `Set` method surface.

use vstd::prelude::*;

use crate::errors::KotError;
use crate::kot_list::{homogeneous, KotList};
use crate::model::{
    all_of_kind, dedup_first, drop_in, keep_in, lemma_dedup_first, lemma_filter_unique,
    unique_vals,
};
use crate::value::{kind_of, lemma_views_of, views_of, Kind, ValSpec, Value};
use crate::vec_ops::{
    all_values_of_kind, clone_values, concat_values, contains_value, dedup_values, drop_in_values,
    keep_in_values, masked_views,
};

verus! {

/// Set equality: the same number of elements, each of one side's elements
/// occurring in the other, regardless of order.
pub open spec fn same_members(a: Seq<ValSpec>, b: Seq<ValSpec>) -> bool {
    a.len() == b.len() && (forall|i: int| 0 <= i < a.len() ==> b.contains(#[trigger] a[i]))
        && (forall|i: int| 0 <= i < b.len() ==> a.contains(#[trigger] b[i]))
}

/// An insertion-ordered collection of distinct [`Value`]s.
///
/// Membership is decided by a linear scan with value equality — elements
/// need not be hashable or orderable. A set may carry a declared element
/// kind, as a list does.
#[derive(Debug)]
pub struct KotSet {
    pub elements: Vec<Value>,
    pub element_type: Option<Kind>,
}

impl View for KotSet {
    type V = Seq<ValSpec>;

    open spec fn view(&self) -> Seq<ValSpec> {
        views_of(self.elements@)
    }
}

impl KotSet {
    /// The set invariant: no two elements equal, and every element of the
    /// declared kind when one is declared.
    pub open spec fn wf(self) -> bool {
        unique_vals(self@) && (self.element_type matches Some(k) ==> all_of_kind(self@, k))
    }

    /// Wrap the given elements and declared kind as they stand, with no
    /// duplicate or kind check.
    pub fn new_with_type(elements: Vec<Value>, element_type: Option<Kind>) -> (r: KotSet)
        ensures
            r@ == views_of(elements@),
            r.element_type == element_type,
    {
        KotSet { elements, element_type }
    }

    /// Read access to the backing elements.
    pub fn get_elements(&self) -> (r: &Vec<Value>)
        ensures
            views_of(r@) == self@,
    {
        &self.elements
    }

    /// A set of the given elements with duplicates dropped, keeping first
    /// occurrences in order; the kind is inferred from the first element.
    /// Fails with a type mismatch exactly when the elements are not all of
    /// one kind.
    pub fn new(elements: Vec<Value>) -> (r: Result<KotSet, KotError>)
        ensures
            match r {
                Ok(s) => homogeneous(views_of(elements@)) && s@ == dedup_first(
                    views_of(elements@),
                ) && s.wf() && s.element_type == if elements@.len() == 0 {
                    Option::<Kind>::None
                } else {
                    Option::Some(kind_of(views_of(elements@)[0]))
                },
                Err(e) => e == KotError::TypeMismatch && !homogeneous(views_of(elements@)),
            },
    {
        proof {
            lemma_views_of(elements@);
            lemma_dedup_first(views_of(elements@));
        }
        if elements.len() == 0 {
            let deduped = dedup_values(&elements);
            return Ok(KotSet { elements: deduped, element_type: None });
        }
        let k = elements[0].kind();
        if all_values_of_kind(&elements, k) {
            let deduped = dedup_values(&elements);
            let r = KotSet { elements: deduped, element_type: Some(k) };
            proof {
                assert forall|i: int| 0 <= i < r@.len() implies kind_of(#[trigger] r@[i])
                    == k by {
                    assert(r@.contains(r@[i]));
                    assert(views_of(elements@).contains(r@[i]));
                    let w = choose|w: int|
                        0 <= w < views_of(elements@).len() && views_of(elements@)[w] == r@[i];
                }
            }
            Ok(r)
        } else {
            assert(!homogeneous(views_of(elements@)));
            Err(KotError::TypeMismatch)
        }
    }

    /// A set of the given elements with duplicates dropped and the kind
    /// declared up front. Fails with a type mismatch exactly when some
    /// element is not of the declared kind.
    pub fn of_type(element_type: Kind, elements: Vec<Value>) -> (r: Result<KotSet, KotError>)
        ensures
            match r {
                Ok(s) => all_of_kind(views_of(elements@), element_type) && s@ == dedup_first(
                    views_of(elements@),
                ) && s.wf() && s.element_type == Option::Some(element_type),
                Err(e) => e == KotError::TypeMismatch && !all_of_kind(
                    views_of(elements@),
                    element_type,
                ),
            },
    {
        proof {
            lemma_views_of(elements@);
            lemma_dedup_first(views_of(elements@));
        }
        if all_values_of_kind(&elements, element_type) {
            let deduped = dedup_values(&elements);
            let r = KotSet { elements: deduped, element_type: Some(element_type) };
            proof {
                assert forall|i: int| 0 <= i < r@.len() implies kind_of(#[trigger] r@[i])
                    == element_type by {
                    assert(r@.contains(r@[i]));
                    assert(views_of(elements@).contains(r@[i]));
                    let w = choose|w: int|
                        0 <= w < views_of(elements@).len() && views_of(elements@)[w] == r@[i];
                }
            }
            Ok(r)
        } else {
            Err(KotError::TypeMismatch)
        }
    }

    /// The number of elements.
    pub fn size(&self) -> (r: usize)
        ensures
            r == self@.len(),
    {
        proof {
            lemma_views_of(self.elements@);
        }
        self.elements.len()
    }

    /// Whether the set holds no element.
    pub fn is_empty(&self) -> (r: bool)
        ensures
            r == (self@.len() == 0),
    {
        proof {
            lemma_views_of(self.elements@);
        }
        self.elements.len() == 0
    }

    /// Whether the set holds some element.
    pub fn is_not_empty(&self) -> (r: bool)
        ensures
            r == (self@.len() > 0),
    {
        !self.is_empty()
    }

    /// Whether some element equals `element`.
    pub fn contains(&self, element: &Value) -> (r: bool)
        ensures
            r == self@.contains(element@),
    {
        contains_value(&self.elements, element)
    }

    /// Whether every element of `elements` occurs in this set.
    pub fn contains_all(&self, elements: &KotList) -> (r: bool)
        ensures
            r == forall|i: int| 0 <= i < elements@.len() ==> self@.contains(#[trigger] elements@[i]),
    {
        proof {
            lemma_views_of(elements.elements@);
        }
        let mut i: usize = 0;
        while i < elements.elements.len()
            invariant
                i <= elements.elements@.len(),
                forall|j: int| 0 <= j < i ==> self@.contains(#[trigger] elements@[j]),
            decreases elements.elements@.len() - i,
        {
            if !contains_value(&self.elements, &elements.elements[i]) {
                assert(!self@.contains(elements@[i as int]));
                return false;
            }
            i = i + 1;
        }
        true
    }

    /// The first element in insertion order; fails exactly on the empty
    /// set.
    pub fn first(&self) -> (r: Result<Value, KotError>)
        ensures
            match r {
                Ok(v) => self@.len() > 0 && v@ == self@[0],
                Err(e) => e == KotError::EmptyContainer && self@.len() == 0,
            },
    {
        proof {
            lemma_views_of(self.elements@);
        }
        if self.elements.len() > 0 {
            Ok(self.elements[0].deep_copy())
        } else {
            Err(KotError::EmptyContainer)
        }
    }

    /// The first element, or nothing for the empty set.
    pub fn first_or_null(&self) -> (r: Option<Value>)
        ensures
            match r {
                Some(v) => self@.len() > 0 && v@ == self@[0],
                None => self@.len() == 0,
            },
    {
        proof {
            lemma_views_of(self.elements@);
        }
        if self.elements.len() > 0 {
            Some(self.elements[0].deep_copy())
        } else {
            None
        }
    }

    /// The last element in insertion order; fails exactly on the empty set.
    pub fn last(&self) -> (r: Result<Value, KotError>)
        ensures
            match r {
                Ok(v) => self@.len() > 0 && v@ == self@[self@.len() - 1],
                Err(e) => e == KotError::EmptyContainer && self@.len() == 0,
            },
    {
        proof {
            lemma_views_of(self.elements@);
        }
        if self.elements.len() > 0 {
            Ok(self.elements[self.elements.len() - 1].deep_copy())
        } else {
            Err(KotError::EmptyContainer)
        }
    }

    /// The last element, or nothing for the empty set.
    pub fn last_or_null(&self) -> (r: Option<Value>)
        ensures
            match r {
                Some(v) => self@.len() > 0 && v@ == self@[self@.len() - 1],
                None => self@.len() == 0,
            },
    {
        proof {
            lemma_views_of(self.elements@);
        }
        if self.elements.len() > 0 {
            Some(self.elements[self.elements.len() - 1].deep_copy())
        } else {
            None
        }
    }

    /// Whether this set and `other` hold the same elements, in any order.
    pub fn equals(&self, other: &KotSet) -> (r: bool)
        ensures
            r == same_members(self@, other@),
    {
        proof {
            lemma_views_of(self.elements@);
            lemma_views_of(other.elements@);
        }
        if self.elements.len() != other.elements.len() {
            return false;
        }
        let mut i: usize = 0;
        while i < self.elements.len()
            invariant
                i <= self.elements@.len(),
                self@.len() == other@.len(),
                forall|j: int| 0 <= j < i ==> other@.contains(#[trigger] self@[j]),
            decreases self.elements@.len() - i,
        {
            if !contains_value(&other.elements, &self.elements[i]) {
                assert(!other@.contains(self@[i as int]));
                return false;
            }
            i = i + 1;
        }
        let mut j: usize = 0;
        while j < other.elements.len()
            invariant
                j <= other.elements@.len(),
                self@.len() == other@.len(),
                forall|k: int| 0 <= k < self@.len() ==> other@.contains(#[trigger] self@[k]),
                forall|k: int| 0 <= k < j ==> self@.contains(#[trigger] other@[k]),
            decreases other.elements@.len() - j,
        {
            if !contains_value(&self.elements, &other.elements[j]) {
                assert(!self@.contains(other@[j as int]));
                return false;
            }
            j = j + 1;
        }
        true
    }

    /// This set's elements and then `other`'s unseen ones, in encounter
    /// order. The kind of the result is inferred afresh from its first
    /// element; the union fails with a type mismatch exactly when the
    /// combined elements are not all of one kind.
    pub fn union(&self, other: &KotSet) -> (r: Result<KotSet, KotError>)
        ensures
            match r {
                Ok(s) => s@ == dedup_first(self@ + other@) && homogeneous(dedup_first(
                    self@ + other@,
                )) && s.wf() && s.element_type == if s@.len() == 0 {
                    Option::<Kind>::None
                } else {
                    Option::Some(kind_of(s@[0]))
                },
                Err(e) => e == KotError::TypeMismatch && !homogeneous(
                    dedup_first(self@ + other@),
                ),
            },
    {
        let combined = concat_values(&self.elements, &other.elements);
        Self::build_checked(&combined)
    }

    /// This set's elements and then the list's unseen ones; the result's
    /// kind is inferred afresh, and the operation fails with a type
    /// mismatch exactly when the combined elements are not all of one kind.
    pub fn plus(&self, other: &KotList) -> (r: Result<KotSet, KotError>)
        ensures
            match r {
                Ok(s) => s@ == dedup_first(self@ + other@) && homogeneous(dedup_first(
                    self@ + other@,
                )) && s.wf() && s.element_type == if s@.len() == 0 {
                    Option::<Kind>::None
                } else {
                    Option::Some(kind_of(s@[0]))
                },
                Err(e) => e == KotError::TypeMismatch && !homogeneous(
                    dedup_first(self@ + other@),
                ),
            },
    {
        let combined = concat_values(&self.elements, &other.elements);
        Self::build_checked(&combined)
    }

    /// This set's elements with `element` appended when unseen; the
    /// result's kind is inferred afresh, and the operation fails with a
    /// type mismatch exactly when the combined elements are not all of one
    /// kind.
    pub fn plus_element(&self, element: &Value) -> (r: Result<KotSet, KotError>)
        ensures
            match r {
                Ok(s) => s@ == dedup_first(self@.push(element@)) && homogeneous(dedup_first(
                    self@.push(element@),
                )) && s.wf() && s.element_type == if s@.len() == 0 {
                    Option::<Kind>::None
                } else {
                    Option::Some(kind_of(s@[0]))
                },
                Err(e) => e == KotError::TypeMismatch && !homogeneous(
                    dedup_first(self@.push(element@)),
                ),
            },
    {
        let mut combined = clone_values(&self.elements);
        let copied = element.deep_copy();
        proof {
            crate::vec_ops::lemma_views_of_push(combined@, copied);
        }
        combined.push(copied);
        Self::build_checked(&combined)
    }

    /// A set of the given values deduplicated, its kind inferred from the
    /// first; fails with a type mismatch exactly when the deduplicated
    /// values are not all of one kind.
    pub(crate) fn build_checked(combined: &Vec<Value>) -> (r: Result<KotSet, KotError>)
        ensures
            match r {
                Ok(s) => s@ == dedup_first(views_of(combined@)) && homogeneous(dedup_first(
                    views_of(combined@),
                )) && s.wf() && s.element_type == if s@.len() == 0 {
                    Option::<Kind>::None
                } else {
                    Option::Some(kind_of(s@[0]))
                },
                Err(e) => e == KotError::TypeMismatch && !homogeneous(
                    dedup_first(views_of(combined@)),
                ),
            },
    {
        proof {
            lemma_views_of(combined@);
            lemma_dedup_first(views_of(combined@));
        }
        let deduped = dedup_values(combined);
        if deduped.len() == 0 {
            proof {
                lemma_views_of(deduped@);
            }
            return Ok(KotSet { elements: deduped, element_type: None });
        }
        let k = deduped[0].kind();
        proof {
            lemma_views_of(deduped@);
        }
        if all_values_of_kind(&deduped, k) {
            Ok(KotSet { elements: deduped, element_type: Some(k) })
        } else {
            Err(KotError::TypeMismatch)
        }
    }

    /// The elements of this set that occur in `other`, in this set's
    /// order; the declared kind is carried over.
    pub fn intersect(&self, other: &KotSet) -> (r: KotSet)
        ensures
            r@ == keep_in(self@, other@),
            r.element_type == self.element_type,
            self.wf() ==> r.wf(),
    {
        let r = KotSet {
            elements: keep_in_values(&self.elements, &other.elements),
            element_type: self.element_type,
        };
        proof {
            self.lemma_shrunk_wf(r@);
            if self.wf() {
                lemma_filter_unique(self@, |x: ValSpec| other@.contains(x));
            }
        }
        r
    }

    /// The elements of this set that do not occur in `other`, in this
    /// set's order; the declared kind is carried over.
    pub fn subtract(&self, other: &KotSet) -> (r: KotSet)
        ensures
            r@ == drop_in(self@, other@),
            r.element_type == self.element_type,
            self.wf() ==> r.wf(),
    {
        let r = KotSet {
            elements: drop_in_values(&self.elements, &other.elements),
            element_type: self.element_type,
        };
        proof {
            self.lemma_shrunk_wf(r@);
            if self.wf() {
                lemma_filter_unique(self@, |x: ValSpec| !other@.contains(x));
            }
        }
        r
    }

    /// The elements of this set that do not occur in the list; the
    /// declared kind is carried over.
    pub fn minus(&self, other: &KotList) -> (r: KotSet)
        ensures
            r@ == drop_in(self@, other@),
            r.element_type == self.element_type,
            self.wf() ==> r.wf(),
    {
        let r = KotSet {
            elements: drop_in_values(&self.elements, &other.elements),
            element_type: self.element_type,
        };
        proof {
            self.lemma_shrunk_wf(r@);
            if self.wf() {
                lemma_filter_unique(self@, |x: ValSpec| !other@.contains(x));
            }
        }
        r
    }

    /// The elements of this set other than `element`; the declared kind is
    /// carried over.
    pub fn minus_element(&self, element: &Value) -> (r: KotSet)
        ensures
            r@ == drop_in(self@, seq![element@]),
            r.element_type == self.element_type,
            self.wf() ==> r.wf(),
    {
        let mut banned: Vec<Value> = Vec::new();
        let copied = element.deep_copy();
        proof {
            crate::vec_ops::lemma_views_of_push(banned@, copied);
            lemma_views_of(Seq::<Value>::empty());
            assert(views_of(Seq::<Value>::empty()) =~= Seq::<ValSpec>::empty());
        }
        banned.push(copied);
        proof {
            assert(views_of(banned@) =~= seq![element@]);
        }
        let r = KotSet {
            elements: drop_in_values(&self.elements, &banned),
            element_type: self.element_type,
        };
        proof {
            self.lemma_shrunk_wf(r@);
            if self.wf() {
                lemma_filter_unique(self@, |x: ValSpec| !views_of(banned@).contains(x));
                assert(drop_in(self@, views_of(banned@)) == drop_in(self@, seq![element@]));
            }
        }
        r
    }

    /// A selection of this set's elements keeps the declared-kind half of
    /// the invariant; a selection without repeats keeps it whole.
    proof fn lemma_shrunk_wf(self, shrunk: Seq<ValSpec>)
        requires
            forall|j: int| 0 <= j < shrunk.len() ==> self@.contains(#[trigger] shrunk[j]),
        ensures
            self.wf() ==> (self.element_type matches Some(k) ==> all_of_kind(shrunk, k)),
    {
        if self.wf() && self.element_type is Some {
            assert forall|j: int| 0 <= j < shrunk.len() implies kind_of(#[trigger] shrunk[j])
                == self.element_type->0 by {
                let w = choose|w: int| 0 <= w < self@.len() && self@[w] == shrunk[j];
            }
        }
    }

    /// The elements as a list, in insertion order, carrying the declared
    /// kind.
    pub fn to_kot_list(&self) -> (r: KotList)
        ensures
            r@ == self@,
            r.element_type == self.element_type,
    {
        KotList {
            elements: clone_values(&self.elements),
            element_type: self.element_type,
        }
    }

    /// A fresh set holding the same elements and declared kind.
    pub fn to_kot_set(&self) -> (r: KotSet)
        ensures
            r@ == self@,
            r.element_type == self.element_type,
    {
        KotSet {
            elements: clone_values(&self.elements),
            element_type: self.element_type,
        }
    }

    /// The elements as a plain vector.
    pub fn to_list(&self) -> (r: Vec<Value>)
        ensures
            views_of(r@) == self@,
    {
        clone_values(&self.elements)
    }
}


/// A snapshot iterator over a set's elements: it captures the elements at creation,
/// so later mutation of the source cannot affect it.
#[derive(Debug)]
pub struct KotSetIterator {
    pub elements: Vec<Value>,
    pub index: usize,
}

impl View for KotSetIterator {
    type V = Seq<ValSpec>;

    open spec fn view(&self) -> Seq<ValSpec> {
        views_of(self.elements@)
    }
}

impl KotSetIterator {
    /// The next element, advancing the cursor; nothing once the snapshot
    /// is exhausted.
    pub fn next(&mut self) -> (r: Option<Value>)
        ensures
            final(self)@ == old(self)@,
            match r {
                Some(v) => old(self).index < old(self)@.len() && v@ == old(self)@[
                    old(self).index as int] && final(self).index == old(self).index + 1,
                None => old(self).index >= old(self)@.len() && final(self).index == old(self).index,
            },
    {
        proof {
            lemma_views_of(self.elements@);
        }
        if self.index < self.elements.len() {
            let v = self.elements[self.index].deep_copy();
            self.index = self.index + 1;
            Some(v)
        } else {
            None
        }
    }
}

impl KotSet {
    /// A snapshot iterator over the elements in insertion order.
    pub fn iterator(&self) -> (r: KotSetIterator)
        ensures
            r@ == self@,
            r.index == 0,
    {
        KotSetIterator { elements: clone_values(&self.elements), index: 0 }
    }
}


impl KotSet {
    /// A mutable list holding the same elements and declared kind.
    pub fn to_kot_mutable_list(&self) -> (r: crate::kot_mutable_list::KotMutableList)
        ensures
            r@ == self@,
            r.element_type == self.element_type,
    {
        crate::kot_mutable_list::KotMutableList {
            elements: clone_values(&self.elements),
            element_type: self.element_type,
        }
    }

    /// A mutable set holding the same elements and declared kind.
    pub fn to_kot_mutable_set(&self) -> (r: crate::kot_mutable_set::KotMutableSet)
        ensures
            r@ == self@,
            r.element_type == self.element_type,
            self.wf() ==> r.wf(),
    {
        crate::kot_mutable_set::KotMutableSet {
            elements: clone_values(&self.elements),
            element_type: self.element_type,
        }
    }

    /// Each element transformed, in insertion order, as a list declaring
    /// no kind.
    pub fn map<F: Fn(&Value) -> Value>(&self, transform: F) -> (r: KotList)
        requires
            forall|i: int|
                0 <= i < self.elements@.len() ==> call_requires(
                    transform,
                    (&self.elements@[i],),
                ),
        ensures
            r.element_type is None,
            r.elements@.len() == self@.len(),
            forall|i: int|
                0 <= i < self@.len() ==> call_ensures(
                    transform,
                    (&self.elements@[i],),
                    #[trigger] r.elements@[i],
                ),
            r@.len() == self@.len(),
    {
        let out = crate::vec_ops::map_values_with(&self.elements, transform);
        proof {
            lemma_views_of(out@);
            lemma_views_of(self.elements@);
        }
        KotList { elements: out, element_type: None }
    }

    /// The elements one run of the predicate accepts, in insertion order,
    /// keeping the declared kind.
    pub fn filter<F: Fn(&Value) -> bool>(&self, predicate: F) -> (r: KotSet)
        requires
            forall|i: int|
                0 <= i < self.elements@.len() ==> call_requires(
                    predicate,
                    (&self.elements@[i],),
                ),
        ensures
            r.element_type == self.element_type,
            self.wf() ==> r.wf(),
            exists|d: Seq<bool>|
                {
                    &&& d.len() == self.elements@.len()
                    &&& forall|i: int|
                        0 <= i < d.len() ==> call_ensures(
                            predicate,
                            (&self.elements@[i],),
                            #[trigger] d[i],
                        )
                    &&& r@ == #[trigger] masked_views(self.elements@, d)
                },
    {
        let out = crate::vec_ops::filter_values_with(&self.elements, predicate);
        let r = KotSet { elements: out, element_type: self.element_type };
        proof {
            let d = choose|d: Seq<bool>|
                {
                    &&& d.len() == self.elements@.len()
                    &&& forall|i: int|
                        0 <= i < d.len() ==> call_ensures(
                            predicate,
                            (&self.elements@[i],),
                            #[trigger] d[i],
                        )
                    &&& views_of(out@) == #[trigger] masked_views(self.elements@, d)
                };
            if self.wf() {
                crate::vec_ops::lemma_masked_unique(self.elements@, d);
                crate::vec_ops::lemma_masked_views(self.elements@, d);
                lemma_views_of(self.elements@);
                if self.element_type is Some {
                    assert forall|j: int| 0 <= j < r@.len() implies kind_of(#[trigger] r@[j])
                        == self.element_type->0 by {
                        let w = choose|w: int|
                            0 <= w < self.elements@.len() && #[trigger] masked_views(
                                self.elements@,
                                d,
                            )[j] == self.elements@[w]@ && d[w];
                        assert(self@[w] == self.elements@[w]@);
                    }
                }
            }
        }
        r
    }

    /// Whether every element passes the predicate.
    pub fn all<F: Fn(&Value) -> bool>(&self, predicate: F) -> (r: bool)
        requires
            forall|i: int|
                0 <= i < self.elements@.len() ==> call_requires(
                    predicate,
                    (&self.elements@[i],),
                ),
        ensures
            r ==> forall|i: int|
                0 <= i < self.elements@.len() ==> call_ensures(
                    predicate,
                    (&#[trigger] self.elements@[i],),
                    true,
                ),
            !r ==> exists|i: int|
                0 <= i < self.elements@.len() && call_ensures(
                    predicate,
                    (&#[trigger] self.elements@[i],),
                    false,
                ),
    {
        crate::vec_ops::all_values_with(&self.elements, predicate)
    }

    /// Whether some element passes the predicate.
    pub fn any<F: Fn(&Value) -> bool>(&self, predicate: F) -> (r: bool)
        requires
            forall|i: int|
                0 <= i < self.elements@.len() ==> call_requires(
                    predicate,
                    (&self.elements@[i],),
                ),
        ensures
            r ==> exists|i: int|
                0 <= i < self.elements@.len() && call_ensures(
                    predicate,
                    (&#[trigger] self.elements@[i],),
                    true,
                ),
            !r ==> forall|i: int|
                0 <= i < self.elements@.len() ==> call_ensures(
                    predicate,
                    (&#[trigger] self.elements@[i],),
                    false,
                ),
    {
        crate::vec_ops::any_values_with(&self.elements, predicate)
    }

    /// How many elements pass one run of the predicate.
    pub fn count<F: Fn(&Value) -> bool>(&self, predicate: F) -> (r: usize)
        requires
            forall|i: int|
                0 <= i < self.elements@.len() ==> call_requires(
                    predicate,
                    (&self.elements@[i],),
                ),
        ensures
            r <= self@.len(),
            exists|d: Seq<bool>|
                {
                    &&& d.len() == self.elements@.len()
                    &&& forall|i: int|
                        0 <= i < d.len() ==> call_ensures(
                            predicate,
                            (&self.elements@[i],),
                            #[trigger] d[i],
                        )
                    &&& r == crate::vec_ops::num_true(d)
                },
    {
        proof {
            lemma_views_of(self.elements@);
        }
        crate::vec_ops::count_values_with(&self.elements, predicate)
    }

    /// The accumulator after folding every element onto `initial`, in
    /// insertion order.
    pub fn fold<F: Fn(&Value, &Value) -> Value>(&self, initial: Value, operation: F) -> (r: Value)
        requires
            forall|a: Value, b: Value| call_requires(operation, (&a, &b)),
        ensures
            exists|accs: Seq<Value>|
                {
                    &&& accs.len() == self.elements@.len()
                    &&& forall|i: int|
                        0 < i < accs.len() ==> call_ensures(
                            operation,
                            (&accs[i - 1], &self.elements@[i]),
                            #[trigger] accs[i],
                        )
                    &&& accs.len() > 0 ==> call_ensures(
                        operation,
                        (&initial, &self.elements@[0]),
                        accs[0],
                    )
                    &&& r == if accs.len() == 0 {
                        initial
                    } else {
                        accs.last()
                    }
                },
    {
        crate::vec_ops::fold_values_with(&self.elements, initial, operation)
    }

    /// The accumulator after folding all later elements onto the first;
    /// fails exactly on the empty set.
    pub fn reduce<F: Fn(&Value, &Value) -> Value>(&self, operation: F) -> (r: Result<
        Value,
        crate::errors::KotError,
    >)
        requires
            forall|a: Value, b: Value| call_requires(operation, (&a, &b)),
        ensures
            match r {
                Ok(v) => self@.len() > 0 && exists|accs: Seq<Value>|
                    {
                        &&& accs.len() == self.elements@.len()
                        &&& accs[0]@ == self@[0]
                        &&& forall|i: int|
                            0 < i < accs.len() ==> call_ensures(
                                operation,
                                (&accs[i - 1], &self.elements@[i]),
                                #[trigger] accs[i],
                            )
                        &&& v == accs.last()
                    },
                Err(e) => e == crate::errors::KotError::EmptyContainer && self@.len() == 0,
            },
    {
        proof {
            lemma_views_of(self.elements@);
        }
        if self.elements.len() == 0 {
            return Err(crate::errors::KotError::EmptyContainer);
        }
        let mut acc = self.elements[0].deep_copy();
        let ghost mut accs: Seq<Value> = seq![acc];
        let mut i: usize = 1;
        while i < self.elements.len()
            invariant
                1 <= i <= self.elements@.len(),
                accs.len() == i,
                accs[0]@ == self@[0],
                forall|j: int|
                    0 < j < i ==> call_ensures(
                        operation,
                        (&accs[j - 1], &self.elements@[j]),
                        #[trigger] accs[j],
                    ),
                acc == accs.last(),
                forall|a: Value, b: Value| call_requires(operation, (&a, &b)),
            decreases self.elements@.len() - i,
        {
            acc = operation(&acc, &self.elements[i]);
            proof {
                accs = accs.push(acc);
            }
            i = i + 1;
        }
        Ok(acc)
    }
}


/// Uniting a set with itself gives the set back: the union of a
/// well-formed set and itself holds exactly its elements in their order.
pub proof fn lemma_union_idempotent(s: KotSet)
    requires
        s.wf(),
    ensures
        dedup_first(s@ + s@) == s@,
{
    crate::model::lemma_union_self(s@);
}


impl KotSet {
    /// Whether no element passes the predicate: the negation of `any`.
    pub fn none<F: Fn(&Value) -> bool>(&self, predicate: F) -> (r: bool)
        requires
            forall|i: int|
                0 <= i < self.elements@.len() ==> call_requires(
                    predicate,
                    (&self.elements@[i],),
                ),
        ensures
            !r ==> exists|i: int|
                0 <= i < self.elements@.len() && call_ensures(
                    predicate,
                    (&#[trigger] self.elements@[i],),
                    true,
                ),
            r ==> forall|i: int|
                0 <= i < self.elements@.len() ==> call_ensures(
                    predicate,
                    (&#[trigger] self.elements@[i],),
                    false,
                ),
    {
        !self.any(predicate)
    }
}

} // verus!
