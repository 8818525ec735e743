//! A read-only list with the Kotlin `List` method surface.

use vstd::prelude::*;

use crate::errors::KotError;
use crate::model::{
    all_of_kind, chunks_of, dedup_first, first_index_of, flatten_vals, is_max_at, is_min_at,
    last_index_of, lemma_dedup_first, lemma_first_index_of, lemma_last_index_of, remove_each,
    remove_first, sortable, sorted_vals, sorted_vals_desc, windows_of,
};
use crate::value::{kind_of, lemma_views_of, val_le, views_of, Kind, ValSpec, Value};
use crate::vec_ops::{
    all_values_of_kind, check_sortable, clone_values, concat_values, contains_value, dedup_values,
    find_first, find_last, masked_views, num_true, remove_each_values, sorted_values,
    values_equal,
};

verus! {

/// Whether every element shares the first element's kind; an empty sequence
/// is homogeneous.
pub open spec fn homogeneous(s: Seq<ValSpec>) -> bool {
    forall|i: int| 0 <= i < s.len() ==> kind_of(#[trigger] s[i]) == kind_of(s[0])
}

/// An ordered, duplicate-permitting, read-only container of [`Value`]s.
///
/// A list may carry a declared element kind, fixed at construction or
/// inferred from the first element; when it does, every element is of that
/// kind (see [`KotList::wf`]).
#[derive(Debug)]
pub struct KotList {
    pub elements: Vec<Value>,
    pub element_type: Option<Kind>,
}

impl View for KotList {
    type V = Seq<ValSpec>;

    open spec fn view(&self) -> Seq<ValSpec> {
        views_of(self.elements@)
    }
}

impl KotList {
    /// The declared-kind invariant: when a kind is declared, every element
    /// is of that kind.
    pub open spec fn wf(self) -> bool {
        self.element_type matches Some(k) ==> all_of_kind(self@, k)
    }

    /// Wrap the given elements and declared kind as they stand, without
    /// checking the elements against the kind.
    pub fn new_with_type(elements: Vec<Value>, element_type: Option<Kind>) -> (r: KotList)
        ensures
            r@ == views_of(elements@),
            r.element_type == element_type,
    {
        KotList { elements, element_type }
    }

    /// A list of the given elements, its kind inferred from the first.
    ///
    /// Fails with a type mismatch exactly when some element's kind differs
    /// from the first element's; the empty list carries no declared kind.
    pub fn new(elements: Vec<Value>) -> (r: Result<KotList, KotError>)
        ensures
            match r {
                Ok(l) => homogeneous(views_of(elements@)) && l@ == views_of(elements@) && l.wf()
                    && l.element_type == if elements@.len() == 0 {
                    Option::<Kind>::None
                } else {
                    Option::Some(kind_of(views_of(elements@)[0]))
                },
                Err(e) => e == KotError::TypeMismatch && !homogeneous(views_of(elements@)),
            },
    {
        proof {
            lemma_views_of(elements@);
        }
        if elements.len() == 0 {
            return Ok(KotList { elements, element_type: None });
        }
        let k = elements[0].kind();
        if all_values_of_kind(&elements, k) {
            Ok(KotList { elements, element_type: Some(k) })
        } else {
            assert(!homogeneous(views_of(elements@)));
            Err(KotError::TypeMismatch)
        }
    }

    /// A list of the given elements with the kind declared up front.
    ///
    /// Fails with a type mismatch exactly when some element is not of the
    /// declared kind.
    pub fn of_type(element_type: Kind, elements: Vec<Value>) -> (r: Result<KotList, KotError>)
        ensures
            match r {
                Ok(l) => all_of_kind(views_of(elements@), element_type) && l@ == views_of(
                    elements@,
                ) && l.wf() && l.element_type == Option::Some(element_type),
                Err(e) => e == KotError::TypeMismatch && !all_of_kind(
                    views_of(elements@),
                    element_type,
                ),
            },
    {
        if all_values_of_kind(&elements, element_type) {
            Ok(KotList { elements, element_type: Some(element_type) })
        } else {
            Err(KotError::TypeMismatch)
        }
    }

    /// An empty list with no declared kind.
    pub fn empty() -> (r: KotList)
        ensures
            r@ == Seq::<ValSpec>::empty(),
            r.element_type is None,
            r.wf(),
    {
        proof {
            lemma_views_of(Seq::<Value>::empty());
            assert(views_of(Seq::<Value>::empty()) =~= Seq::<ValSpec>::empty());
        }
        KotList { elements: Vec::new(), element_type: None }
    }

    /// The number of elements.
    pub fn size(&self) -> (r: usize)
        ensures
            r == self@.len(),
    {
        proof {
            lemma_views_of(self.elements@);
        }
        self.elements.len()
    }

    /// Whether the list holds no element.
    pub fn is_empty(&self) -> (r: bool)
        ensures
            r == (self@.len() == 0),
    {
        proof {
            lemma_views_of(self.elements@);
        }
        self.elements.len() == 0
    }

    /// Whether the list holds some element.
    pub fn is_not_empty(&self) -> (r: bool)
        ensures
            r == (self@.len() > 0),
    {
        !self.is_empty()
    }

    /// The half-open range of valid indices: from zero up to the length.
    pub fn indices(&self) -> (r: (usize, usize))
        ensures
            r.0 == 0,
            r.1 == self@.len(),
    {
        proof {
            lemma_views_of(self.elements@);
        }
        (0, self.elements.len())
    }

    /// The index of the last element, or `-1` for the empty list.
    pub fn last_index(&self) -> (r: i128)
        ensures
            r == self@.len() - 1,
    {
        proof {
            lemma_views_of(self.elements@);
        }
        if self.elements.len() == 0 {
            -1
        } else {
            (self.elements.len() - 1) as i128
        }
    }

    /// The element at `index`; out of bounds exactly when `index` is not
    /// below the length.
    pub fn get(&self, index: usize) -> (r: Result<Value, KotError>)
        ensures
            match r {
                Ok(v) => index < self@.len() && v@ == self@[index as int],
                Err(e) => e == KotError::OutOfBounds && index >= self@.len(),
            },
    {
        proof {
            lemma_views_of(self.elements@);
        }
        if index < self.elements.len() {
            Ok(self.elements[index].deep_copy())
        } else {
            Err(KotError::OutOfBounds)
        }
    }

    /// The element at `index`, or nothing when out of bounds.
    pub fn get_or_null(&self, index: usize) -> (r: Option<Value>)
        ensures
            match r {
                Some(v) => index < self@.len() && v@ == self@[index as int],
                None => index >= self@.len(),
            },
    {
        proof {
            lemma_views_of(self.elements@);
        }
        if index < self.elements.len() {
            Some(self.elements[index].deep_copy())
        } else {
            None
        }
    }

    /// The element at `index`, or nothing when out of bounds.
    pub fn get_or_none(&self, index: usize) -> (r: Option<Value>)
        ensures
            match r {
                Some(v) => index < self@.len() && v@ == self@[index as int],
                None => index >= self@.len(),
            },
    {
        self.get_or_null(index)
    }

    /// The element at a possibly negative `index`: a negative index counts
    /// from the end, so `-1` names the last element. Out of bounds exactly
    /// when the resolved position falls outside `[0, len)`.
    pub fn get_item(&self, index: i128) -> (r: Result<Value, KotError>)
        ensures
            match r {
                Ok(v) => {
                    let resolved = if index < 0 {
                        self@.len() + index
                    } else {
                        index as int
                    };
                    0 <= resolved < self@.len() && v@ == self@[resolved]
                },
                Err(e) => {
                    let resolved = if index < 0 {
                        self@.len() + index
                    } else {
                        index as int
                    };
                    e == KotError::OutOfBounds && !(0 <= resolved < self@.len())
                },
            },
    {
        proof {
            lemma_views_of(self.elements@);
        }
        let n = self.elements.len();
        let resolved: i128 = if index < 0 {
            n as i128 + index
        } else {
            index
        };
        if 0 <= resolved && resolved < n as i128 {
            Ok(self.elements[resolved as usize].deep_copy())
        } else {
            Err(KotError::OutOfBounds)
        }
    }

    /// The element at `index`, exactly as `get`.
    pub fn element_at(&self, index: usize) -> (r: Result<Value, KotError>)
        ensures
            match r {
                Ok(v) => index < self@.len() && v@ == self@[index as int],
                Err(e) => e == KotError::OutOfBounds && index >= self@.len(),
            },
    {
        self.get(index)
    }

    /// The element at `index`, or nothing when out of bounds.
    pub fn element_at_or_null(&self, index: usize) -> (r: Option<Value>)
        ensures
            match r {
                Some(v) => index < self@.len() && v@ == self@[index as int],
                None => index >= self@.len(),
            },
    {
        self.get_or_null(index)
    }

    /// The first element; fails exactly on the empty list.
    pub fn first(&self) -> (r: Result<Value, KotError>)
        ensures
            match r {
                Ok(v) => self@.len() > 0 && v@ == self@[0],
                Err(e) => e == KotError::EmptyContainer && self@.len() == 0,
            },
    {
        proof {
            lemma_views_of(self.elements@);
        }
        if self.elements.len() > 0 {
            Ok(self.elements[0].deep_copy())
        } else {
            Err(KotError::EmptyContainer)
        }
    }

    /// The first element, or nothing for the empty list.
    pub fn first_or_null(&self) -> (r: Option<Value>)
        ensures
            match r {
                Some(v) => self@.len() > 0 && v@ == self@[0],
                None => self@.len() == 0,
            },
    {
        proof {
            lemma_views_of(self.elements@);
        }
        if self.elements.len() > 0 {
            Some(self.elements[0].deep_copy())
        } else {
            None
        }
    }

    /// The last element; fails exactly on the empty list.
    pub fn last(&self) -> (r: Result<Value, KotError>)
        ensures
            match r {
                Ok(v) => self@.len() > 0 && v@ == self@[self@.len() - 1],
                Err(e) => e == KotError::EmptyContainer && self@.len() == 0,
            },
    {
        proof {
            lemma_views_of(self.elements@);
        }
        if self.elements.len() > 0 {
            Ok(self.elements[self.elements.len() - 1].deep_copy())
        } else {
            Err(KotError::EmptyContainer)
        }
    }

    /// The last element, or nothing for the empty list.
    pub fn last_or_null(&self) -> (r: Option<Value>)
        ensures
            match r {
                Some(v) => self@.len() > 0 && v@ == self@[self@.len() - 1],
                None => self@.len() == 0,
            },
    {
        proof {
            lemma_views_of(self.elements@);
        }
        if self.elements.len() > 0 {
            Some(self.elements[self.elements.len() - 1].deep_copy())
        } else {
            None
        }
    }

    /// The only element; fails on the empty list and when more than one
    /// element is held.
    pub fn single(&self) -> (r: Result<Value, KotError>)
        ensures
            match r {
                Ok(v) => self@.len() == 1 && v@ == self@[0],
                Err(e) => (e == KotError::EmptyContainer && self@.len() == 0) || (e
                    == KotError::NotFound && self@.len() > 1),
            },
    {
        proof {
            lemma_views_of(self.elements@);
        }
        if self.elements.len() == 0 {
            Err(KotError::EmptyContainer)
        } else if self.elements.len() > 1 {
            Err(KotError::NotFound)
        } else {
            Ok(self.elements[0].deep_copy())
        }
    }

    /// The only element, or nothing unless exactly one element is held.
    pub fn single_or_null(&self) -> (r: Option<Value>)
        ensures
            match r {
                Some(v) => self@.len() == 1 && v@ == self@[0],
                None => self@.len() != 1,
            },
    {
        proof {
            lemma_views_of(self.elements@);
        }
        if self.elements.len() == 1 {
            Some(self.elements[0].deep_copy())
        } else {
            None
        }
    }

    /// Whether some element equals `element`.
    pub fn contains(&self, element: &Value) -> (r: bool)
        ensures
            r == self@.contains(element@),
    {
        contains_value(&self.elements, element)
    }

    /// Whether every element of `elements` occurs in this list.
    pub fn contains_all(&self, elements: &KotList) -> (r: bool)
        ensures
            r == forall|i: int| 0 <= i < elements@.len() ==> self@.contains(#[trigger] elements@[i]),
    {
        proof {
            lemma_views_of(elements.elements@);
        }
        let mut i: usize = 0;
        while i < elements.elements.len()
            invariant
                i <= elements.elements.len(),
                forall|j: int| 0 <= j < i ==> self@.contains(#[trigger] elements@[j]),
            decreases elements.elements.len() - i,
        {
            if !contains_value(&self.elements, &elements.elements[i]) {
                assert(!self@.contains(elements@[i as int]));
                return false;
            }
            i = i + 1;
        }
        true
    }

    /// The index of the first element equal to `element`, or `-1`.
    pub fn index_of(&self, element: &Value) -> (r: i128)
        ensures
            r == first_index_of(self@, element@),
    {
        proof {
            lemma_first_index_of(self@, element@);
        }
        match find_first(&self.elements, element) {
            Some(i) => i as i128,
            None => -1,
        }
    }

    /// The index of the last element equal to `element`, or `-1`.
    pub fn last_index_of(&self, element: &Value) -> (r: i128)
        ensures
            r == last_index_of(self@, element@),
    {
        proof {
            lemma_last_index_of(self@, element@);
        }
        match find_last(&self.elements, element) {
            Some(i) => i as i128,
            None => -1,
        }
    }

    /// Whether this list holds the same elements in the same order as
    /// `other`. Lists of different length or differing at any position are
    /// unequal.
    pub fn equals(&self, other: &KotList) -> (r: bool)
        ensures
            r == (self@ == other@),
    {
        values_equal(&self.elements, &other.elements)
    }

    /// A fresh list holding the same elements and declared kind.
    pub fn to_kot_list(&self) -> (r: KotList)
        ensures
            r@ == self@,
            r.element_type == self.element_type,
    {
        KotList { elements: clone_values(&self.elements), element_type: self.element_type }
    }

    /// The elements as a plain vector.
    pub fn to_list(&self) -> (r: Vec<Value>)
        ensures
            views_of(r@) == self@,
    {
        clone_values(&self.elements)
    }
}

impl KotList {
    /// The elements in reverse order, keeping the declared kind.
    pub fn reversed(&self) -> (r: KotList)
        ensures
            r@ == self@.reverse(),
            r.element_type == self.element_type,
            self.wf() ==> r.wf(),
    {
        let r = KotList {
            elements: crate::vec_ops::reverse_values(&self.elements),
            element_type: self.element_type,
        };
        proof {
            if self.wf() && self.element_type is Some {
                assert forall|i: int| 0 <= i < r@.len() implies kind_of(#[trigger] r@[i])
                    == self.element_type->0 by {
                    assert(r@[i] == self@[self@.len() - 1 - i]);
                }
            }
        }
        r
    }

    /// The elements in reverse order, exactly as `reversed`.
    pub fn as_reversed(&self) -> (r: KotList)
        ensures
            r@ == self@.reverse(),
            r.element_type == self.element_type,
            self.wf() ==> r.wf(),
    {
        self.reversed()
    }

    /// The elements with duplicates dropped, first occurrences kept in
    /// their order.
    pub fn distinct(&self) -> (r: KotList)
        ensures
            r@ == dedup_first(self@),
            r.element_type == self.element_type,
            self.wf() ==> r.wf(),
    {
        let r = KotList {
            elements: dedup_values(&self.elements),
            element_type: self.element_type,
        };
        proof {
            lemma_dedup_first(self@);
            if self.wf() && self.element_type is Some {
                assert forall|i: int| 0 <= i < r@.len() implies kind_of(#[trigger] r@[i])
                    == self.element_type->0 by {
                    assert(r@.contains(r@[i]));
                    assert(self@.contains(r@[i]));
                    let w = choose|w: int| 0 <= w < self@.len() && self@[w] == r@[i];
                    assert(kind_of(self@[w]) == self.element_type->0);
                }
            }
        }
        r
    }

    /// This list's elements followed by the other's. The declared kind is
    /// carried over unchecked, as append never re-validates.
    pub fn plus(&self, other: &KotList) -> (r: KotList)
        ensures
            r@ == self@ + other@,
            r.element_type == self.element_type,
    {
        KotList {
            elements: concat_values(&self.elements, &other.elements),
            element_type: self.element_type,
        }
    }

    /// This list's elements with `element` appended.
    pub fn plus_element(&self, element: &Value) -> (r: KotList)
        ensures
            r@ == self@.push(element@),
            r.element_type == self.element_type,
    {
        let mut elements = clone_values(&self.elements);
        let copied = element.deep_copy();
        proof {
            crate::vec_ops::lemma_views_of_push(elements@, copied);
        }
        elements.push(copied);
        KotList { elements, element_type: self.element_type }
    }

    /// This list's elements with, for each element of `other` in turn, its
    /// first occurrence removed.
    pub fn minus(&self, other: &KotList) -> (r: KotList)
        ensures
            r@ == remove_each(self@, other@),
            r.element_type == self.element_type,
    {
        KotList {
            elements: remove_each_values(&self.elements, &other.elements),
            element_type: self.element_type,
        }
    }

    /// This list's elements with the first occurrence of `element` removed.
    pub fn minus_element(&self, element: &Value) -> (r: KotList)
        ensures
            r@ == remove_first(self@, element@),
            r.element_type == self.element_type,
    {
        let mut elements = clone_values(&self.elements);
        let ghost before = elements@;
        match find_first(&elements, element) {
            Some(i) => {
                proof {
                    crate::vec_ops::lemma_views_of_remove(before, i as int);
                }
                elements.remove(i);
            },
            None => {},
        }
        KotList { elements, element_type: self.element_type }
    }

    /// The elements from `from_index` (inclusive) to `to_index` (exclusive);
    /// out of bounds unless `from_index <= to_index <= len`.
    pub fn sub_list(&self, from_index: usize, to_index: usize) -> (r: Result<KotList, KotError>)
        ensures
            match r {
                Ok(l) => from_index <= to_index <= self@.len() && l@ == self@.subrange(
                    from_index as int,
                    to_index as int,
                ) && l.element_type == self.element_type && (self.wf() ==> l.wf()),
                Err(e) => e == KotError::OutOfBounds && !(from_index <= to_index <= self@.len()),
            },
    {
        proof {
            lemma_views_of(self.elements@);
        }
        if from_index > to_index || to_index > self.elements.len() {
            return Err(KotError::OutOfBounds);
        }
        let mut elements: Vec<Value> = Vec::new();
        let mut i: usize = from_index;
        while i < to_index
            invariant
                from_index <= i <= to_index,
                elements@.len() == i - from_index,
                forall|j: int|
                    0 <= j < elements@.len() ==> elements@[j]@ == self@[from_index + j],
            decreases to_index - i,
        {
            elements.push(self.elements[i].deep_copy());
            i = i + 1;
        }
        proof {
            lemma_views_of(elements@);
            assert(views_of(elements@) =~= self@.subrange(from_index as int, to_index as int));
        }
        Ok(KotList { elements, element_type: self.element_type })
    }

    /// The first `n` elements, or the whole list when `n` exceeds the
    /// length.
    pub fn take(&self, n: usize) -> (r: KotList)
        ensures
            r@ == self@.take(if n <= self@.len() {
                n as int
            } else {
                self@.len() as int
            }),
            r.element_type == self.element_type,
    {
        proof {
            lemma_views_of(self.elements@);
        }
        let end = if n <= self.elements.len() {
            n
        } else {
            self.elements.len()
        };
        let r = self.sub_list(0, end);
        match r {
            Ok(l) => l,
            Err(_) => {
                // `0 <= end <= len` always holds.
                assert(false);
                KotList::empty()
            },
        }
    }

    /// The last `n` elements, or the whole list when `n` exceeds the
    /// length.
    pub fn take_last(&self, n: usize) -> (r: KotList)
        ensures
            r@ == self@.skip(if n <= self@.len() {
                self@.len() - n
            } else {
                0
            }),
            r.element_type == self.element_type,
    {
        proof {
            lemma_views_of(self.elements@);
        }
        let start = if n <= self.elements.len() {
            self.elements.len() - n
        } else {
            0
        };
        match self.sub_list(start, self.elements.len()) {
            Ok(l) => l,
            Err(_) => {
                assert(false);
                KotList::empty()
            },
        }
    }

    /// All elements but the first `n`; empty when `n` exceeds the length.
    pub fn drop(&self, n: usize) -> (r: KotList)
        ensures
            r@ == self@.skip(if n <= self@.len() {
                n as int
            } else {
                self@.len() as int
            }),
            r.element_type == self.element_type,
    {
        proof {
            lemma_views_of(self.elements@);
        }
        let start = if n <= self.elements.len() {
            n
        } else {
            self.elements.len()
        };
        match self.sub_list(start, self.elements.len()) {
            Ok(l) => l,
            Err(_) => {
                assert(false);
                KotList::empty()
            },
        }
    }

    /// All elements but the last `n`; empty when `n` exceeds the length.
    pub fn drop_last(&self, n: usize) -> (r: KotList)
        ensures
            r@ == self@.take(if n <= self@.len() {
                self@.len() - n
            } else {
                0
            }),
            r.element_type == self.element_type,
    {
        proof {
            lemma_views_of(self.elements@);
        }
        let end = if n <= self.elements.len() {
            self.elements.len() - n
        } else {
            0
        };
        match self.sub_list(0, end) {
            Ok(l) => l,
            Err(_) => {
                assert(false);
                KotList::empty()
            },
        }
    }

    /// The elements in ascending order. Fails with a type mismatch exactly
    /// when the elements cannot all be ordered against one another.
    pub fn sorted(&self) -> (r: Result<KotList, KotError>)
        ensures
            match r {
                Ok(l) => sortable(self@) && sorted_vals(l@) && l@.to_multiset()
                    == self@.to_multiset() && l@.len() == self@.len() && l.element_type
                    == self.element_type,
                Err(e) => e == KotError::TypeMismatch && !sortable(self@),
            },
    {
        broadcast use vstd::seq_lib::group_to_multiset_ensures;

        proof {
            lemma_views_of(self.elements@);
        }
        if !check_sortable(&self.elements) {
            return Err(KotError::TypeMismatch);
        }
        if self.elements.len() <= 1 {
            let elements = clone_values(&self.elements);
            return Ok(KotList { elements, element_type: self.element_type });
        }
        let elements = sorted_values(&self.elements);
        proof {
            lemma_views_of(elements@);
        }
        Ok(KotList { elements, element_type: self.element_type })
    }

    /// The elements in descending order. Fails with a type mismatch exactly
    /// when the elements cannot all be ordered against one another.
    pub fn sorted_descending(&self) -> (r: Result<KotList, KotError>)
        ensures
            match r {
                Ok(l) => sortable(self@) && sorted_vals_desc(l@) && l@.to_multiset()
                    == self@.to_multiset() && l@.len() == self@.len() && l.element_type
                    == self.element_type,
                Err(e) => e == KotError::TypeMismatch && !sortable(self@),
            },
    {
        broadcast use vstd::seq_lib::group_to_multiset_ensures;

        match self.sorted() {
            Ok(asc) => {
                let ghost a = asc@;
                let r = asc.reversed();
                proof {
                    a.lemma_reverse_to_multiset();
                    assert forall|i: int, j: int| 0 <= i < j < r@.len() implies val_le(
                        r@[j],
                        r@[i],
                    ) by {
                        assert(r@[i] == a[a.len() - 1 - i]);
                        assert(r@[j] == a[a.len() - 1 - j]);
                    }
                }
                Ok(r)
            },
            Err(e) => Err(e),
        }
    }

    /// The first maximal element. Fails on the empty list, and with a type
    /// mismatch when the elements cannot all be ordered.
    pub fn max(&self) -> (r: Result<Value, KotError>)
        ensures
            match r {
                Ok(v) => exists|i: int| is_max_at(self@, i, v@),
                Err(e) => (e == KotError::EmptyContainer && self@.len() == 0) || (e
                    == KotError::TypeMismatch && self@.len() > 0 && !sortable(self@)),
            },
    {
        proof {
            lemma_views_of(self.elements@);
        }
        if self.elements.len() == 0 {
            return Err(KotError::EmptyContainer);
        }
        if !check_sortable(&self.elements) {
            return Err(KotError::TypeMismatch);
        }
        if self.elements.len() == 1 {
            let v = self.elements[0].deep_copy();
            proof {
                crate::value::lemma_val_le_refl(self@[0]);
                assert(is_max_at(self@, 0, v@));
            }
            return Ok(v);
        }
        let m = crate::vec_ops::max_position(&self.elements);
        let v = self.elements[m].deep_copy();
        proof {
            assert(is_max_at(self@, m as int, v@));
        }
        Ok(v)
    }

    /// The first minimal element. Fails on the empty list, and with a type
    /// mismatch when the elements cannot all be ordered.
    pub fn min(&self) -> (r: Result<Value, KotError>)
        ensures
            match r {
                Ok(v) => exists|i: int| is_min_at(self@, i, v@),
                Err(e) => (e == KotError::EmptyContainer && self@.len() == 0) || (e
                    == KotError::TypeMismatch && self@.len() > 0 && !sortable(self@)),
            },
    {
        proof {
            lemma_views_of(self.elements@);
        }
        if self.elements.len() == 0 {
            return Err(KotError::EmptyContainer);
        }
        if !check_sortable(&self.elements) {
            return Err(KotError::TypeMismatch);
        }
        if self.elements.len() == 1 {
            let v = self.elements[0].deep_copy();
            proof {
                crate::value::lemma_val_le_refl(self@[0]);
                assert(is_min_at(self@, 0, v@));
            }
            return Ok(v);
        }
        let m = crate::vec_ops::min_position(&self.elements);
        let v = self.elements[m].deep_copy();
        proof {
            assert(is_min_at(self@, m as int, v@));
        }
        Ok(v)
    }

    /// The first maximal element, or nothing for the empty list.
    pub fn max_or_null(&self) -> (r: Result<Option<Value>, KotError>)
        ensures
            match r {
                Ok(o) => match o {
                    Some(v) => exists|i: int| is_max_at(self@, i, v@),
                    None => self@.len() == 0,
                },
                Err(e) => e == KotError::TypeMismatch && self@.len() > 0 && !sortable(self@),
            },
    {
        if self.is_empty() {
            return Ok(None);
        }
        match self.max() {
            Ok(v) => Ok(Some(v)),
            Err(e) => Err(e),
        }
    }

    /// The first minimal element, or nothing for the empty list.
    pub fn min_or_null(&self) -> (r: Result<Option<Value>, KotError>)
        ensures
            match r {
                Ok(o) => match o {
                    Some(v) => exists|i: int| is_min_at(self@, i, v@),
                    None => self@.len() == 0,
                },
                Err(e) => e == KotError::TypeMismatch && self@.len() > 0 && !sortable(self@),
            },
    {
        if self.is_empty() {
            return Ok(None);
        }
        match self.min() {
            Ok(v) => Ok(Some(v)),
            Err(e) => Err(e),
        }
    }
}

impl KotList {
    /// One level of flattening: each list-valued element contributes its
    /// items in place, every other element stands for itself.
    pub fn flatten(&self) -> (r: KotList)
        ensures
            r@ == flatten_vals(self@),
            r.element_type is None,
    {
        proof {
            lemma_views_of(self.elements@);
            assert(self@.take(0) =~= Seq::<ValSpec>::empty());
        }
        let mut out: Vec<Value> = Vec::new();
        let mut i: usize = 0;
        while i < self.elements.len()
            invariant
                i <= self.elements@.len(),
                views_of(out@) == flatten_vals(self@.take(i as int)),
            decreases self.elements@.len() - i,
        {
            proof {
                assert(self@.take(i + 1).drop_last() =~= self@.take(i as int));
                assert(self@.take(i + 1).last() == self@[i as int]);
            }
            let element = &self.elements[i];
            match element {
                Value::List(items) => {
                    proof {
                        lemma_views_of(items@);
                        assert(element@ == ValSpec::List(views_of(items@)));
                    }
                    let ghost base = views_of(out@);
                    let mut j: usize = 0;
                    while j < items.len()
                        invariant
                            j <= items@.len(),
                            views_of(out@).len() == base.len() + j,
                            views_of(out@) == base + views_of(items@).take(j as int),
                        decreases items@.len() - j,
                    {
                        let copied = items[j].deep_copy();
                        proof {
                            crate::vec_ops::lemma_views_of_push(out@, copied);
                            assert(base + views_of(items@).take(j + 1) =~= (base + views_of(
                                items@,
                            ).take(j as int)).push(views_of(items@)[j as int]));
                        }
                        out.push(copied);
                        j = j + 1;
                    }
                    proof {
                        assert(views_of(items@).take(items@.len() as int) =~= views_of(items@));
                        assert(views_of(out@) =~= flatten_vals(self@.take(i + 1)));
                    }
                },
                _ => {
                    let copied = element.deep_copy();
                    proof {
                        crate::vec_ops::lemma_views_of_push(out@, copied);
                        assert(flatten_vals(self@.take(i + 1)) =~= flatten_vals(
                            self@.take(i as int),
                        ).push(self@[i as int]));
                    }
                    out.push(copied);
                },
            }
            i = i + 1;
        }
        proof {
            assert(self@.take(self.elements@.len() as int) =~= self@);
        }
        KotList { elements: out, element_type: None }
    }

    /// The elements cut into consecutive runs of `size`, each run a
    /// list-valued element; the final run may be shorter. Fails exactly when
    /// `size` is zero.
    pub fn chunked(&self, size: usize) -> (r: Result<KotList, KotError>)
        ensures
            match r {
                Ok(l) => size >= 1 && l@ == chunks_of(self@, size as int) && l.element_type
                    is None,
                Err(e) => e == KotError::InvalidArgument && size == 0,
            },
    {
        proof {
            lemma_views_of(self.elements@);
        }
        if size == 0 {
            return Err(KotError::InvalidArgument);
        }
        let mut out: Vec<Value> = Vec::new();
        let mut i: usize = 0;
        proof {
            assert(self@.skip(0) =~= self@);
        }
        while i < self.elements.len()
            invariant
                i <= self.elements@.len(),
                size >= 1,
                chunks_of(self@, size as int) == views_of(out@) + chunks_of(
                    self@.skip(i as int),
                    size as int,
                ),
            decreases self.elements@.len() - i,
        {
            let ghost suffix = self@.skip(i as int);
            let remaining = self.elements.len() - i;
            let end = if remaining <= size {
                self.elements.len()
            } else {
                i + size
            };
            let chunk = crate::vec_ops::copy_range(&self.elements, i, end);
            let chunk_value = Value::List(chunk);
            proof {
                assert(chunk_value@ == ValSpec::List(views_of(chunk@)));
                assert(views_of(chunk@) =~= suffix.take(end - i));
                crate::vec_ops::lemma_views_of_push(out@, chunk_value);
                if remaining <= size {
                    assert(suffix.take(end - i) =~= suffix);
                    assert(chunks_of(suffix, size as int) =~= seq![chunk_value@]);
                } else {
                    assert(suffix.take(size as int) == suffix.take(end - i));
                    assert(suffix.skip(size as int) =~= self@.skip(end as int));
                    assert(chunks_of(suffix, size as int) =~= seq![chunk_value@] + chunks_of(
                        self@.skip(end as int),
                        size as int,
                    ));
                }
                assert(views_of(out@).push(chunk_value@) =~= views_of(out@) + seq![chunk_value@]);
            }
            out.push(chunk_value);
            i = end;
        }
        proof {
            assert(self@.skip(self.elements@.len() as int) =~= Seq::<ValSpec>::empty());
        }
        Ok(KotList { elements: out, element_type: None })
    }

    /// Sliding windows of `size` advancing by `step`, each window a
    /// list-valued element. A window shorter than `size` appears only when
    /// `partial_windows` is set; otherwise the series stops at the first
    /// short window. Fails exactly when `size` or `step` is zero.
    pub fn windowed(&self, size: usize, step: usize, partial_windows: bool) -> (r: Result<
        KotList,
        KotError,
    >)
        ensures
            match r {
                Ok(l) => size >= 1 && step >= 1 && l@ == windows_of(
                    self@,
                    size as int,
                    step as int,
                    partial_windows,
                ) && l.element_type is None,
                Err(e) => e == KotError::InvalidArgument && (size == 0 || step == 0),
            },
    {
        proof {
            lemma_views_of(self.elements@);
        }
        if size == 0 || step == 0 {
            return Err(KotError::InvalidArgument);
        }
        let mut out: Vec<Value> = Vec::new();
        let mut i: usize = 0;
        proof {
            assert(self@.skip(0) =~= self@);
        }
        while i < self.elements.len()
            invariant
                i <= self.elements@.len(),
                size >= 1,
                step >= 1,
                windows_of(self@, size as int, step as int, partial_windows) == views_of(out@)
                    + windows_of(self@.skip(i as int), size as int, step as int, partial_windows),
            decreases self.elements@.len() - i,
        {
            let ghost suffix = self@.skip(i as int);
            let remaining = self.elements.len() - i;
            if remaining < size && !partial_windows {
                proof {
                    assert(windows_of(suffix, size as int, step as int, partial_windows)
                        =~= Seq::<ValSpec>::empty());
                    assert(self@.skip(self.elements@.len() as int) =~= Seq::<ValSpec>::empty());
                }
                i = self.elements.len();
            } else {
                let end = if remaining <= size {
                    self.elements.len()
                } else {
                    i + size
                };
                let window = crate::vec_ops::copy_range(&self.elements, i, end);
                let window_value = Value::List(window);
                let advance = if step <= remaining {
                    step
                } else {
                    remaining
                };
                proof {
                    assert(window_value@ == ValSpec::List(views_of(window@)));
                    assert(views_of(window@) =~= suffix.take(end - i));
                    crate::vec_ops::lemma_views_of_push(out@, window_value);
                    assert(suffix.skip(advance as int) =~= self@.skip(i + advance));
                    if remaining >= size {
                        assert(suffix.take(size as int) == suffix.take(end - i));
                        assert(windows_of(suffix, size as int, step as int, partial_windows)
                            =~= seq![window_value@] + windows_of(
                            self@.skip(i + advance),
                            size as int,
                            step as int,
                            partial_windows,
                        ));
                    } else {
                        assert(suffix.take(end - i) =~= suffix);
                        assert(windows_of(suffix, size as int, step as int, partial_windows)
                            =~= seq![window_value@] + windows_of(
                            self@.skip(i + advance),
                            size as int,
                            step as int,
                            partial_windows,
                        ));
                    }
                    assert(views_of(out@).push(window_value@) =~= views_of(out@) + seq![
                        window_value@,
                    ]);
                }
                out.push(window_value);
                i = i + advance;
            }
        }
        proof {
            assert(self@.skip(self.elements@.len() as int) =~= Seq::<ValSpec>::empty());
        }
        Ok(KotList { elements: out, element_type: None })
    }

    /// Elements paired position by position with `other`'s, as two-item
    /// list values; the longer side's tail is dropped.
    pub fn zip(&self, other: &KotList) -> (r: KotList)
        ensures
            r@.len() == if self@.len() <= other@.len() {
                self@.len()
            } else {
                other@.len()
            },
            forall|i: int|
                0 <= i < r@.len() ==> #[trigger] r@[i] == ValSpec::List(
                    seq![self@[i], other@[i]],
                ),
            r.element_type is None,
    {
        proof {
            lemma_views_of(self.elements@);
            lemma_views_of(other.elements@);
        }
        let n = if self.elements.len() <= other.elements.len() {
            self.elements.len()
        } else {
            other.elements.len()
        };
        let mut out: Vec<Value> = Vec::new();
        let mut i: usize = 0;
        while i < n
            invariant
                i <= n,
                n == if self@.len() <= other@.len() {
                    self@.len()
                } else {
                    other@.len()
                },
                out@.len() == i,
                forall|j: int|
                    0 <= j < i ==> #[trigger] out@[j]@ == ValSpec::List(
                        seq![self@[j], other@[j]],
                    ),
            decreases n - i,
        {
            let mut pair: Vec<Value> = Vec::new();
            pair.push(self.elements[i].deep_copy());
            pair.push(other.elements[i].deep_copy());
            let pair_value = Value::List(pair);
            proof {
                lemma_views_of(pair@);
                assert(views_of(pair@) =~= seq![self@[i as int], other@[i as int]]);
            }
            out.push(pair_value);
            i = i + 1;
        }
        proof {
            lemma_views_of(out@);
        }
        KotList { elements: out, element_type: None }
    }

    /// The first and second items of each two-item list element, as two
    /// lists. Fails with a type mismatch exactly when some element is not a
    /// list of exactly two items.
    pub fn unzip(&self) -> (r: Result<(KotList, KotList), KotError>)
        ensures
            match r {
                Ok(pair) => {
                    &&& forall|i: int|
                        0 <= i < self@.len() ==> ((#[trigger] self@[i]) matches ValSpec::List(p)
                            && p.len() == 2)
                    &&& pair.0@.len() == self@.len()
                    &&& pair.1@.len() == self@.len()
                    &&& forall|i: int|
                        0 <= i < self@.len() ==> #[trigger] self@[i] == ValSpec::List(
                            seq![pair.0@[i], pair.1@[i]],
                        )
                    &&& pair.0.element_type is None
                    &&& pair.1.element_type is None
                },
                Err(e) => e == KotError::TypeMismatch && exists|i: int|
                    0 <= i < self@.len() && !((#[trigger] self@[i]) matches ValSpec::List(p)
                        && p.len() == 2),
            },
    {
        proof {
            lemma_views_of(self.elements@);
        }
        let mut firsts: Vec<Value> = Vec::new();
        let mut seconds: Vec<Value> = Vec::new();
        let mut i: usize = 0;
        while i < self.elements.len()
            invariant
                i <= self.elements@.len(),
                firsts@.len() == i,
                seconds@.len() == i,
                forall|j: int|
                    0 <= j < i ==> ((#[trigger] self@[j]) matches ValSpec::List(p) && p.len()
                        == 2),
                forall|j: int|
                    0 <= j < i ==> #[trigger] self@[j] == ValSpec::List(
                        seq![firsts@[j]@, seconds@[j]@],
                    ),
            decreases self.elements@.len() - i,
        {
            let element = &self.elements[i];
            match element {
                Value::List(items) => {
                    proof {
                        lemma_views_of(items@);
                        assert(element@ == ValSpec::List(views_of(items@)));
                    }
                    if items.len() != 2 {
                        assert(self@[i as int] matches ValSpec::List(p) && p.len() != 2);
                        return Err(KotError::TypeMismatch);
                    }
                    firsts.push(items[0].deep_copy());
                    seconds.push(items[1].deep_copy());
                    proof {
                        assert(views_of(items@) =~= seq![firsts@[i as int]@, seconds@[i as int]@]);
                    }
                },
                _ => {
                    assert(!(self@[i as int] matches ValSpec::List(p)));
                    return Err(KotError::TypeMismatch);
                },
            }
            i = i + 1;
        }
        proof {
            lemma_views_of(firsts@);
            lemma_views_of(seconds@);
        }
        Ok(
            (
                KotList { elements: firsts, element_type: None },
                KotList { elements: seconds, element_type: None },
            ),
        )
    }

    /// The elements that are not null, in order.
    pub fn filter_not_null(&self) -> (r: KotList)
        ensures
            r@ == self@.filter(|v: ValSpec| v != ValSpec::Null),
            r.element_type == self.element_type,
            self.wf() ==> r.wf(),
    {
        proof {
            lemma_views_of(self.elements@);
        }
        let ghost pred = |v: ValSpec| v != ValSpec::Null;
        let mut out: Vec<Value> = Vec::new();
        let mut i: usize = 0;
        proof {
            reveal(Seq::filter);
            assert(self@.take(0) =~= Seq::<ValSpec>::empty());
            assert(self@.take(0).filter(pred) =~= Seq::<ValSpec>::empty());
        }
        while i < self.elements.len()
            invariant
                i <= self.elements@.len(),
                views_of(out@) == self@.take(i as int).filter(pred),
            decreases self.elements@.len() - i,
        {
            let ghost p = self@.take(i as int);
            proof {
                assert(self@.take(i + 1) =~= p.push(self@[i as int]));
                Seq::lemma_filter_push(p, self@[i as int], pred);
            }
            let keep = match &self.elements[i] {
                Value::Null => false,
                _ => true,
            };
            if keep {
                let copied = self.elements[i].deep_copy();
                proof {
                    crate::vec_ops::lemma_views_of_push(out@, copied);
                }
                out.push(copied);
            }
            i = i + 1;
        }
        proof {
            assert(self@.take(self.elements@.len() as int) =~= self@);
            if self.wf() && self.element_type is Some {
                assert forall|j: int| 0 <= j < views_of(out@).len() implies kind_of(
                    #[trigger] views_of(out@)[j],
                ) == self.element_type->0 by {
                    let x = views_of(out@)[j];
                    assert(self@.filter(pred).contains(x));
                    Seq::lemma_filter_contains_rev(self@, pred, x);
                    let w = choose|w: int| 0 <= w < self@.len() && self@[w] == x;
                    assert(kind_of(self@[w]) == self.element_type->0);
                }
            }
        }
        KotList { elements: out, element_type: self.element_type }
    }

    /// The elements of kind `k`, in order; the result declares no kind.
    pub fn filter_is_instance(&self, k: Kind) -> (r: KotList)
        ensures
            r@ == self@.filter(|v: ValSpec| kind_of(v) == k),
            r.element_type is None,
    {
        proof {
            lemma_views_of(self.elements@);
        }
        let ghost pred = |v: ValSpec| kind_of(v) == k;
        let mut out: Vec<Value> = Vec::new();
        let mut i: usize = 0;
        proof {
            reveal(Seq::filter);
            assert(self@.take(0) =~= Seq::<ValSpec>::empty());
            assert(self@.take(0).filter(pred) =~= Seq::<ValSpec>::empty());
        }
        while i < self.elements.len()
            invariant
                i <= self.elements@.len(),
                views_of(out@) == self@.take(i as int).filter(pred),
            decreases self.elements@.len() - i,
        {
            let ghost p = self@.take(i as int);
            proof {
                assert(self@.take(i + 1) =~= p.push(self@[i as int]));
                Seq::lemma_filter_push(p, self@[i as int], pred);
            }
            if self.elements[i].kind() == k {
                let copied = self.elements[i].deep_copy();
                proof {
                    crate::vec_ops::lemma_views_of_push(out@, copied);
                }
                out.push(copied);
            }
            i = i + 1;
        }
        proof {
            assert(self@.take(self.elements@.len() as int) =~= self@);
        }
        KotList { elements: out, element_type: None }
    }
}

impl KotList {
    /// Each element transformed, in order; the result declares no kind.
    /// Each result element is an output the transform may produce for the
    /// element at its position.
    pub fn map<F: Fn(&Value) -> Value>(&self, transform: F) -> (r: KotList)
        requires
            forall|i: int|
                0 <= i < self.elements@.len() ==> call_requires(
                    transform,
                    (&self.elements@[i],),
                ),
        ensures
            r@.len() == self@.len(),
            r.element_type is None,
            exists|outs: Seq<Value>|
                {
                    &&& outs.len() == self.elements@.len()
                    &&& forall|i: int|
                        0 <= i < outs.len() ==> call_ensures(
                            transform,
                            (&self.elements@[i],),
                            #[trigger] outs[i],
                        )
                    &&& r@ == views_of(outs)
                },
    {
        proof {
            lemma_views_of(self.elements@);
        }
        let ghost mut outs: Seq<Value> = Seq::empty();
        let mut result: Vec<Value> = Vec::new();
        let mut i: usize = 0;
        while i < self.elements.len()
            invariant
                i <= self.elements@.len(),
                outs.len() == i,
                result@ == outs,
                forall|j: int|
                    0 <= j < i ==> call_ensures(
                        transform,
                        (&self.elements@[j],),
                        #[trigger] outs[j],
                    ),
            decreases self.elements@.len() - i,
        {
            let transformed = transform(&self.elements[i]);
            proof {
                outs = outs.push(transformed);
            }
            result.push(transformed);
            i = i + 1;
        }
        proof {
            lemma_views_of(result@);
            lemma_views_of(outs);
            assert(views_of(result@) =~= views_of(outs));
        }
        KotList { elements: result, element_type: None }
    }

    /// Each element transformed, keeping only non-null results, in order.
    pub fn map_not_null<F: Fn(&Value) -> Value>(&self, transform: F) -> (r: KotList)
        requires
            forall|i: int|
                0 <= i < self.elements@.len() ==> call_requires(
                    transform,
                    (&self.elements@[i],),
                ),
        ensures
            r.element_type is None,
            exists|outs: Seq<Value>|
                {
                    &&& outs.len() == self.elements@.len()
                    &&& forall|i: int|
                        0 <= i < outs.len() ==> call_ensures(
                            transform,
                            (&self.elements@[i],),
                            #[trigger] outs[i],
                        )
                    &&& r@ == views_of(outs).filter(|v: ValSpec| v != ValSpec::Null)
                },
    {
        proof {
            lemma_views_of(self.elements@);
        }
        let ghost pred = |v: ValSpec| v != ValSpec::Null;
        let ghost mut outs: Seq<Value> = Seq::empty();
        let mut result: Vec<Value> = Vec::new();
        let mut i: usize = 0;
        proof {
            reveal(Seq::filter);
            lemma_views_of(outs);
            assert(views_of(outs).filter(pred) =~= Seq::<ValSpec>::empty());
        }
        while i < self.elements.len()
            invariant
                i <= self.elements@.len(),
                outs.len() == i,
                forall|j: int|
                    0 <= j < i ==> call_ensures(
                        transform,
                        (&self.elements@[j],),
                        #[trigger] outs[j],
                    ),
                views_of(result@) == views_of(outs).filter(pred),
            decreases self.elements@.len() - i,
        {
            let transformed = transform(&self.elements[i]);
            proof {
                crate::vec_ops::lemma_views_of_push(outs, transformed);
                Seq::lemma_filter_push(views_of(outs), transformed@, pred);
            }
            let keep = match &transformed {
                Value::Null => false,
                _ => true,
            };
            if keep {
                proof {
                    crate::vec_ops::lemma_views_of_push(result@, transformed);
                }
                result.push(transformed);
                proof {
                    outs = outs.push(result@[result@.len() - 1]);
                }
            } else {
                proof {
                    outs = outs.push(transformed);
                }
            }
            i = i + 1;
        }
        KotList { elements: result, element_type: None }
    }

    /// The elements the predicate accepts, in order, under some run of the
    /// predicate over the list.
    pub fn filter<F: Fn(&Value) -> bool>(&self, predicate: F) -> (r: KotList)
        requires
            forall|i: int|
                0 <= i < self.elements@.len() ==> call_requires(
                    predicate,
                    (&self.elements@[i],),
                ),
        ensures
            r.element_type == self.element_type,
            self.wf() ==> r.wf(),
            exists|d: Seq<bool>|
                {
                    &&& d.len() == self.elements@.len()
                    &&& forall|i: int|
                        0 <= i < d.len() ==> call_ensures(
                            predicate,
                            (&self.elements@[i],),
                            #[trigger] d[i],
                        )
                    &&& r@ == masked_views(self.elements@, d)
                },
    {
        proof {
            lemma_views_of(self.elements@);
        }
        let ghost mut d: Seq<bool> = Seq::empty();
        let mut result: Vec<Value> = Vec::new();
        let mut i: usize = 0;
        while i < self.elements.len()
            invariant
                i <= self.elements@.len(),
                d.len() == i,
                forall|j: int|
                    0 <= j < i ==> call_ensures(
                        predicate,
                        (&self.elements@[j],),
                        #[trigger] d[j],
                    ),
                views_of(result@) == masked_views(self.elements@.subrange(0, i as int), d),
            decreases self.elements@.len() - i,
        {
            let keep = predicate(&self.elements[i]);
            proof {
                assert(self.elements@.subrange(0, i + 1).drop_last() =~= self.elements@.subrange(
                    0,
                    i as int,
                ));
                assert(d.push(keep).drop_last() =~= d);
            }
            if keep {
                let copied = self.elements[i].deep_copy();
                proof {
                    crate::vec_ops::lemma_views_of_push(result@, copied);
                }
                result.push(copied);
            }
            proof {
                d = d.push(keep);
            }
            i = i + 1;
        }
        proof {
            assert(self.elements@.subrange(0, self.elements@.len() as int) =~= self.elements@);
            if self.wf() && self.element_type is Some {
                crate::vec_ops::lemma_masked_views(self.elements@, d);
                assert forall|j: int| 0 <= j < views_of(result@).len() implies kind_of(
                    #[trigger] views_of(result@)[j],
                ) == self.element_type->0 by {
                    let w = choose|w: int|
                        0 <= w < self.elements@.len() && #[trigger] masked_views(
                            self.elements@,
                            d,
                        )[j] == self.elements@[w]@ && d[w];
                    assert(kind_of(self@[w]) == self.element_type->0);
                }
            }
        }
        KotList { elements: result, element_type: self.element_type }
    }

    /// The elements the predicate rejects, in order, under some run of the
    /// predicate over the list.
    pub fn filter_not<F: Fn(&Value) -> bool>(&self, predicate: F) -> (r: KotList)
        requires
            forall|i: int|
                0 <= i < self.elements@.len() ==> call_requires(
                    predicate,
                    (&self.elements@[i],),
                ),
        ensures
            r.element_type == self.element_type,
            self.wf() ==> r.wf(),
            exists|d: Seq<bool>|
                {
                    &&& d.len() == self.elements@.len()
                    &&& forall|i: int|
                        0 <= i < d.len() ==> call_ensures(
                            predicate,
                            (&self.elements@[i],),
                            !#[trigger] d[i],
                        )
                    &&& r@ == masked_views(self.elements@, d)
                },
    {
        proof {
            lemma_views_of(self.elements@);
        }
        let ghost mut d: Seq<bool> = Seq::empty();
        let mut result: Vec<Value> = Vec::new();
        let mut i: usize = 0;
        while i < self.elements.len()
            invariant
                i <= self.elements@.len(),
                d.len() == i,
                forall|j: int|
                    0 <= j < i ==> call_ensures(
                        predicate,
                        (&self.elements@[j],),
                        !#[trigger] d[j],
                    ),
                views_of(result@) == masked_views(self.elements@.subrange(0, i as int), d),
            decreases self.elements@.len() - i,
        {
            let keep = !predicate(&self.elements[i]);
            proof {
                assert(self.elements@.subrange(0, i + 1).drop_last() =~= self.elements@.subrange(
                    0,
                    i as int,
                ));
                assert(d.push(keep).drop_last() =~= d);
            }
            if keep {
                let copied = self.elements[i].deep_copy();
                proof {
                    crate::vec_ops::lemma_views_of_push(result@, copied);
                }
                result.push(copied);
            }
            proof {
                d = d.push(keep);
            }
            i = i + 1;
        }
        proof {
            assert(self.elements@.subrange(0, self.elements@.len() as int) =~= self.elements@);
            if self.wf() && self.element_type is Some {
                crate::vec_ops::lemma_masked_views(self.elements@, d);
                assert forall|j: int| 0 <= j < views_of(result@).len() implies kind_of(
                    #[trigger] views_of(result@)[j],
                ) == self.element_type->0 by {
                    let w = choose|w: int|
                        0 <= w < self.elements@.len() && #[trigger] masked_views(
                            self.elements@,
                            d,
                        )[j] == self.elements@[w]@ && d[w];
                    assert(kind_of(self@[w]) == self.element_type->0);
                }
            }
        }
        KotList { elements: result, element_type: self.element_type }
    }

    /// The accepted elements and the rejected elements, in order, split by
    /// one run of the predicate.
    pub fn partition<F: Fn(&Value) -> bool>(&self, predicate: F) -> (r: (KotList, KotList))
        requires
            forall|i: int|
                0 <= i < self.elements@.len() ==> call_requires(
                    predicate,
                    (&self.elements@[i],),
                ),
        ensures
            r.0.element_type == self.element_type,
            r.1.element_type == self.element_type,
            exists|d: Seq<bool>|
                {
                    &&& d.len() == self.elements@.len()
                    &&& forall|i: int|
                        0 <= i < d.len() ==> call_ensures(
                            predicate,
                            (&self.elements@[i],),
                            #[trigger] d[i],
                        )
                    &&& r.0@ == #[trigger] masked_views(self.elements@, d)
                    &&& r.1@ == masked_views(self.elements@, d.map_values(|b: bool| !b))
                },
    {
        proof {
            lemma_views_of(self.elements@);
        }
        let ghost mut d: Seq<bool> = Seq::empty();
        let mut matching: Vec<Value> = Vec::new();
        let mut rest: Vec<Value> = Vec::new();
        let mut i: usize = 0;
        proof {
            assert(d.map_values(|b: bool| !b) =~= Seq::<bool>::empty());
        }
        while i < self.elements.len()
            invariant
                i <= self.elements@.len(),
                d.len() == i,
                forall|j: int|
                    0 <= j < i ==> call_ensures(
                        predicate,
                        (&self.elements@[j],),
                        #[trigger] d[j],
                    ),
                views_of(matching@) == masked_views(self.elements@.subrange(0, i as int), d),
                views_of(rest@) == masked_views(
                    self.elements@.subrange(0, i as int),
                    d.map_values(|b: bool| !b),
                ),
            decreases self.elements@.len() - i,
        {
            let keep = predicate(&self.elements[i]);
            proof {
                assert(self.elements@.subrange(0, i + 1).drop_last() =~= self.elements@.subrange(
                    0,
                    i as int,
                ));
                assert(d.push(keep).drop_last() =~= d);
                assert(d.push(keep).map_values(|b: bool| !b) =~= d.map_values(
                    |b: bool| !b,
                ).push(!keep));
                assert(d.push(keep).map_values(|b: bool| !b).drop_last() =~= d.map_values(
                    |b: bool| !b,
                ));
            }
            let copied = self.elements[i].deep_copy();
            if keep {
                proof {
                    crate::vec_ops::lemma_views_of_push(matching@, copied);
                }
                matching.push(copied);
            } else {
                proof {
                    crate::vec_ops::lemma_views_of_push(rest@, copied);
                }
                rest.push(copied);
            }
            proof {
                d = d.push(keep);
            }
            i = i + 1;
        }
        proof {
            assert(self.elements@.subrange(0, self.elements@.len() as int) =~= self.elements@);
        }
        (
            KotList { elements: matching, element_type: self.element_type },
            KotList { elements: rest, element_type: self.element_type },
        )
    }

    /// Whether every element passes the predicate: true when each call
    /// returned true; false when some call returned false, every call
    /// before it having returned true.
    pub fn all<F: Fn(&Value) -> bool>(&self, predicate: F) -> (r: bool)
        requires
            forall|i: int|
                0 <= i < self.elements@.len() ==> call_requires(
                    predicate,
                    (&self.elements@[i],),
                ),
        ensures
            r ==> forall|i: int|
                0 <= i < self.elements@.len() ==> call_ensures(
                    predicate,
                    (&#[trigger] self.elements@[i],),
                    true,
                ),
            !r ==> exists|i: int|
                0 <= i < self.elements@.len() && call_ensures(
                    predicate,
                    (&#[trigger] self.elements@[i],),
                    false,
                ),
    {
        let mut i: usize = 0;
        while i < self.elements.len()
            invariant
                i <= self.elements@.len(),
                forall|j: int|
                    0 <= j < i ==> call_ensures(predicate, (&#[trigger] self.elements@[j],), true),
            decreases self.elements@.len() - i,
        {
            if !predicate(&self.elements[i]) {
                return false;
            }
            i = i + 1;
        }
        true
    }

    /// Whether some element passes the predicate: true when a call returned
    /// true; false when every call returned false.
    pub fn any<F: Fn(&Value) -> bool>(&self, predicate: F) -> (r: bool)
        requires
            forall|i: int|
                0 <= i < self.elements@.len() ==> call_requires(
                    predicate,
                    (&self.elements@[i],),
                ),
        ensures
            r ==> exists|i: int|
                0 <= i < self.elements@.len() && call_ensures(
                    predicate,
                    (&#[trigger] self.elements@[i],),
                    true,
                ),
            !r ==> forall|i: int|
                0 <= i < self.elements@.len() ==> call_ensures(
                    predicate,
                    (&#[trigger] self.elements@[i],),
                    false,
                ),
    {
        let mut i: usize = 0;
        while i < self.elements.len()
            invariant
                i <= self.elements@.len(),
                forall|j: int|
                    0 <= j < i ==> call_ensures(
                        predicate,
                        (&#[trigger] self.elements@[j],),
                        false,
                    ),
            decreases self.elements@.len() - i,
        {
            if predicate(&self.elements[i]) {
                return true;
            }
            i = i + 1;
        }
        false
    }

    /// Whether no element passes the predicate: the negation of `any`.
    pub fn none<F: Fn(&Value) -> bool>(&self, predicate: F) -> (r: bool)
        requires
            forall|i: int|
                0 <= i < self.elements@.len() ==> call_requires(
                    predicate,
                    (&self.elements@[i],),
                ),
        ensures
            !r ==> exists|i: int|
                0 <= i < self.elements@.len() && call_ensures(
                    predicate,
                    (&#[trigger] self.elements@[i],),
                    true,
                ),
            r ==> forall|i: int|
                0 <= i < self.elements@.len() ==> call_ensures(
                    predicate,
                    (&#[trigger] self.elements@[i],),
                    false,
                ),
    {
        !self.any(predicate)
    }

    /// How many elements pass the predicate, under one run of the predicate
    /// over the list.
    pub fn count<F: Fn(&Value) -> bool>(&self, predicate: F) -> (r: usize)
        requires
            forall|i: int|
                0 <= i < self.elements@.len() ==> call_requires(
                    predicate,
                    (&self.elements@[i],),
                ),
        ensures
            r <= self@.len(),
            exists|d: Seq<bool>|
                {
                    &&& d.len() == self.elements@.len()
                    &&& forall|i: int|
                        0 <= i < d.len() ==> call_ensures(
                            predicate,
                            (&self.elements@[i],),
                            #[trigger] d[i],
                        )
                    &&& r == num_true(d)
                },
    {
        proof {
            lemma_views_of(self.elements@);
        }
        let ghost mut d: Seq<bool> = Seq::empty();
        let mut n: usize = 0;
        let mut i: usize = 0;
        while i < self.elements.len()
            invariant
                i <= self.elements@.len(),
                d.len() == i,
                n <= i,
                forall|j: int|
                    0 <= j < i ==> call_ensures(
                        predicate,
                        (&self.elements@[j],),
                        #[trigger] d[j],
                    ),
                n == num_true(d),
            decreases self.elements@.len() - i,
        {
            let hit = predicate(&self.elements[i]);
            proof {
                assert(d.push(hit).drop_last() =~= d);
            }
            if hit {
                n = n + 1;
            }
            proof {
                d = d.push(hit);
            }
            i = i + 1;
        }
        n
    }

    /// The index of the first element the predicate accepts, or `-1` when
    /// every call returned false.
    pub fn index_of_first<F: Fn(&Value) -> bool>(&self, predicate: F) -> (r: i128)
        requires
            forall|i: int|
                0 <= i < self.elements@.len() ==> call_requires(
                    predicate,
                    (&self.elements@[i],),
                ),
        ensures
            r >= 0 ==> r < self@.len() && call_ensures(
                predicate,
                (&self.elements@[r as int],),
                true,
            ) && forall|j: int|
                0 <= j < r ==> call_ensures(predicate, (&#[trigger] self.elements@[j],), false),
            r < 0 ==> r == -1 && forall|j: int|
                0 <= j < self.elements@.len() ==> call_ensures(
                    predicate,
                    (&#[trigger] self.elements@[j],),
                    false,
                ),
    {
        proof {
            lemma_views_of(self.elements@);
        }
        let mut i: usize = 0;
        while i < self.elements.len()
            invariant
                i <= self.elements@.len(),
                forall|j: int|
                    0 <= j < i ==> call_ensures(
                        predicate,
                        (&#[trigger] self.elements@[j],),
                        false,
                    ),
            decreases self.elements@.len() - i,
        {
            if predicate(&self.elements[i]) {
                return i as i128;
            }
            i = i + 1;
        }
        -1
    }

    /// The index of the last element the predicate accepts, or `-1` when
    /// every call returned false.
    pub fn index_of_last<F: Fn(&Value) -> bool>(&self, predicate: F) -> (r: i128)
        requires
            forall|i: int|
                0 <= i < self.elements@.len() ==> call_requires(
                    predicate,
                    (&self.elements@[i],),
                ),
        ensures
            r >= 0 ==> r < self@.len() && call_ensures(
                predicate,
                (&self.elements@[r as int],),
                true,
            ) && forall|j: int|
                r < j < self.elements@.len() ==> call_ensures(
                    predicate,
                    (&#[trigger] self.elements@[j],),
                    false,
                ),
            r < 0 ==> r == -1 && forall|j: int|
                0 <= j < self.elements@.len() ==> call_ensures(
                    predicate,
                    (&#[trigger] self.elements@[j],),
                    false,
                ),
    {
        proof {
            lemma_views_of(self.elements@);
        }
        let mut i: usize = self.elements.len();
        while i > 0
            invariant
                i <= self.elements@.len(),
                forall|j: int|
                    i <= j < self.elements@.len() ==> call_ensures(
                        predicate,
                        (&#[trigger] self.elements@[j],),
                        false,
                    ),
            decreases i,
        {
            i = i - 1;
            if predicate(&self.elements[i]) {
                return i as i128;
            }
        }
        -1
    }

    /// The first element the predicate accepts; not found when every call
    /// returned false.
    pub fn first_predicate<F: Fn(&Value) -> bool>(&self, predicate: F) -> (r: Result<
        Value,
        KotError,
    >)
        requires
            forall|i: int|
                0 <= i < self.elements@.len() ==> call_requires(
                    predicate,
                    (&self.elements@[i],),
                ),
        ensures
            match r {
                Ok(v) => exists|i: int|
                    {
                        &&& 0 <= i < self.elements@.len()
                        &&& v@ == self@[i]
                        &&& call_ensures(predicate, (&#[trigger] self.elements@[i],), true)
                        &&& forall|j: int|
                            0 <= j < i ==> call_ensures(
                                predicate,
                                (&#[trigger] self.elements@[j],),
                                false,
                            )
                    },
                Err(e) => e == KotError::NotFound && forall|j: int|
                    0 <= j < self.elements@.len() ==> call_ensures(
                        predicate,
                        (&#[trigger] self.elements@[j],),
                        false,
                    ),
            },
    {
        proof {
            lemma_views_of(self.elements@);
        }
        let mut i: usize = 0;
        while i < self.elements.len()
            invariant
                i <= self.elements@.len(),
                forall|j: int|
                    0 <= j < i ==> call_ensures(
                        predicate,
                        (&#[trigger] self.elements@[j],),
                        false,
                    ),
            decreases self.elements@.len() - i,
        {
            if predicate(&self.elements[i]) {
                let v = self.elements[i].deep_copy();
                proof {
                    assert((i as int) < self.elements@.len() && v@ == self@[i as int]
                        && call_ensures(predicate, (&self.elements@[i as int],), true));
                }
                return Ok(v);
            }
            i = i + 1;
        }
        Err(KotError::NotFound)
    }

    /// The first element the predicate accepts, or nothing when every call
    /// returned false.
    pub fn first_or_null_predicate<F: Fn(&Value) -> bool>(&self, predicate: F) -> (r: Option<
        Value,
    >)
        requires
            forall|i: int|
                0 <= i < self.elements@.len() ==> call_requires(
                    predicate,
                    (&self.elements@[i],),
                ),
        ensures
            match r {
                Some(v) => exists|i: int|
                    {
                        &&& 0 <= i < self.elements@.len()
                        &&& v@ == self@[i]
                        &&& call_ensures(predicate, (&#[trigger] self.elements@[i],), true)
                        &&& forall|j: int|
                            0 <= j < i ==> call_ensures(
                                predicate,
                                (&#[trigger] self.elements@[j],),
                                false,
                            )
                    },
                None => forall|j: int|
                    0 <= j < self.elements@.len() ==> call_ensures(
                        predicate,
                        (&#[trigger] self.elements@[j],),
                        false,
                    ),
            },
    {
        match self.first_predicate(predicate) {
            Ok(v) => Some(v),
            Err(_) => None,
        }
    }

    /// The last element the predicate accepts; not found when every call
    /// returned false.
    pub fn last_predicate<F: Fn(&Value) -> bool>(&self, predicate: F) -> (r: Result<
        Value,
        KotError,
    >)
        requires
            forall|i: int|
                0 <= i < self.elements@.len() ==> call_requires(
                    predicate,
                    (&self.elements@[i],),
                ),
        ensures
            match r {
                Ok(v) => exists|i: int|
                    {
                        &&& 0 <= i < self.elements@.len()
                        &&& v@ == self@[i]
                        &&& call_ensures(predicate, (&#[trigger] self.elements@[i],), true)
                        &&& forall|j: int|
                            i < j < self.elements@.len() ==> call_ensures(
                                predicate,
                                (&#[trigger] self.elements@[j],),
                                false,
                            )
                    },
                Err(e) => e == KotError::NotFound && forall|j: int|
                    0 <= j < self.elements@.len() ==> call_ensures(
                        predicate,
                        (&#[trigger] self.elements@[j],),
                        false,
                    ),
            },
    {
        proof {
            lemma_views_of(self.elements@);
        }
        let mut i: usize = self.elements.len();
        while i > 0
            invariant
                i <= self.elements@.len(),
                forall|j: int|
                    i <= j < self.elements@.len() ==> call_ensures(
                        predicate,
                        (&#[trigger] self.elements@[j],),
                        false,
                    ),
            decreases i,
        {
            i = i - 1;
            if predicate(&self.elements[i]) {
                let v = self.elements[i].deep_copy();
                proof {
                    assert((i as int) < self.elements@.len() && v@ == self@[i as int]
                        && call_ensures(predicate, (&self.elements@[i as int],), true));
                }
                return Ok(v);
            }
        }
        Err(KotError::NotFound)
    }

    /// The last element the predicate accepts, or nothing when every call
    /// returned false.
    pub fn last_or_null_predicate<F: Fn(&Value) -> bool>(&self, predicate: F) -> (r: Option<
        Value,
    >)
        requires
            forall|i: int|
                0 <= i < self.elements@.len() ==> call_requires(
                    predicate,
                    (&self.elements@[i],),
                ),
        ensures
            match r {
                Some(v) => exists|i: int|
                    {
                        &&& 0 <= i < self.elements@.len()
                        &&& v@ == self@[i]
                        &&& call_ensures(predicate, (&#[trigger] self.elements@[i],), true)
                        &&& forall|j: int|
                            i < j < self.elements@.len() ==> call_ensures(
                                predicate,
                                (&#[trigger] self.elements@[j],),
                                false,
                            )
                    },
                None => forall|j: int|
                    0 <= j < self.elements@.len() ==> call_ensures(
                        predicate,
                        (&#[trigger] self.elements@[j],),
                        false,
                    ),
            },
    {
        match self.last_predicate(predicate) {
            Ok(v) => Some(v),
            Err(_) => None,
        }
    }

    /// The first element the predicate accepts, or nothing; `find` is
    /// Kotlin's name for `first_or_null` with a predicate.
    pub fn find<F: Fn(&Value) -> bool>(&self, predicate: F) -> (r: Option<Value>)
        requires
            forall|i: int|
                0 <= i < self.elements@.len() ==> call_requires(
                    predicate,
                    (&self.elements@[i],),
                ),
        ensures
            match r {
                Some(v) => exists|i: int|
                    {
                        &&& 0 <= i < self.elements@.len()
                        &&& v@ == self@[i]
                        &&& call_ensures(predicate, (&#[trigger] self.elements@[i],), true)
                    },
                None => forall|j: int|
                    0 <= j < self.elements@.len() ==> call_ensures(
                        predicate,
                        (&#[trigger] self.elements@[j],),
                        false,
                    ),
            },
    {
        self.first_or_null_predicate(predicate)
    }

    /// The last element the predicate accepts, or nothing.
    pub fn find_last<F: Fn(&Value) -> bool>(&self, predicate: F) -> (r: Option<Value>)
        requires
            forall|i: int|
                0 <= i < self.elements@.len() ==> call_requires(
                    predicate,
                    (&self.elements@[i],),
                ),
        ensures
            match r {
                Some(v) => exists|i: int|
                    {
                        &&& 0 <= i < self.elements@.len()
                        &&& v@ == self@[i]
                        &&& call_ensures(predicate, (&#[trigger] self.elements@[i],), true)
                    },
                None => forall|j: int|
                    0 <= j < self.elements@.len() ==> call_ensures(
                        predicate,
                        (&#[trigger] self.elements@[j],),
                        false,
                    ),
            },
    {
        self.last_or_null_predicate(predicate)
    }

    /// The longest prefix of elements the predicate accepts: the cut falls
    /// at the first element for which a call returned false.
    pub fn take_while<F: Fn(&Value) -> bool>(&self, predicate: F) -> (r: KotList)
        requires
            forall|i: int|
                0 <= i < self.elements@.len() ==> call_requires(
                    predicate,
                    (&self.elements@[i],),
                ),
        ensures
            r.element_type == self.element_type,
            self.wf() ==> r.wf(),
            exists|n: int|
                {
                    &&& 0 <= n <= self@.len()
                    &&& forall|j: int|
                        0 <= j < n ==> call_ensures(
                            predicate,
                            (&#[trigger] self.elements@[j],),
                            true,
                        )
                    &&& n < self@.len() ==> call_ensures(
                        predicate,
                        (&self.elements@[n],),
                        false,
                    )
                    &&& r@ == self@.take(n)
                },
    {
        proof {
            lemma_views_of(self.elements@);
        }
        let mut result: Vec<Value> = Vec::new();
        let mut i: usize = 0;
        while i < self.elements.len()
            invariant
                i <= self.elements@.len(),
                result@.len() == i,
                forall|j: int|
                    0 <= j < i ==> call_ensures(predicate, (&#[trigger] self.elements@[j],), true),
                forall|j: int| 0 <= j < i ==> result@[j]@ == self@[j],
            decreases self.elements@.len() - i,
        {
            if !predicate(&self.elements[i]) {
                proof {
                    lemma_views_of(result@);
                    assert(views_of(result@) =~= self@.take(i as int));
                }
                return KotList { elements: result, element_type: self.element_type };
            }
            result.push(self.elements[i].deep_copy());
            i = i + 1;
        }
        proof {
            lemma_views_of(result@);
            assert(views_of(result@) =~= self@.take(self@.len() as int));
        }
        KotList { elements: result, element_type: self.element_type }
    }

    /// The elements from the first one the predicate rejects onward: the
    /// dropped prefix is exactly the run of accepting calls.
    pub fn drop_while<F: Fn(&Value) -> bool>(&self, predicate: F) -> (r: KotList)
        requires
            forall|i: int|
                0 <= i < self.elements@.len() ==> call_requires(
                    predicate,
                    (&self.elements@[i],),
                ),
        ensures
            r.element_type == self.element_type,
            self.wf() ==> r.wf(),
            exists|n: int|
                {
                    &&& 0 <= n <= self@.len()
                    &&& forall|j: int|
                        0 <= j < n ==> call_ensures(
                            predicate,
                            (&#[trigger] self.elements@[j],),
                            true,
                        )
                    &&& n < self@.len() ==> call_ensures(
                        predicate,
                        (&self.elements@[n],),
                        false,
                    )
                    &&& r@ == self@.skip(n)
                },
    {
        proof {
            lemma_views_of(self.elements@);
        }
        let mut i: usize = 0;
        while i < self.elements.len()
            invariant
                i <= self.elements@.len(),
                forall|j: int|
                    0 <= j < i ==> call_ensures(predicate, (&#[trigger] self.elements@[j],), true),
            decreases self.elements@.len() - i,
        {
            if !predicate(&self.elements[i]) {
                let rest = crate::vec_ops::copy_range(&self.elements, i, self.elements.len());
                proof {
                    assert(views_of(rest@) =~= self@.skip(i as int));
                    if self.wf() && self.element_type is Some {
                        assert forall|j: int| 0 <= j < views_of(rest@).len() implies kind_of(
                            #[trigger] views_of(rest@)[j],
                        ) == self.element_type->0 by {
                            assert(views_of(rest@)[j] == self@[i + j]);
                        }
                    }
                }
                return KotList { elements: rest, element_type: self.element_type };
            }
            i = i + 1;
        }
        proof {
            assert(self@.skip(self@.len() as int) =~= Seq::<ValSpec>::empty());
            assert(views_of(Seq::<Value>::empty()) =~= Seq::<ValSpec>::empty());
        }
        KotList { elements: Vec::new(), element_type: self.element_type }
    }

    /// The accumulator after folding every element, left to right, starting
    /// from `initial`: each step's result is an output the operation may
    /// produce for the previous accumulator and the element.
    pub fn fold<F: Fn(&Value, &Value) -> Value>(&self, initial: Value, operation: F) -> (r: Value)
        requires
            forall|a: Value, b: Value| call_requires(operation, (&a, &b)),
        ensures
            exists|accs: Seq<Value>|
                {
                    &&& accs.len() == self.elements@.len()
                    &&& forall|i: int|
                        0 < i < accs.len() ==> call_ensures(
                            operation,
                            (&accs[i - 1], &self.elements@[i]),
                            #[trigger] accs[i],
                        )
                    &&& accs.len() > 0 ==> call_ensures(
                        operation,
                        (&initial, &self.elements@[0]),
                        accs[0],
                    )
                    &&& r == if accs.len() == 0 {
                        initial
                    } else {
                        accs.last()
                    }
                },
    {
        proof {
            lemma_views_of(self.elements@);
        }
        let ghost mut accs: Seq<Value> = Seq::empty();
        let ghost init_snapshot = initial;
        let mut acc = initial;
        let mut i: usize = 0;
        while i < self.elements.len()
            invariant
                i <= self.elements@.len(),
                accs.len() == i,
                forall|j: int|
                    0 < j < i ==> call_ensures(
                        operation,
                        (&accs[j - 1], &self.elements@[j]),
                        #[trigger] accs[j],
                    ),
                i > 0 ==> call_ensures(operation, (&init_snapshot, &self.elements@[0]), accs[0]),
                acc == if i == 0 {
                    init_snapshot
                } else {
                    accs.last()
                },
            decreases self.elements@.len() - i,
        {
            acc = operation(&acc, &self.elements[i]);
            proof {
                accs = accs.push(acc);
            }
            i = i + 1;
        }
        acc
    }

    /// The accumulator after folding all later elements onto the first,
    /// left to right; fails exactly on the empty list.
    pub fn reduce<F: Fn(&Value, &Value) -> Value>(&self, operation: F) -> (r: Result<
        Value,
        KotError,
    >)
        requires
            forall|a: Value, b: Value| call_requires(operation, (&a, &b)),
        ensures
            match r {
                Ok(v) => self@.len() > 0 && exists|accs: Seq<Value>|
                    {
                        &&& accs.len() == self.elements@.len()
                        &&& accs[0]@ == self@[0]
                        &&& forall|i: int|
                            0 < i < accs.len() ==> call_ensures(
                                operation,
                                (&accs[i - 1], &self.elements@[i]),
                                #[trigger] accs[i],
                            )
                        &&& v == accs.last()
                    },
                Err(e) => e == KotError::EmptyContainer && self@.len() == 0,
            },
    {
        proof {
            lemma_views_of(self.elements@);
        }
        if self.elements.len() == 0 {
            return Err(KotError::EmptyContainer);
        }
        let mut acc = self.elements[0].deep_copy();
        let ghost mut accs: Seq<Value> = seq![acc];
        let mut i: usize = 1;
        while i < self.elements.len()
            invariant
                1 <= i <= self.elements@.len(),
                accs.len() == i,
                accs[0]@ == self@[0],
                forall|j: int|
                    0 < j < i ==> call_ensures(
                        operation,
                        (&accs[j - 1], &self.elements@[j]),
                        #[trigger] accs[j],
                    ),
                acc == accs.last(),
            decreases self.elements@.len() - i,
        {
            acc = operation(&acc, &self.elements[i]);
            proof {
                accs = accs.push(acc);
            }
            i = i + 1;
        }
        Ok(acc)
    }

    /// The reduction, or nothing for the empty list.
    pub fn reduce_or_null<F: Fn(&Value, &Value) -> Value>(&self, operation: F) -> (r: Option<
        Value,
    >)
        requires
            forall|a: Value, b: Value| call_requires(operation, (&a, &b)),
        ensures
            match r {
                Some(v) => self@.len() > 0 && exists|accs: Seq<Value>|
                    {
                        &&& accs.len() == self.elements@.len()
                        &&& accs[0]@ == self@[0]
                        &&& forall|i: int|
                            0 < i < accs.len() ==> call_ensures(
                                operation,
                                (&accs[i - 1], &self.elements@[i]),
                                #[trigger] accs[i],
                            )
                        &&& v == accs.last()
                    },
                None => self@.len() == 0,
            },
    {
        match self.reduce(operation) {
            Ok(v) => Some(v),
            Err(_) => None,
        }
    }
}


/// A snapshot iterator over a list's elements: it captures the elements at creation,
/// so later mutation of the source cannot affect it.
#[derive(Debug)]
pub struct KotListIterator {
    pub elements: Vec<Value>,
    pub index: usize,
}

impl View for KotListIterator {
    type V = Seq<ValSpec>;

    open spec fn view(&self) -> Seq<ValSpec> {
        views_of(self.elements@)
    }
}

impl KotListIterator {
    /// The next element, advancing the cursor; nothing once the snapshot
    /// is exhausted.
    pub fn next(&mut self) -> (r: Option<Value>)
        ensures
            final(self)@ == old(self)@,
            match r {
                Some(v) => old(self).index < old(self)@.len() && v@ == old(self)@[
                    old(self).index as int] && final(self).index == old(self).index + 1,
                None => old(self).index >= old(self)@.len() && final(self).index == old(self).index,
            },
    {
        proof {
            lemma_views_of(self.elements@);
        }
        if self.index < self.elements.len() {
            let v = self.elements[self.index].deep_copy();
            self.index = self.index + 1;
            Some(v)
        } else {
            None
        }
    }
}

impl KotList {
    /// A snapshot iterator over the elements from `index` on; out of
    /// bounds exactly when `index` exceeds the length.
    pub fn list_iterator(&self, index: usize) -> (r: Result<KotListIterator, KotError>)
        ensures
            match r {
                Ok(it) => index <= self@.len() && it@ == self@.skip(index as int) && it.index
                    == 0,
                Err(e) => e == KotError::OutOfBounds && index > self@.len(),
            },
    {
        proof {
            lemma_views_of(self.elements@);
        }
        if index > self.elements.len() {
            return Err(KotError::OutOfBounds);
        }
        let elements = crate::vec_ops::copy_range(&self.elements, index, self.elements.len());
        proof {
            assert(views_of(elements@) =~= self@.skip(index as int));
        }
        Ok(KotListIterator { elements, index: 0 })
    }
}


impl KotList {
    /// A mutable list holding the same elements and declared kind.
    pub fn to_kot_mutable_list(&self) -> (r: crate::kot_mutable_list::KotMutableList)
        ensures
            r@ == self@,
            r.element_type == self.element_type,
    {
        crate::kot_mutable_list::KotMutableList {
            elements: clone_values(&self.elements),
            element_type: self.element_type,
        }
    }

    /// The elements as a set: duplicates dropped, the kind inferred
    /// afresh; fails with a type mismatch exactly when the elements are
    /// not all of one kind.
    pub fn to_kot_set(&self) -> (r: Result<crate::kot_set::KotSet, KotError>)
        ensures
            match r {
                Ok(s) => homogeneous(self@) && s@ == dedup_first(self@) && s.wf(),
                Err(e) => e == KotError::TypeMismatch && !homogeneous(self@),
            },
    {
        let r = crate::kot_set::KotSet::new(clone_values(&self.elements));
        proof {
            crate::model::lemma_dedup_first(self@);
        }
        match r {
            Ok(s) => Ok(s),
            Err(e) => Err(e),
        }
    }

    /// The elements as a mutable set, exactly as `to_kot_set`.
    pub fn to_kot_mutable_set(&self) -> (r: Result<
        crate::kot_mutable_set::KotMutableSet,
        KotError,
    >)
        ensures
            match r {
                Ok(s) => homogeneous(self@) && s@ == dedup_first(self@) && s.wf(),
                Err(e) => e == KotError::TypeMismatch && !homogeneous(self@),
            },
    {
        match crate::kot_mutable_set::KotMutableSet::new(clone_values(&self.elements)) {
            Ok(s) => Ok(s),
            Err(e) => Err(e),
        }
    }

    /// This list's elements and then `other`'s unseen ones, as a set with
    /// a freshly inferred kind; fails with a type mismatch exactly when
    /// the combined elements are not all of one kind.
    pub fn union(&self, other: &KotList) -> (r: Result<crate::kot_set::KotSet, KotError>)
        ensures
            match r {
                Ok(s) => s@ == dedup_first(self@ + other@) && homogeneous(dedup_first(
                    self@ + other@,
                )) && s.wf(),
                Err(e) => e == KotError::TypeMismatch && !homogeneous(
                    dedup_first(self@ + other@),
                ),
            },
    {
        let combined = concat_values(&self.elements, &other.elements);
        crate::kot_set::KotSet::build_checked(&combined)
    }

    /// The elements that occur in `other`, deduplicated, as a set with a
    /// freshly inferred kind.
    pub fn intersect(&self, other: &KotList) -> (r: Result<crate::kot_set::KotSet, KotError>)
        ensures
            match r {
                Ok(s) => s@ == dedup_first(crate::model::keep_in(self@, other@)) && homogeneous(
                    dedup_first(crate::model::keep_in(self@, other@)),
                ) && s.wf(),
                Err(e) => e == KotError::TypeMismatch && !homogeneous(
                    dedup_first(crate::model::keep_in(self@, other@)),
                ),
            },
    {
        let kept = crate::vec_ops::keep_in_values(&self.elements, &other.elements);
        crate::kot_set::KotSet::build_checked(&kept)
    }

    /// The elements that do not occur in `other`, deduplicated, as a set
    /// with a freshly inferred kind.
    pub fn subtract(&self, other: &KotList) -> (r: Result<crate::kot_set::KotSet, KotError>)
        ensures
            match r {
                Ok(s) => s@ == dedup_first(crate::model::drop_in(self@, other@)) && homogeneous(
                    dedup_first(crate::model::drop_in(self@, other@)),
                ) && s.wf(),
                Err(e) => e == KotError::TypeMismatch && !homogeneous(
                    dedup_first(crate::model::drop_in(self@, other@)),
                ),
            },
    {
        let kept = crate::vec_ops::drop_in_values(&self.elements, &other.elements);
        crate::kot_set::KotSet::build_checked(&kept)
    }

    /// A grouping of this list's elements under `key_selector`, consumed
    /// by one terminal fold, count, aggregate or reduce call.
    pub fn grouping_by<F: Fn(&Value) -> Value>(&self, key_selector: F) -> (r:
        crate::kot_grouping::KotGrouping<F>)
        ensures
            views_of(r.elements@) == self@,
            r.key_selector == key_selector,
    {
        crate::kot_grouping::KotGrouping {
            elements: clone_values(&self.elements),
            key_selector,
        }
    }
}


/// Filtering and then testing: when the predicate decides every value by
/// its content alone, `all` must accept whatever `filter` kept. The
/// hypotheses are exactly what `KotList::filter`'s and `KotList::all`'s
/// contracts supply, plus content-determinism of the predicate.
pub proof fn lemma_filter_then_all<F: Fn(&Value) -> bool>(
    predicate: F,
    source: Seq<Value>,
    d: Seq<bool>,
    kept: Seq<Value>,
    decision: bool,
)
    requires
        forall|v1: Value, v2: Value, b1: bool, b2: bool|
            call_ensures(predicate, (&v1,), b1) && call_ensures(predicate, (&v2,), b2) && v1@
                == v2@ ==> b1 == b2,
        d.len() == source.len(),
        forall|i: int| 0 <= i < d.len() ==> call_ensures(predicate, (&source[i],), #[trigger] d[i]),
        views_of(kept) == masked_views(source, d),
        !decision ==> exists|i: int|
            0 <= i < kept.len() && call_ensures(predicate, (&#[trigger] kept[i],), false),
    ensures
        decision,
{
    if !decision {
        let i = choose|i: int|
            0 <= i < kept.len() && call_ensures(predicate, (&#[trigger] kept[i],), false);
        crate::vec_ops::lemma_masked_views(source, d);
        lemma_views_of(kept);
        assert(views_of(kept)[i] == kept[i]@);
        let w = choose|w: int|
            0 <= w < source.len() && #[trigger] masked_views(source, d)[i] == source[w]@ && d[w];
        assert(call_ensures(predicate, (&source[w],), d[w]));
        assert(kept[i]@ == source[w]@);
    }
}


impl KotList {
    /// The elements grouped by the selector's key: an association from
    /// each key, in first-occurrence order, to the list value holding its
    /// group's elements in source order, computed over a snapshot of this
    /// list.
    pub fn group_by<F: Fn(&Value) -> Value>(&self, key_selector: F) -> (r:
        crate::kot_map::KotMap)
        requires
            forall|v: Value| call_requires(key_selector, (&v,)),
        ensures
            r.wf(),
            exists|elems: Seq<Value>, kvals: Seq<Value>, outs: Seq<Value>|
                {
                    &&& #[trigger] views_of(elems) == self@
                    &&& kvals.len() == elems.len()
                    &&& outs.len() == elems.len()
                    &&& forall|i: int|
                        0 <= i < kvals.len() ==> call_ensures(
                            key_selector,
                            (&elems[i],),
                            #[trigger] kvals[i],
                        )
                    &&& forall|i: int|
                        0 <= i < outs.len() ==> #[trigger] crate::kot_grouping::group_step_ok(
                            elems,
                            kvals,
                            outs,
                            i,
                        )
                    &&& r@ == #[trigger] crate::model::apply_puts(
                        Seq::empty(),
                        views_of(kvals),
                        views_of(outs),
                    )
                },
    {
        let grouping = self.grouping_by(key_selector);
        let ghost elems = grouping.elements@;
        let r = grouping.groups();
        proof {
            let (kvals, outs) = choose|kvals: Seq<Value>, outs: Seq<Value>|
                {
                    &&& kvals.len() == elems.len()
                    &&& outs.len() == elems.len()
                    &&& forall|i: int|
                        0 <= i < kvals.len() ==> call_ensures(
                            key_selector,
                            (&elems[i],),
                            #[trigger] kvals[i],
                        )
                    &&& forall|i: int|
                        0 <= i < outs.len() ==> #[trigger] crate::kot_grouping::group_step_ok(
                            elems,
                            kvals,
                            outs,
                            i,
                        )
                    &&& r@ == #[trigger] crate::model::apply_puts(
                        Seq::empty(),
                        views_of(kvals),
                        views_of(outs),
                    )
                };
            assert(views_of(elems) == self@);
        }
        r
    }
}


impl KotList {
    /// The element at `index`, or an output of `default_value` for the
    /// index when out of bounds.
    pub fn get_or_else<F: Fn(usize) -> Value>(&self, index: usize, default_value: F) -> (r: Value)
        requires
            call_requires(default_value, (index,)),
        ensures
            index < self@.len() ==> r@ == self@[index as int],
            index >= self@.len() ==> call_ensures(default_value, (index,), r),
    {
        proof {
            lemma_views_of(self.elements@);
        }
        if index < self.elements.len() {
            self.elements[index].deep_copy()
        } else {
            default_value(index)
        }
    }

    /// The element at `index`, exactly as `get_or_else`.
    pub fn element_at_or_else<F: Fn(usize) -> Value>(&self, index: usize, default_value: F) -> (r:
        Value)
        requires
            call_requires(default_value, (index,)),
        ensures
            index < self@.len() ==> r@ == self@[index as int],
            index >= self@.len() ==> call_ensures(default_value, (index,), r),
    {
        self.get_or_else(index, default_value)
    }

    /// This list, or an output of the supplier when it is empty.
    pub fn if_empty<F: Fn() -> KotList>(&self, default_value: F) -> (r: KotList)
        requires
            call_requires(default_value, ()),
        ensures
            self@.len() > 0 ==> r@ == self@ && r.element_type == self.element_type,
            self@.len() == 0 ==> call_ensures(default_value, (), r),
    {
        proof {
            lemma_views_of(self.elements@);
        }
        if self.elements.len() > 0 {
            self.to_kot_list()
        } else {
            default_value()
        }
    }

    /// The first element, for destructuring.
    pub fn component1(&self) -> (r: Result<Value, KotError>)
        ensures
            match r {
                Ok(v) => self@.len() > 0 && v@ == self@[0],
                Err(e) => e == KotError::EmptyContainer && self@.len() == 0,
            },
    {
        self.first()
    }

    /// The second element, for destructuring.
    pub fn component2(&self) -> (r: Result<Value, KotError>)
        ensures
            match r {
                Ok(v) => 1 < self@.len() && v@ == self@[1],
                Err(e) => e == KotError::OutOfBounds && self@.len() <= 1,
            },
    {
        self.get(1)
    }

    /// The third element, for destructuring.
    pub fn component3(&self) -> (r: Result<Value, KotError>)
        ensures
            match r {
                Ok(v) => 2 < self@.len() && v@ == self@[2],
                Err(e) => e == KotError::OutOfBounds && self@.len() <= 2,
            },
    {
        self.get(2)
    }

    /// The fourth element, for destructuring.
    pub fn component4(&self) -> (r: Result<Value, KotError>)
        ensures
            match r {
                Ok(v) => 3 < self@.len() && v@ == self@[3],
                Err(e) => e == KotError::OutOfBounds && self@.len() <= 3,
            },
    {
        self.get(3)
    }

    /// The fifth element, for destructuring.
    pub fn component5(&self) -> (r: Result<Value, KotError>)
        ensures
            match r {
                Ok(v) => 4 < self@.len() && v@ == self@[4],
                Err(e) => e == KotError::OutOfBounds && self@.len() <= 4,
            },
    {
        self.get(4)
    }

    /// The only element the predicate accepts: not found when every call
    /// returned false, or when a second call returned true.
    pub fn single_predicate<F: Fn(&Value) -> bool>(&self, predicate: F) -> (r: Result<
        Value,
        KotError,
    >)
        requires
            forall|i: int|
                0 <= i < self.elements@.len() ==> call_requires(
                    predicate,
                    (&self.elements@[i],),
                ),
        ensures
            match r {
                Ok(v) => exists|i: int|
                    {
                        &&& 0 <= i < self.elements@.len()
                        &&& v@ == self@[i]
                        &&& call_ensures(predicate, (&#[trigger] self.elements@[i],), true)
                        &&& forall|j: int|
                            0 <= j < self.elements@.len() && j != i ==> call_ensures(
                                predicate,
                                (&#[trigger] self.elements@[j],),
                                false,
                            )
                    },
                Err(e) => e == KotError::NotFound && ((forall|j: int|
                    0 <= j < self.elements@.len() ==> call_ensures(
                        predicate,
                        (&#[trigger] self.elements@[j],),
                        false,
                    )) || exists|i: int, j: int|
                    {
                        &&& 0 <= i < j < self.elements@.len()
                        &&& call_ensures(predicate, (&#[trigger] self.elements@[i],), true)
                        &&& call_ensures(predicate, (&#[trigger] self.elements@[j],), true)
                    }),
            },
    {
        proof {
            lemma_views_of(self.elements@);
        }
        let mut found: Option<usize> = None;
        let mut i: usize = 0;
        while i < self.elements.len()
            invariant
                i <= self.elements@.len(),
                match found {
                    Some(t) => t < i && call_ensures(predicate, (&self.elements@[t as int],), true)
                        && forall|j: int|
                        0 <= j < i && j != t ==> call_ensures(
                            predicate,
                            (&#[trigger] self.elements@[j],),
                            false,
                        ),
                    None => forall|j: int|
                        0 <= j < i ==> call_ensures(
                            predicate,
                            (&#[trigger] self.elements@[j],),
                            false,
                        ),
                },
            decreases self.elements@.len() - i,
        {
            if predicate(&self.elements[i]) {
                match found {
                    Some(t) => {
                        return Err(KotError::NotFound);
                    },
                    None => {
                        found = Some(i);
                    },
                }
            }
            i = i + 1;
        }
        match found {
            Some(t) => {
                let v = self.elements[t].deep_copy();
                proof {
                    assert((t as int) < self.elements@.len() && v@ == self@[t as int]
                        && call_ensures(predicate, (&self.elements@[t as int],), true));
                }
                Ok(v)
            },
            None => Err(KotError::NotFound),
        }
    }

    /// The only element the predicate accepts, or nothing when no call or
    /// more than one returned true.
    pub fn single_or_null_predicate<F: Fn(&Value) -> bool>(&self, predicate: F) -> (r: Option<
        Value,
    >)
        requires
            forall|i: int|
                0 <= i < self.elements@.len() ==> call_requires(
                    predicate,
                    (&self.elements@[i],),
                ),
        ensures
            match r {
                Some(v) => exists|i: int|
                    {
                        &&& 0 <= i < self.elements@.len()
                        &&& v@ == self@[i]
                        &&& call_ensures(predicate, (&#[trigger] self.elements@[i],), true)
                    },
                None => (forall|j: int|
                    0 <= j < self.elements@.len() ==> call_ensures(
                        predicate,
                        (&#[trigger] self.elements@[j],),
                        false,
                    )) || exists|i: int, j: int|
                    {
                        &&& 0 <= i < j < self.elements@.len()
                        &&& call_ensures(predicate, (&#[trigger] self.elements@[i],), true)
                        &&& call_ensures(predicate, (&#[trigger] self.elements@[j],), true)
                    },
            },
    {
        match self.single_predicate(predicate) {
            Ok(v) => Some(v),
            Err(_) => None,
        }
    }

    /// Each element transformed together with its index, in order.
    pub fn map_indexed<F: Fn(usize, &Value) -> Value>(&self, transform: F) -> (r: KotList)
        requires
            forall|i: int|
                0 <= i < self.elements@.len() ==> call_requires(
                    transform,
                    (i as usize, &self.elements@[i]),
                ),
        ensures
            r@.len() == self@.len(),
            r.element_type is None,
            exists|outs: Seq<Value>|
                {
                    &&& outs.len() == self.elements@.len()
                    &&& forall|i: int|
                        0 <= i < outs.len() ==> call_ensures(
                            transform,
                            (i as usize, &self.elements@[i]),
                            #[trigger] outs[i],
                        )
                    &&& r@ == views_of(outs)
                },
    {
        proof {
            lemma_views_of(self.elements@);
        }
        let ghost mut outs: Seq<Value> = Seq::empty();
        let mut result: Vec<Value> = Vec::new();
        let mut i: usize = 0;
        while i < self.elements.len()
            invariant
                i <= self.elements@.len(),
                outs.len() == i,
                result@ == outs,
                forall|j: int|
                    0 <= j < i ==> call_ensures(
                        transform,
                        (j as usize, &self.elements@[j]),
                        #[trigger] outs[j],
                    ),
                forall|t: int|
                    0 <= t < self.elements@.len() ==> call_requires(
                        transform,
                        (t as usize, &self.elements@[t]),
                    ),
            decreases self.elements@.len() - i,
        {
            let transformed = transform(i, &self.elements[i]);
            proof {
                outs = outs.push(transformed);
            }
            result.push(transformed);
            i = i + 1;
        }
        proof {
            lemma_views_of(result@);
            lemma_views_of(outs);
            assert(views_of(result@) =~= views_of(outs));
        }
        KotList { elements: result, element_type: None }
    }
}


impl KotList {
    /// An association from each element's selected key to the element;
    /// for elements sharing a key the later one's value wins, and the
    /// key keeps its first-seen position.
    pub fn associate_by<F: Fn(&Value) -> Value>(&self, key_selector: F) -> (r:
        crate::kot_map::KotMap)
        requires
            forall|i: int|
                0 <= i < self.elements@.len() ==> call_requires(
                    key_selector,
                    (&self.elements@[i],),
                ),
        ensures
            r.wf(),
            exists|kvals: Seq<Value>|
                {
                    &&& kvals.len() == self.elements@.len()
                    &&& forall|i: int|
                        0 <= i < kvals.len() ==> call_ensures(
                            key_selector,
                            (&self.elements@[i],),
                            #[trigger] kvals[i],
                        )
                    &&& r@ == #[trigger] crate::model::apply_puts(
                        Seq::empty(),
                        views_of(kvals),
                        self@,
                    )
                },
    {
        proof {
            lemma_views_of(self.elements@);
        }
        let mut keys: Vec<Value> = Vec::new();
        let mut values: Vec<Value> = Vec::new();
        let ghost mut kvals: Seq<Value> = Seq::empty();
        let mut i: usize = 0;
        proof {
            lemma_views_of(kvals);
            assert(crate::kot_map::zip_views(keys@, values@) =~= Seq::<
                (ValSpec, ValSpec),
            >::empty());
            assert(views_of(kvals) =~= Seq::<ValSpec>::empty());
            assert(self@.take(0) =~= Seq::<ValSpec>::empty());
        }
        while i < self.elements.len()
            invariant
                i <= self.elements@.len(),
                forall|t: int|
                    0 <= t < self.elements@.len() ==> call_requires(
                        key_selector,
                        (&self.elements@[t],),
                    ),
                kvals.len() == i,
                forall|t: int|
                    0 <= t < i ==> call_ensures(
                        key_selector,
                        (&self.elements@[t],),
                        #[trigger] kvals[t],
                    ),
                keys@.len() == values@.len(),
                crate::model::unique_keys(crate::kot_map::zip_views(keys@, values@)),
                crate::kot_map::zip_views(keys@, values@) == crate::model::apply_puts(
                    Seq::empty(),
                    views_of(kvals),
                    self@.take(i as int),
                ),
            decreases self.elements@.len() - i,
        {
            let ghost cur = crate::kot_map::zip_views(keys@, values@);
            let ghost old_kvals = kvals;
            let k = key_selector(&self.elements[i]);
            let ghost kv = k;
            let copied = self.elements[i].deep_copy();
            proof {
                crate::vec_ops::lemma_views_of_push(kvals, kv);
                crate::model::lemma_put_entry(cur, kv@, copied@);
            }
            crate::kot_map::upsert_pair(&mut keys, &mut values, k, copied);
            proof {
                kvals = kvals.push(kv);
                assert(views_of(kvals).drop_last() =~= views_of(old_kvals));
                assert(self@.take(i + 1).drop_last() =~= self@.take(i as int));
                assert(self@.take(i + 1).last() == self@[i as int]);
                assert(crate::kot_map::zip_views(keys@, values@) == crate::model::apply_puts(
                    Seq::empty(),
                    views_of(kvals),
                    self@.take(i + 1),
                ));
            }
            i = i + 1;
        }
        proof {
            assert(self@.take(self.elements@.len() as int) =~= self@);
        }
        crate::kot_map::KotMap { keys, values, key_type: None, value_type: None }
    }

    /// An association from each element to its selected value; for equal
    /// elements the later value wins, and the element keeps its
    /// first-seen position.
    pub fn associate_with<F: Fn(&Value) -> Value>(&self, value_selector: F) -> (r:
        crate::kot_map::KotMap)
        requires
            forall|i: int|
                0 <= i < self.elements@.len() ==> call_requires(
                    value_selector,
                    (&self.elements@[i],),
                ),
        ensures
            r.wf(),
            exists|outs: Seq<Value>|
                {
                    &&& outs.len() == self.elements@.len()
                    &&& forall|i: int|
                        0 <= i < outs.len() ==> call_ensures(
                            value_selector,
                            (&self.elements@[i],),
                            #[trigger] outs[i],
                        )
                    &&& r@ == #[trigger] crate::model::apply_puts(
                        Seq::empty(),
                        self@,
                        views_of(outs),
                    )
                },
    {
        proof {
            lemma_views_of(self.elements@);
        }
        let mut keys: Vec<Value> = Vec::new();
        let mut values: Vec<Value> = Vec::new();
        let ghost mut outs: Seq<Value> = Seq::empty();
        let mut i: usize = 0;
        proof {
            lemma_views_of(outs);
            assert(crate::kot_map::zip_views(keys@, values@) =~= Seq::<
                (ValSpec, ValSpec),
            >::empty());
            assert(views_of(outs) =~= Seq::<ValSpec>::empty());
            assert(self@.take(0) =~= Seq::<ValSpec>::empty());
        }
        while i < self.elements.len()
            invariant
                i <= self.elements@.len(),
                forall|t: int|
                    0 <= t < self.elements@.len() ==> call_requires(
                        value_selector,
                        (&self.elements@[t],),
                    ),
                outs.len() == i,
                forall|t: int|
                    0 <= t < i ==> call_ensures(
                        value_selector,
                        (&self.elements@[t],),
                        #[trigger] outs[t],
                    ),
                keys@.len() == values@.len(),
                crate::model::unique_keys(crate::kot_map::zip_views(keys@, values@)),
                crate::kot_map::zip_views(keys@, values@) == crate::model::apply_puts(
                    Seq::empty(),
                    self@.take(i as int),
                    views_of(outs),
                ),
            decreases self.elements@.len() - i,
        {
            let ghost cur = crate::kot_map::zip_views(keys@, values@);
            let ghost old_outs = outs;
            let v = value_selector(&self.elements[i]);
            let ghost vv = v;
            let copied = self.elements[i].deep_copy();
            proof {
                crate::vec_ops::lemma_views_of_push(outs, vv);
                crate::model::lemma_put_entry(cur, copied@, vv@);
            }
            crate::kot_map::upsert_pair(&mut keys, &mut values, copied, v);
            proof {
                outs = outs.push(vv);
                assert(views_of(outs).drop_last() =~= views_of(old_outs));
                assert(self@.take(i + 1).drop_last() =~= self@.take(i as int));
                assert(self@.take(i + 1).last() == self@[i as int]);
                assert(crate::kot_map::zip_views(keys@, values@) == crate::model::apply_puts(
                    Seq::empty(),
                    self@.take(i + 1),
                    views_of(outs),
                ));
            }
            i = i + 1;
        }
        proof {
            assert(self@.take(self.elements@.len() as int) =~= self@);
        }
        crate::kot_map::KotMap { keys, values, key_type: None, value_type: None }
    }

    /// An association built from each element's transformed key/value
    /// pair, a two-item list value. Fails with a type mismatch when the
    /// transform hands back anything else.
    pub fn associate<F: Fn(&Value) -> Value>(&self, transform: F) -> (r: Result<
        crate::kot_map::KotMap,
        KotError,
    >)
        requires
            forall|i: int|
                0 <= i < self.elements@.len() ==> call_requires(
                    transform,
                    (&self.elements@[i],),
                ),
        ensures
            match r {
                Ok(m) => m.wf() && exists|outs: Seq<Value>, ks: Seq<ValSpec>, vs: Seq<ValSpec>|
                    {
                        &&& outs.len() == self.elements@.len()
                        &&& ks.len() == outs.len()
                        &&& vs.len() == outs.len()
                        &&& forall|i: int|
                            0 <= i < outs.len() ==> call_ensures(
                                transform,
                                (&self.elements@[i],),
                                #[trigger] outs[i],
                            )
                        &&& forall|i: int|
                            0 <= i < outs.len() ==> #[trigger] outs[i]@ == ValSpec::List(
                                seq![ks[i], vs[i]],
                            )
                        &&& views_of(outs).len() == outs.len()
                        &&& m@ == #[trigger] crate::model::apply_puts(Seq::empty(), ks, vs)
                        &&& #[trigger] views_of(outs) == views_of(outs)
                    },
                Err(e) => e == KotError::TypeMismatch && exists|bad: Value, i: int|
                    {
                        &&& 0 <= i < self.elements@.len()
                        &&& #[trigger] call_ensures(transform, (&self.elements@[i],), bad)
                        &&& !(bad@ matches ValSpec::List(p) && p.len() == 2)
                    },
            },
    {
        proof {
            lemma_views_of(self.elements@);
        }
        let mut keys: Vec<Value> = Vec::new();
        let mut values: Vec<Value> = Vec::new();
        let ghost mut outs: Seq<Value> = Seq::empty();
        let ghost mut ks: Seq<ValSpec> = Seq::empty();
        let ghost mut vs: Seq<ValSpec> = Seq::empty();
        let mut i: usize = 0;
        proof {
            assert(crate::kot_map::zip_views(keys@, values@) =~= Seq::<
                (ValSpec, ValSpec),
            >::empty());
        }
        while i < self.elements.len()
            invariant
                i <= self.elements@.len(),
                forall|t: int|
                    0 <= t < self.elements@.len() ==> call_requires(
                        transform,
                        (&self.elements@[t],),
                    ),
                outs.len() == i,
                ks.len() == i,
                vs.len() == i,
                forall|t: int|
                    0 <= t < i ==> call_ensures(
                        transform,
                        (&self.elements@[t],),
                        #[trigger] outs[t],
                    ),
                forall|t: int|
                    0 <= t < i ==> #[trigger] outs[t]@ == ValSpec::List(seq![ks[t], vs[t]]),
                keys@.len() == values@.len(),
                crate::model::unique_keys(crate::kot_map::zip_views(keys@, values@)),
                crate::kot_map::zip_views(keys@, values@) == crate::model::apply_puts(
                    Seq::empty(),
                    ks,
                    vs,
                ),
            decreases self.elements@.len() - i,
        {
            let ghost cur = crate::kot_map::zip_views(keys@, values@);
            let pair = transform(&self.elements[i]);
            let ghost gp = pair;
            let (k, v) = match &pair {
                Value::List(items) => {
                    proof {
                        lemma_views_of(items@);
                        assert(gp@ == ValSpec::List(views_of(items@)));
                    }
                    if items.len() != 2 {
                        assert(!(gp@ matches ValSpec::List(p) && p.len() == 2));
                        return Err(KotError::TypeMismatch);
                    }
                    let k0 = items[0].deep_copy();
                    let v0 = items[1].deep_copy();
                    proof {
                        assert(views_of(items@) =~= seq![k0@, v0@]);
                    }
                    (k0, v0)
                },
                _ => {
                    assert(!(gp@ matches ValSpec::List(p)));
                    return Err(KotError::TypeMismatch);
                },
            };
            proof {
                assert(gp@ == ValSpec::List(seq![k@, v@]));
                crate::model::lemma_put_entry(cur, k@, v@);
            }
            let ghost gk = k@;
            let ghost gv = v@;
            crate::kot_map::upsert_pair(&mut keys, &mut values, k, v);
            proof {
                let ghost old_ks = ks;
                let ghost old_vs = vs;
                outs = outs.push(gp);
                ks = ks.push(gk);
                vs = vs.push(gv);
                assert(ks.drop_last() =~= old_ks);
                assert(vs.drop_last() =~= old_vs);
                assert(crate::kot_map::zip_views(keys@, values@) == crate::model::apply_puts(
                    Seq::empty(),
                    ks,
                    vs,
                ));
            }
            i = i + 1;
        }
        proof {
            lemma_views_of(outs);
            assert(ks.len() == vs.len());
            assert(crate::kot_map::zip_views(keys@, values@) == crate::model::apply_puts(
                Seq::empty(),
                ks,
                vs,
            ));
            assert(views_of(outs).len() == outs.len());
        }
        Ok(crate::kot_map::KotMap { keys, values, key_type: None, value_type: None })
    }
}


/// The concatenation of a sequence of item sequences, in order.
pub open spec fn concat_all(parts: Seq<Seq<ValSpec>>) -> Seq<ValSpec>
    decreases parts.len(),
{
    if parts.len() == 0 {
        Seq::empty()
    } else {
        concat_all(parts.drop_last()) + parts.last()
    }
}

impl KotList {
    /// The running accumulators of a fold: the initial value followed by
    /// the accumulator after each element, left to right.
    pub fn scan<F: Fn(&Value, &Value) -> Value>(&self, initial: Value, operation: F) -> (r:
        KotList)
        requires
            forall|a: Value, b: Value| call_requires(operation, (&a, &b)),
        ensures
            r.element_type is None,
            r@.len() == self@.len() + 1,
            exists|accs: Seq<Value>|
                {
                    &&& #[trigger] views_of(accs).len() == accs.len()
                    &&& accs.len() == self.elements@.len()
                    &&& forall|i: int|
                        0 < i < accs.len() ==> call_ensures(
                            operation,
                            (&accs[i - 1], &self.elements@[i]),
                            #[trigger] accs[i],
                        )
                    &&& accs.len() > 0 ==> call_ensures(
                        operation,
                        (&initial, &self.elements@[0]),
                        accs[0],
                    )
                    &&& r@ == seq![initial@] + views_of(accs)
                },
    {
        proof {
            lemma_views_of(self.elements@);
        }
        let ghost mut accs: Seq<Value> = Seq::empty();
        let ghost init_snapshot = initial;
        let mut result: Vec<Value> = Vec::new();
        let first = initial.deep_copy();
        proof {
            crate::vec_ops::lemma_views_of_push(result@, first);
        }
        result.push(first);
        let mut acc = initial;
        let mut i: usize = 0;
        while i < self.elements.len()
            invariant
                i <= self.elements@.len(),
                accs.len() == i,
                result@.len() == i + 1,
                result@[0]@ == init_snapshot@,
                forall|j: int| 0 <= j < i ==> (#[trigger] result@[j + 1])@ == accs[j]@,
                forall|j: int|
                    0 < j < i ==> call_ensures(
                        operation,
                        (&accs[j - 1], &self.elements@[j]),
                        #[trigger] accs[j],
                    ),
                i > 0 ==> call_ensures(operation, (&init_snapshot, &self.elements@[0]), accs[0]),
                acc == if i == 0 {
                    init_snapshot
                } else {
                    accs.last()
                },
                forall|a: Value, b: Value| call_requires(operation, (&a, &b)),
            decreases self.elements@.len() - i,
        {
            acc = operation(&acc, &self.elements[i]);
            let copied = acc.deep_copy();
            proof {
                accs = accs.push(acc);
                crate::vec_ops::lemma_views_of_push(result@, copied);
            }
            result.push(copied);
            i = i + 1;
        }
        proof {
            lemma_views_of(result@);
            lemma_views_of(accs);
            assert forall|j: int| 0 <= j < views_of(result@).len() implies views_of(result@)[j]
                == (seq![init_snapshot@] + views_of(accs))[j] by {
                if j > 0 {
                    assert(result@[(j - 1) + 1]@ == accs[j - 1]@);
                    assert(views_of(accs)[j - 1] == accs[j - 1]@);
                }
            }
            assert(views_of(result@) =~= seq![init_snapshot@] + views_of(accs));
        }
        KotList { elements: result, element_type: None }
    }

    /// The elements whose selected key is seen for the first time, in
    /// order, under one run of the selector.
    pub fn distinct_by<F: Fn(&Value) -> Value>(&self, selector: F) -> (r: KotList)
        requires
            forall|i: int|
                0 <= i < self.elements@.len() ==> call_requires(
                    selector,
                    (&self.elements@[i],),
                ),
        ensures
            r.element_type == self.element_type,
            exists|kvals: Seq<Value>, d: Seq<bool>|
                {
                    &&& #[trigger] views_of(kvals).len() == kvals.len()
                    &&& kvals.len() == self.elements@.len()
                    &&& d.len() == self.elements@.len()
                    &&& forall|i: int|
                        0 <= i < kvals.len() ==> call_ensures(
                            selector,
                            (&self.elements@[i],),
                            #[trigger] kvals[i],
                        )
                    &&& forall|i: int|
                        0 <= i < d.len() ==> #[trigger] d[i] == (crate::model::last_prior(
                            views_of(kvals),
                            i,
                            views_of(kvals)[i],
                        ) == -1)
                    &&& r@ == #[trigger] masked_views(self.elements@, d)
                },
    {
        proof {
            lemma_views_of(self.elements@);
        }
        let ghost mut kvals: Seq<Value> = Seq::empty();
        let ghost mut d: Seq<bool> = Seq::empty();
        let mut seen: Vec<Value> = Vec::new();
        let mut result: Vec<Value> = Vec::new();
        let mut i: usize = 0;
        proof {
            lemma_views_of(seen@);
        }
        while i < self.elements.len()
            invariant
                i <= self.elements@.len(),
                forall|t: int|
                    0 <= t < self.elements@.len() ==> call_requires(
                        selector,
                        (&self.elements@[t],),
                    ),
                kvals.len() == i,
                d.len() == i,
                forall|t: int|
                    0 <= t < i ==> call_ensures(
                        selector,
                        (&self.elements@[t],),
                        #[trigger] kvals[t],
                    ),
                forall|t: int|
                    0 <= t < i ==> #[trigger] d[t] == (crate::model::last_prior(
                        views_of(kvals),
                        t,
                        views_of(kvals)[t],
                    ) == -1),
                views_of(result@) == masked_views(self.elements@.subrange(0, i as int), d),
                forall|x: ValSpec|
                    #[trigger] views_of(seen@).contains(x) <==> exists|j: int|
                        0 <= j < i && views_of(kvals)[j] == x,
            decreases self.elements@.len() - i,
        {
            let ghost old_kvals = kvals;
            let ghost old_seen = seen@;
            let k = selector(&self.elements[i]);
            let ghost kv = k;
            proof {
                crate::vec_ops::lemma_views_of_push(kvals, kv);
                assert(self.elements@.subrange(0, i + 1).drop_last() =~= self.elements@.subrange(
                    0,
                    i as int,
                ));
            }
            let fresh = !crate::vec_ops::contains_value(&seen, &k);
            proof {
                kvals = kvals.push(kv);
                assert(views_of(kvals) == views_of(old_kvals).push(kv@));
                lemma_views_of(kvals);
                lemma_views_of(old_kvals);
                assert(kvals.drop_last() =~= old_kvals);
                crate::model::lemma_last_prior(views_of(kvals), i as int, kv@);
                if fresh {
                    assert(crate::model::last_prior(views_of(kvals), i as int, kv@) == -1) by {
                        let lp = crate::model::last_prior(views_of(kvals), i as int, kv@);
                        if lp >= 0 {
                            assert(views_of(old_kvals)[lp] == kv@);
                            assert(views_of(old_seen).contains(kv@));
                        }
                    }
                } else {
                    assert(crate::model::last_prior(views_of(kvals), i as int, kv@) >= 0) by {
                        let j = choose|j: int| 0 <= j < i && views_of(old_kvals)[j] == kv@;
                        assert(views_of(kvals)[j] == kv@);
                        if crate::model::last_prior(views_of(kvals), i as int, kv@) == -1 {
                            assert(views_of(kvals)[j] != kv@);
                        }
                    }
                }
                assert(d.push(fresh).drop_last() =~= d);
                assert forall|t: int| 0 <= t < i implies #[trigger] d[t]
                    == (crate::model::last_prior(views_of(kvals), t, views_of(kvals)[t])
                    == -1) by {
                    crate::model::lemma_last_prior_stable(
                        views_of(kvals),
                        views_of(old_kvals),
                        t,
                        views_of(kvals)[t],
                    );
                    assert(views_of(kvals)[t] == views_of(old_kvals)[t]);
                }
            }
            if fresh {
                let copied = self.elements[i].deep_copy();
                proof {
                    crate::vec_ops::lemma_views_of_push(result@, copied);
                    crate::vec_ops::lemma_views_of_push(seen@, k);
                }
                result.push(copied);
                seen.push(k);
                proof {
                    assert forall|x: ValSpec| #[trigger] views_of(seen@).contains(x)
                        implies exists|j: int|
                        0 <= j <= i as int && views_of(kvals)[j] == x by {
                        if views_of(old_seen).contains(x) {
                            let j = choose|j: int|
                                0 <= j < i && #[trigger] views_of(old_kvals)[j] == x;
                            assert(views_of(kvals)[j] == x);
                        } else {
                            assert(views_of(seen@) =~= views_of(old_seen).push(kv@));
                            assert(x == kv@);
                            assert(views_of(kvals)[i as int] == x);
                        }
                    }
                    assert forall|x: ValSpec|
                        (exists|j: int| 0 <= j <= i as int && views_of(kvals)[j] == x)
                            implies #[trigger] views_of(seen@).contains(x) by {
                        let j = choose|j: int| 0 <= j <= i as int && views_of(kvals)[j] == x;
                        assert(views_of(seen@) =~= views_of(old_seen).push(kv@));
                        if j < i {
                            assert(views_of(old_kvals)[j] == x);
                            assert(views_of(old_seen).contains(x));
                            let w = choose|w: int|
                                0 <= w < views_of(old_seen).len() && views_of(old_seen)[w] == x;
                            assert(views_of(seen@)[w] == x);
                        } else {
                            assert(views_of(seen@).last() == x);
                        }
                    }
                }
            } else {
                proof {
                    assert forall|x: ValSpec| #[trigger] views_of(seen@).contains(x)
                        implies exists|j: int|
                        0 <= j <= i as int && views_of(kvals)[j] == x by {
                        let j = choose|j: int|
                            0 <= j < i && #[trigger] views_of(old_kvals)[j] == x;
                        assert(views_of(kvals)[j] == x);
                    }
                    assert forall|x: ValSpec|
                        (exists|j: int| 0 <= j <= i as int && views_of(kvals)[j] == x)
                            implies #[trigger] views_of(seen@).contains(x) by {
                        let j = choose|j: int| 0 <= j <= i as int && views_of(kvals)[j] == x;
                        if j < i {
                            assert(views_of(old_kvals)[j] == x);
                        } else {
                            assert(x == kv@);
                            assert(views_of(seen@).contains(kv@));
                        }
                    }
                }
            }
            proof {
                d = d.push(fresh);
            }
            i = i + 1;
        }
        proof {
            assert(self.elements@.subrange(0, self.elements@.len() as int) =~= self.elements@);
            lemma_views_of(kvals);
            assert(views_of(kvals).len() == kvals.len());
        }
        KotList { elements: result, element_type: self.element_type }
    }

    /// Each element transformed to a list value whose items are spliced
    /// into one flat list; fails with a type mismatch when the transform
    /// hands back anything but a list value.
    pub fn flat_map<F: Fn(&Value) -> Value>(&self, transform: F) -> (r: Result<KotList, KotError>)
        requires
            forall|i: int|
                0 <= i < self.elements@.len() ==> call_requires(
                    transform,
                    (&self.elements@[i],),
                ),
        ensures
            match r {
                Ok(l) => l.element_type is None && exists|
                    outs: Seq<Value>,
                    parts: Seq<Seq<ValSpec>>,
                |
                    {
                        &&& #[trigger] views_of(outs).len() == outs.len()
                        &&& outs.len() == self.elements@.len()
                        &&& parts.len() == outs.len()
                        &&& forall|i: int|
                            0 <= i < outs.len() ==> call_ensures(
                                transform,
                                (&self.elements@[i],),
                                #[trigger] outs[i],
                            )
                        &&& forall|i: int|
                            0 <= i < outs.len() ==> #[trigger] outs[i]@ == ValSpec::List(
                                parts[i],
                            )
                        &&& l@ == #[trigger] concat_all(parts)
                    },
                Err(e) => e == KotError::TypeMismatch && exists|bad: Value, i: int|
                    {
                        &&& 0 <= i < self.elements@.len()
                        &&& #[trigger] call_ensures(transform, (&self.elements@[i],), bad)
                        &&& !(bad@ matches ValSpec::List(p))
                    },
            },
    {
        proof {
            lemma_views_of(self.elements@);
        }
        let ghost mut outs: Seq<Value> = Seq::empty();
        let ghost mut parts: Seq<Seq<ValSpec>> = Seq::empty();
        let mut result: Vec<Value> = Vec::new();
        let mut i: usize = 0;
        proof {
            lemma_views_of(result@);
            assert(views_of(result@) =~= Seq::<ValSpec>::empty());
        }
        while i < self.elements.len()
            invariant
                i <= self.elements@.len(),
                forall|t: int|
                    0 <= t < self.elements@.len() ==> call_requires(
                        transform,
                        (&self.elements@[t],),
                    ),
                outs.len() == i,
                parts.len() == i,
                forall|t: int|
                    0 <= t < i ==> call_ensures(
                        transform,
                        (&self.elements@[t],),
                        #[trigger] outs[t],
                    ),
                forall|t: int|
                    0 <= t < i ==> #[trigger] outs[t]@ == ValSpec::List(parts[t]),
                views_of(result@) == concat_all(parts),
            decreases self.elements@.len() - i,
        {
            let ghost old_parts = parts;
            let transformed = transform(&self.elements[i]);
            let ghost gp = transformed;
            match &transformed {
                Value::List(items) => {
                    proof {
                        lemma_views_of(items@);
                        assert(gp@ == ValSpec::List(views_of(items@)));
                    }
                    let ghost base = views_of(result@);
                    let mut j: usize = 0;
                    while j < items.len()
                        invariant
                            j <= items@.len(),
                            views_of(result@).len() == base.len() + j,
                            views_of(result@) == base + views_of(items@).take(j as int),
                        decreases items@.len() - j,
                    {
                        let copied = items[j].deep_copy();
                        proof {
                            crate::vec_ops::lemma_views_of_push(result@, copied);
                            lemma_views_of(items@);
                            assert(base + views_of(items@).take(j + 1) =~= (base + views_of(
                                items@,
                            ).take(j as int)).push(views_of(items@)[j as int]));
                        }
                        result.push(copied);
                        j = j + 1;
                    }
                    proof {
                        outs = outs.push(transformed);
                        parts = parts.push(views_of(items@));
                        assert(views_of(items@).take(items@.len() as int) =~= views_of(items@));
                        assert(parts.drop_last() =~= old_parts);
                        assert(views_of(result@) == concat_all(parts));
                    }
                },
                _ => {
                    assert(!(gp@ matches ValSpec::List(p)));
                    return Err(KotError::TypeMismatch);
                },
            }
            i = i + 1;
        }
        proof {
            lemma_views_of(outs);
            assert(views_of(outs).len() == outs.len());
            assert(views_of(result@) == concat_all(parts));
        }
        Ok(KotList { elements: result, element_type: None })
    }
}


impl KotList {
    /// The elements the predicate — handed the index and element —
    /// accepts, in order, under one run over the list.
    pub fn filter_indexed<F: Fn(usize, &Value) -> bool>(&self, predicate: F) -> (r: KotList)
        requires
            forall|i: int|
                0 <= i < self.elements@.len() ==> call_requires(
                    predicate,
                    (i as usize, &self.elements@[i]),
                ),
        ensures
            r.element_type == self.element_type,
            exists|d: Seq<bool>|
                {
                    &&& d.len() == self.elements@.len()
                    &&& forall|i: int|
                        0 <= i < d.len() ==> call_ensures(
                            predicate,
                            (i as usize, &self.elements@[i]),
                            #[trigger] d[i],
                        )
                    &&& r@ == #[trigger] masked_views(self.elements@, d)
                },
    {
        proof {
            lemma_views_of(self.elements@);
        }
        let ghost mut d: Seq<bool> = Seq::empty();
        let mut result: Vec<Value> = Vec::new();
        let mut i: usize = 0;
        while i < self.elements.len()
            invariant
                i <= self.elements@.len(),
                d.len() == i,
                forall|t: int|
                    0 <= t < self.elements@.len() ==> call_requires(
                        predicate,
                        (t as usize, &self.elements@[t]),
                    ),
                forall|j: int|
                    0 <= j < i ==> call_ensures(
                        predicate,
                        (j as usize, &self.elements@[j]),
                        #[trigger] d[j],
                    ),
                views_of(result@) == masked_views(self.elements@.subrange(0, i as int), d),
            decreases self.elements@.len() - i,
        {
            let keep = predicate(i, &self.elements[i]);
            proof {
                assert(self.elements@.subrange(0, i + 1).drop_last() =~= self.elements@.subrange(
                    0,
                    i as int,
                ));
                assert(d.push(keep).drop_last() =~= d);
            }
            if keep {
                let copied = self.elements[i].deep_copy();
                proof {
                    crate::vec_ops::lemma_views_of_push(result@, copied);
                }
                result.push(copied);
            }
            proof {
                d = d.push(keep);
            }
            i = i + 1;
        }
        proof {
            assert(self.elements@.subrange(0, self.elements@.len() as int) =~= self.elements@);
        }
        KotList { elements: result, element_type: self.element_type }
    }

    /// Elements combined position by position with `other`'s through the
    /// callable; the longer side's tail is dropped.
    pub fn zip_transform<F: Fn(&Value, &Value) -> Value>(&self, other: &KotList, transform: F)
        -> (r: KotList)
        requires
            forall|a: Value, b: Value| call_requires(transform, (&a, &b)),
        ensures
            r.element_type is None,
            r@.len() == if self@.len() <= other@.len() {
                self@.len()
            } else {
                other@.len()
            },
            exists|outs: Seq<Value>|
                {
                    &&& #[trigger] views_of(outs).len() == outs.len()
                    &&& outs.len() == r@.len()
                    &&& forall|i: int|
                        0 <= i < outs.len() ==> call_ensures(
                            transform,
                            (&self.elements@[i], &other.elements@[i]),
                            #[trigger] outs[i],
                        )
                    &&& r@ == views_of(outs)
                },
    {
        proof {
            lemma_views_of(self.elements@);
            lemma_views_of(other.elements@);
        }
        let n = if self.elements.len() <= other.elements.len() {
            self.elements.len()
        } else {
            other.elements.len()
        };
        let ghost mut outs: Seq<Value> = Seq::empty();
        let mut result: Vec<Value> = Vec::new();
        let mut i: usize = 0;
        while i < n
            invariant
                i <= n,
                n <= self.elements@.len(),
                n <= other.elements@.len(),
                outs.len() == i,
                result@ == outs,
                forall|a: Value, b: Value| call_requires(transform, (&a, &b)),
                forall|j: int|
                    0 <= j < i ==> call_ensures(
                        transform,
                        (&self.elements@[j], &other.elements@[j]),
                        #[trigger] outs[j],
                    ),
            decreases n - i,
        {
            let combined = transform(&self.elements[i], &other.elements[i]);
            proof {
                outs = outs.push(combined);
            }
            result.push(combined);
            i = i + 1;
        }
        proof {
            lemma_views_of(result@);
            lemma_views_of(outs);
            assert(views_of(result@) =~= views_of(outs));
        }
        KotList { elements: result, element_type: None }
    }
}

} // verus!
