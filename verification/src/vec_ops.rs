//! Shared executable routines over element vectors.
//!
//! Every container stores its elements in a `Vec<Value>`; the linear scans
//! they all rely on — membership, search, deduplication, removal, filtering
//! by membership, selection sort — are implemented and verified once here,
//! against the model functions of [`crate::model`].

use vstd::multiset::Multiset;
use vstd::prelude::*;

use crate::model::{
    all_of_kind, dedup_first, first_index_of, lemma_dedup_first, lemma_first_index_of,
    lemma_last_index_of, last_index_of, drop_in, keep_in, mutually_comparable, remove_each,
    remove_first, sortable, sorted_vals,
};
use crate::value::{
    comparable, eq_value, kind_of, le_value, lemma_val_le_refl, lemma_val_le_total,
    lemma_val_le_trans, lemma_views_of, val_le, views_of, Kind, ValSpec, Value,
};

verus! {

/// Pushing a value appends its view.
pub broadcast proof fn lemma_views_of_push(s: Seq<Value>, v: Value)
    ensures
        #[trigger] views_of(s.push(v)) == views_of(s).push(v@),
{
    lemma_views_of(s);
    lemma_views_of(s.push(v));
    assert(views_of(s.push(v)) =~= views_of(s).push(v@));
}

/// Removing a value removes its view.
pub broadcast proof fn lemma_views_of_remove(s: Seq<Value>, i: int)
    requires
        0 <= i < s.len(),
    ensures
        #[trigger] views_of(s.remove(i)) == views_of(s).remove(i),
{
    lemma_views_of(s);
    lemma_views_of(s.remove(i));
    assert forall|j: int| 0 <= j < s.len() - 1 implies views_of(s.remove(i))[j] == views_of(
        s,
    ).remove(i)[j] by {
        if j < i {
            assert(s.remove(i)[j] == s[j]);
        } else {
            assert(s.remove(i)[j] == s[j + 1]);
        }
    }
    assert(views_of(s.remove(i)) =~= views_of(s).remove(i));
}

/// Taking a subrange takes the same subrange of views.
pub broadcast proof fn lemma_views_of_subrange(s: Seq<Value>, a: int, b: int)
    requires
        0 <= a <= b <= s.len(),
    ensures
        #[trigger] views_of(s.subrange(a, b)) == views_of(s).subrange(a, b),
{
    lemma_views_of(s);
    lemma_views_of(s.subrange(a, b));
    assert(views_of(s.subrange(a, b)) =~= views_of(s).subrange(a, b));
}

/// A fresh vector holding the same values.
pub fn clone_values(v: &Vec<Value>) -> (r: Vec<Value>)
    ensures
        views_of(r@) == views_of(v@),
        r@.len() == v@.len(),
{
    proof {
        lemma_views_of(v@);
    }
    let mut r: Vec<Value> = Vec::new();
    let mut i: usize = 0;
    while i < v.len()
        invariant
            i <= v.len(),
            r@.len() == i,
            forall|j: int| 0 <= j < i ==> r@[j]@ == v@[j]@,
        decreases v.len() - i,
    {
        r.push(v[i].deep_copy());
        i = i + 1;
    }
    proof {
        lemma_views_of(r@);
        assert(views_of(r@) =~= views_of(v@));
    }
    r
}

/// Whether every value in `v` is of kind `k`.
pub fn all_values_of_kind(v: &Vec<Value>, k: Kind) -> (r: bool)
    ensures
        r == all_of_kind(views_of(v@), k),
{
    proof {
        lemma_views_of(v@);
    }
    let mut i: usize = 0;
    while i < v.len()
        invariant
            i <= v.len(),
            forall|j: int| 0 <= j < i ==> kind_of(#[trigger] views_of(v@)[j]) == k,
        decreases v.len() - i,
    {
        if v[i].kind() != k {
            assert(kind_of(views_of(v@)[i as int]) != k);
            return false;
        }
        i = i + 1;
    }
    true
}

/// Whether some element of `v` equals `x`.
pub fn contains_value(v: &Vec<Value>, x: &Value) -> (r: bool)
    ensures
        r == views_of(v@).contains(x@),
{
    proof {
        lemma_views_of(v@);
    }
    let mut i: usize = 0;
    while i < v.len()
        invariant
            i <= v.len(),
            forall|j: int| 0 <= j < i ==> views_of(v@)[j] != x@,
        decreases v.len() - i,
    {
        if eq_value(&v[i], x) {
            assert(views_of(v@)[i as int] == x@);
            return true;
        }
        i = i + 1;
    }
    assert(!views_of(v@).contains(x@)) by {
        if views_of(v@).contains(x@) {
            let j = choose|j: int| 0 <= j < views_of(v@).len() && views_of(v@)[j] == x@;
        }
    }
    false
}

/// The position of the first element equal to `x`, if any.
pub fn find_first(v: &Vec<Value>, x: &Value) -> (r: Option<usize>)
    ensures
        match r {
            Option::Some(i) => first_index_of(views_of(v@), x@) == i && i < v@.len(),
            Option::None => first_index_of(views_of(v@), x@) == -1,
        },
{
    proof {
        lemma_views_of(v@);
        lemma_first_index_of(views_of(v@), x@);
    }
    let ghost s = views_of(v@);
    let mut i: usize = 0;
    while i < v.len()
        invariant
            i <= v.len(),
            forall|j: int| 0 <= j < i ==> s[j] != x@,
        decreases v.len() - i,
    {
        if eq_value(&v[i], x) {
            assert(s[i as int] == x@);
            assert(first_index_of(s, x@) == i);
            return Option::Some(i);
        }
        i = i + 1;
    }
    assert(first_index_of(s, x@) == -1);
    Option::None
}

/// The position of the last element equal to `x`, if any.
pub fn find_last(v: &Vec<Value>, x: &Value) -> (r: Option<usize>)
    ensures
        match r {
            Option::Some(i) => last_index_of(views_of(v@), x@) == i && i < v@.len(),
            Option::None => last_index_of(views_of(v@), x@) == -1,
        },
{
    proof {
        lemma_views_of(v@);
        lemma_last_index_of(views_of(v@), x@);
    }
    let ghost s = views_of(v@);
    let mut i: usize = v.len();
    while i > 0
        invariant
            i <= v.len(),
            forall|j: int| i <= j < v.len() ==> s[j] != x@,
        decreases i,
    {
        i = i - 1;
        if eq_value(&v[i], x) {
            assert(s[i as int] == x@);
            assert(last_index_of(s, x@) == i);
            return Option::Some(i);
        }
    }
    assert(last_index_of(s, x@) == -1);
    Option::None
}

/// The two vectors' values, one after the other.
pub fn concat_values(a: &Vec<Value>, b: &Vec<Value>) -> (r: Vec<Value>)
    ensures
        views_of(r@) == views_of(a@) + views_of(b@),
{
    proof {
        lemma_views_of(a@);
        lemma_views_of(b@);
    }
    let mut r = clone_values(a);
    proof {
        lemma_views_of(r@);
        assert forall|j: int| 0 <= j < a@.len() implies r@[j]@ == a@[j]@ by {
            assert(views_of(r@)[j] == r@[j]@);
            assert(views_of(a@)[j] == a@[j]@);
        }
    }
    let mut i: usize = 0;
    while i < b.len()
        invariant
            i <= b.len(),
            r@.len() == a@.len() + i,
            forall|j: int| 0 <= j < a@.len() ==> r@[j]@ == a@[j]@,
            forall|j: int| 0 <= j < i ==> r@[a@.len() + j]@ == b@[j]@,
        decreases b.len() - i,
    {
        r.push(b[i].deep_copy());
        i = i + 1;
    }
    proof {
        lemma_views_of(r@);
        assert(views_of(r@) =~= views_of(a@) + views_of(b@));
    }
    r
}

/// The values of `v` with duplicates dropped, first occurrences kept in
/// their order.
pub fn dedup_values(v: &Vec<Value>) -> (r: Vec<Value>)
    ensures
        views_of(r@) == dedup_first(views_of(v@)),
{
    proof {
        lemma_views_of(v@);
    }
    let ghost s = views_of(v@);
    let mut r: Vec<Value> = Vec::new();
    let mut i: usize = 0;
    proof {
        assert(s.subrange(0, 0) =~= Seq::<ValSpec>::empty());
    }
    while i < v.len()
        invariant
            i <= v.len(),
            views_of(r@) == dedup_first(s.subrange(0, i as int)),
        decreases v.len() - i,
    {
        let ghost p = s.subrange(0, i as int);
        proof {
            lemma_dedup_first(p);
            assert(s.subrange(0, i + 1).drop_last() =~= p);
            assert(s.subrange(0, i + 1).last() == s[i as int]);
        }
        if !contains_value(&r, &v[i]) {
            assert(!p.contains(s[i as int]));
            let copied = v[i].deep_copy();
            proof {
                lemma_views_of_push(r@, copied);
            }
            r.push(copied);
        } else {
            assert(p.contains(s[i as int]));
        }
        i = i + 1;
    }
    proof {
        assert(s.subrange(0, v.len() as int) =~= s);
    }
    r
}

/// `v` with, for each value of `rem` in turn, its first occurrence removed.
pub fn remove_each_values(v: &Vec<Value>, rem: &Vec<Value>) -> (r: Vec<Value>)
    ensures
        views_of(r@) == remove_each(views_of(v@), views_of(rem@)),
{
    proof {
        lemma_views_of(v@);
        lemma_views_of(rem@);
    }
    let ghost rs = views_of(rem@);
    let mut r = clone_values(v);
    let mut k: usize = 0;
    proof {
        assert(rs.skip(0) =~= rs);
    }
    while k < rem.len()
        invariant
            k <= rem.len(),
            remove_each(views_of(r@), rs.skip(k as int)) == remove_each(views_of(v@), rs),
        decreases rem.len() - k,
    {
        let ghost cur = views_of(r@);
        proof {
            assert(rs.skip(k as int)[0] == rs[k as int]);
            assert(rs.skip(k as int).drop_first() =~= rs.skip(k + 1));
        }
        match find_first(&r, &rem[k]) {
            Option::Some(i) => {
                proof {
                    lemma_views_of_remove(r@, i as int);
                }
                r.remove(i);
                assert(views_of(r@) == remove_first(cur, rs[k as int]));
            },
            Option::None => {
                assert(views_of(r@) == remove_first(cur, rs[k as int]));
            },
        }
        k = k + 1;
    }
    proof {
        assert(rs.skip(rem.len() as int) =~= Seq::<ValSpec>::empty());
    }
    r
}

/// The values of `v` that occur in `allowed`, in order.
pub fn keep_in_values(v: &Vec<Value>, allowed: &Vec<Value>) -> (r: Vec<Value>)
    ensures
        views_of(r@) == keep_in(views_of(v@), views_of(allowed@)),
        forall|j: int|
            0 <= j < views_of(r@).len() ==> views_of(v@).contains(#[trigger] views_of(r@)[j]),
{
    proof {
        lemma_views_of(v@);
    }
    let ghost s = views_of(v@);
    let ghost a = views_of(allowed@);
    let ghost pred = |x: ValSpec| a.contains(x);
    let mut r: Vec<Value> = Vec::new();
    let mut i: usize = 0;
    proof {
        reveal(Seq::filter);
        assert(s.subrange(0, 0) =~= Seq::<ValSpec>::empty());
        assert(s.subrange(0, 0).filter(pred) =~= Seq::<ValSpec>::empty());
    }
    while i < v.len()
        invariant
            i <= v.len(),
            views_of(r@) == s.subrange(0, i as int).filter(pred),
        decreases v.len() - i,
    {
        let ghost p = s.subrange(0, i as int);
        proof {
            assert(s.subrange(0, i + 1) =~= p.push(s[i as int]));
            Seq::lemma_filter_push(p, s[i as int], pred);
        }
        if contains_value(allowed, &v[i]) {
            let copied = v[i].deep_copy();
            proof {
                lemma_views_of_push(r@, copied);
            }
            r.push(copied);
        }
        i = i + 1;
    }
    proof {
        assert(s.subrange(0, v.len() as int) =~= s);
        assert forall|j: int| 0 <= j < views_of(r@).len() implies s.contains(
            #[trigger] views_of(r@)[j],
        ) by {
            assert(s.filter(pred).contains(views_of(r@)[j]));
            Seq::lemma_filter_contains_rev(s, pred, views_of(r@)[j]);
        }
    }
    r
}

/// The values of `v` that do not occur in `banned`, in order.
pub fn drop_in_values(v: &Vec<Value>, banned: &Vec<Value>) -> (r: Vec<Value>)
    ensures
        views_of(r@) == drop_in(views_of(v@), views_of(banned@)),
        forall|j: int|
            0 <= j < views_of(r@).len() ==> views_of(v@).contains(#[trigger] views_of(r@)[j]),
{
    proof {
        lemma_views_of(v@);
    }
    let ghost s = views_of(v@);
    let ghost b = views_of(banned@);
    let ghost pred = |x: ValSpec| !b.contains(x);
    let mut r: Vec<Value> = Vec::new();
    let mut i: usize = 0;
    proof {
        reveal(Seq::filter);
        assert(s.subrange(0, 0) =~= Seq::<ValSpec>::empty());
        assert(s.subrange(0, 0).filter(pred) =~= Seq::<ValSpec>::empty());
    }
    while i < v.len()
        invariant
            i <= v.len(),
            views_of(r@) == s.subrange(0, i as int).filter(pred),
        decreases v.len() - i,
    {
        let ghost p = s.subrange(0, i as int);
        proof {
            assert(s.subrange(0, i + 1) =~= p.push(s[i as int]));
            Seq::lemma_filter_push(p, s[i as int], pred);
        }
        if !contains_value(banned, &v[i]) {
            let copied = v[i].deep_copy();
            proof {
                lemma_views_of_push(r@, copied);
            }
            r.push(copied);
        }
        i = i + 1;
    }
    proof {
        assert(s.subrange(0, v.len() as int) =~= s);
        assert forall|j: int| 0 <= j < views_of(r@).len() implies s.contains(
            #[trigger] views_of(r@)[j],
        ) by {
            assert(s.filter(pred).contains(views_of(r@)[j]));
            Seq::lemma_filter_contains_rev(s, pred, views_of(r@)[j]);
        }
    }
    r
}

/// Whether the two vectors hold equal values in the same order.
pub fn values_equal(a: &Vec<Value>, b: &Vec<Value>) -> (r: bool)
    ensures
        r == (views_of(a@) == views_of(b@)),
{
    proof {
        lemma_views_of(a@);
        lemma_views_of(b@);
    }
    if a.len() != b.len() {
        assert(views_of(a@).len() != views_of(b@).len());
        return false;
    }
    let mut i: usize = 0;
    while i < a.len()
        invariant
            i <= a.len(),
            forall|j: int| 0 <= j < i ==> views_of(a@)[j] == views_of(b@)[j],
        decreases a.len() - i,
    {
        if !eq_value(&a[i], &b[i]) {
            assert(views_of(a@)[i as int] != views_of(b@)[i as int]);
            return false;
        }
        i = i + 1;
    }
    assert(views_of(a@) =~= views_of(b@));
    true
}

/// The position of the first minimal value under the value order.
pub fn min_position(v: &Vec<Value>) -> (r: usize)
    requires
        v@.len() > 0,
        mutually_comparable(views_of(v@)),
    ensures
        r < v@.len(),
        forall|j: int| 0 <= j < v@.len() ==> val_le(views_of(v@)[r as int], views_of(v@)[j]),
        forall|j: int| 0 <= j < r ==> !val_le(views_of(v@)[j], views_of(v@)[r as int]),
{
    proof {
        lemma_views_of(v@);
    }
    let ghost s = views_of(v@);
    let mut m: usize = 0;
    let mut i: usize = 1;
    proof {
        lemma_val_le_refl(s[0]);
    }
    while i < v.len()
        invariant
            m < i <= v.len(),
            forall|j: int| 0 <= j < i ==> val_le(s[m as int], s[j]),
            forall|j: int| 0 <= j < m ==> !val_le(s[j], s[m as int]),
        decreases v.len() - i,
    {
        if !le_value(&v[m], &v[i]) {
            proof {
                lemma_val_le_total(s[m as int], s[i as int]);
                assert forall|j: int| 0 <= j <= i implies val_le(s[i as int], s[j]) by {
                    if j == i {
                        lemma_val_le_refl(s[i as int]);
                    } else {
                        lemma_val_le_trans(s[i as int], s[m as int], s[j]);
                    }
                }
                assert forall|j: int| 0 <= j < i implies !val_le(s[j], s[i as int]) by {
                    if val_le(s[j], s[i as int]) {
                        lemma_val_le_trans(s[m as int], s[j], s[i as int]);
                    }
                }
            }
            m = i;
        } else {
            proof {
                assert forall|j: int| 0 <= j <= i implies val_le(s[m as int], s[j]) by {
                }
            }
        }
        i = i + 1;
    }
    m
}

/// Every value of `a` orders at or below, and is comparable with, every
/// value of `b`.
pub open spec fn all_below(a: Seq<ValSpec>, b: Seq<ValSpec>) -> bool {
    forall|i: int, j: int|
        0 <= i < a.len() && 0 <= j < b.len() ==> val_le(a[i], b[j]) && comparable(a[i], b[j])
}

/// The views of the values of `s` kept by the mask `d`, in order.
pub open spec fn masked_views(s: Seq<Value>, d: Seq<bool>) -> Seq<ValSpec>
    recommends
        d.len() == s.len(),
    decreases s.len(),
{
    if s.len() == 0 {
        Seq::empty()
    } else {
        let p = masked_views(s.drop_last(), d.drop_last());
        if d.len() == s.len() && d.last() {
            p.push(s.last()@)
        } else {
            p
        }
    }
}

/// Every view kept by a mask is the view of some masked value.
pub proof fn lemma_masked_views(s: Seq<Value>, d: Seq<bool>)
    requires
        d.len() == s.len(),
    ensures
        masked_views(s, d).len() <= s.len(),
        forall|j: int|
            0 <= j < masked_views(s, d).len() ==> exists|i: int|
                0 <= i < s.len() && #[trigger] masked_views(s, d)[j] == s[i]@ && d[i],
    decreases s.len(),
{
    if s.len() > 0 {
        lemma_masked_views(s.drop_last(), d.drop_last());
        let m = masked_views(s, d);
        let p = masked_views(s.drop_last(), d.drop_last());
        assert forall|j: int| 0 <= j < m.len() implies exists|i: int|
            0 <= i < s.len() && #[trigger] m[j] == s[i]@ && d[i] by {
            if d.last() && j == m.len() - 1 {
                assert(m[j] == s[s.len() - 1]@ && d[s.len() - 1]);
            } else {
                assert(m[j] == p[j]);
                let i = choose|i: int|
                    0 <= i < s.drop_last().len() && #[trigger] p[j] == s.drop_last()[i]@
                        && d.drop_last()[i];
                assert(m[j] == s[i]@ && d[i]);
            }
        }
    }
}

/// A mask keeps a duplicate-free value sequence duplicate-free.
pub proof fn lemma_masked_unique(s: Seq<Value>, d: Seq<bool>)
    requires
        d.len() == s.len(),
        crate::model::unique_vals(views_of(s)),
    ensures
        crate::model::unique_vals(masked_views(s, d)),
    decreases s.len(),
{
    lemma_views_of(s);
    if s.len() > 0 {
        let sp = s.drop_last();
        let dp = d.drop_last();
        lemma_views_of(sp);
        assert(crate::model::unique_vals(views_of(sp))) by {
            assert(forall|i: int| 0 <= i < sp.len() ==> views_of(sp)[i] == views_of(s)[i]);
        }
        lemma_masked_unique(sp, dp);
        let m = masked_views(sp, dp);
        if d.last() {
            lemma_masked_views(sp, dp);
            assert forall|i: int| 0 <= i < m.len() implies m[i] != s.last()@ by {
                let w = choose|w: int| 0 <= w < sp.len() && #[trigger] m[i] == sp[w]@ && dp[w];
                assert(views_of(s)[w] == sp[w]@);
                assert(views_of(s)[w] != views_of(s)[s.len() - 1]);
            }
            assert(crate::model::unique_vals(m.push(s.last()@))) by {
                assert(forall|i: int| 0 <= i < m.len() ==> m.push(s.last()@)[i] == m[i]);
            }
        }
    }
}

/// Each value transformed by the callable, in order.
pub fn map_values_with<F: Fn(&Value) -> Value>(v: &Vec<Value>, transform: F) -> (r: Vec<Value>)
    requires
        forall|i: int| 0 <= i < v@.len() ==> call_requires(transform, (&v@[i],)),
    ensures
        r@.len() == v@.len(),
        forall|i: int|
            0 <= i < v@.len() ==> call_ensures(transform, (&v@[i],), #[trigger] r@[i]),
{
    let mut r: Vec<Value> = Vec::new();
    let mut i: usize = 0;
    while i < v.len()
        invariant
            i <= v@.len(),
            r@.len() == i,
            forall|j: int| 0 <= j < i ==> call_ensures(transform, (&v@[j],), #[trigger] r@[j]),
        decreases v.len() - i,
    {
        let t = transform(&v[i]);
        r.push(t);
        i = i + 1;
    }
    r
}

/// The values kept by one run of the predicate, in order.
pub fn filter_values_with<F: Fn(&Value) -> bool>(v: &Vec<Value>, predicate: F) -> (r: Vec<Value>)
    requires
        forall|i: int| 0 <= i < v@.len() ==> call_requires(predicate, (&v@[i],)),
    ensures
        exists|d: Seq<bool>|
            {
                &&& d.len() == v@.len()
                &&& forall|i: int|
                    0 <= i < d.len() ==> call_ensures(predicate, (&v@[i],), #[trigger] d[i])
                &&& views_of(r@) == #[trigger] masked_views(v@, d)
            },
{
    proof {
        lemma_views_of(v@);
    }
    let ghost mut d: Seq<bool> = Seq::empty();
    let mut r: Vec<Value> = Vec::new();
    let mut i: usize = 0;
    while i < v.len()
        invariant
            i <= v@.len(),
            d.len() == i,
            forall|j: int| 0 <= j < i ==> call_ensures(predicate, (&v@[j],), #[trigger] d[j]),
            views_of(r@) == masked_views(v@.subrange(0, i as int), d),
        decreases v.len() - i,
    {
        let keep = predicate(&v[i]);
        proof {
            assert(v@.subrange(0, i + 1).drop_last() =~= v@.subrange(0, i as int));
            assert(d.push(keep).drop_last() =~= d);
        }
        if keep {
            let copied = v[i].deep_copy();
            proof {
                lemma_views_of_push(r@, copied);
            }
            r.push(copied);
        }
        proof {
            d = d.push(keep);
        }
        i = i + 1;
    }
    proof {
        assert(v@.subrange(0, v@.len() as int) =~= v@);
        assert(views_of(r@) == masked_views(v@, d));
    }
    r
}

/// Whether every value passes the predicate, short-circuiting on the
/// first that does not.
pub fn all_values_with<F: Fn(&Value) -> bool>(v: &Vec<Value>, predicate: F) -> (r: bool)
    requires
        forall|i: int| 0 <= i < v@.len() ==> call_requires(predicate, (&v@[i],)),
    ensures
        r ==> forall|i: int| 0 <= i < v@.len() ==> call_ensures(predicate, (&#[trigger] v@[i],), true),
        !r ==> exists|i: int|
            0 <= i < v@.len() && call_ensures(predicate, (&#[trigger] v@[i],), false),
{
    let mut i: usize = 0;
    while i < v.len()
        invariant
            i <= v@.len(),
            forall|j: int| 0 <= j < i ==> call_ensures(predicate, (&#[trigger] v@[j],), true),
        decreases v.len() - i,
    {
        if !predicate(&v[i]) {
            return false;
        }
        i = i + 1;
    }
    true
}

/// Whether some value passes the predicate, short-circuiting on the first
/// that does.
pub fn any_values_with<F: Fn(&Value) -> bool>(v: &Vec<Value>, predicate: F) -> (r: bool)
    requires
        forall|i: int| 0 <= i < v@.len() ==> call_requires(predicate, (&v@[i],)),
    ensures
        r ==> exists|i: int|
            0 <= i < v@.len() && call_ensures(predicate, (&#[trigger] v@[i],), true),
        !r ==> forall|i: int| 0 <= i < v@.len() ==> call_ensures(predicate, (&#[trigger] v@[i],), false),
{
    let mut i: usize = 0;
    while i < v.len()
        invariant
            i <= v@.len(),
            forall|j: int| 0 <= j < i ==> call_ensures(predicate, (&#[trigger] v@[j],), false),
        decreases v.len() - i,
    {
        if predicate(&v[i]) {
            return true;
        }
        i = i + 1;
    }
    false
}

/// How many values pass one run of the predicate.
pub fn count_values_with<F: Fn(&Value) -> bool>(v: &Vec<Value>, predicate: F) -> (r: usize)
    requires
        forall|i: int| 0 <= i < v@.len() ==> call_requires(predicate, (&v@[i],)),
    ensures
        r <= v@.len(),
        exists|d: Seq<bool>|
            {
                &&& d.len() == v@.len()
                &&& forall|i: int|
                    0 <= i < d.len() ==> call_ensures(predicate, (&v@[i],), #[trigger] d[i])
                &&& r == num_true(d)
            },
{
    let ghost mut d: Seq<bool> = Seq::empty();
    let mut n: usize = 0;
    let mut i: usize = 0;
    while i < v.len()
        invariant
            i <= v@.len(),
            d.len() == i,
            n <= i,
            forall|j: int| 0 <= j < i ==> call_ensures(predicate, (&v@[j],), #[trigger] d[j]),
            n == num_true(d),
        decreases v.len() - i,
    {
        let hit = predicate(&v[i]);
        proof {
            assert(d.push(hit).drop_last() =~= d);
        }
        if hit {
            n = n + 1;
        }
        proof {
            d = d.push(hit);
        }
        i = i + 1;
    }
    n
}

/// The accumulator after folding every value onto `initial`, left to
/// right.
pub fn fold_values_with<F: Fn(&Value, &Value) -> Value>(v: &Vec<Value>, initial: Value, operation: F)
    -> (r: Value)
    requires
        forall|a: Value, b: Value| call_requires(operation, (&a, &b)),
    ensures
        exists|accs: Seq<Value>|
            {
                &&& accs.len() == v@.len()
                &&& forall|i: int|
                    0 < i < accs.len() ==> call_ensures(
                        operation,
                        (&accs[i - 1], &v@[i]),
                        #[trigger] accs[i],
                    )
                &&& accs.len() > 0 ==> call_ensures(operation, (&initial, &v@[0]), accs[0])
                &&& r == if accs.len() == 0 {
                    initial
                } else {
                    accs.last()
                }
            },
{
    let ghost mut accs: Seq<Value> = Seq::empty();
    let ghost init_snapshot = initial;
    let mut acc = initial;
    let mut i: usize = 0;
    while i < v.len()
        invariant
            i <= v@.len(),
            accs.len() == i,
            forall|j: int|
                0 < j < i ==> call_ensures(operation, (&accs[j - 1], &v@[j]), #[trigger] accs[j]),
            i > 0 ==> call_ensures(operation, (&init_snapshot, &v@[0]), accs[0]),
            acc == if i == 0 {
                init_snapshot
            } else {
                accs.last()
            },
        decreases v.len() - i,
    {
        acc = operation(&acc, &v[i]);
        proof {
            accs = accs.push(acc);
        }
        i = i + 1;
    }
    acc
}

/// How many entries of the mask are set.
pub open spec fn num_true(d: Seq<bool>) -> int
    decreases d.len(),
{
    if d.len() == 0 {
        0
    } else {
        num_true(d.drop_last()) + if d.last() {
            1int
        } else {
            0int
        }
    }
}

/// Fresh copies of the values in positions `from..to`.
pub fn copy_range(v: &Vec<Value>, from: usize, to: usize) -> (r: Vec<Value>)
    requires
        from <= to <= v@.len(),
    ensures
        views_of(r@) == views_of(v@).subrange(from as int, to as int),
{
    proof {
        lemma_views_of(v@);
    }
    let mut r: Vec<Value> = Vec::new();
    let mut i: usize = from;
    while i < to
        invariant
            from <= i <= to,
            r@.len() == i - from,
            forall|j: int| 0 <= j < r@.len() ==> r@[j]@ == v@[from + j]@,
        decreases to - i,
    {
        r.push(v[i].deep_copy());
        i = i + 1;
    }
    proof {
        lemma_views_of(r@);
        assert(views_of(r@) =~= views_of(v@).subrange(from as int, to as int));
    }
    r
}

/// The values in reverse order.
pub fn reverse_values(v: &Vec<Value>) -> (r: Vec<Value>)
    ensures
        views_of(r@) == views_of(v@).reverse(),
{
    proof {
        lemma_views_of(v@);
    }
    let mut r: Vec<Value> = Vec::new();
    let mut i: usize = v.len();
    while i > 0
        invariant
            i <= v.len(),
            r@.len() == v@.len() - i,
            forall|j: int| 0 <= j < r@.len() ==> r@[j]@ == v@[v@.len() - 1 - j]@,
        decreases i,
    {
        i = i - 1;
        r.push(v[i].deep_copy());
    }
    proof {
        lemma_views_of(r@);
        assert(views_of(r@) =~= views_of(v@).reverse());
    }
    r
}

/// Whether the values can be sorted: at most one, or all of one comparable
/// kind.
pub fn check_sortable(v: &Vec<Value>) -> (r: bool)
    ensures
        r == sortable(views_of(v@)),
{
    proof {
        lemma_views_of(v@);
    }
    let ghost s = views_of(v@);
    if v.len() <= 1 {
        return true;
    }
    let k = v[0].kind();
    let orderable = match k {
        Kind::Bool => true,
        Kind::Int => true,
        Kind::Text => true,
        _ => false,
    };
    if !orderable {
        assert(!comparable(s[0], s[0]));
        assert(!mutually_comparable(s));
        return false;
    }
    if all_values_of_kind(v, k) {
        assert forall|i: int, j: int|
            0 <= i < s.len() && 0 <= j < s.len() implies comparable(s[i], s[j]) by {
            assert(kind_of(s[i]) == k && kind_of(s[j]) == k);
        }
        true
    } else {
        proof {
            let i = choose|i: int| 0 <= i < s.len() && kind_of(#[trigger] s[i]) != k;
            assert(!comparable(s[0], s[i]));
        }
        false
    }
}

/// The position of the first maximal value under the value order.
pub fn max_position(v: &Vec<Value>) -> (r: usize)
    requires
        v@.len() > 0,
        mutually_comparable(views_of(v@)),
    ensures
        r < v@.len(),
        forall|j: int| 0 <= j < v@.len() ==> val_le(views_of(v@)[j], views_of(v@)[r as int]),
        forall|j: int| 0 <= j < r ==> !val_le(views_of(v@)[r as int], views_of(v@)[j]),
{
    proof {
        lemma_views_of(v@);
    }
    let ghost s = views_of(v@);
    let mut m: usize = 0;
    let mut i: usize = 1;
    proof {
        lemma_val_le_refl(s[0]);
    }
    while i < v.len()
        invariant
            m < i <= v.len(),
            forall|j: int| 0 <= j < i ==> val_le(s[j], s[m as int]),
            forall|j: int| 0 <= j < m ==> !val_le(s[m as int], s[j]),
        decreases v.len() - i,
    {
        if !le_value(&v[i], &v[m]) {
            proof {
                lemma_val_le_total(s[m as int], s[i as int]);
                assert forall|j: int| 0 <= j <= i implies val_le(s[j], s[i as int]) by {
                    if j == i {
                        lemma_val_le_refl(s[i as int]);
                    } else {
                        lemma_val_le_trans(s[j], s[m as int], s[i as int]);
                    }
                }
                assert forall|j: int| 0 <= j < i implies !val_le(s[i as int], s[j]) by {
                    if val_le(s[i as int], s[j]) {
                        lemma_val_le_trans(s[i as int], s[j], s[m as int]);
                    }
                }
            }
            m = i;
        } else {
            proof {
                assert forall|j: int| 0 <= j <= i implies val_le(s[j], s[m as int]) by {
                }
            }
        }
        i = i + 1;
    }
    m
}

/// The values of `v` in ascending order under the value order.
pub fn sorted_values(v: &Vec<Value>) -> (r: Vec<Value>)
    requires
        mutually_comparable(views_of(v@)),
    ensures
        sorted_vals(views_of(r@)),
        views_of(r@).to_multiset() == views_of(v@).to_multiset(),
        r@.len() == v@.len(),
{
    broadcast use vstd::seq_lib::group_to_multiset_ensures;

    proof {
        lemma_views_of(v@);
    }
    let ghost s = views_of(v@);
    let mut w = clone_values(v);
    let mut r: Vec<Value> = Vec::new();
    while w.len() > 0
        invariant
            views_of(r@).to_multiset().add(views_of(w@).to_multiset()) == s.to_multiset(),
            r@.len() + w@.len() == s.len(),
            sorted_vals(views_of(r@)),
            mutually_comparable(views_of(w@)),
            mutually_comparable(views_of(r@)),
            all_below(views_of(r@), views_of(w@)),
        decreases w.len(),
    {
        let ghost rv = views_of(r@);
        let ghost wv = views_of(w@);
        let ghost wseq = w@;
        let ghost rseq = r@;
        let m = min_position(&w);
        let picked = w.remove(m);
        proof {
            lemma_views_of(wseq);
            lemma_views_of_remove(wseq, m as int);
            assert(picked@ == wv[m as int]);
            assert(views_of(w@) == wv.remove(m as int));
            lemma_views_of_push(rseq, picked);
            assert(wv.to_multiset().count(wv[m as int]) > 0) by {
                assert(wv.contains(wv[m as int]));
            }
            assert(rv.push(picked@).to_multiset() =~= rv.to_multiset().insert(wv[m as int]));
            assert(wv.remove(m as int).to_multiset() =~= wv.to_multiset().remove(wv[m as int]));
            assert(rv.push(picked@).to_multiset().add(views_of(w@).to_multiset())
                =~= rv.to_multiset().add(wv.to_multiset()));
            assert(forall|j: int|
                0 <= j < wv.len() - 1 ==> wv.remove(m as int)[j] == wv[j] || wv.remove(m as int)[j]
                    == wv[j + 1]);
        }
        r.push(picked);
        proof {
            let rv2 = views_of(r@);
            let wv2 = views_of(w@);
            assert(sorted_vals(rv));
            assert(all_below(rv, wv));
            assert(mutually_comparable(wv));
            assert(mutually_comparable(rv));
            assert(rv2 == rv.push(wv[m as int]));
            assert(forall|j: int| 0 <= j < m ==> wv2[j] == wv[j]);
            assert(forall|j: int| m <= j < wv2.len() ==> wv2[j] == wv[j + 1]);
            assert forall|i: int, j: int| 0 <= i < j < rv2.len() implies val_le(
                rv2[i],
                rv2[j],
            ) by {
                if j == rv2.len() - 1 {
                    assert(rv2[j] == wv[m as int]);
                    assert(rv2[i] == rv[i]);
                    assert(val_le(rv[i], wv[m as int]));
                } else {
                    assert(rv2[i] == rv[i] && rv2[j] == rv[j]);
                    assert(val_le(rv[i], rv[j]));
                }
            }
            assert forall|i: int, j: int|
                0 <= i < rv2.len() && 0 <= j < rv2.len() implies comparable(
                rv2[i],
                rv2[j],
            ) by {
                if i == rv2.len() - 1 && j == rv2.len() - 1 {
                    assert(comparable(wv[m as int], wv[m as int]));
                } else if i == rv2.len() - 1 {
                    assert(comparable(rv[j], wv[m as int]));
                } else if j == rv2.len() - 1 {
                    assert(comparable(rv[i], wv[m as int]));
                }
            }
            assert forall|i: int, j: int|
                0 <= i < rv2.len() && 0 <= j < wv2.len() implies val_le(rv2[i], wv2[j])
                && comparable(rv2[i], wv2[j]) by {
                assert(all_below(rv, wv));
                let jj: int = if j < m { j } else { j + 1 };
                assert(wv2[j] == wv[jj]);
                if i == rv2.len() - 1 {
                    assert(rv2[i] == wv[m as int]);
                    assert(val_le(wv[m as int], wv[jj]));
                    assert(comparable(wv[m as int], wv[jj]));
                } else {
                    assert(rv2[i] == rv[i]);
                    assert(val_le(rv[i], wv[jj]));
                    assert(comparable(rv[i], wv[jj]));
                }
            }
            assert forall|i: int, j: int|
                0 <= i < wv2.len() && 0 <= j < wv2.len() implies comparable(
                wv2[i],
                wv2[j],
            ) by {
                assert(wv2[i] == wv[i] || wv2[i] == wv[i + 1]);
                assert(wv2[j] == wv[j] || wv2[j] == wv[j + 1]);
            }
        }
    }
    proof {
        broadcast use vstd::multiset::lemma_multiset_empty_len;

        lemma_views_of(w@);
        assert(views_of(w@).to_multiset().len() == 0);
        assert(views_of(w@).to_multiset() =~= Multiset::<ValSpec>::empty());
        assert(views_of(r@).to_multiset().add(Multiset::<ValSpec>::empty()) =~= views_of(
            r@,
        ).to_multiset());
    }
    r
}

} // verus!
