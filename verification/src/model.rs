//! The mathematical model shared by every container.
//!
//! A list or set is abstracted by a `Seq<ValSpec>`, an association by a
//! `Seq<(ValSpec, ValSpec)>` of key/value entries in insertion order. The
//! functions here define, at the specification level, what each container
//! operation computes; the executable code in the container modules is
//! verified against them.

use vstd::prelude::*;

use crate::value::{comparable, kind_of, val_le, Kind, ValSpec};

verus! {

/// Whether every element is of kind `k`.
pub open spec fn all_of_kind(s: Seq<ValSpec>, k: Kind) -> bool {
    forall|i: int| 0 <= i < s.len() ==> kind_of(#[trigger] s[i]) == k
}

/// The first index holding `x`, or `-1` when absent.
pub open spec fn first_index_of(s: Seq<ValSpec>, x: ValSpec) -> int
    decreases s.len(),
{
    if s.len() == 0 {
        -1
    } else if s[0] == x {
        0
    } else if first_index_of(s.drop_first(), x) == -1 {
        -1
    } else {
        first_index_of(s.drop_first(), x) + 1
    }
}

/// The last index holding `x`, or `-1` when absent.
pub open spec fn last_index_of(s: Seq<ValSpec>, x: ValSpec) -> int
    decreases s.len(),
{
    if s.len() == 0 {
        -1
    } else if s.last() == x {
        s.len() - 1
    } else {
        last_index_of(s.drop_last(), x)
    }
}

/// What `first_index_of` finds: the least index holding `x`, or `-1`.
pub broadcast proof fn lemma_first_index_of(s: Seq<ValSpec>, x: ValSpec)
    ensures
        -1 <= #[trigger] first_index_of(s, x) < s.len(),
        first_index_of(s, x) >= 0 ==> s[first_index_of(s, x)] == x,
        forall|j: int|
            0 <= j < s.len() && (first_index_of(s, x) == -1 || j < first_index_of(s, x)) ==> s[j]
                != x,
    decreases s.len(),
{
    if s.len() > 0 {
        lemma_first_index_of(s.drop_first(), x);
        assert(forall|j: int| 1 <= j < s.len() ==> s[j] == s.drop_first()[j - 1]);
    }
}

/// What `last_index_of` finds: the greatest index holding `x`, or `-1`.
pub broadcast proof fn lemma_last_index_of(s: Seq<ValSpec>, x: ValSpec)
    ensures
        -1 <= #[trigger] last_index_of(s, x) < s.len(),
        last_index_of(s, x) >= 0 ==> s[last_index_of(s, x)] == x,
        forall|j: int|
            last_index_of(s, x) < j < s.len() ==> s[j] != x,
    decreases s.len(),
{
    if s.len() > 0 {
        lemma_last_index_of(s.drop_last(), x);
        assert(forall|j: int| 0 <= j < s.len() - 1 ==> s[j] == s.drop_last()[j]);
    }
}

/// Whether `s` holds no two equal elements.
pub open spec fn unique_vals(s: Seq<ValSpec>) -> bool {
    forall|i: int, j: int| 0 <= i < j < s.len() ==> s[i] != s[j]
}

/// `s` with every repeated element dropped, keeping first occurrences in
/// their order. This is what materialising a set from a sequence yields.
pub open spec fn dedup_first(s: Seq<ValSpec>) -> Seq<ValSpec>
    decreases s.len(),
{
    if s.len() == 0 {
        Seq::empty()
    } else if s.drop_last().contains(s.last()) {
        dedup_first(s.drop_last())
    } else {
        dedup_first(s.drop_last()).push(s.last())
    }
}

/// `dedup_first` keeps exactly the elements of `s`, without duplicates.
pub broadcast proof fn lemma_dedup_first(s: Seq<ValSpec>)
    ensures
        unique_vals(#[trigger] dedup_first(s)),
        forall|x: ValSpec| #[trigger] dedup_first(s).contains(x) <==> s.contains(x),
        dedup_first(s).len() <= s.len(),
        unique_vals(s) ==> dedup_first(s) == s,
    decreases s.len(),
{
    if s.len() > 0 {
        let p = s.drop_last();
        let d = dedup_first(p);
        lemma_dedup_first(p);
        if !p.contains(s.last()) {
            assert(unique_vals(d.push(s.last()))) by {
                assert(forall|i: int| 0 <= i < d.len() ==> d.push(s.last())[i] == d[i]);
                assert(forall|i: int| 0 <= i < d.len() ==> d.contains(d[i]));
                assert(forall|i: int| 0 <= i < d.len() ==> d[i] != s.last());
            }
        }
        assert forall|x: ValSpec| s.contains(x) implies #[trigger] dedup_first(s).contains(x) by {
            let i = choose|i: int| 0 <= i < s.len() && s[i] == x;
            if i < s.len() - 1 {
                assert(p[i] == x);
                assert(d.contains(x));
                if !p.contains(s.last()) {
                    let w = choose|w: int| 0 <= w < d.len() && d[w] == x;
                    assert(dedup_first(s)[w] == x);
                }
            } else {
                assert(x == s.last());
                if p.contains(s.last()) {
                    assert(d.contains(x));
                } else {
                    assert(dedup_first(s).last() == x);
                }
            }
        }
        assert forall|x: ValSpec| #[trigger] dedup_first(s).contains(x) implies s.contains(x) by {
            if d.contains(x) || p.contains(x) {
                let i = choose|i: int| 0 <= i < p.len() && p[i] == x;
                assert(s[i] == x);
            } else {
                assert(x == s.last());
                assert(s[s.len() - 1] == x);
            }
        }
        if unique_vals(s) {
            assert(unique_vals(p)) by {
                assert(forall|i: int| 0 <= i < p.len() ==> p[i] == s[i]);
            }
            assert(!p.contains(s.last())) by {
                if p.contains(s.last()) {
                    let i = choose|i: int| 0 <= i < p.len() && p[i] == s.last();
                    assert(s[i] == s[s.len() - 1]);
                }
            }
            assert(dedup_first(s) =~= s);
        }
    }
}

/// Materialising a set twice gives what materialising it once gives.
pub proof fn lemma_dedup_first_idempotent(s: Seq<ValSpec>)
    ensures
        dedup_first(dedup_first(s)) == dedup_first(s),
{
    lemma_dedup_first(s);
    lemma_dedup_first(dedup_first(s));
}

/// `s` with the first occurrence of `x` removed, or `s` when absent.
pub open spec fn remove_first(s: Seq<ValSpec>, x: ValSpec) -> Seq<ValSpec> {
    if first_index_of(s, x) == -1 {
        s
    } else {
        s.remove(first_index_of(s, x))
    }
}

/// `s` with, for each element of `rem` in turn, the first occurrence of that
/// element removed.
pub open spec fn remove_each(s: Seq<ValSpec>, rem: Seq<ValSpec>) -> Seq<ValSpec>
    decreases rem.len(),
{
    if rem.len() == 0 {
        s
    } else {
        remove_each(remove_first(s, rem[0]), rem.drop_first())
    }
}

/// The elements of `s` that occur in `allowed`, in order.
pub open spec fn keep_in(s: Seq<ValSpec>, allowed: Seq<ValSpec>) -> Seq<ValSpec> {
    s.filter(|x: ValSpec| allowed.contains(x))
}

/// The elements of `s` that do not occur in `banned`, in order.
pub open spec fn drop_in(s: Seq<ValSpec>, banned: Seq<ValSpec>) -> Seq<ValSpec> {
    s.filter(|x: ValSpec| !banned.contains(x))
}

/// Filtering keeps a duplicate-free sequence duplicate-free.
pub proof fn lemma_filter_unique(s: Seq<ValSpec>, pred: spec_fn(ValSpec) -> bool)
    requires
        unique_vals(s),
    ensures
        unique_vals(s.filter(pred)),
    decreases s.len(),
{
    reveal(Seq::filter);
    if s.len() > 0 {
        let p = s.drop_last();
        assert(unique_vals(p)) by {
            assert(forall|i: int| 0 <= i < p.len() ==> p[i] == s[i]);
        }
        lemma_filter_unique(p, pred);
        let f = p.filter(pred);
        if pred(s.last()) {
            assert forall|i: int| 0 <= i < f.len() implies f[i] != s.last() by {
                assert(f.contains(f[i]));
                Seq::lemma_filter_contains_rev(p, pred, f[i]);
                let w = choose|w: int| 0 <= w < p.len() && p[w] == f[i];
                assert(s[w] == f[i]);
                assert(s[w] != s[s.len() - 1]);
            }
            assert(unique_vals(f.push(s.last()))) by {
                assert(forall|i: int| 0 <= i < f.len() ==> f.push(s.last())[i] == f[i]);
            }
        }
    }
}

/// Whether every element can be ordered against every other.
pub open spec fn mutually_comparable(s: Seq<ValSpec>) -> bool {
    forall|i: int, j: int| 0 <= i < s.len() && 0 <= j < s.len() ==> comparable(s[i], s[j])
}

/// Whether the sequence is ascending under the value order.
pub open spec fn sorted_vals(s: Seq<ValSpec>) -> bool {
    forall|i: int, j: int| 0 <= i < j < s.len() ==> val_le(s[i], s[j])
}

/// Whether the sequence is descending under the value order.
pub open spec fn sorted_vals_desc(s: Seq<ValSpec>) -> bool {
    forall|i: int, j: int| 0 <= i < j < s.len() ==> val_le(s[j], s[i])
}

/// `v` is the element at `i`, every element orders at or below it, and it
/// strictly exceeds every earlier element: the first maximum.
pub open spec fn is_max_at(s: Seq<ValSpec>, i: int, v: ValSpec) -> bool {
    0 <= i < s.len() && v == s[i] && (forall|j: int| 0 <= j < s.len() ==> val_le(#[trigger] s[j], v))
        && (forall|j: int| 0 <= j < i ==> !val_le(v, #[trigger] s[j]))
}

/// `v` is the element at `i`, it orders at or below every element, and it
/// strictly precedes every earlier element: the first minimum.
pub open spec fn is_min_at(s: Seq<ValSpec>, i: int, v: ValSpec) -> bool {
    0 <= i < s.len() && v == s[i] && (forall|j: int| 0 <= j < s.len() ==> val_le(v, #[trigger] s[j]))
        && (forall|j: int| 0 <= j < i ==> !val_le(#[trigger] s[j], v))
}

/// Whether the sequence can be sorted: at most one element, or every
/// element comparable with every other.
pub open spec fn sortable(s: Seq<ValSpec>) -> bool {
    s.len() <= 1 || mutually_comparable(s)
}

/// One level of flattening: each list value contributes its items, every
/// other value stands for itself.
pub open spec fn flatten_vals(s: Seq<ValSpec>) -> Seq<ValSpec>
    decreases s.len(),
{
    if s.len() == 0 {
        Seq::empty()
    } else {
        flatten_vals(s.drop_last()) + (match s.last() {
            ValSpec::List(items) => items,
            v => seq![v],
        })
    }
}

/// The sequence cut into consecutive runs of `size`, the final run shorter
/// when fewer elements remain; each run is a list value.
pub open spec fn chunks_of(s: Seq<ValSpec>, size: int) -> Seq<ValSpec>
    recommends
        size >= 1,
    decreases s.len(),
{
    if s.len() == 0 || size < 1 {
        Seq::empty()
    } else if s.len() <= size {
        seq![ValSpec::List(s)]
    } else {
        seq![ValSpec::List(s.take(size))] + chunks_of(s.skip(size), size)
    }
}

/// Sliding windows of `size`, advancing by `step`. A window shorter than
/// `size` appears only when `partial` is set; otherwise the series stops at
/// the first short window.
pub open spec fn windows_of(s: Seq<ValSpec>, size: int, step: int, partial: bool) -> Seq<ValSpec>
    recommends
        size >= 1,
        step >= 1,
    decreases s.len(),
{
    if s.len() == 0 || size < 1 || step < 1 {
        Seq::empty()
    } else if s.len() >= size {
        seq![ValSpec::List(s.take(size))] + windows_of(
            s.skip(if step <= s.len() {
                step
            } else {
                s.len() as int
            }),
            size,
            step,
            partial,
        )
    } else if partial {
        seq![ValSpec::List(s)] + windows_of(
            s.skip(if step <= s.len() {
                step
            } else {
                s.len() as int
            }),
            size,
            step,
            partial,
        )
    } else {
        Seq::empty()
    }
}

/// The first index whose entry has key `k`, or `-1` when absent.
pub open spec fn key_index(es: Seq<(ValSpec, ValSpec)>, k: ValSpec) -> int
    decreases es.len(),
{
    if es.len() == 0 {
        -1
    } else if es[0].0 == k {
        0
    } else if key_index(es.drop_first(), k) == -1 {
        -1
    } else {
        key_index(es.drop_first(), k) + 1
    }
}

/// Whether some entry has key `k`.
pub open spec fn has_key(es: Seq<(ValSpec, ValSpec)>, k: ValSpec) -> bool {
    key_index(es, k) >= 0
}

/// The value at key `k`; meaningful when `has_key(es, k)`.
pub open spec fn lookup(es: Seq<(ValSpec, ValSpec)>, k: ValSpec) -> ValSpec {
    es[key_index(es, k)].1
}

/// What `key_index` finds: the least index whose entry has key `k`, or `-1`.
pub broadcast proof fn lemma_key_index(es: Seq<(ValSpec, ValSpec)>, k: ValSpec)
    ensures
        -1 <= #[trigger] key_index(es, k) < es.len(),
        key_index(es, k) >= 0 ==> es[key_index(es, k)].0 == k,
        forall|j: int|
            0 <= j < es.len() && (key_index(es, k) == -1 || j < key_index(es, k)) ==> es[j].0 != k,
    decreases es.len(),
{
    if es.len() > 0 {
        lemma_key_index(es.drop_first(), k);
        assert(forall|j: int| 1 <= j < es.len() ==> es[j] == es.drop_first()[j - 1]);
    }
}

/// Whether no two entries share a key.
pub open spec fn unique_keys(es: Seq<(ValSpec, ValSpec)>) -> bool {
    forall|i: int, j: int| 0 <= i < j < es.len() ==> es[i].0 != es[j].0
}

/// The keys of the entries, in order.
pub open spec fn keys_of(es: Seq<(ValSpec, ValSpec)>) -> Seq<ValSpec> {
    es.map_values(|e: (ValSpec, ValSpec)| e.0)
}

/// The values of the entries, in order.
pub open spec fn values_of(es: Seq<(ValSpec, ValSpec)>) -> Seq<ValSpec> {
    es.map_values(|e: (ValSpec, ValSpec)| e.1)
}

/// An upsert: overwrite the value in place when the key is present, else
/// append a fresh entry. A later upsert never moves a key's position.
pub open spec fn put_entry(es: Seq<(ValSpec, ValSpec)>, k: ValSpec, v: ValSpec) -> Seq<
    (ValSpec, ValSpec),
> {
    if has_key(es, k) {
        es.update(key_index(es, k), (es[key_index(es, k)].0, v))
    } else {
        es.push((k, v))
    }
}

/// Upserting every entry of `other` into `es`, left to right.
pub open spec fn put_all(es: Seq<(ValSpec, ValSpec)>, other: Seq<(ValSpec, ValSpec)>) -> Seq<
    (ValSpec, ValSpec),
>
    decreases other.len(),
{
    if other.len() == 0 {
        es
    } else {
        put_all(put_entry(es, other[0].0, other[0].1), other.drop_first())
    }
}

/// The entries whose key is not in `ks`, in order.
pub open spec fn drop_keys(es: Seq<(ValSpec, ValSpec)>, ks: Seq<ValSpec>) -> Seq<
    (ValSpec, ValSpec),
> {
    es.filter(|e: (ValSpec, ValSpec)| !ks.contains(e.0))
}

/// The entry at key `k` removed, or `es` when the key is absent.
pub open spec fn remove_key(es: Seq<(ValSpec, ValSpec)>, k: ValSpec) -> Seq<(ValSpec, ValSpec)> {
    if has_key(es, k) {
        es.remove(key_index(es, k))
    } else {
        es
    }
}

/// `key_index` looks only at keys: entry sequences with equal keys agree.
pub proof fn lemma_key_index_keys_only(a: Seq<(ValSpec, ValSpec)>, b: Seq<(ValSpec, ValSpec)>, k: ValSpec)
    requires
        a.len() == b.len(),
        forall|i: int| 0 <= i < a.len() ==> a[i].0 == b[i].0,
    ensures
        key_index(a, k) == key_index(b, k),
    decreases a.len(),
{
    if a.len() > 0 {
        assert(forall|i: int|
            0 <= i < a.drop_first().len() ==> a.drop_first()[i].0 == b.drop_first()[i].0);
        lemma_key_index_keys_only(a.drop_first(), b.drop_first(), k);
    }
}

/// The first index whose key is `k` is `key_index(es, k)`.
pub proof fn lemma_key_index_of(es: Seq<(ValSpec, ValSpec)>, k: ValSpec, i: int)
    requires
        0 <= i < es.len(),
        es[i].0 == k,
        forall|j: int| 0 <= j < i ==> es[j].0 != k,
    ensures
        key_index(es, k) == i,
{
    lemma_key_index(es, k);
}

/// What an upsert does: the key now maps to the value, every other key is
/// untouched, and a present key keeps its position while an absent one is
/// appended.
pub proof fn lemma_put_entry(es: Seq<(ValSpec, ValSpec)>, k: ValSpec, v: ValSpec)
    ensures
        unique_keys(es) ==> unique_keys(put_entry(es, k, v)),
        has_key(put_entry(es, k, v), k),
        lookup(put_entry(es, k, v), k) == v,
        put_entry(es, k, v).len() == if has_key(es, k) {
            es.len() as int
        } else {
            es.len() + 1 as int
        },
        key_index(put_entry(es, k, v), k) == if has_key(es, k) {
            key_index(es, k)
        } else {
            es.len() as int
        },
        forall|k2: ValSpec| k2 != k ==> key_index(put_entry(es, k, v), k2) == key_index(es, k2),
        forall|k2: ValSpec|
            k2 != k && has_key(es, k2) ==> lookup(put_entry(es, k, v), k2) == lookup(es, k2),
{
    lemma_key_index(es, k);
    let p = put_entry(es, k, v);
    if has_key(es, k) {
        let i = key_index(es, k);
        assert(forall|j: int| 0 <= j < p.len() ==> p[j].0 == es[j].0);
        lemma_key_index_keys_only(p, es, k);
        assert forall|k2: ValSpec| k2 != k implies key_index(p, k2) == key_index(es, k2) by {
            lemma_key_index_keys_only(p, es, k2);
        }
        assert forall|k2: ValSpec| k2 != k && has_key(es, k2) implies lookup(p, k2) == lookup(
            es,
            k2,
        ) by {
            lemma_key_index_keys_only(p, es, k2);
            lemma_key_index(es, k2);
            assert(es[key_index(es, k2)].0 == k2);
            assert(key_index(es, k2) != i);
            assert(p[key_index(es, k2)] == es[key_index(es, k2)]);
        }
    } else {
        assert(forall|j: int| 0 <= j < es.len() ==> es[j].0 != k);
        assert(p[es.len() as int].0 == k);
        lemma_key_index_of(p, k, es.len() as int);
        assert forall|k2: ValSpec| k2 != k implies key_index(p, k2) == key_index(es, k2) by {
            lemma_key_index(es, k2);
            lemma_key_index(p, k2);
            if has_key(es, k2) {
                let i2 = key_index(es, k2);
                assert(p[i2].0 == k2);
                assert(forall|j: int| 0 <= j < i2 ==> p[j].0 != k2);
                lemma_key_index_of(p, k2, i2);
            } else {
                assert(forall|j: int| 0 <= j < p.len() ==> p[j].0 != k2);
                if key_index(p, k2) >= 0 {
                    assert(p[key_index(p, k2)].0 == k2);
                }
            }
        }
        assert forall|k2: ValSpec| k2 != k && has_key(es, k2) implies lookup(p, k2) == lookup(
            es,
            k2,
        ) by {
            lemma_key_index(es, k2);
            let i2 = key_index(es, k2);
            assert(p[i2].0 == k2);
            assert(forall|j: int| 0 <= j < i2 ==> p[j].0 != k2);
            lemma_key_index_of(p, k2, i2);
            assert(p[i2] == es[i2]);
        }
        if unique_keys(es) {
            assert forall|a: int, b: int| 0 <= a < b < p.len() implies p[a].0 != p[b].0 by {
                if b == p.len() - 1 {
                    assert(p[a].0 == es[a].0);
                    assert(p[b].0 == k);
                }
            }
        }
    }
}

/// Dropping keys keeps an entry sequence's keys unique.
pub proof fn lemma_drop_keys_unique(es: Seq<(ValSpec, ValSpec)>, ks: Seq<ValSpec>)
    requires
        unique_keys(es),
    ensures
        unique_keys(drop_keys(es, ks)),
        forall|j: int|
            0 <= j < drop_keys(es, ks).len() ==> es.contains(#[trigger] drop_keys(es, ks)[j]),
    decreases es.len(),
{
    reveal(Seq::filter);
    let pred = |e: (ValSpec, ValSpec)| !ks.contains(e.0);
    if es.len() > 0 {
        let p = es.drop_last();
        assert(unique_keys(p)) by {
            assert(forall|i: int| 0 <= i < p.len() ==> p[i] == es[i]);
        }
        lemma_drop_keys_unique(p, ks);
        let f = drop_keys(p, ks);
        assert forall|j: int| 0 <= j < drop_keys(es, ks).len() implies es.contains(
            #[trigger] drop_keys(es, ks)[j],
        ) by {
            if pred(es.last()) && j == drop_keys(es, ks).len() - 1 {
                assert(drop_keys(es, ks)[j] == es[es.len() - 1]);
            } else {
                assert(drop_keys(es, ks)[j] == f[j]);
                assert(p.contains(f[j]));
                let w = choose|w: int| 0 <= w < p.len() && p[w] == f[j];
                assert(es[w] == f[j]);
            }
        }
        if pred(es.last()) {
            assert forall|a: int, b: int|
                0 <= a < b < drop_keys(es, ks).len() implies drop_keys(es, ks)[a].0 != drop_keys(
                es,
                ks,
            )[b].0 by {
                if b == drop_keys(es, ks).len() - 1 {
                    assert(drop_keys(es, ks)[a] == f[a]);
                    assert(f.contains(f[a]));
                    let w = choose|w: int| 0 <= w < p.len() && p[w] == f[a];
                    assert(es[w].0 != es[es.len() - 1].0);
                } else {
                    assert(drop_keys(es, ks)[a] == f[a] && drop_keys(es, ks)[b] == f[b]);
                }
            }
        }
    }
}

/// Every entry of `a` appears in `b` with an equal value.
pub open spec fn entries_match(a: Seq<(ValSpec, ValSpec)>, b: Seq<(ValSpec, ValSpec)>) -> bool {
    forall|i: int|
        0 <= i < a.len() ==> has_key(b, #[trigger] a[i].0) && lookup(b, a[i].0) == a[i].1
}

/// Association equality: the same number of entries and each side's entries
/// all found in the other, regardless of order.
pub open spec fn assoc_equiv(a: Seq<(ValSpec, ValSpec)>, b: Seq<(ValSpec, ValSpec)>) -> bool {
    a.len() == b.len() && entries_match(a, b) && entries_match(b, a)
}

/// Appending only already-present elements leaves the deduplicated
/// sequence unchanged.
pub proof fn lemma_dedup_append_subsumed(s: Seq<ValSpec>, t: Seq<ValSpec>)
    requires
        forall|i: int| 0 <= i < t.len() ==> s.contains(#[trigger] t[i]),
    ensures
        dedup_first(s + t) == dedup_first(s),
    decreases t.len(),
{
    if t.len() == 0 {
        assert(s + t =~= s);
    } else {
        let tp = t.drop_last();
        assert(forall|i: int| 0 <= i < tp.len() ==> tp[i] == t[i]);
        lemma_dedup_append_subsumed(s, tp);
        assert((s + t).drop_last() =~= s + tp);
        assert((s + t).last() == t.last());
        assert((s + tp).contains(t.last())) by {
            let w = choose|w: int| 0 <= w < s.len() && s[w] == t[t.len() - 1];
            assert((s + tp)[w] == t.last());
        }
        assert(dedup_first(s + t) == dedup_first(s + tp));
    }
}

/// Set union is idempotent: uniting a duplicate-free sequence with itself
/// gives it back unchanged.
pub proof fn lemma_union_self(s: Seq<ValSpec>)
    requires
        unique_vals(s),
    ensures
        dedup_first(s + s) == s,
{
    assert forall|i: int| 0 <= i < s.len() implies s.contains(#[trigger] s[i]) by {
    }
    lemma_dedup_append_subsumed(s, s);
    lemma_dedup_first(s);
}

/// Upserting a key twice: the second upsert keeps the size, the first
/// value is what the first upsert stored, and the second value is what a
/// lookup then finds.
pub proof fn lemma_upsert_twice(es: Seq<(ValSpec, ValSpec)>, k: ValSpec, v1: ValSpec, v2: ValSpec)
    ensures
        has_key(put_entry(es, k, v1), k),
        lookup(put_entry(es, k, v1), k) == v1,
        put_entry(put_entry(es, k, v1), k, v2).len() == put_entry(es, k, v1).len(),
        lookup(put_entry(put_entry(es, k, v1), k, v2), k) == v2,
{
    lemma_put_entry(es, k, v1);
    lemma_put_entry(put_entry(es, k, v1), k, v2);
}

/// The next count: one more than an integer count, and `1` over anything
/// else.
pub open spec fn int_succ(v: ValSpec) -> ValSpec {
    match v {
        ValSpec::Int(n) => ValSpec::Int(n + 1),
        _ => ValSpec::Int(1),
    }
}

/// One occurrence of key `k` counted into the tally.
pub open spec fn bump_count(es: Seq<(ValSpec, ValSpec)>, k: ValSpec) -> Seq<(ValSpec, ValSpec)> {
    if has_key(es, k) {
        put_entry(es, k, int_succ(lookup(es, k)))
    } else {
        put_entry(es, k, ValSpec::Int(1))
    }
}

/// The tally after counting each key of `ks` in turn, starting from `es0`.
pub open spec fn count_fold(es0: Seq<(ValSpec, ValSpec)>, ks: Seq<ValSpec>) -> Seq<
    (ValSpec, ValSpec),
>
    decreases ks.len(),
{
    if ks.len() == 0 {
        es0
    } else {
        bump_count(count_fold(es0, ks.drop_last()), ks.last())
    }
}

/// The greatest index before `i` holding `k`, or `-1`.
pub open spec fn last_prior(ks: Seq<ValSpec>, i: int, k: ValSpec) -> int
    decreases i,
{
    if i <= 0 {
        -1
    } else if 0 <= i - 1 < ks.len() && ks[i - 1] == k {
        i - 1
    } else {
        last_prior(ks, i - 1, k)
    }
}

/// What `last_prior` finds: the greatest index before `i` holding `k`.
pub proof fn lemma_last_prior(ks: Seq<ValSpec>, i: int, k: ValSpec)
    requires
        0 <= i <= ks.len(),
    ensures
        -1 <= last_prior(ks, i, k) < i,
        last_prior(ks, i, k) >= 0 ==> ks[last_prior(ks, i, k)] == k,
        forall|j: int| last_prior(ks, i, k) < j < i ==> ks[j] != k,
    decreases i,
{
    if i > 0 {
        lemma_last_prior(ks, i - 1, k);
    }
}

/// `last_prior` below `i` depends only on the first `i` entries.
pub proof fn lemma_last_prior_stable(ks1: Seq<ValSpec>, ks2: Seq<ValSpec>, i: int, k: ValSpec)
    requires
        i <= ks1.len(),
        i <= ks2.len(),
        forall|j: int| 0 <= j < i ==> ks1[j] == ks2[j],
    ensures
        last_prior(ks1, i, k) == last_prior(ks2, i, k),
    decreases i,
{
    if i > 0 {
        lemma_last_prior_stable(ks1, ks2, i - 1, k);
    }
}

/// Upserting key/value pairs in turn, position by position.
pub open spec fn apply_puts(
    es0: Seq<(ValSpec, ValSpec)>,
    ks: Seq<ValSpec>,
    vs: Seq<ValSpec>,
) -> Seq<(ValSpec, ValSpec)>
    recommends
        ks.len() == vs.len(),
    decreases ks.len(),
{
    if ks.len() == 0 {
        es0
    } else {
        put_entry(apply_puts(es0, ks.drop_last(), vs.drop_last()), ks.last(), vs.last())
    }
}

/// Upserting the entries of an empty association changes nothing.
pub proof fn lemma_put_all_empty(es: Seq<(ValSpec, ValSpec)>)
    ensures
        put_all(es, Seq::empty()) == es,
{
}

} // verus!
