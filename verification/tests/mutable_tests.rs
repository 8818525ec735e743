use kotcollections::errors::KotError;
use kotcollections::kot_list::KotList;
use kotcollections::kot_mutable_list::KotMutableList;
use kotcollections::kot_mutable_set::KotMutableSet;
use kotcollections::value::{eq_value, Kind, Value};

fn num(n: i64) -> Value {
    Value::Int(n)
}

fn text(s: &str) -> Value {
    Value::Text(s.as_bytes().to_vec())
}

fn ints(ns: &[i64]) -> Vec<Value> {
    ns.iter().map(|n| Value::Int(*n)).collect()
}

fn int_list(ns: &[i64]) -> KotList {
    KotList::new(ints(ns)).unwrap()
}

fn mutable(ns: &[i64]) -> KotMutableList {
    KotMutableList::new(ints(ns)).unwrap()
}

#[test]
fn typed_list_rejects_text_and_stays_unchanged() {
    let mut l = mutable(&[1, 2, 3]);
    let r = l.add(text("text"));
    assert_eq!(r.unwrap_err(), KotError::TypeMismatch);
    assert_eq!(l.size(), 3);
    assert!(l.to_kot_list().equals(&int_list(&[1, 2, 3])));
    assert!(l.add(num(4)).unwrap());
    assert_eq!(l.size(), 4);
}

#[test]
fn empty_list_infers_kind_from_first_insert() {
    let mut l = KotMutableList::empty();
    assert!(l.add(text("a")).unwrap());
    let r = l.add(num(1));
    assert_eq!(r.unwrap_err(), KotError::TypeMismatch);
    assert_eq!(l.size(), 1);
}

#[test]
fn add_at_checks_bounds_then_kind() {
    let mut l = mutable(&[1, 3]);
    l.add_at(1, num(2)).unwrap();
    assert!(l.to_kot_list().equals(&int_list(&[1, 2, 3])));
    assert_eq!(l.add_at(9, num(0)).unwrap_err(), KotError::OutOfBounds);
    assert_eq!(l.add_at(0, text("x")).unwrap_err(), KotError::TypeMismatch);
    assert_eq!(l.size(), 3);
}

#[test]
fn add_all_is_atomic() {
    let mut l = mutable(&[1]);
    assert!(l.add_all(&int_list(&[2, 3])).unwrap());
    assert!(l.to_kot_list().equals(&int_list(&[1, 2, 3])));
    let mixed = KotList::new_with_type(vec![num(4), text("x")], None);
    assert_eq!(l.add_all(&mixed).unwrap_err(), KotError::TypeMismatch);
    assert_eq!(l.size(), 3);
    assert!(!l.add_all(&KotList::empty()).unwrap());
}

#[test]
fn add_all_at_inserts_in_place() {
    let mut l = mutable(&[1, 4]);
    assert!(l.add_all_at(1, &int_list(&[2, 3])).unwrap());
    assert!(l.to_kot_list().equals(&int_list(&[1, 2, 3, 4])));
    assert_eq!(l.add_all_at(9, &int_list(&[5])).unwrap_err(), KotError::OutOfBounds);
}

#[test]
fn set_replaces_and_returns_old() {
    let mut l = mutable(&[1, 2]);
    let old = l.set(1, num(9)).unwrap();
    assert!(eq_value(&old, &num(2)));
    assert!(l.to_kot_list().equals(&int_list(&[1, 9])));
    assert_eq!(l.set(5, num(0)).unwrap_err(), KotError::OutOfBounds);
    assert_eq!(l.set(0, text("x")).unwrap_err(), KotError::TypeMismatch);
}

#[test]
fn removals() {
    let mut l = mutable(&[1, 2, 3, 2]);
    let removed = l.remove_at(0).unwrap();
    assert!(eq_value(&removed, &num(1)));
    assert!(l.remove(&num(2)));
    assert!(l.to_kot_list().equals(&int_list(&[3, 2])));
    assert!(!l.remove(&num(9)));
    assert_eq!(l.remove_at(5).unwrap_err(), KotError::OutOfBounds);
    let first = l.remove_first().unwrap();
    assert!(eq_value(&first, &num(3)));
    let last = l.remove_last().unwrap();
    assert!(eq_value(&last, &num(2)));
    assert_eq!(l.remove_first().unwrap_err(), KotError::EmptyContainer);
    assert!(l.remove_first_or_null().is_none());
}

#[test]
fn remove_all_retain_all_remove_if() {
    let mut l = mutable(&[1, 2, 3, 2, 4]);
    assert!(l.remove_all(&int_list(&[2])));
    assert!(l.to_kot_list().equals(&int_list(&[1, 3, 4])));
    assert!(l.retain_all(&int_list(&[3, 4, 9])));
    assert!(l.to_kot_list().equals(&int_list(&[3, 4])));
    assert!(l.remove_if(|v: &Value| match v {
        Value::Int(n) => *n > 3,
        _ => false,
    }));
    assert!(l.to_kot_list().equals(&int_list(&[3])));
    assert!(!l.remove_all(&int_list(&[9])));
}

#[test]
fn replace_all_is_atomic_under_kind_checks() {
    let mut l = mutable(&[1, 2]);
    l.replace_all(|v: &Value| match v {
        Value::Int(n) => Value::Int(n * 10),
        _ => Value::Null,
    }).unwrap();
    assert!(l.to_kot_list().equals(&int_list(&[10, 20])));
    let r = l.replace_all(|_v: &Value| text("no"));
    assert_eq!(r.unwrap_err(), KotError::TypeMismatch);
    assert!(l.to_kot_list().equals(&int_list(&[10, 20])));
}

#[test]
fn sort_reverse_fill_clear() {
    let mut l = mutable(&[3, 1, 2]);
    l.sort().unwrap();
    assert!(l.to_kot_list().equals(&int_list(&[1, 2, 3])));
    l.reverse();
    assert!(l.to_kot_list().equals(&int_list(&[3, 2, 1])));
    l.fill(&num(7)).unwrap();
    assert!(l.to_kot_list().equals(&int_list(&[7, 7, 7])));
    assert_eq!(l.fill(&text("x")).unwrap_err(), KotError::TypeMismatch);
    l.clear();
    assert!(l.is_empty());
    let r = l.add(text("still typed"));
    assert_eq!(r.unwrap_err(), KotError::TypeMismatch);
}

#[test]
fn mutable_list_queries_and_transforms() {
    let l = mutable(&[1, 2, 3]);
    assert!(eq_value(&l.get_item(-1).unwrap(), &num(3)));
    assert_eq!(l.index_of(&num(2)), 1);
    assert!(l.contains(&num(3)));
    assert!(l.sorted().unwrap().equals(&l.to_kot_mutable_list()));
    assert!(l.reversed().to_kot_list().equals(&int_list(&[3, 2, 1])));
    assert!(l.sub_list(0, 2).unwrap().to_kot_list().equals(&int_list(&[1, 2])));
    let doubled = l.map(|v: &Value| match v {
        Value::Int(n) => Value::Int(n * 2),
        _ => Value::Null,
    });
    assert!(doubled.equals(&int_list(&[2, 4, 6])));
    let sum = |a: &Value, b: &Value| match (a, b) {
        (Value::Int(x), Value::Int(y)) => Value::Int(x + y),
        _ => Value::Null,
    };
    assert!(eq_value(&l.fold(num(0), sum), &num(6)));
    assert!(eq_value(&l.reduce(sum).unwrap(), &num(6)));
    assert_eq!(l.count(|v: &Value| match v {
        Value::Int(n) => *n > 1,
        _ => false,
    }), 2);
}

#[test]
fn bidirectional_iterator_yields_and_edits_a_snapshot() {
    let l = mutable(&[1, 2, 3]);
    let mut it = l.list_iterator(0).unwrap();
    assert!(it.has_next());
    assert!(!it.has_previous());
    assert_eq!(it.next_index(), 0);
    assert_eq!(it.previous_index(), -1);
    assert!(eq_value(&it.next().unwrap(), &num(1)));
    assert!(eq_value(&it.next().unwrap(), &num(2)));
    assert!(eq_value(&it.previous().unwrap(), &num(2)));
    it.set(num(9)).unwrap();
    assert!(eq_value(&it.next().unwrap(), &num(9)));
    it.remove().unwrap();
    assert!(eq_value(&it.next().unwrap(), &num(3)));
    assert!(it.next().unwrap_err() == KotError::NotFound);
}

#[test]
fn iterator_edits_fail_without_a_yielded_element() {
    let l = mutable(&[1]);
    let mut it = l.list_iterator(0).unwrap();
    assert_eq!(it.remove().unwrap_err(), KotError::NotFound);
    assert_eq!(it.set(num(5)).unwrap_err(), KotError::NotFound);
    it.add(num(0));
    assert_eq!(it.remove().unwrap_err(), KotError::NotFound);
    assert!(eq_value(&it.next().unwrap(), &num(1)));
    it.remove().unwrap();
    assert!(!it.has_next());
}

#[test]
fn iterator_is_unaffected_by_source_mutation() {
    let mut l = mutable(&[1, 2]);
    let mut it = l.list_iterator(0).unwrap();
    l.clear();
    assert!(eq_value(&it.next().unwrap(), &num(1)));
    assert!(eq_value(&it.next().unwrap(), &num(2)));
}

#[test]
fn set_add_duplicate_is_rejected_and_order_kept() {
    let mut s = KotMutableSet::new(ints(&[1, 2, 3])).unwrap();
    assert!(!s.add(num(2)).unwrap());
    assert_eq!(s.size(), 3);
    assert!(s.add(num(4)).unwrap());
    assert_eq!(s.size(), 4);
    assert!(eq_value(&s.last().unwrap(), &num(4)));
}

#[test]
fn typed_set_rejects_wrong_kind_even_for_duplicates() {
    let mut s = KotMutableSet::of_type(Kind::Int, ints(&[1])).unwrap();
    assert_eq!(s.add(text("x")).unwrap_err(), KotError::TypeMismatch);
    assert_eq!(s.size(), 1);
}

#[test]
fn mutable_set_bulk_operations() {
    let mut s = KotMutableSet::new(ints(&[1, 2])).unwrap();
    assert!(s.add_all(&int_list(&[2, 3, 4])).unwrap());
    assert_eq!(s.size(), 4);
    assert!(s.remove(&num(3)));
    assert!(!s.remove(&num(9)));
    assert!(s.remove_all(&int_list(&[4])));
    assert!(s.retain_all(&int_list(&[1, 9])));
    assert!(s.to_kot_list().equals(&int_list(&[1])));
    assert!(s.remove_if(|v: &Value| match v {
        Value::Int(n) => *n == 1,
        _ => false,
    }));
    assert!(s.is_empty());
    s.clear();
    assert_eq!(s.size(), 0);
}

#[test]
fn mutable_set_transforms() {
    let s = KotMutableSet::new(ints(&[1, 2, 3])).unwrap();
    let doubled = s.map(|v: &Value| match v {
        Value::Int(n) => Value::Int(n * 2),
        _ => Value::Null,
    });
    assert!(doubled.equals(&int_list(&[2, 4, 6])));
    let odd = s.filter(|v: &Value| match v {
        Value::Int(n) => n % 2 == 1,
        _ => false,
    });
    assert!(odd.to_kot_list().equals(&int_list(&[1, 3])));
    let sum = |a: &Value, b: &Value| match (a, b) {
        (Value::Int(x), Value::Int(y)) => Value::Int(x + y),
        _ => Value::Null,
    };
    assert!(eq_value(&s.fold(num(0), sum), &num(6)));
    assert!(eq_value(&s.reduce(sum).unwrap(), &num(6)));
    assert!(s.any(|v: &Value| eq_value(v, &num(2))));
    assert!(s.all(|v: &Value| match v {
        Value::Int(n) => *n < 5,
        _ => false,
    }));
    assert_eq!(s.count(|v: &Value| match v {
        Value::Int(n) => *n > 1,
        _ => false,
    }), 2);
}

#[test]
fn negative_index_mutations_and_descending_sort() {
    let mut l = mutable(&[1, 2, 3]);
    let old = l.set_item(-1, num(9)).unwrap();
    assert!(eq_value(&old, &num(3)));
    assert!(l.to_kot_list().equals(&int_list(&[1, 2, 9])));
    let removed = l.remove_item(-3).unwrap();
    assert!(eq_value(&removed, &num(1)));
    assert_eq!(l.set_item(-9, num(0)).unwrap_err(), KotError::OutOfBounds);
    assert_eq!(l.remove_item(5).unwrap_err(), KotError::OutOfBounds);
    let mut s = mutable(&[2, 9, 4]);
    s.sort_descending().unwrap();
    assert!(s.to_kot_list().equals(&int_list(&[9, 4, 2])));
    assert!(s.take(2).to_kot_list().equals(&int_list(&[9, 4])));
    assert!(s.drop(2).to_kot_list().equals(&int_list(&[2])));
    assert!(s.as_reversed().to_kot_list().equals(&int_list(&[2, 4, 9])));
    let mut it = s.iterator();
    assert!(eq_value(&it.next().unwrap(), &num(9)));
}
