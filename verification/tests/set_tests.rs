use kotcollections::errors::KotError;
use kotcollections::kot_list::KotList;
use kotcollections::kot_set::KotSet;
use kotcollections::value::{eq_value, Value};

fn num(n: i64) -> Value {
    Value::Int(n)
}

fn ints(ns: &[i64]) -> Vec<Value> {
    ns.iter().map(|n| Value::Int(*n)).collect()
}

fn int_set(ns: &[i64]) -> KotSet {
    KotSet::new(ints(ns)).unwrap()
}

fn int_list(ns: &[i64]) -> KotList {
    KotList::new(ints(ns)).unwrap()
}

#[test]
fn new_drops_duplicates_keeping_first_occurrences() {
    let s = int_set(&[3, 1, 3, 2, 1]);
    assert_eq!(s.size(), 3);
    assert!(eq_value(&s.first().unwrap(), &num(3)));
    assert!(eq_value(&s.last().unwrap(), &num(2)));
}

#[test]
fn set_new_rejects_mixed_kinds() {
    let r = KotSet::new(vec![num(1), Value::Bool(true)]);
    assert_eq!(r.unwrap_err(), KotError::TypeMismatch);
}

#[test]
fn set_materialisation_round_trips() {
    let l = int_list(&[2, 1, 2, 3, 1]);
    let once = l.to_kot_set().unwrap();
    let back = once.to_kot_list();
    let twice = back.to_kot_set().unwrap();
    assert!(once.equals(&twice));
    assert_eq!(twice.size(), 3);
}

#[test]
fn union_with_itself_is_itself() {
    let s = int_set(&[1, 2, 3]);
    let u = s.union(&s.to_kot_set()).unwrap();
    assert!(u.equals(&s));
    assert_eq!(u.size(), 3);
    assert!(eq_value(&u.first().unwrap(), &num(1)));
    assert!(eq_value(&u.last().unwrap(), &num(3)));
}

#[test]
fn union_adds_unseen_elements_in_order() {
    let a = int_set(&[1, 2]);
    let b = int_set(&[2, 3]);
    let u = a.union(&b).unwrap();
    assert!(u.to_kot_list().equals(&int_list(&[1, 2, 3])));
}

#[test]
fn intersect_and_subtract_keep_left_order() {
    let a = int_set(&[1, 2, 3, 4]);
    let b = int_set(&[4, 2]);
    assert!(a.intersect(&b).to_kot_list().equals(&int_list(&[2, 4])));
    assert!(a.subtract(&b).to_kot_list().equals(&int_list(&[1, 3])));
}

#[test]
fn plus_and_minus_on_sets() {
    let s = int_set(&[1, 2]);
    assert!(s.plus(&int_list(&[2, 3])).unwrap().to_kot_list().equals(&int_list(&[1, 2, 3])));
    assert!(s.plus_element(&num(2)).unwrap().equals(&s));
    assert!(s.minus(&int_list(&[1])).to_kot_list().equals(&int_list(&[2])));
    assert!(s.minus_element(&num(2)).to_kot_list().equals(&int_list(&[1])));
}

#[test]
fn equality_ignores_order() {
    let a = int_set(&[1, 2, 3]);
    let b = int_set(&[3, 1, 2]);
    assert!(a.equals(&b));
    assert!(!a.equals(&int_set(&[1, 2])));
    assert!(!a.equals(&int_set(&[1, 2, 4])));
}

#[test]
fn contains_and_contains_all() {
    let s = int_set(&[5, 6]);
    assert!(s.contains(&num(5)));
    assert!(!s.contains(&num(7)));
    assert!(s.contains_all(&int_list(&[6, 5])));
    assert!(!s.contains_all(&int_list(&[5, 9])));
}

#[test]
fn set_map_filter_fold() {
    let s = int_set(&[1, 2, 3]);
    let doubled = s.map(|v: &Value| match v {
        Value::Int(n) => Value::Int(n * 2),
        _ => Value::Null,
    });
    assert!(doubled.equals(&int_list(&[2, 4, 6])));
    let odd = s.filter(|v: &Value| match v {
        Value::Int(n) => n % 2 == 1,
        _ => false,
    });
    assert!(odd.to_kot_list().equals(&int_list(&[1, 3])));
    let sum = |a: &Value, b: &Value| match (a, b) {
        (Value::Int(x), Value::Int(y)) => Value::Int(x + y),
        _ => Value::Null,
    };
    assert!(eq_value(&s.fold(num(0), sum), &num(6)));
    assert!(eq_value(&s.reduce(sum).unwrap(), &num(6)));
}

#[test]
fn set_iterator_snapshots() {
    let s = int_set(&[7, 8]);
    let mut it = s.iterator();
    assert!(eq_value(&it.next().unwrap(), &num(7)));
    assert!(eq_value(&it.next().unwrap(), &num(8)));
    assert!(it.next().is_none());
}

#[test]
fn set_none_negates_any() {
    let s = int_set(&[1, 2]);
    assert!(s.none(|v: &Value| eq_value(v, &num(9))));
    assert!(!s.none(|v: &Value| eq_value(v, &num(1))));
}
