use kotcollections::errors::KotError;
use kotcollections::kot_list::KotList;
use kotcollections::kot_map::KotMap;
use kotcollections::kot_mutable_map::KotMutableMap;
use kotcollections::value::{eq_value, Value};

fn num(n: i64) -> Value {
    Value::Int(n)
}

fn text(s: &str) -> Value {
    Value::Text(s.as_bytes().to_vec())
}

fn map_of(pairs: &[(&str, i64)]) -> KotMap {
    KotMap::new(pairs.iter().map(|(k, v)| (text(k), num(*v))).collect())
}

fn mutable_map_of(pairs: &[(&str, i64)]) -> KotMutableMap {
    KotMutableMap::new(pairs.iter().map(|(k, v)| (text(k), num(*v))).collect())
}

#[test]
fn new_upserts_later_pairs_in_place() {
    let m = map_of(&[("a", 1), ("b", 2), ("a", 3)]);
    assert_eq!(m.size(), 2);
    assert!(eq_value(&m.get(&text("a")).unwrap(), &num(3)));
    assert!(eq_value(&m.get(&text("b")).unwrap(), &num(2)));
}

#[test]
fn get_variants() {
    let m = map_of(&[("a", 1)]);
    assert!(m.get(&text("x")).is_none());
    assert_eq!(m.get_value(&text("x")).unwrap_err(), KotError::KeyNotFound);
    assert!(eq_value(&m.get_value(&text("a")).unwrap(), &num(1)));
    assert!(eq_value(&m.get_or_default(&text("x"), num(9)), &num(9)));
    assert!(eq_value(&m.get_or_default(&text("a"), num(9)), &num(1)));
}

#[test]
fn contains_key_and_value() {
    let m = map_of(&[("a", 1), ("b", 2)]);
    assert!(m.contains_key(&text("a")));
    assert!(!m.contains_key(&text("z")));
    assert!(m.contains_value(&num(2)));
    assert!(!m.contains_value(&num(5)));
}

#[test]
fn keys_values_and_entries() {
    let m = map_of(&[("a", 1), ("b", 2)]);
    let keys = m.keys();
    assert_eq!(keys.size(), 2);
    assert!(keys.contains(&text("a")));
    let values = m.values();
    assert!(eq_value(&values.get(0).unwrap(), &num(1)));
    let entries = m.to_list();
    assert!(eq_value(&entries.get(1).unwrap(), &Value::List(vec![text("b"), num(2)])));
}

#[test]
fn map_equality_ignores_entry_order() {
    let a = map_of(&[("a", 1), ("b", 2)]);
    let b = map_of(&[("b", 2), ("a", 1)]);
    assert!(a.equals(&b));
    assert!(!a.equals(&map_of(&[("a", 1)])));
    assert!(!a.equals(&map_of(&[("a", 1), ("b", 3)])));
}

#[test]
fn plus_prefers_right_and_keeps_first_seen_positions() {
    let a = map_of(&[("a", 1), ("b", 2)]);
    let b = map_of(&[("b", 9), ("c", 3)]);
    let m = a.plus(&b);
    assert_eq!(m.size(), 3);
    assert!(eq_value(&m.get(&text("b")).unwrap(), &num(9)));
    let keys = m.keys().to_kot_list();
    assert!(eq_value(&keys.get(1).unwrap(), &text("b")));
}

#[test]
fn plus_empty_map_changes_nothing() {
    let m = map_of(&[("a", 1), ("b", 2)]);
    let same = m.plus(&KotMap::new(Vec::new()));
    assert!(same.equals(&m));
    assert_eq!(same.size(), 2);
}

#[test]
fn minus_removes_listed_keys() {
    let m = map_of(&[("a", 1), ("b", 2), ("c", 3)]);
    let r = m.minus(&KotList::new(vec![text("a"), text("c")]).unwrap());
    assert_eq!(r.size(), 1);
    assert!(r.contains_key(&text("b")));
    let one = m.minus_key(&text("b"));
    assert_eq!(one.size(), 2);
    assert!(!one.contains_key(&text("b")));
}

#[test]
fn put_returns_previous_value_and_upserts_in_place() {
    let mut m = mutable_map_of(&[]);
    assert!(m.put(text("k"), num(1)).is_none());
    assert_eq!(m.size(), 1);
    let old = m.put(text("k"), num(2)).unwrap();
    assert!(eq_value(&old, &num(1)));
    assert_eq!(m.size(), 1);
    assert!(eq_value(&m.get(&text("k")).unwrap(), &num(2)));
}

#[test]
fn put_keeps_key_position() {
    let mut m = mutable_map_of(&[("a", 1), ("b", 2)]);
    m.put(text("a"), num(9));
    let keys = m.keys().to_kot_list();
    assert!(eq_value(&keys.get(0).unwrap(), &text("a")));
}

#[test]
fn put_all_and_put_if_absent() {
    let mut m = mutable_map_of(&[("a", 1)]);
    m.put_all(&map_of(&[("a", 5), ("b", 6)]));
    assert_eq!(m.size(), 2);
    assert!(eq_value(&m.get(&text("a")).unwrap(), &num(5)));
    let existing = m.put_if_absent(text("a"), num(0)).unwrap();
    assert!(eq_value(&existing, &num(5)));
    assert!(m.put_if_absent(text("c"), num(7)).is_none());
    assert!(eq_value(&m.get(&text("c")).unwrap(), &num(7)));
}

#[test]
fn get_or_put_inserts_lazily() {
    let mut m = mutable_map_of(&[("a", 1)]);
    let got = m.get_or_put(text("a"), || num(99));
    assert!(eq_value(&got, &num(1)));
    let made = m.get_or_put(text("b"), || num(42));
    assert!(eq_value(&made, &num(42)));
    assert!(eq_value(&m.get(&text("b")).unwrap(), &num(42)));
}

#[test]
fn remove_and_remove_entry() {
    let mut m = mutable_map_of(&[("a", 1), ("b", 2)]);
    let gone = m.remove(&text("a")).unwrap();
    assert!(eq_value(&gone, &num(1)));
    assert_eq!(m.size(), 1);
    assert!(m.remove(&text("a")).is_none());
    assert!(!m.remove_entry(&text("b"), &num(9)));
    assert!(m.remove_entry(&text("b"), &num(2)));
    assert_eq!(m.size(), 0);
}

#[test]
fn compute_family() {
    let mut m = mutable_map_of(&[("a", 1)]);
    let bump = |_k: &Value, cur: &Value| match cur {
        Value::Int(n) => Value::Int(n + 10),
        _ => Value::Int(0),
    };
    let r = m.compute(&text("a"), bump).unwrap();
    assert!(eq_value(&r, &num(11)));
    let seeded = m.compute(&text("b"), bump).unwrap();
    assert!(eq_value(&seeded, &num(0)));
    let erase = |_k: &Value, _cur: &Value| Value::Null;
    assert!(m.compute(&text("a"), erase).is_none());
    assert!(!m.contains_key(&text("a")));
    let lazily = m.compute_if_absent(&text("c"), |_k: &Value| num(5));
    assert!(eq_value(&lazily, &num(5)));
    assert!(m.compute_if_present(&text("zz"), bump).is_none());
    let bumped = m.compute_if_present(&text("c"), bump).unwrap();
    assert!(eq_value(&bumped, &num(15)));
}

#[test]
fn merge_combines_or_inserts() {
    let mut m = mutable_map_of(&[("a", 1)]);
    let add = |cur: &Value, offered: &Value| match (cur, offered) {
        (Value::Int(x), Value::Int(y)) => Value::Int(x + y),
        _ => Value::Null,
    };
    let inserted = m.merge(&text("b"), num(5), add).unwrap();
    assert!(eq_value(&inserted, &num(5)));
    let merged = m.merge(&text("a"), num(5), add).unwrap();
    assert!(eq_value(&merged, &num(6)));
    let erased = m.merge(&text("a"), num(0), |_c: &Value, _o: &Value| Value::Null);
    assert!(erased.is_none());
    assert!(!m.contains_key(&text("a")));
}

#[test]
fn replace_family() {
    let mut m = mutable_map_of(&[("a", 1)]);
    assert!(m.replace(&text("z"), num(9)).is_none());
    let old = m.replace(&text("a"), num(2)).unwrap();
    assert!(eq_value(&old, &num(1)));
    assert!(!m.replace_entry(&text("a"), &num(1), num(3)));
    assert!(m.replace_entry(&text("a"), &num(2), num(3)));
    assert!(eq_value(&m.get(&text("a")).unwrap(), &num(3)));
}

#[test]
fn clear_keeps_nothing() {
    let mut m = mutable_map_of(&[("a", 1), ("b", 2)]);
    m.clear();
    assert_eq!(m.size(), 0);
    assert!(m.is_empty());
}

#[test]
fn key_iterator_walks_keys() {
    let m = map_of(&[("a", 1), ("b", 2)]);
    let mut it = m.key_iterator();
    assert!(eq_value(&it.next().unwrap(), &text("a")));
    assert!(eq_value(&it.next().unwrap(), &text("b")));
    assert!(it.next().is_none());
}

#[test]
fn integer_keys_work_too() {
    let m = KotMap::new(vec![(num(1), text("one")), (num(2), text("two"))]);
    assert!(eq_value(&m.get(&num(2)).unwrap(), &text("two")));
    assert!(m.get(&num(3)).is_none());
}

#[test]
fn map_closure_family() {
    let m = map_of(&[("a", 1), ("b", 2), ("c", 3)]);
    let entries = m.map(|k: &Value, v: &Value| match (k, v) {
        (Value::Text(_), Value::Int(n)) => Value::Int(n * 10),
        _ => Value::Null,
    });
    assert_eq!(entries.size(), 3);
    assert!(eq_value(&entries.get(1).unwrap(), &num(20)));
    let doubled = m.map_values(|_k: &Value, v: &Value| match v {
        Value::Int(n) => Value::Int(n * 2),
        _ => Value::Null,
    });
    assert!(eq_value(&doubled.get(&text("c")).unwrap(), &num(6)));
    let only_b = m.filter_keys(|k: &Value| eq_value(k, &text("b")));
    assert_eq!(only_b.size(), 1);
    assert!(only_b.contains_key(&text("b")));
    let big = m.filter_values(|v: &Value| match v {
        Value::Int(n) => *n >= 2,
        _ => false,
    });
    assert_eq!(big.size(), 2);
    assert!(!big.contains_key(&text("a")));
    assert!(m.any(|_k: &Value, v: &Value| eq_value(v, &num(3))));
    assert!(!m.all(|_k: &Value, v: &Value| eq_value(v, &num(3))));
    assert_eq!(m.count(|_k: &Value, v: &Value| match v {
        Value::Int(n) => *n > 1,
        _ => false,
    }), 2);
}

#[test]
fn replace_all_rewrites_values_in_place() {
    let mut m = mutable_map_of(&[("a", 1), ("b", 2)]);
    m.replace_all(|_k: &Value, v: &Value| match v {
        Value::Int(n) => Value::Int(n + 5),
        _ => Value::Null,
    });
    assert!(eq_value(&m.get(&text("a")).unwrap(), &num(6)));
    assert!(eq_value(&m.get(&text("b")).unwrap(), &num(7)));
    assert_eq!(m.size(), 2);
}

#[test]
fn entries_filter_and_map_keys() {
    let m = map_of(&[("a", 1), ("b", 2)]);
    let entries = m.entries();
    assert_eq!(entries.size(), 2);
    assert!(entries.contains(&Value::List(vec![text("a"), num(1)])));
    let kept = m.filter(|_k: &Value, v: &Value| match v {
        Value::Int(n) => *n > 1,
        _ => false,
    });
    assert_eq!(kept.size(), 1);
    assert!(kept.contains_key(&text("b")));
    assert!(m.none(|_k: &Value, v: &Value| eq_value(v, &num(9))));
    let rekeyed = m.map_keys(|_k: &Value, v: &Value| match v {
        Value::Int(n) => Value::Int(*n),
        _ => Value::Null,
    });
    assert!(eq_value(&rekeyed.get(&num(2)).unwrap(), &num(2)));
    let mm = m.to_kot_mutable_map();
    assert!(eq_value(&mm.get(&text("a")).unwrap(), &num(1)));
    let fallback = map_of(&[]).if_empty(|| map_of(&[("z", 9)]));
    assert!(eq_value(&fallback.get(&text("z")).unwrap(), &num(9)));
    assert!(eq_value(&m.get_or_else(&text("nope"), || num(7)), &num(7)));
}
