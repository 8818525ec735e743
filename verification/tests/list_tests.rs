use kotcollections::errors::KotError;
use kotcollections::kot_list::KotList;
use kotcollections::value::{eq_value, Kind, Value};

fn num(n: i64) -> Value {
    Value::Int(n)
}

fn text(s: &str) -> Value {
    Value::Text(s.as_bytes().to_vec())
}

fn ints(ns: &[i64]) -> Vec<Value> {
    ns.iter().map(|n| Value::Int(*n)).collect()
}

fn int_list(ns: &[i64]) -> KotList {
    KotList::new(ints(ns)).unwrap()
}

#[test]
fn new_infers_kind_and_keeps_order() {
    let l = int_list(&[3, 1, 2]);
    assert_eq!(l.size(), 3);
    assert!(eq_value(&l.get(0).unwrap(), &num(3)));
    assert!(eq_value(&l.get(2).unwrap(), &num(2)));
    assert_eq!(l.get(3).unwrap_err(), KotError::OutOfBounds);
}

#[test]
fn new_rejects_mixed_kinds() {
    let r = KotList::new(vec![num(1), text("a")]);
    assert_eq!(r.unwrap_err(), KotError::TypeMismatch);
}

#[test]
fn of_type_rejects_wrong_kind() {
    assert!(KotList::of_type(Kind::Int, ints(&[1, 2])).is_ok());
    let r = KotList::of_type(Kind::Text, ints(&[1]));
    assert_eq!(r.unwrap_err(), KotError::TypeMismatch);
}

#[test]
fn negative_index_resolves_from_end() {
    let l = int_list(&[10, 20, 30, 40, 50]);
    assert!(eq_value(&l.get_item(-1).unwrap(), &num(50)));
    assert!(eq_value(&l.get_item(-5).unwrap(), &num(10)));
    assert_eq!(l.get_item(-6).unwrap_err(), KotError::OutOfBounds);
    assert!(eq_value(&l.get_item(2).unwrap(), &num(30)));
    assert_eq!(l.get_item(5).unwrap_err(), KotError::OutOfBounds);
}

#[test]
fn first_last_single_and_or_null() {
    let l = int_list(&[7, 8]);
    assert!(eq_value(&l.first().unwrap(), &num(7)));
    assert!(eq_value(&l.last().unwrap(), &num(8)));
    assert_eq!(l.single().unwrap_err(), KotError::NotFound);
    let e = KotList::empty();
    assert_eq!(e.first().unwrap_err(), KotError::EmptyContainer);
    assert!(e.first_or_null().is_none());
    let s = int_list(&[42]);
    assert!(eq_value(&s.single().unwrap(), &num(42)));
}

#[test]
fn contains_and_index_of() {
    let l = int_list(&[5, 6, 5]);
    assert!(l.contains(&num(5)));
    assert!(!l.contains(&num(9)));
    assert_eq!(l.index_of(&num(5)), 0);
    assert_eq!(l.last_index_of(&num(5)), 2);
    assert_eq!(l.index_of(&num(9)), -1);
    assert_eq!(l.last_index(), 2);
}

#[test]
fn map_keeps_size() {
    let l = int_list(&[1, 2, 3, 4]);
    let doubled = l.map(|v: &Value| match v {
        Value::Int(n) => Value::Int(n * 2),
        _ => Value::Null,
    });
    assert_eq!(doubled.size(), l.size());
    assert!(eq_value(&doubled.get(3).unwrap(), &num(8)));
}

#[test]
fn filter_keeps_only_matching_and_all_accepts_them() {
    let l = int_list(&[1, 2, 3, 4, 5, 6]);
    let even = |v: &Value| match v {
        Value::Int(n) => n % 2 == 0,
        _ => false,
    };
    let kept = l.filter(even);
    assert_eq!(kept.size(), 3);
    assert!(eq_value(&kept.get(0).unwrap(), &num(2)));
    assert!(kept.all(even));
    assert!(!l.all(even));
    assert!(l.any(even));
    assert!(!l.none(even));
    assert_eq!(l.count(even), 3);
}

#[test]
fn sorted_is_a_permutation() {
    let l = int_list(&[3, 1, 2, 1]);
    let s = l.sorted().unwrap();
    assert_eq!(s.size(), l.size());
    assert!(s.equals(&int_list(&[1, 1, 2, 3])));
    let d = l.sorted_descending().unwrap();
    assert!(d.equals(&int_list(&[3, 2, 1, 1])));
}

#[test]
fn sorted_rejects_mixed_kinds() {
    let l = KotList::new_with_type(vec![num(1), text("a")], None);
    assert_eq!(l.sorted().unwrap_err(), KotError::TypeMismatch);
}

#[test]
fn sorted_orders_text_lexicographically() {
    let l = KotList::new(vec![text("pear"), text("apple"), text("fig")]).unwrap();
    let s = l.sorted().unwrap();
    assert!(eq_value(&s.get(0).unwrap(), &text("apple")));
    assert!(eq_value(&s.get(1).unwrap(), &text("fig")));
    assert!(eq_value(&s.get(2).unwrap(), &text("pear")));
}

#[test]
fn max_and_min() {
    let l = int_list(&[2, 9, 4]);
    assert!(eq_value(&l.max().unwrap(), &num(9)));
    assert!(eq_value(&l.min().unwrap(), &num(2)));
    assert_eq!(KotList::empty().max().unwrap_err(), KotError::EmptyContainer);
}

#[test]
fn distinct_keeps_first_occurrences() {
    let l = int_list(&[1, 2, 1, 3, 2]);
    assert!(l.distinct().equals(&int_list(&[1, 2, 3])));
}

#[test]
fn plus_and_minus() {
    let l = int_list(&[1, 2, 2, 3]);
    assert!(l.plus(&int_list(&[4])).equals(&int_list(&[1, 2, 2, 3, 4])));
    assert!(l.plus_element(&num(9)).equals(&int_list(&[1, 2, 2, 3, 9])));
    assert!(l.minus(&int_list(&[2])).equals(&int_list(&[1, 2, 3])));
    assert!(l.minus(&int_list(&[2, 2])).equals(&int_list(&[1, 3])));
    assert!(l.minus_element(&num(3)).equals(&int_list(&[1, 2, 2])));
}

#[test]
fn sub_list_take_drop() {
    let l = int_list(&[0, 1, 2, 3, 4]);
    assert!(l.sub_list(1, 4).unwrap().equals(&int_list(&[1, 2, 3])));
    assert_eq!(l.sub_list(3, 2).unwrap_err(), KotError::OutOfBounds);
    assert_eq!(l.sub_list(0, 6).unwrap_err(), KotError::OutOfBounds);
    assert!(l.take(2).equals(&int_list(&[0, 1])));
    assert!(l.take(9).equals(&l));
    assert!(l.take_last(2).equals(&int_list(&[3, 4])));
    assert!(l.drop(3).equals(&int_list(&[3, 4])));
    assert!(l.drop_last(4).equals(&int_list(&[0])));
}

#[test]
fn reversed_reverses() {
    let l = int_list(&[1, 2, 3]);
    assert!(l.reversed().equals(&int_list(&[3, 2, 1])));
    assert!(l.as_reversed().reversed().equals(&l));
}

#[test]
fn flatten_splices_lists_and_keeps_scalars() {
    let nested = KotList::new_with_type(
        vec![Value::List(ints(&[1, 2])), num(3), Value::List(ints(&[4]))],
        None,
    );
    assert!(nested.flatten().equals(&int_list(&[1, 2, 3, 4])));
}

#[test]
fn chunked_cuts_runs() {
    let l = int_list(&[1, 2, 3, 4, 5]);
    let c = l.chunked(2).unwrap();
    assert_eq!(c.size(), 3);
    assert!(eq_value(&c.get(0).unwrap(), &Value::List(ints(&[1, 2]))));
    assert!(eq_value(&c.get(2).unwrap(), &Value::List(ints(&[5]))));
    assert_eq!(l.chunked(0).unwrap_err(), KotError::InvalidArgument);
}

#[test]
fn windowed_slides_and_stops_at_partial() {
    let l = int_list(&[1, 2, 3, 4, 5]);
    let w = l.windowed(3, 1, false).unwrap();
    assert_eq!(w.size(), 3);
    assert!(eq_value(&w.get(0).unwrap(), &Value::List(ints(&[1, 2, 3]))));
    assert!(eq_value(&w.get(2).unwrap(), &Value::List(ints(&[3, 4, 5]))));
    let p = l.windowed(3, 2, true).unwrap();
    assert_eq!(p.size(), 3);
    assert!(eq_value(&p.get(2).unwrap(), &Value::List(ints(&[5]))));
    assert_eq!(l.windowed(0, 1, false).unwrap_err(), KotError::InvalidArgument);
    assert_eq!(l.windowed(1, 0, false).unwrap_err(), KotError::InvalidArgument);
}

#[test]
fn zip_pairs_and_unzip_splits() {
    let a = int_list(&[1, 2, 3]);
    let b = int_list(&[4, 5]);
    let z = a.zip(&b);
    assert_eq!(z.size(), 2);
    assert!(eq_value(&z.get(1).unwrap(), &Value::List(ints(&[2, 5]))));
    let (f, s) = z.unzip().unwrap();
    assert!(f.equals(&int_list(&[1, 2])));
    assert!(s.equals(&int_list(&[4, 5])));
    assert_eq!(a.unzip().unwrap_err(), KotError::TypeMismatch);
}

#[test]
fn filter_not_null_drops_nulls() {
    let l = KotList::new_with_type(vec![num(1), Value::Null, num(2)], None);
    assert!(l.filter_not_null().equals(&int_list(&[1, 2])));
}

#[test]
fn filter_is_instance_keeps_one_kind() {
    let l = KotList::new_with_type(vec![num(1), text("a"), num(2)], None);
    assert!(l.filter_is_instance(Kind::Int).equals(&int_list(&[1, 2])));
    assert_eq!(l.filter_is_instance(Kind::Bool).size(), 0);
}

#[test]
fn take_while_and_drop_while_cut_at_first_rejection() {
    let l = int_list(&[1, 2, 9, 1]);
    let small = |v: &Value| match v {
        Value::Int(n) => *n < 5,
        _ => false,
    };
    assert!(l.take_while(small).equals(&int_list(&[1, 2])));
    assert!(l.drop_while(small).equals(&int_list(&[9, 1])));
}

#[test]
fn fold_and_reduce_accumulate() {
    let l = int_list(&[1, 2, 3, 4]);
    let sum = |a: &Value, b: &Value| match (a, b) {
        (Value::Int(x), Value::Int(y)) => Value::Int(x + y),
        _ => Value::Null,
    };
    assert!(eq_value(&l.fold(num(0), sum), &num(10)));
    assert!(eq_value(&l.reduce(sum).unwrap(), &num(10)));
    assert_eq!(KotList::empty().reduce(sum).unwrap_err(), KotError::EmptyContainer);
    assert!(KotList::empty().reduce_or_null(sum).is_none());
}

#[test]
fn predicate_searches() {
    let l = int_list(&[1, 8, 3, 8]);
    let big = |v: &Value| match v {
        Value::Int(n) => *n > 5,
        _ => false,
    };
    assert_eq!(l.index_of_first(big), 1);
    assert_eq!(l.index_of_last(big), 3);
    assert!(eq_value(&l.first_predicate(big).unwrap(), &num(8)));
    assert!(l.find(big).is_some());
    let none_match = |v: &Value| match v {
        Value::Int(n) => *n > 50,
        _ => false,
    };
    assert_eq!(l.first_predicate(none_match).unwrap_err(), KotError::NotFound);
    assert!(l.find(none_match).is_none());
}

#[test]
fn partition_splits_by_decision() {
    let l = int_list(&[1, 6, 2, 7]);
    let big = |v: &Value| match v {
        Value::Int(n) => *n > 5,
        _ => false,
    };
    let (yes, no) = l.partition(big);
    assert!(yes.equals(&int_list(&[6, 7])));
    assert!(no.equals(&int_list(&[1, 2])));
}

#[test]
fn contains_all_and_equals() {
    let l = int_list(&[1, 2, 3]);
    assert!(l.contains_all(&int_list(&[3, 1])));
    assert!(!l.contains_all(&int_list(&[1, 9])));
    assert!(l.equals(&int_list(&[1, 2, 3])));
    assert!(!l.equals(&int_list(&[1, 2])));
    assert!(!l.equals(&int_list(&[3, 2, 1])));
}

#[test]
fn list_iterator_walks_a_snapshot() {
    let l = int_list(&[1, 2]);
    let mut it = l.list_iterator(0).unwrap();
    assert!(eq_value(&it.next().unwrap(), &num(1)));
    assert!(eq_value(&it.next().unwrap(), &num(2)));
    assert!(it.next().is_none());
    assert_eq!(l.list_iterator(3).unwrap_err(), KotError::OutOfBounds);
    let mut tail = l.list_iterator(1).unwrap();
    assert!(eq_value(&tail.next().unwrap(), &num(2)));
}

#[test]
fn map_not_null_drops_null_outputs() {
    let l = int_list(&[1, 2, 3]);
    let odd_only = |v: &Value| match v {
        Value::Int(n) if n % 2 == 1 => Value::Int(*n),
        _ => Value::Null,
    };
    assert!(l.map_not_null(odd_only).equals(&int_list(&[1, 3])));
}

#[test]
fn associate_family_builds_maps() {
    let l = int_list(&[1, 2, 3]);
    let by = l.associate_by(|v: &Value| match v {
        Value::Int(n) => Value::Int(n % 2),
        _ => Value::Null,
    });
    assert_eq!(by.size(), 2);
    assert!(eq_value(&by.get(&num(1)).unwrap(), &num(3)));
    assert!(eq_value(&by.get(&num(0)).unwrap(), &num(2)));
    let with = l.associate_with(|v: &Value| match v {
        Value::Int(n) => Value::Int(n * n),
        _ => Value::Null,
    });
    assert_eq!(with.size(), 3);
    assert!(eq_value(&with.get(&num(3)).unwrap(), &num(9)));
    let paired = l.associate(|v: &Value| match v {
        Value::Int(n) => Value::List(vec![Value::Int(*n), Value::Int(n + 100)]),
        _ => Value::Null,
    }).unwrap();
    assert!(eq_value(&paired.get(&num(2)).unwrap(), &num(102)));
    let bad = l.associate(|_v: &Value| Value::Null);
    assert_eq!(bad.unwrap_err(), KotError::TypeMismatch);
}

#[test]
fn single_predicate_demands_exactly_one_match() {
    let l = int_list(&[1, 8, 3]);
    let big = |v: &Value| match v {
        Value::Int(n) => *n > 5,
        _ => false,
    };
    assert!(eq_value(&l.single_predicate(big).unwrap(), &num(8)));
    let small = |v: &Value| match v {
        Value::Int(n) => *n < 5,
        _ => false,
    };
    assert_eq!(l.single_predicate(small).unwrap_err(), KotError::NotFound);
    assert!(l.single_or_null_predicate(small).is_none());
    assert!(l.single_or_null_predicate(big).is_some());
}

#[test]
fn map_indexed_sees_positions() {
    let l = int_list(&[10, 20]);
    let tagged = l.map_indexed(|i: usize, v: &Value| match v {
        Value::Int(n) => Value::Int(n + i as i64),
        _ => Value::Null,
    });
    assert!(tagged.equals(&int_list(&[10, 21])));
}

#[test]
fn suppliers_and_components() {
    let l = int_list(&[5, 6]);
    assert!(eq_value(&l.get_or_else(0, |_i: usize| num(0)), &num(5)));
    assert!(eq_value(&l.get_or_else(9, |i: usize| num(i as i64)), &num(9)));
    assert!(l.if_empty(|| int_list(&[1])).equals(&l));
    assert!(KotList::empty().if_empty(|| int_list(&[1])).equals(&int_list(&[1])));
    assert!(eq_value(&l.component1().unwrap(), &num(5)));
    assert!(eq_value(&l.component2().unwrap(), &num(6)));
    assert_eq!(l.component3().unwrap_err(), KotError::OutOfBounds);
}

#[test]
fn scan_lists_running_accumulators() {
    let l = int_list(&[1, 2, 3]);
    let sums = l.scan(num(0), |a: &Value, b: &Value| match (a, b) {
        (Value::Int(x), Value::Int(y)) => Value::Int(x + y),
        _ => Value::Null,
    });
    assert!(sums.equals(&int_list(&[0, 1, 3, 6])));
}

#[test]
fn distinct_by_keeps_first_per_key() {
    let l = int_list(&[1, 2, 3, 4, 5]);
    let by_parity = l.distinct_by(|v: &Value| match v {
        Value::Int(n) => Value::Int(n % 2),
        _ => Value::Null,
    });
    assert!(by_parity.equals(&int_list(&[1, 2])));
}

#[test]
fn flat_map_splices_list_outputs() {
    let l = int_list(&[1, 2]);
    let doubled = l.flat_map(|v: &Value| match v {
        Value::Int(n) => Value::List(vec![Value::Int(*n), Value::Int(n * 10)]),
        _ => Value::Null,
    }).unwrap();
    assert!(doubled.equals(&int_list(&[1, 10, 2, 20])));
    let bad = l.flat_map(|_v: &Value| Value::Null);
    assert_eq!(bad.unwrap_err(), KotError::TypeMismatch);
}

#[test]
fn filter_indexed_and_zip_transform() {
    let l = int_list(&[9, 8, 7, 6]);
    let evens_pos = l.filter_indexed(|i: usize, _v: &Value| i % 2 == 0);
    assert!(evens_pos.equals(&int_list(&[9, 7])));
    let other = int_list(&[1, 2, 3]);
    let sums = l.zip_transform(&other, |a: &Value, b: &Value| match (a, b) {
        (Value::Int(x), Value::Int(y)) => Value::Int(x + y),
        _ => Value::Null,
    });
    assert!(sums.equals(&int_list(&[10, 10, 10])));
}
