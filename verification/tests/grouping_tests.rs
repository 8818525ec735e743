use kotcollections::kot_grouping::KotGrouping;
use kotcollections::kot_list::KotList;
use kotcollections::value::{eq_value, Value};

fn num(n: i64) -> Value {
    Value::Int(n)
}

fn ints(ns: &[i64]) -> Vec<Value> {
    ns.iter().map(|n| Value::Int(*n)).collect()
}

fn parity(v: &Value) -> Value {
    match v {
        Value::Int(n) => Value::Int(n % 2),
        _ => Value::Null,
    }
}

#[test]
fn each_count_counts_per_key() {
    let g = KotGrouping::new(ints(&[1, 2, 3, 4, 5, 6]), parity);
    let counts = g.each_count();
    assert_eq!(counts.size(), 2);
    assert!(eq_value(&counts.get(&num(0)).unwrap(), &num(3)));
    assert!(eq_value(&counts.get(&num(1)).unwrap(), &num(3)));
}

#[test]
fn reduce_folds_each_group_from_its_first_element() {
    let g = KotGrouping::new(ints(&[1, 2, 3, 4, 5, 6]), parity);
    let sums = g.reduce(|_key: &Value, acc: &Value, e: &Value| match (acc, e) {
        (Value::Int(a), Value::Int(b)) => Value::Int(a + b),
        _ => Value::Null,
    });
    assert_eq!(sums.size(), 2);
    assert!(eq_value(&sums.get(&num(0)).unwrap(), &num(12)));
    assert!(eq_value(&sums.get(&num(1)).unwrap(), &num(9)));
}

#[test]
fn fold_seeds_each_group_with_the_selector() {
    let g = KotGrouping::new(ints(&[1, 2, 3]), parity);
    let folded = g.fold(
        |_key: &Value| num(100),
        |_key: &Value, acc: &Value, e: &Value| match (acc, e) {
            (Value::Int(a), Value::Int(b)) => Value::Int(a + b),
            _ => Value::Null,
        },
    );
    assert!(eq_value(&folded.get(&num(1)).unwrap(), &num(104)));
    assert!(eq_value(&folded.get(&num(0)).unwrap(), &num(102)));
}

#[test]
fn aggregate_raises_the_first_flag_once_per_key() {
    let g = KotGrouping::new(ints(&[1, 3, 2]), parity);
    let agg = g.aggregate(|_key: &Value, acc: &Value, e: &Value, first: bool| {
        if first {
            match e {
                Value::Int(n) => Value::Int(*n),
                _ => Value::Null,
            }
        } else {
            match (acc, e) {
                (Value::Int(a), Value::Int(b)) => Value::Int(a * 100 + b),
                _ => Value::Null,
            }
        }
    });
    assert!(eq_value(&agg.get(&num(1)).unwrap(), &num(103)));
    assert!(eq_value(&agg.get(&num(0)).unwrap(), &num(2)));
}

#[test]
fn grouping_by_snapshots_the_list() {
    let l = KotList::new(ints(&[1, 2, 2])).unwrap();
    let g = l.grouping_by(parity);
    let counts = g.each_count();
    assert!(eq_value(&counts.get(&num(0)).unwrap(), &num(2)));
    assert!(eq_value(&counts.get(&num(1)).unwrap(), &num(1)));
}

#[test]
fn keys_appear_in_first_occurrence_order() {
    let g = KotGrouping::new(ints(&[4, 1, 2]), parity);
    let counts = g.each_count();
    let keys = counts.keys().to_kot_list();
    assert!(eq_value(&keys.get(0).unwrap(), &num(0)));
    assert!(eq_value(&keys.get(1).unwrap(), &num(1)));
}

#[test]
fn group_by_collects_groups_in_source_order() {
    let l = KotList::new(ints(&[1, 2, 3, 4, 5, 6])).unwrap();
    let groups = l.group_by(parity);
    assert_eq!(groups.size(), 2);
    assert!(eq_value(&groups.get(&num(1)).unwrap(), &Value::List(ints(&[1, 3, 5]))));
    assert!(eq_value(&groups.get(&num(0)).unwrap(), &Value::List(ints(&[2, 4, 6]))));
}

#[test]
fn each_count_to_continues_a_tally() {
    let mut dest = kotcollections::kot_mutable_map::KotMutableMap::new(vec![(num(0), num(10))]);
    let g = KotGrouping::new(ints(&[1, 2, 4]), parity);
    g.each_count_to(&mut dest);
    assert!(eq_value(&dest.get(&num(0)).unwrap(), &num(12)));
    assert!(eq_value(&dest.get(&num(1)).unwrap(), &num(1)));
}

#[test]
fn fold_to_continues_an_accumulation() {
    let mut dest = kotcollections::kot_mutable_map::KotMutableMap::new(vec![(num(1), num(100))]);
    let g = KotGrouping::new(ints(&[1, 2, 3]), parity);
    g.fold_to(
        &mut dest,
        |_key: &Value| num(0),
        |_key: &Value, acc: &Value, e: &Value| match (acc, e) {
            (Value::Int(a), Value::Int(b)) => Value::Int(a + b),
            _ => Value::Null,
        },
    );
    assert!(eq_value(&dest.get(&num(1)).unwrap(), &num(104)));
    assert!(eq_value(&dest.get(&num(0)).unwrap(), &num(2)));
}

#[test]
fn reduce_to_and_aggregate_to_respect_held_values() {
    let mut dest = kotcollections::kot_mutable_map::KotMutableMap::new(vec![(num(0), num(50))]);
    let g = KotGrouping::new(ints(&[2, 1]), parity);
    g.reduce_to(&mut dest, |_key: &Value, acc: &Value, e: &Value| match (acc, e) {
        (Value::Int(a), Value::Int(b)) => Value::Int(a + b),
        _ => Value::Null,
    });
    assert!(eq_value(&dest.get(&num(0)).unwrap(), &num(52)));
    assert!(eq_value(&dest.get(&num(1)).unwrap(), &num(1)));
    let mut dest2 = kotcollections::kot_mutable_map::KotMutableMap::new(Vec::new());
    let g2 = KotGrouping::new(ints(&[1, 3]), parity);
    g2.aggregate_to(&mut dest2, |_key: &Value, acc: &Value, e: &Value, first: bool| {
        if first {
            match e {
                Value::Int(n) => Value::Int(*n),
                _ => Value::Null,
            }
        } else {
            match (acc, e) {
                (Value::Int(a), Value::Int(b)) => Value::Int(a + b),
                _ => Value::Null,
            }
        }
    });
    assert!(eq_value(&dest2.get(&num(1)).unwrap(), &num(4)));
}
