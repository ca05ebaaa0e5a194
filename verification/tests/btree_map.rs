use redscript_collections::btree_map::{BTreeMapImpl, BTreeMapIteratorImpl};
use redscript_collections::order::Comparator;
use redscript_collections::util::Order;
use redscript_collections::value::Value;

fn text(s: &str) -> Value {
    Value::Text(s.as_bytes().to_vec())
}

fn num(n: i32) -> Value {
    Value::Raw(n.to_le_bytes().to_vec())
}

fn number(v: &Value) -> i32 {
    match v {
        Value::Raw(b) if b.len() == 4 => i32::from_le_bytes([b[0], b[1], b[2], b[3]]),
        _ => panic!("not a number"),
    }
}

/// Numbers, ascending.
struct Ascending;

impl Comparator for Ascending {
    fn compare(&self, a: &Value, b: &Value) -> Order {
        let (x, y) = (number(a), number(b));
        if x < y {
            Order::Less
        } else if x > y {
            Order::Greater
        } else {
            Order::Equal
        }
    }
}

/// Numbers by their last decimal digit, descending.
struct LastDigitDescending;

impl Comparator for LastDigitDescending {
    fn compare(&self, a: &Value, b: &Value) -> Order {
        let (x, y) = (number(a).rem_euclid(10), number(b).rem_euclid(10));
        if x > y {
            Order::Less
        } else if x < y {
            Order::Greater
        } else {
            Order::Equal
        }
    }
}

fn drain(mut it: BTreeMapIteratorImpl) -> Vec<(Value, Value)> {
    let mut out = Vec::new();
    while it.has_next() {
        let [k, v] = it.next();
        out.push((k, v));
    }
    out
}

#[test]
fn ordered_map_starts_empty() {
    let map = BTreeMapImpl::new_ref(Ascending);
    assert_eq!(map.len(), 0);
    assert!(!map.has_key(num(1)));
    assert_eq!(map.get(num(1)), Value::Empty);
    assert!(!map.iter().has_next());
}

#[test]
fn ordered_map_iterates_in_comparator_order() {
    let mut map = BTreeMapImpl::new_ref(Ascending);
    map.set(num(3), text("x"));
    map.set(num(1), text("y"));
    map.set(num(2), text("z"));
    assert_eq!(
        drain(map.iter()),
        vec![(num(1), text("y")), (num(2), text("z")), (num(3), text("x"))]
    );
}

#[test]
fn ordered_map_get_returns_last_value_set() {
    let mut map = BTreeMapImpl::new_ref(Ascending);
    map.set(num(5), text("five"));
    map.set(num(-2), text("minus two"));
    assert_eq!(map.get(num(5)), text("five"));
    map.set(num(5), text("cinq"));
    map.set(num(9), text("nine"));
    assert_eq!(map.get(num(5)), text("cinq"));
    assert_eq!(map.get(num(-2)), text("minus two"));
    assert_eq!(map.get(num(9)), text("nine"));
    assert!(map.has_key(num(9)));
    assert_eq!(map.len(), 3);
}

#[test]
fn ordered_map_absent_key_gives_empty_value() {
    let mut map = BTreeMapImpl::new_ref(Ascending);
    map.set(num(1), text("one"));
    map.set(num(3), text("three"));
    for absent in [0, 2, 4] {
        assert_eq!(map.get(num(absent)), Value::Empty);
        assert!(!map.has_key(num(absent)));
    }
}

#[test]
fn ordered_map_many_keys_come_out_sorted_and_once() {
    let mut map = BTreeMapImpl::new_ref(Ascending);
    let keys = [50, -7, 13, 0, 99, 13, 42, -7, 8, 77, 21, 50, 1];
    for (i, k) in keys.iter().enumerate() {
        map.set(num(*k), num(i as i32));
    }
    let got = drain(map.iter());
    let got_keys: Vec<i32> = got.iter().map(|(k, _)| number(k)).collect();
    assert_eq!(got_keys, vec![-7, 0, 1, 8, 13, 21, 42, 50, 77, 99]);
    // each key holds the value of its last set
    let got_values: Vec<i32> = got.iter().map(|(_, v)| number(v)).collect();
    assert_eq!(got_values, vec![7, 3, 12, 8, 5, 10, 6, 11, 9, 4]);
}

#[test]
fn ordered_map_overwrite_under_equal_key_leaves_one_entry() {
    let mut map = BTreeMapImpl::new_ref(LastDigitDescending);
    map.set(num(17), text("first"));
    map.set(num(27), text("second"));
    assert_eq!(map.len(), 1);
    assert_eq!(map.get(num(7)), text("second"));
    // the key that was stored first stays
    assert_eq!(drain(map.iter()), vec![(num(17), text("second"))]);
}

#[test]
fn ordered_map_follows_the_comparator_it_was_made_with() {
    let mut map = BTreeMapImpl::new_ref(LastDigitDescending);
    map.set(num(11), text("a"));
    map.set(num(29), text("b"));
    map.set(num(35), text("c"));
    map.set(num(41), text("d"));
    assert_eq!(
        drain(map.iter()),
        vec![(num(29), text("b")), (num(35), text("c")), (num(11), text("d"))]
    );
}

#[test]
fn ordered_iterator_is_a_snapshot() {
    let mut map = BTreeMapImpl::new_ref(Ascending);
    map.set(num(2), text("two"));
    map.set(num(4), text("four"));
    let mut it = map.iter();
    map.set(num(1), text("one"));
    map.set(num(3), text("three"));
    map.set(num(2), text("deux"));
    assert!(it.has_next());
    assert_eq!(it.next(), [num(2), text("two")]);
    assert_eq!(it.next(), [num(4), text("four")]);
    assert!(!it.has_next());
    assert_eq!(map.len(), 4);
    assert_eq!(map.get(num(2)), text("deux"));
}

#[test]
fn ordered_iterator_gives_empty_values_once_exhausted() {
    let mut map = BTreeMapImpl::new_ref(Ascending);
    map.set(num(1), text("one"));
    let mut it = map.iter();
    assert_eq!(it.next(), [num(1), text("one")]);
    assert!(!it.has_next());
    assert_eq!(it.next(), [Value::Empty, Value::Empty]);
    assert_eq!(it.next(), [Value::Empty, Value::Empty]);
    assert!(!it.has_next());
}

#[test]
fn order_default_and_standard_form() {
    assert_eq!(Order::default(), Order::Equal);
    assert_eq!(Order::Less.to_std(), std::cmp::Ordering::Less);
    assert_eq!(Order::Equal.to_std(), std::cmp::Ordering::Equal);
    assert_eq!(Order::Greater.to_std(), std::cmp::Ordering::Greater);
}
