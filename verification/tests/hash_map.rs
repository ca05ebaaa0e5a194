use redscript_collections::hash_map::{HashMapImpl, HashMapIteratorImpl};
use redscript_collections::value::{get_key_bytes, Value};

fn text(s: &str) -> Value {
    Value::Text(s.as_bytes().to_vec())
}

fn num(n: i32) -> Value {
    Value::Raw(n.to_le_bytes().to_vec())
}

fn drain(map: &HashMapImpl) -> Vec<(Value, Value)> {
    let mut it: HashMapIteratorImpl = map.iter();
    let mut out = Vec::new();
    while it.has_next(map) {
        let [k, v] = it.next(map);
        out.push((k, v));
    }
    out
}

#[test]
fn hash_map_starts_empty() {
    let map = HashMapImpl::new();
    assert_eq!(map.len(), 0);
    assert!(!map.has_key(text("a")));
    assert_eq!(map.get(text("a")), Value::Empty);
    assert!(!map.iter().has_next(&map));
}

#[test]
fn hash_map_get_returns_last_value_set() {
    let mut map = HashMapImpl::new();
    map.set(text("a"), num(1));
    map.set(text("b"), num(2));
    assert_eq!(map.get(text("a")), num(1));
    map.set(text("a"), num(7));
    map.set(text("c"), num(9));
    assert_eq!(map.get(text("a")), num(7));
    assert_eq!(map.get(text("b")), num(2));
    assert_eq!(map.get(text("c")), num(9));
    assert!(map.has_key(text("a")));
    assert_eq!(map.len(), 3);
}

#[test]
fn hash_map_absent_key_gives_empty_value() {
    let mut map = HashMapImpl::new();
    map.set(text("present"), num(1));
    assert_eq!(map.get(text("absent")), Value::Empty);
    assert!(!map.has_key(text("absent")));
    assert_eq!(map.get(num(1)), Value::Empty);
    assert!(!map.has_key(num(1)));
}

#[test]
fn hash_map_iterates_in_insertion_order() {
    let mut map = HashMapImpl::new();
    let keys = ["delta", "alpha", "charlie", "bravo", "echo"];
    for (i, k) in keys.iter().enumerate() {
        map.set(text(k), num(i as i32));
    }
    let got = drain(&map);
    assert_eq!(got.len(), 5);
    for (i, k) in keys.iter().enumerate() {
        assert_eq!(got[i], (text(k), num(i as i32)));
    }
}

#[test]
fn hash_map_overwrite_keeps_position() {
    let mut map = HashMapImpl::new();
    map.set(text("a"), num(1));
    map.set(text("b"), num(2));
    map.set(text("a"), num(3));
    assert_eq!(drain(&map), vec![(text("a"), num(3)), (text("b"), num(2))]);
    assert_eq!(map.len(), 2);
}

#[test]
fn hash_map_overwrite_in_the_middle_keeps_position() {
    let mut map = HashMapImpl::new();
    map.set(num(10), text("x"));
    map.set(num(20), text("y"));
    map.set(num(30), text("z"));
    map.set(num(20), text("w"));
    assert_eq!(
        drain(&map),
        vec![(num(10), text("x")), (num(20), text("w")), (num(30), text("z"))]
    );
}

#[test]
fn hash_map_cursor_sees_later_insertions() {
    let mut map = HashMapImpl::new();
    map.set(text("a"), num(1));
    let mut it = map.iter();
    assert!(it.has_next(&map));
    assert_eq!(it.next(&map), [text("a"), num(1)]);
    assert!(!it.has_next(&map));
    map.set(text("b"), num(2));
    assert!(it.has_next(&map));
    assert_eq!(it.next(&map), [text("b"), num(2)]);
    assert!(!it.has_next(&map));
}

#[test]
fn hash_map_cursor_made_on_empty_map_sees_first_insertion() {
    let mut map = HashMapImpl::new();
    let mut it = map.iter();
    assert!(!it.has_next(&map));
    map.set(text("k"), text("v"));
    assert!(it.has_next(&map));
    assert_eq!(it.next(&map), [text("k"), text("v")]);
}

#[test]
fn hash_map_cursor_past_the_end_gives_empty_values_and_moves_on() {
    let mut map = HashMapImpl::new();
    map.set(text("a"), num(1));
    let mut it = map.iter();
    assert_eq!(it.next(&map), [text("a"), num(1)]);
    assert_eq!(it.next(&map), [Value::Empty, Value::Empty]);
    assert_eq!(it.next(&map), [Value::Empty, Value::Empty]);
    assert!(!it.has_next(&map));
    // the cursor has moved two places past the old end
    map.set(text("b"), num(2));
    map.set(text("c"), num(3));
    assert!(!it.has_next(&map));
    map.set(text("d"), num(4));
    assert!(it.has_next(&map));
    assert_eq!(it.next(&map), [text("d"), num(4)]);
}

#[test]
fn hash_map_keys_with_the_same_bytes_are_one_key() {
    let mut map = HashMapImpl::new();
    map.set(text("a"), num(1));
    // one byte, 0x61, held as a value that is no string
    map.set(Value::Raw(vec![0x61]), num(2));
    assert_eq!(map.len(), 1);
    assert_eq!(map.get(text("a")), num(2));
    assert!(map.has_key(Value::Raw(vec![0x61])));
    // the key that was stored first stays
    assert_eq!(drain(&map), vec![(text("a"), num(2))]);
}

#[test]
fn hash_map_empty_keys_collide() {
    let mut map = HashMapImpl::new();
    map.set(Value::Empty, num(1));
    assert!(map.has_key(text("")));
    assert!(map.has_key(Value::Raw(Vec::new())));
    map.set(text(""), num(2));
    assert_eq!(map.len(), 1);
    assert_eq!(map.get(Value::Empty), num(2));
    assert_eq!(drain(&map), vec![(Value::Empty, num(2))]);
}

#[test]
fn hash_map_takes_keys_longer_than_sixteen_bytes() {
    let mut map = HashMapImpl::new();
    let long = "a key that is well over sixteen bytes long";
    let other = "a key that is well over sixteen bytes long!";
    map.set(text(long), num(1));
    map.set(text(other), num(2));
    assert_eq!(map.get(text(long)), num(1));
    assert_eq!(map.get(text(other)), num(2));
    assert_eq!(drain(&map), vec![(text(long), num(1)), (text(other), num(2))]);
}

#[test]
fn key_bytes_of_each_kind_of_value() {
    assert_eq!(get_key_bytes(&Value::Empty), &[] as &[u8]);
    assert_eq!(get_key_bytes(&text("abc")), &[0x61u8, 0x62, 0x63][..]);
    assert_eq!(get_key_bytes(&num(1)), &[1u8, 0, 0, 0][..]);
    assert_eq!(get_key_bytes(&Value::Raw(vec![9, 8])), &[9u8, 8][..]);
}

#[test]
fn value_default_is_empty_and_clone_is_equal() {
    assert_eq!(Value::default(), Value::Empty);
    let v = text("copy me");
    assert_eq!(v.clone(), v);
    assert_eq!(num(5).clone(), num(5));
    assert_ne!(text("a"), Value::Raw(vec![0x61]));
}

#[test]
fn hash_map_cursor_counts_its_steps() {
    let mut map = HashMapImpl::new();
    map.set(text("a"), num(1));
    let mut it = map.iter();
    assert_eq!(it.position(), 0);
    it.next(&map);
    assert_eq!(it.position(), 1);
    it.next(&map);
    assert_eq!(it.position(), 2);
    let copy = it.clone();
    assert_eq!(copy.position(), 2);
}
