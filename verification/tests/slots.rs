use emscript::slots::{is_null_key, key_from_ffi, null_key, Arena, KeyMap, FIRST_KEY};

#[test]
fn arena_keys_count_up() {
    let mut arena: Arena<&str> = Arena::new();
    assert_eq!(arena.len(), 0);
    assert_eq!(arena.insert("a"), FIRST_KEY);
    assert_eq!(arena.insert("b"), FIRST_KEY + 1);
    assert_eq!(arena.len(), 2);
    assert_eq!(arena.get(FIRST_KEY), Some(&"a"));
    assert_eq!(arena.get(FIRST_KEY + 1), Some(&"b"));
    assert_eq!(arena.get(FIRST_KEY + 2), None);
    assert_eq!(arena.get(0), None);
    assert_eq!(arena.get(null_key()), None);
    assert_eq!(arena.key_of(1), FIRST_KEY + 1);
    assert_eq!(arena.position(FIRST_KEY + 1), Some(1));
    assert_eq!(arena.position(FIRST_KEY + 2), None);
}

#[test]
fn arena_values_are_replaced() {
    let mut arena: Arena<i32> = Arena::new();
    let a = arena.insert(1);
    let b = arena.insert(2);
    assert_eq!(arena.replace(a, 10), 1);
    arena.set(b, 20);
    assert_eq!(arena.get(a), Some(&10));
    assert_eq!(arena.get(b), Some(&20));
}

#[test]
fn null_keys_are_known() {
    assert_eq!(null_key(), 0x1_ffff_ffff);
    assert!(is_null_key(null_key()));
    assert!(is_null_key(0xffff_ffff));
    assert!(!is_null_key(FIRST_KEY));
    assert!(!is_null_key(0));
}

#[test]
fn keys_from_outside_get_an_odd_version() {
    assert_eq!(key_from_ffi(FIRST_KEY), FIRST_KEY);
    assert_eq!(key_from_ffi(1), FIRST_KEY);
    assert_eq!(key_from_ffi(0x2_0000_0007), 0x3_0000_0007);
    assert_eq!(key_from_ffi(0xffff_fffe_0000_0001), 0xffff_ffff_0000_0001);
}

#[test]
fn key_maps_keep_the_last_value() {
    let mut map = KeyMap::new();
    assert_eq!(map.get(FIRST_KEY), None);
    map.insert(FIRST_KEY, 7);
    map.insert(FIRST_KEY + 5, 8);
    map.insert(FIRST_KEY, 9);
    assert_eq!(map.get(FIRST_KEY), Some(9));
    assert_eq!(map.get(FIRST_KEY + 5), Some(8));
    assert_eq!(map.get(FIRST_KEY + 1), None);
    assert_eq!(map.get(0), None);
    assert_eq!(map.get(null_key()), None);
}
