use bump_allocator::MyHashMap;

fn collect<'a>(map: &'a MyHashMap<String, u32>) -> Vec<(String, u32)> {
    let mut it = map.iter();
    let mut out = Vec::new();
    while let Some((k, v)) = it.next() {
        out.push((k.clone(), *v));
    }
    out
}

#[test]
fn new_map_is_empty() {
    let map: MyHashMap<String, u32> = MyHashMap::new();
    let mut it = map.iter();
    assert!(it.next().is_none());
    assert!(it.next().is_none());
}

#[test]
fn hashcode_of_short_strings() {
    let map: MyHashMap<String, u32> = MyHashMap::new();
    assert_eq!(map.hashcode(""), 0);
    assert_eq!(map.hashcode("a"), 97);
    // (97 * 31 + 98) % 128
    assert_eq!(map.hashcode("ab"), 33);
    // ((97 * 31 + 98) * 31 + 99) % 128
    assert_eq!(map.hashcode("abc"), 98);
}

#[test]
fn hashcode_wraps_on_long_strings() {
    let map: MyHashMap<String, u32> = MyHashMap::new();
    let text = "the quick brown fox jumps over the lazy dog";
    let mut sum: usize = 0;
    for b in text.bytes() {
        sum = sum.wrapping_mul(31).wrapping_add(b as usize);
    }
    assert_eq!(map.hashcode(text), sum % 128);
}

#[test]
fn hashcode_uses_the_utf8_bytes() {
    let map: MyHashMap<String, u32> = MyHashMap::new();
    // U+00E9 is 0xC3 0xA9: (195 * 31 + 169) % 128
    assert_eq!(map.hashcode("\u{e9}"), 70);
}

#[test]
fn insert_then_iterate() {
    let mut map: MyHashMap<String, u32> = MyHashMap::new();
    map.insert("b".to_string(), 2);
    map.insert("a".to_string(), 1);
    map.insert("c".to_string(), 3);
    // Buckets 97, 98, 99 in bucket order.
    assert_eq!(
        collect(&map),
        vec![("a".to_string(), 1), ("b".to_string(), 2), ("c".to_string(), 3)]
    );
}

#[test]
fn insert_replaces_the_value_of_a_known_key() {
    let mut map: MyHashMap<String, u32> = MyHashMap::new();
    map.insert("a".to_string(), 1);
    map.insert("b".to_string(), 2);
    map.insert("a".to_string(), 10);
    assert_eq!(collect(&map), vec![("a".to_string(), 10), ("b".to_string(), 2)]);
}

#[test]
fn colliding_keys_share_a_bucket_in_insertion_order() {
    let mut map: MyHashMap<String, u32> = MyHashMap::new();
    // "ab" hashes to 3105 and "bB" to 98 * 31 + 66 = 3104; "c!" to 99 * 31 + 33 = 3102;
    // "aa" is 3104 as well.
    assert_eq!(map.hashcode("bB"), map.hashcode("aa"));
    map.insert("bB".to_string(), 1);
    map.insert("aa".to_string(), 2);
    map.insert("bB".to_string(), 3);
    assert_eq!(collect(&map), vec![("bB".to_string(), 3), ("aa".to_string(), 2)]);
}

#[test]
fn insert_at_puts_the_entry_in_the_bucket_given() {
    let mut map: MyHashMap<String, u32> = MyHashMap::new();
    map.insert_at(5, "z".to_string(), 1);
    map.insert_at(2, "y".to_string(), 2);
    map.insert_at(5, "x".to_string(), 3);
    map.insert_at(5, "z".to_string(), 4);
    assert_eq!(
        collect(&map),
        vec![("y".to_string(), 2), ("z".to_string(), 4), ("x".to_string(), 3)]
    );
}

#[test]
fn map_doubles_its_buckets_when_three_quarters_full() {
    let mut map: MyHashMap<u32, u32> = MyHashMap::new();
    // "200" hashes to (50 * 31 + 48) * 31 + 48 = 49586: bucket 50 of 128, 178 of 256.
    assert_eq!(map.hashcode("200"), 50);
    for k in 0..96 {
        map.insert(k, k);
    }
    assert_eq!(map.hashcode("200"), 50);
    map.insert(96, 96);
    assert_eq!(map.hashcode("200"), 178);
    let mut it = map.iter();
    let mut n = 0;
    while it.next().is_some() {
        n += 1;
    }
    assert_eq!(n, 97);
}

#[test]
fn keys_of_other_types_use_their_text() {
    let mut map: MyHashMap<u32, &str> = MyHashMap::new();
    map.insert(7, "seven");
    map.insert(7, "sept");
    map.insert(1, "one");
    let mut it = map.iter();
    // "1" is byte 49, "7" is byte 55.
    assert_eq!(it.next(), Some((&1, &"one")));
    assert_eq!(it.next(), Some((&7, &"sept")));
    assert_eq!(it.next(), None);
}
