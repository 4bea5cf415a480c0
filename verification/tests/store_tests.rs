use treemap::cursor::Cursor;
use treemap::levenshtein::levenshtein_distance;
use treemap::store::TreeMap;

fn k(s: &str) -> Vec<u8> {
    s.as_bytes().to_vec()
}

fn key_text(bytes: &[u8]) -> String {
    String::from_utf8_lossy(bytes).into_owned()
}

fn entry_texts(entries: &[(Vec<u8>, u64)]) -> Vec<(String, u64)> {
    entries.iter().map(|(key, value)| (key_text(key), *value)).collect()
}

#[test]
fn iterate_yields_ascending_order() {
    let mut t: TreeMap<u64> = TreeMap::new();
    t.insert(k("cat"), 1);
    t.insert(k("car"), 2);
    t.insert(k("dog"), 3);
    let items = entry_texts(&t.iterate());
    assert_eq!(
        items,
        vec![("car".to_string(), 2), ("cat".to_string(), 1), ("dog".to_string(), 3)]
    );
}

#[test]
fn inserting_extension_evicts_prefix() {
    let mut t: TreeMap<u64> = TreeMap::new();
    t.insert(k("app"), 1);
    t.insert(k("apple"), 2);
    assert_eq!(t.get(&k("app")), None);
    assert_eq!(t.get(&k("apple")), Some(2));
    assert_eq!(t.len(), 1);
}

#[test]
fn inserting_prefix_evicts_all_extensions() {
    let mut t: TreeMap<u64> = TreeMap::new();
    t.insert(k("abc"), 1);
    t.insert(k("abd"), 2);
    t.insert(k("b"), 3);
    assert_eq!(t.len(), 3);
    t.insert(k("ab"), 9);
    assert_eq!(t.get(&k("abc")), None);
    assert_eq!(t.get(&k("abd")), None);
    assert_eq!(t.get(&k("ab")), Some(9));
    assert_eq!(t.get(&k("b")), Some(3));
    assert_eq!(t.len(), 2);
}

#[test]
fn prefix_freedom_holds_after_forced_inserts() {
    let mut t: TreeMap<u64> = TreeMap::new();
    let words = ["a", "ab", "abc", "b", "ba", "bad", "badge", "c", "ca", "cab"];
    for (i, w) in words.iter().enumerate() {
        t.insert(k(w), i as u64);
    }
    let keys = t.keys();
    for i in 0..keys.len() {
        for j in 0..keys.len() {
            if i != j {
                assert!(
                    !(keys[i].len() < keys[j].len() && keys[j][..keys[i].len()] == keys[i][..]),
                    "{:?} is a proper prefix of {:?}",
                    keys[i],
                    keys[j]
                );
            }
        }
    }
}

#[test]
fn insert_returns_previous_value_under_same_key() {
    let mut t: TreeMap<u64> = TreeMap::new();
    assert_eq!(t.insert(k("cat"), 1), None);
    assert_eq!(t.insert(k("cat"), 7), Some(1));
    assert_eq!(t.get(&k("cat")), Some(7));
    // an evicted conflicting key is not "the previous value" of the new key
    assert_eq!(t.insert(k("cats"), 5), None);
    assert_eq!(t.get(&k("cat")), None);
}

#[test]
fn round_trip_insert_then_get() {
    let mut t: TreeMap<u64> = TreeMap::new();
    for (i, w) in ["x", "yak", "zebra", "yam"].iter().enumerate() {
        t.insert(k(w), i as u64);
    }
    assert_eq!(t.get(&k("x")), Some(0));
    assert_eq!(t.get(&k("yak")), Some(1));
    assert_eq!(t.get(&k("zebra")), Some(2));
    assert_eq!(t.get(&k("yam")), Some(3));
    assert_eq!(t.get(&k("missing")), None);
}

#[test]
fn contains_len_is_empty_and_clear() {
    let mut t: TreeMap<u64> = TreeMap::new();
    assert!(t.is_empty());
    t.insert(k("one"), 1);
    t.insert(k("two"), 2);
    assert!(t.contains(&k("one")));
    assert!(!t.contains(&k("three")));
    assert_eq!(t.len(), 2);
    assert!(!t.is_empty());
    t.clear();
    assert!(t.is_empty());
    assert_eq!(t.len(), 0);
    assert_eq!(t.get(&k("one")), None);
}

#[test]
fn remove_returns_value_and_absence_is_not_an_error() {
    let mut t: TreeMap<u64> = TreeMap::new();
    t.insert(k("cat"), 1);
    t.insert(k("dog"), 2);
    assert_eq!(t.remove(&k("cat")), Some(1));
    assert_eq!(t.remove(&k("cat")), None);
    assert_eq!(t.len(), 1);
    assert_eq!(t.get(&k("dog")), Some(2));
}

#[test]
fn first_and_last_match_the_ends_of_iterate() {
    let mut t: TreeMap<u64> = TreeMap::new();
    for (i, w) in ["pear", "apple", "quince", "banana"].iter().enumerate() {
        t.insert(k(w), i as u64);
    }
    let items = t.iterate();
    let first = t.first().unwrap();
    let last = t.last().unwrap();
    assert_eq!((&first.0, first.1), (&items[0].0, items[0].1));
    assert_eq!((&last.0, last.1), (&items[items.len() - 1].0, items[items.len() - 1].1));
    assert_eq!(key_text(&first.0), "apple");
    assert_eq!(key_text(&last.0), "quince");
}

#[test]
fn empty_store_extremal_queries() {
    let mut t: TreeMap<u64> = TreeMap::new();
    assert!(t.first().is_none());
    assert!(t.last().is_none());
    assert!(t.pop_first().is_none());
    assert!(t.pop_last().is_none());
    assert!(t.iterate().is_empty());
    assert!(t.prefix(&k("a")).is_empty());
    assert!(t.fuzzy_search(&k("a"), 10).is_empty());
}

#[test]
fn pop_first_returns_minimum_and_removes_it() {
    let mut t: TreeMap<u64> = TreeMap::new();
    t.insert(k("b"), 1);
    t.insert(k("a"), 2);
    let e = t.pop_first().unwrap();
    assert_eq!(key_text(&e.0), "a");
    assert_eq!(e.1, 2);
    assert_eq!(t.len(), 1);
    assert_eq!(t.get(&k("b")), Some(1));
    assert_eq!(t.get(&k("a")), None);
}

#[test]
fn pop_last_returns_maximum_and_removes_it() {
    let mut t: TreeMap<u64> = TreeMap::new();
    t.insert(k("b"), 1);
    t.insert(k("a"), 2);
    t.insert(k("c"), 3);
    let e = t.pop_last().unwrap();
    assert_eq!(key_text(&e.0), "c");
    assert_eq!(e.1, 3);
    assert_eq!(t.len(), 2);
}

#[test]
fn prefix_returns_matching_run_in_order() {
    let mut t: TreeMap<u64> = TreeMap::new();
    t.insert(k("cat"), 1);
    t.insert(k("car"), 2);
    t.insert(k("dog"), 3);
    let matches = entry_texts(&t.prefix(&k("ca")));
    assert_eq!(matches, vec![("car".to_string(), 2), ("cat".to_string(), 1)]);
    assert!(t.prefix(&k("zz")).is_empty());
}

#[test]
fn prefix_equals_filtered_iteration() {
    let mut t: TreeMap<u64> = TreeMap::new();
    for (i, w) in ["ba", "banana", "band", "bandana", "bank", "bat", "cab"].iter().enumerate() {
        t.insert(k(w), i as u64);
    }
    let by_query = entry_texts(&t.prefix(&k("ban")));
    let by_filter: Vec<(String, u64)> = entry_texts(&t.iterate())
        .into_iter()
        .filter(|(key, _)| key.starts_with("ban"))
        .collect();
    assert_eq!(by_query, by_filter);
    assert!(!by_query.is_empty());
}

#[test]
fn get_prefix_returns_first_match_or_none() {
    let mut t: TreeMap<u64> = TreeMap::new();
    t.insert(k("cat"), 1);
    t.insert(k("car"), 2);
    t.insert(k("dog"), 3);
    let e = t.get_prefix(&k("ca")).unwrap();
    assert_eq!(key_text(&e.0), "car");
    assert_eq!(e.1, 2);
    assert!(t.get_prefix(&k("zebra")).is_none());
}

#[test]
fn fuzzy_search_scenario() {
    let mut t: TreeMap<u64> = TreeMap::new();
    t.insert(k("cat"), 1);
    t.insert(k("car"), 2);
    t.insert(k("bat"), 3);
    t.insert(k("dog"), 4);
    let mut found: Vec<(String, u64, usize)> = t
        .fuzzy_search(&k("cat"), 1)
        .into_iter()
        .map(|(key, value, d)| (key_text(&key), value, d))
        .collect();
    found.sort();
    assert_eq!(
        found,
        vec![
            ("bat".to_string(), 3, 1),
            ("car".to_string(), 2, 1),
            ("cat".to_string(), 1, 0),
        ]
    );
}

#[test]
fn fuzzy_search_equals_brute_force() {
    let mut t: TreeMap<u64> = TreeMap::new();
    let words = ["apple", "apply", "ample", "maple", "spade", "grape", "zz"];
    for (i, w) in words.iter().enumerate() {
        t.insert(k(w), i as u64);
    }
    for (query, budget) in [("apple", 2), ("grape", 3), ("zzz", 1), ("", 5)] {
        let got: Vec<(String, u64, usize)> = t
            .fuzzy_search(&k(query), budget)
            .into_iter()
            .map(|(key, value, d)| (key_text(&key), value, d))
            .collect();
        let brute: Vec<(String, u64, usize)> = t
            .iterate()
            .into_iter()
            .map(|(key, value)| {
                let qc: Vec<char> = query.chars().collect();
                let kc: Vec<char> = key_text(&key).chars().collect();
                (key_text(&key), value, levenshtein_distance(&qc, &kc))
            })
            .filter(|(_, _, d)| *d <= budget)
            .collect();
        assert_eq!(got, brute, "query {:?} budget {}", query, budget);
    }
}

#[test]
fn fuzzy_search_measures_characters_not_bytes() {
    let mut t: TreeMap<u64> = TreeMap::new();
    t.insert(k("h\u{e9}llo"), 1);
    t.insert(k("hello"), 2);
    t.insert(k("help"), 3);
    let mut found: Vec<(String, u64, usize)> = t
        .fuzzy_search(&k("hello"), 1)
        .into_iter()
        .map(|(key, value, d)| (key_text(&key), value, d))
        .collect();
    found.sort();
    // "héllo" is two bytes away but only one character away
    assert_eq!(
        found,
        vec![("hello".to_string(), 2, 0), ("h\u{e9}llo".to_string(), 1, 1)]
    );
}

#[test]
fn fuzzy_search_decodes_invalid_utf8_keys_lossily() {
    let mut t: TreeMap<u64> = TreeMap::new();
    t.insert(vec![0xff], 1);
    t.insert(k("a"), 2);
    // [0xff] decodes to one replacement character, one substitution from "a"
    let found = t.fuzzy_search(&k("a"), 1);
    assert_eq!(found.len(), 2);
    for (key, _, d) in &found {
        let expected = if key == &vec![0xffu8] { 1 } else { 0 };
        assert_eq!(*d, expected);
    }
}

#[test]
fn snapshot_is_immune_to_later_mutation() {
    let mut t: TreeMap<u64> = TreeMap::new();
    t.insert(k("cat"), 1);
    t.insert(k("dog"), 2);
    let snapshot = t.iterate();
    let mut cursor = t.iter();
    assert_eq!(cursor.remaining(), 2);
    let first = cursor.next().unwrap();
    assert_eq!(key_text(&first.0), "cat");
    // mutate the store after the snapshot was taken
    t.insert(k("ant"), 3);
    t.remove(&k("dog"));
    t.insert(k("catalog"), 4);
    // the materialised snapshot has not changed
    assert_eq!(entry_texts(&snapshot), vec![("cat".to_string(), 1), ("dog".to_string(), 2)]);
    // and the cursor still yields the rest of the old view
    let second = cursor.next().unwrap();
    assert_eq!(key_text(&second.0), "dog");
    assert_eq!(second.1, 2);
    assert!(cursor.next().is_none());
    assert!(cursor.next().is_none());
    assert_eq!(cursor.remaining(), 0);
}

#[test]
fn cursor_walks_a_plain_vector_snapshot() {
    let items = vec![(k("a"), 10u64), (k("b"), 20u64)];
    let mut cursor = Cursor::new(items);
    assert_eq!(cursor.next().map(|e| (key_text(&e.0), e.1)), Some(("a".to_string(), 10)));
    assert_eq!(cursor.next().map(|e| (key_text(&e.0), e.1)), Some(("b".to_string(), 20)));
    assert_eq!(cursor.next().map(|e| e.1), None);
}

#[test]
fn from_pairs_applies_forced_inserts_in_order() {
    let pairs = vec![
        (k("app"), 1u64),
        (k("apple"), 2u64),
        (k("dog"), 3u64),
        (k("dog"), 4u64),
    ];
    let t = TreeMap::from_pairs(&pairs);
    assert_eq!(t.get(&k("app")), None);
    assert_eq!(t.get(&k("apple")), Some(2));
    assert_eq!(t.get(&k("dog")), Some(4));
    assert_eq!(t.len(), 2);
}

#[test]
fn keys_and_values_match_iterate() {
    let mut t: TreeMap<u64> = TreeMap::new();
    for (i, w) in ["m", "k", "z"].iter().enumerate() {
        t.insert(k(w), i as u64);
    }
    let items = t.iterate();
    let keys = t.keys();
    let values = t.values();
    assert_eq!(keys.len(), items.len());
    assert_eq!(values.len(), items.len());
    for i in 0..items.len() {
        assert_eq!(keys[i], items[i].0);
        assert_eq!(values[i], items[i].1);
    }
}

#[test]
fn non_utf8_byte_keys_are_ordered_bytewise() {
    let mut t: TreeMap<u64> = TreeMap::new();
    t.insert(vec![0xff, 0x01], 1);
    t.insert(vec![0x00], 2);
    t.insert(vec![0xfe], 3);
    let items = t.iterate();
    let keys: Vec<Vec<u8>> = items.into_iter().map(|(key, _)| key).collect();
    assert_eq!(keys, vec![vec![0x00], vec![0xfe], vec![0xff, 0x01]]);
    assert_eq!(t.get(&vec![0xff, 0x01]), Some(1));
    // byte-level prefix conflict: [0xff] is a proper prefix of [0xff, 0x01]
    t.insert(vec![0xff], 9);
    assert_eq!(t.get(&vec![0xff, 0x01]), None);
    assert_eq!(t.get(&vec![0xff]), Some(9));
}
