use multi_key_map::entry::Entry;
use multi_key_map::MultiKeyMap;

fn key(s: &str) -> String {
    s.to_string()
}

#[test]
fn empty_map_has_nothing() {
    let m: MultiKeyMap<String, i32> = MultiKeyMap::new();
    assert!(!m.contains_key(&key("a")));
    assert_eq!(m.get(&key("a")), None);
    assert_eq!(m.keys().len(), 0);
    assert_eq!(m.values().len(), 0);
}

#[test]
fn get_is_idempotent() {
    let mut m: MultiKeyMap<String, i32> = MultiKeyMap::new();
    m.insert(key("a"), 42);
    let first = m.get(&key("a")).copied();
    let second = m.get(&key("a")).copied();
    assert_eq!(first, second);
    assert_eq!(first, Some(42));
}

#[test]
fn contained_key_resolves() {
    let mut m: MultiKeyMap<String, i32> = MultiKeyMap::new();
    m.insert(key("a"), 1);
    m.alias(&key("a"), key("b")).unwrap();
    for k in ["a", "b"] {
        assert!(m.contains_key(&key(k)));
        assert!(m.get(&key(k)).is_some());
    }
}

#[test]
fn insert_overwrite_sole_owner() {
    let mut m: MultiKeyMap<String, i32> = MultiKeyMap::new();
    assert_eq!(m.insert(key("a"), 1), None);
    assert_eq!(m.insert(key("a"), 2), Some(1));
    assert_eq!(m.get(&key("a")), Some(&2));
}

#[test]
fn detach_on_shared_overwrite() {
    let mut m: MultiKeyMap<String, i32> = MultiKeyMap::new();
    m.insert(key("a"), 1);
    assert_eq!(m.alias(&key("a"), key("b")), Ok(&1));
    assert_eq!(m.insert(key("a"), 3), None);
    assert_eq!(m.get(&key("a")), Some(&3));
    assert_eq!(m.get(&key("b")), Some(&1));
}

#[test]
fn alias_remove_ordering() {
    let mut m: MultiKeyMap<String, i32> = MultiKeyMap::new();
    m.insert(key("a"), 1);
    m.alias(&key("a"), key("b")).unwrap();
    assert_eq!(m.remove(&key("a")), None);
    assert_eq!(m.get(&key("b")), Some(&1));
    assert_eq!(m.remove(&key("b")), Some(1));
    assert!(!m.contains_key(&key("b")));
}

#[test]
fn alias_on_absent_base_fails_closed() {
    let mut m: MultiKeyMap<String, i32> = MultiKeyMap::new();
    assert_eq!(m.alias(&key("missing"), key("b")), Err(key("b")));
    assert!(!m.contains_key(&key("b")));
    assert_eq!(m.keys().len(), 0);
    assert_eq!(m.values().len(), 0);
}

#[test]
fn alias_many_success_and_failure() {
    let mut m: MultiKeyMap<String, i32> = MultiKeyMap::new();
    assert_eq!(
        m.alias_many(&key("missing"), vec![key("b"), key("c")]),
        Err(vec![key("b"), key("c")])
    );
    m.insert(key("a"), 9);
    assert_eq!(m.alias_many(&key("a"), vec![key("b"), key("c")]), Ok(&9));
    for k in ["a", "b", "c"] {
        assert_eq!(m.get(&key(k)), Some(&9));
    }
    assert_eq!(m.values().len(), 1);
    assert_eq!(m.remove(&key("b")), None);
    assert_eq!(m.remove(&key("c")), None);
    assert_eq!(m.remove(&key("a")), Some(9));
}

#[test]
fn insert_many_basic_grouping() {
    let mut m: MultiKeyMap<String, i32> = MultiKeyMap::new();
    let bumped = m.insert_many(vec![key("x"), key("y")], 10);
    assert!(bumped.is_empty());
    assert_eq!(m.values().len(), 1);
    assert_eq!(m.remove(&key("x")), None);
    assert_eq!(m.get(&key("y")), Some(&10));
    assert_eq!(m.remove(&key("y")), Some(10));
}

#[test]
fn insert_many_detaches_shared_keys() {
    let mut m: MultiKeyMap<String, i32> = MultiKeyMap::new();
    m.insert(key("a"), 1);
    m.alias(&key("a"), key("b")).unwrap();
    let bumped = m.insert_many(vec![key("a"), key("c")], 5);
    assert!(bumped.is_empty());
    assert_eq!(m.get(&key("a")), Some(&5));
    assert_eq!(m.get(&key("c")), Some(&5));
    assert_eq!(m.get(&key("b")), Some(&1));
    assert_eq!(m.remove(&key("a")), None);
    assert_eq!(m.remove(&key("c")), Some(5));
}

#[test]
fn insert_many_with_no_keys_leaves_orphan_group() {
    let mut m: MultiKeyMap<String, i32> = MultiKeyMap::new();
    let bumped = m.insert_many(vec![], 7);
    assert!(bumped.is_empty());
    assert_eq!(m.keys().len(), 0);
    assert_eq!(m.values().len(), 1);
    assert_eq!(m.values(), vec![&7]);
}

#[test]
fn dangling_alias_after_sole_owner_eviction() {
    let mut m: MultiKeyMap<String, i32> = MultiKeyMap::new();
    m.insert(key("a"), 1);
    let bumped = m.insert_many(vec![key("a")], 2);
    assert_eq!(bumped, vec![1]);
    // The evicted key's alias entry is left behind, pointing at the deleted
    // slot: the key still counts as contained while resolving to nothing.
    assert!(m.contains_key(&key("a")));
    assert_eq!(m.get(&key("a")), None);
}

#[test]
fn remove_many_collects_in_order() {
    let mut m: MultiKeyMap<String, i32> = MultiKeyMap::new();
    m.insert(key("a"), 1);
    m.insert(key("b"), 2);
    m.alias(&key("b"), key("c")).unwrap();
    let bumped = m.remove_many(&vec![key("a"), key("b"), key("c"), key("z")]);
    assert_eq!(bumped, vec![1, 2]);
    assert_eq!(m.keys().len(), 0);
    assert_eq!(m.values().len(), 0);
}

#[test]
fn iteration_multiplicity() {
    let mut m: MultiKeyMap<String, i32> = MultiKeyMap::new();
    m.insert(key("a"), 1);
    m.alias(&key("a"), key("b")).unwrap();
    m.insert(key("c"), 3);
    let mut it = m.iter();
    let mut seen: Vec<(String, i32)> = Vec::new();
    while let Some((k, v)) = it.next() {
        seen.push((k.clone(), *v));
    }
    assert_eq!(seen.len(), 3);
    let a = seen.iter().find(|(k, _)| k == "a").unwrap().1;
    let b = seen.iter().find(|(k, _)| k == "b").unwrap().1;
    let c = seen.iter().find(|(k, _)| k == "c").unwrap().1;
    assert_eq!(a, b);
    assert_eq!(a, 1);
    assert_eq!(c, 3);
    assert_eq!(it.next(), None);
    assert_eq!(it.next(), None);
}

#[test]
fn keys_and_values_list_everything() {
    let mut m: MultiKeyMap<String, i32> = MultiKeyMap::new();
    m.insert(key("a"), 1);
    m.alias(&key("a"), key("b")).unwrap();
    m.insert(key("c"), 3);
    let mut ks: Vec<String> = m.keys().into_iter().cloned().collect();
    ks.sort();
    assert_eq!(ks, vec![key("a"), key("b"), key("c")]);
    let mut vs: Vec<i32> = m.values().into_iter().copied().collect();
    vs.sort();
    assert_eq!(vs, vec![1, 3]);
}

#[test]
fn into_keys_and_into_values_consume_the_map() {
    let mut m: MultiKeyMap<String, i32> = MultiKeyMap::new();
    m.insert(key("a"), 1);
    m.alias(&key("a"), key("b")).unwrap();
    m.insert(key("c"), 3);
    let mut ks = m.clone().into_keys();
    ks.sort();
    assert_eq!(ks, vec![key("a"), key("b"), key("c")]);
    let mut vs = m.into_values();
    vs.sort();
    assert_eq!(vs, vec![1, 3]);
}

#[test]
fn entry_key_reports_the_key() {
    let mut m: MultiKeyMap<String, i32> = MultiKeyMap::new();
    m.insert(key("a"), 1);
    let occupied = m.entry(key("a"));
    assert_eq!(occupied.key(), &key("a"));
    let vacant = m.entry(key("b"));
    assert_eq!(vacant.key(), &key("b"));
    match vacant {
        Entry::Vacant(e) => {
            assert_eq!(e.key(), &key("b"));
            assert_eq!(e.into_key(), key("b"));
        }
        Entry::Occupied(_) => panic!("expected a vacant entry"),
    }
}

#[test]
fn entry_or_insert_inserts_only_when_vacant() {
    let mut m: MultiKeyMap<String, i32> = MultiKeyMap::new();
    let e = m.entry(key("a"));
    assert_eq!(e.or_insert(&mut m, 5), &5);
    let e = m.entry(key("a"));
    assert_eq!(e.or_insert(&mut m, 9), &5);
    assert_eq!(m.get(&key("a")), Some(&5));
}

#[test]
fn entry_or_insert_with_runs_lazily() {
    let mut m: MultiKeyMap<String, i32> = MultiKeyMap::new();
    m.insert(key("a"), 1);
    let e = m.entry(key("a"));
    assert_eq!(e.or_insert_with(&mut m, || 100), &1);
    let e = m.entry(key("b"));
    assert_eq!(e.or_insert_with(&mut m, || 100), &100);
    assert_eq!(m.get(&key("b")), Some(&100));
}

#[test]
fn entry_or_insert_with_key_sees_the_key() {
    let mut m: MultiKeyMap<String, i32> = MultiKeyMap::new();
    let e = m.entry(key("long-key"));
    let r = e.or_insert_with_key(&mut m, |k| k.len() as i32);
    assert_eq!(r, &8);
    assert_eq!(m.get(&key("long-key")), Some(&8));
}

#[test]
fn entry_or_default_inserts_default() {
    let mut m: MultiKeyMap<String, i32> = MultiKeyMap::new();
    let e = m.entry(key("a"));
    assert_eq!(e.or_default(&mut m), &0);
    m.insert(key("b"), 4);
    let e = m.entry(key("b"));
    assert_eq!(e.or_default(&mut m), &4);
}

#[test]
fn entry_and_modify_touches_only_occupied() {
    let mut m: MultiKeyMap<String, i32> = MultiKeyMap::new();
    m.insert(key("a"), 1);
    let e = m.entry(key("a"));
    let e = e.and_modify(&mut m, |v| v + 10);
    assert!(matches!(e, Entry::Occupied(_)));
    assert_eq!(m.get(&key("a")), Some(&11));
    let e = m.entry(key("b"));
    let e = e.and_modify(&mut m, |v| v + 10);
    assert!(matches!(e, Entry::Vacant(_)));
    assert!(!m.contains_key(&key("b")));
}

#[test]
fn occupied_entry_get_and_remove() {
    let mut m: MultiKeyMap<String, i32> = MultiKeyMap::new();
    m.insert(key("a"), 1);
    m.alias(&key("a"), key("b")).unwrap();
    match m.entry(key("a")) {
        Entry::Occupied(e) => {
            assert_eq!(e.key(), &key("a"));
            assert_eq!(e.get(&m), &1);
            // The group is still shared, so count-respecting removal keeps
            // the value alive under the other alias.
            assert_eq!(e.remove(&mut m), None);
        }
        Entry::Vacant(_) => panic!("expected an occupied entry"),
    }
    assert_eq!(m.get(&key("b")), Some(&1));
}

#[test]
fn occupied_remove_entry_ignores_the_count() {
    let mut m: MultiKeyMap<String, i32> = MultiKeyMap::new();
    m.insert(key("a"), 1);
    m.alias(&key("a"), key("b")).unwrap();
    match m.entry(key("a")) {
        Entry::Occupied(e) => {
            let (k, v) = e.remove_entry(&mut m);
            assert_eq!(k, key("a"));
            assert_eq!(v, Some(1));
        }
        Entry::Vacant(_) => panic!("expected an occupied entry"),
    }
    // Unconditional slot-level removal deletes the whole group: the other
    // alias is left dangling, contained but resolving to nothing.
    assert!(!m.contains_key(&key("a")));
    assert!(m.contains_key(&key("b")));
    assert_eq!(m.get(&key("b")), None);
}

#[test]
fn vacant_entry_insert_creates_sole_owner() {
    let mut m: MultiKeyMap<String, i32> = MultiKeyMap::new();
    match m.entry(key("a")) {
        Entry::Vacant(e) => {
            assert_eq!(e.insert(&mut m, 6), &6);
        }
        Entry::Occupied(_) => panic!("expected a vacant entry"),
    }
    assert_eq!(m.insert(key("a"), 7), Some(6));
}

#[test]
fn get_mut_writes_through_to_all_aliases() {
    let mut m: MultiKeyMap<String, i32> = MultiKeyMap::new();
    m.insert(key("a"), 1);
    m.alias(&key("a"), key("b")).unwrap();
    *m.get_mut(&key("a")).unwrap() = 50;
    assert_eq!(m.get(&key("a")), Some(&50));
    assert_eq!(m.get(&key("b")), Some(&50));
    assert!(m.get_mut(&key("missing")).is_none());
}

#[test]
fn values_mut_rewrites_every_group_once() {
    let mut m: MultiKeyMap<String, i32> = MultiKeyMap::new();
    m.insert(key("a"), 1);
    m.alias(&key("a"), key("b")).unwrap();
    m.insert(key("c"), 3);
    m.values_mut(&|v| v * 10);
    assert_eq!(m.get(&key("a")), Some(&10));
    assert_eq!(m.get(&key("b")), Some(&10));
    assert_eq!(m.get(&key("c")), Some(&30));
}

#[test]
fn occupied_entry_mutable_views() {
    let mut m: MultiKeyMap<String, i32> = MultiKeyMap::new();
    m.insert(key("a"), 1);
    m.alias(&key("a"), key("b")).unwrap();
    match m.entry(key("a")) {
        Entry::Occupied(e) => {
            *e.get_mut(&mut m) += 5;
        }
        Entry::Vacant(_) => panic!("expected an occupied entry"),
    }
    assert_eq!(m.get(&key("b")), Some(&6));
    match m.entry(key("b")) {
        Entry::Occupied(e) => {
            let v = e.into_mut(&mut m);
            *v = 9;
        }
        Entry::Vacant(_) => panic!("expected an occupied entry"),
    }
    assert_eq!(m.get(&key("a")), Some(&9));
}

#[test]
fn removal_then_reinsertion_makes_a_fresh_group() {
    let mut m: MultiKeyMap<String, i32> = MultiKeyMap::new();
    m.insert(key("a"), 1);
    m.alias(&key("a"), key("b")).unwrap();
    assert_eq!(m.remove(&key("a")), None);
    m.insert(key("a"), 2);
    assert_eq!(m.get(&key("a")), Some(&2));
    assert_eq!(m.get(&key("b")), Some(&1));
    assert_eq!(m.insert(key("a"), 3), Some(2));
}
