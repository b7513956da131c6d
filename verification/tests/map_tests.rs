use mlc::MlcMap;

#[test]
fn map_round_trip() {
    let mut map: MlcMap<String, &str> = MlcMap::new_with_capacity(64);
    map.insert("key".to_string(), "A").unwrap();
    assert_eq!(*map.get(&"key".to_string()).unwrap(), "A");
    map.remove(&"key".to_string()).unwrap();
    assert!(map.get(&"key".to_string()).is_none());
    map.insert("key".to_string(), "B").unwrap();
    assert_eq!(*map.get(&"key".to_string()).unwrap(), "B");
    map.edit(&"key".to_string(), "C").unwrap();
    assert_eq!(*map.get(&"key".to_string()).unwrap(), "C");
}

#[test]
fn insert_then_get_owned() {
    let mut map: MlcMap<u64, u64> = MlcMap::new_with_capacity(8);
    map.insert(3, 33).unwrap();
    assert_eq!(map.get_owned(&3).unwrap(), 33);
}

#[test]
fn insert_remove_get_is_absent() {
    let mut map: MlcMap<u64, u64> = MlcMap::new_with_capacity(8);
    map.insert(5, 55).unwrap();
    assert!(map.remove(&5).is_some());
    assert!(map.get(&5).is_none());
}

#[test]
fn get_on_empty_map_is_absent() {
    let map: MlcMap<u64, u64> = MlcMap::new_with_capacity(8);
    assert!(map.get(&1).is_none());
    assert!(map.get_handle(&1).is_none());
}

#[test]
fn remove_of_absent_key_is_absent() {
    let mut map: MlcMap<u64, u64> = MlcMap::new_with_capacity(8);
    map.insert(1, 10).unwrap();
    assert!(map.remove(&2).is_none());
    assert_eq!(map.get_owned(&1).unwrap(), 10);
}

#[test]
fn edit_of_absent_key_is_absent() {
    let mut map: MlcMap<u64, u64> = MlcMap::new_with_capacity(8);
    assert!(map.edit(&9, 90).is_none());
    assert!(map.get(&9).is_none());
}

#[test]
fn insert_replaces_in_place() {
    let mut map: MlcMap<u64, u64> = MlcMap::new_with_capacity(4);
    map.insert(2, 20).unwrap();
    map.insert(2, 21).unwrap();
    assert_eq!(map.get_owned(&2).unwrap(), 21);
}

#[test]
fn get_handle_reads_current_value() {
    let mut map: MlcMap<String, u64> = MlcMap::new_with_capacity(16);
    map.insert("k".to_string(), 7).unwrap();
    let handle = map.get_handle(&"k".to_string()).unwrap();
    assert_eq!(handle.0, "k");
    assert_eq!(*handle.1.load(), 7);
}

#[test]
fn resize_from_zero_then_double() {
    let mut map: MlcMap<u64, u64> = MlcMap::new();
    assert!(map.insert(1, 10).is_none());
    map.resize().unwrap();
    map.insert(1, 10).unwrap();
    assert_eq!(map.get_owned(&1).unwrap(), 10);
    map.resize().unwrap();
    assert_eq!(map.get_owned(&1).unwrap(), 10);
}

#[test]
fn resize_preserves_entries() {
    let mut map: MlcMap<u64, u64> = MlcMap::new_with_capacity(16);
    for k in 0..100u64 {
        map.insert(k, k * 10).unwrap();
    }
    map.resize().unwrap();
    for k in 0..100u64 {
        assert_eq!(map.get_owned(&k).unwrap(), k * 10);
    }
    let mut it = map.get_iter();
    let mut count = 0u64;
    while let Some(pair) = it.next() {
        assert_eq!(*pair.1.load(), pair.0 * 10);
        count += 1;
    }
    assert_eq!(count, 100);
}

#[test]
fn iterator_visits_each_entry_once() {
    let mut map: MlcMap<String, u64> = MlcMap::new_with_capacity(64);
    map.insert("a".to_string(), 1).unwrap();
    map.insert("b".to_string(), 2).unwrap();
    map.insert("c".to_string(), 3).unwrap();
    let mut seen: Vec<String> = Vec::new();
    let mut it = map.get_iter();
    while let Some(pair) = it.next() {
        assert!(!seen.contains(&pair.0));
        seen.push(pair.0.clone());
    }
    assert_eq!(seen.len(), 3);
}

#[test]
fn editor_reads_the_same_entries() {
    let mut map: MlcMap<String, u64> = MlcMap::new_with_capacity(8);
    map.insert("x".to_string(), 1).unwrap();
    map.insert("y".to_string(), 2).unwrap();
    let mut editor = map.new_editor();
    assert_eq!(editor.get_owned(&"x".to_string()).unwrap(), 1);
    assert_eq!(editor.get_owned(&"y".to_string()).unwrap(), 2);
    editor.edit(&"x".to_string(), 11).unwrap();
    assert_eq!(editor.get_owned(&"x".to_string()).unwrap(), 11);
}

#[test]
fn string_keys_with_same_text_collide() {
    let mut map: MlcMap<String, u64> = MlcMap::new_with_capacity(32);
    let k1 = String::from("shared");
    let k2 = String::from("shared");
    map.insert(k1, 1).unwrap();
    map.insert(k2, 2).unwrap();
    assert_eq!(map.get_owned(&String::from("shared")).unwrap(), 2);
}
