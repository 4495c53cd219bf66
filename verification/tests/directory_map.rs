use model_scan::directory_map::DirectoryGroupMap;

fn group(texts: &[&str]) -> Vec<String> {
    texts.iter().map(|text| text.to_string()).collect()
}

#[test]
fn new_map_is_empty() {
    let map = DirectoryGroupMap::new();
    assert!(map.is_empty());
    assert_eq!(map.len(), 0);
    assert_eq!(map.get("a/"), None);
    assert_eq!(map.into_entries(), Vec::new());
}

#[test]
fn inserted_groups_are_found_under_their_key() {
    let mut map = DirectoryGroupMap::new();
    map.insert("a/", vec![group(&["x", ".moc3"])]);
    map.insert("b/", vec![group(&["y", ".moc"]), group(&["z", ".moc"])]);
    assert!(!map.is_empty());
    assert_eq!(map.len(), 2);
    assert_eq!(map.get("a/"), Some(&vec![group(&["x", ".moc3"])]));
    assert_eq!(map.get("b/"), Some(&vec![group(&["y", ".moc"]), group(&["z", ".moc"])]));
    assert_eq!(map.get("a"), None);
    assert_eq!(map.get("A/"), None);
}

#[test]
fn inserting_under_a_key_again_replaces_what_it_held() {
    let mut map = DirectoryGroupMap::new();
    map.insert("a/", vec![group(&["x", ".moc3"])]);
    map.insert("b/", vec![group(&["y", ".moc"])]);
    map.insert("a/", vec![group(&["w", ".moc"])]);
    assert_eq!(map.len(), 2);
    assert_eq!(map.get("a/"), Some(&vec![group(&["w", ".moc"])]));
    assert_eq!(
        map.into_entries(),
        vec![
            ("a/".to_string(), vec![group(&["w", ".moc"])]),
            ("b/".to_string(), vec![group(&["y", ".moc"])]),
        ]
    );
}

#[test]
fn entries_come_in_the_order_of_their_keys_first_insertion() {
    let mut map = DirectoryGroupMap::new();
    map.insert("c/", vec![group(&["1"])]);
    map.insert("a/", vec![group(&["2"])]);
    map.insert("b/", vec![group(&["3"])]);
    let keys: Vec<String> = map.into_entries().into_iter().map(|entry| entry.0).collect();
    assert_eq!(keys, vec!["c/".to_string(), "a/".to_string(), "b/".to_string()]);
}
