use ecow::EcoString;
use exprlang::table::NameMap;

#[test]
fn name_map_finds_what_was_inserted() {
    let mut map: NameMap<u64> = NameMap::new();
    assert_eq!(map.len(), 0);
    assert_eq!(map.get(&EcoString::from("a")), None);
    assert!(!map.contains_key(&EcoString::from("a")));
    map.insert(EcoString::from("a"), 1);
    map.insert(EcoString::from("b"), 2);
    assert_eq!(map.get(&EcoString::from("a")), Some(&1));
    assert_eq!(map.get(&EcoString::from("b")), Some(&2));
    assert_eq!(map.get(&EcoString::from("c")), None);
    assert!(map.contains_key(&EcoString::from("b")));
    assert_eq!(map.len(), 2);
}

#[test]
fn name_map_later_insertion_replaces_earlier() {
    let mut map: NameMap<u64> = NameMap::new();
    map.insert(EcoString::from("a"), 1);
    map.insert(EcoString::from("a"), 2);
    assert_eq!(map.get(&EcoString::from("a")), Some(&2));
}

#[test]
fn name_map_tells_names_apart_by_their_text() {
    let mut map: NameMap<u64> = NameMap::new();
    map.insert(EcoString::from("a_rather_long_name_kept_on_the_heap"), 1);
    let other = String::from("a_rather_long_name_kept_on_the_heap");
    assert_eq!(map.get(&EcoString::from(other.as_str())), Some(&1));
    assert_eq!(map.get(&EcoString::from("a_rather_long_name_kept_on_the_hea")), None);
}
