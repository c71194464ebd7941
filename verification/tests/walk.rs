use ingest::walk::entries;
use std::collections::BTreeMap;

#[test]
fn entries_come_in_the_order_of_their_keys() {
    let mut m: BTreeMap<u32, u8> = BTreeMap::new();
    m.insert(30, 3);
    m.insert(10, 1);
    m.insert(20, 2);
    let listed: Vec<(u32, u8)> = entries(&m).into_iter().map(|(k, v)| (k, *v)).collect();
    assert_eq!(listed, vec![(10, 1), (20, 2), (30, 3)]);
}

#[test]
fn an_empty_map_has_no_entries() {
    let m: BTreeMap<u32, u8> = BTreeMap::new();
    assert!(entries(&m).is_empty());
}
