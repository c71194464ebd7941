use ingest::maps::NameMap;
use ingest::names::{compare, Rank};

#[test]
fn names_compare_byte_by_byte() {
    assert_eq!(compare(b"abc", b"abd"), Rank::Before);
    assert_eq!(compare(b"abd", b"abc"), Rank::After);
    assert_eq!(compare(b"abc", b"abc"), Rank::Same);
    assert_eq!(compare(b"ab", b"abc"), Rank::Before);
    assert_eq!(compare(b"abc", b"ab"), Rank::After);
    assert_eq!(compare(b"", b""), Rank::Same);
    assert_eq!(compare(b"", b"a"), Rank::Before);
    assert_eq!(compare(b"Z", b"a"), Rank::Before);
    assert_eq!(compare(&[0xff], b"a"), Rank::After);
}

#[test]
fn names_compare_like_std_strings() {
    let samples = ["", "a", "ab", "b", "eth0", "eth10", "eth2", "lo", "é", "z"];
    for a in samples {
        for b in samples {
            let expected = match a.cmp(b) {
                std::cmp::Ordering::Less => Rank::Before,
                std::cmp::Ordering::Equal => Rank::Same,
                std::cmp::Ordering::Greater => Rank::After,
            };
            assert_eq!(compare(a.as_bytes(), b.as_bytes()), expected, "{:?} {:?}", a, b);
        }
    }
}

#[test]
fn name_map_is_walked_in_order_of_names() {
    let mut m: NameMap<u32> = NameMap::new();
    assert_eq!(m.len(), 0);
    assert_eq!(m.insert(b"lo".to_vec(), 1), None);
    assert_eq!(m.insert(b"eth1".to_vec(), 2), None);
    assert_eq!(m.insert(b"eth0".to_vec(), 3), None);
    assert_eq!(m.insert(b"wlan0".to_vec(), 4), None);
    assert_eq!(m.len(), 4);
    let keys: Vec<&[u8]> = (0..m.len()).map(|i| m.key_at(i).as_slice()).collect();
    assert_eq!(keys, vec![&b"eth0"[..], &b"eth1"[..], &b"lo"[..], &b"wlan0"[..]]);
    let values: Vec<u32> = (0..m.len()).map(|i| *m.value_at(i)).collect();
    assert_eq!(values, vec![3, 2, 1, 4]);
}

#[test]
fn name_map_replaces_and_removes() {
    let mut m: NameMap<u32> = NameMap::new();
    m.insert(b"a".to_vec(), 1);
    m.insert(b"b".to_vec(), 2);
    assert_eq!(m.insert(b"a".to_vec(), 10), Some(1));
    assert_eq!(m.len(), 2);
    assert_eq!(m.get(b"a"), Some(&10));
    assert!(m.contains_key(b"b"));
    assert!(!m.contains_key(b"c"));
    assert_eq!(m.index_of(b"b"), Some(1));
    assert_eq!(m.index_of(b"c"), None);
    assert_eq!(m.remove(b"c"), None);
    assert_eq!(m.remove(b"a"), Some(10));
    assert_eq!(m.len(), 1);
    assert_eq!(m.get(b"a"), None);
    assert_eq!(m.key_at(0), b"b");
}
