use cmvbt::tree_api::{MVBTreeApiExport, EX_FAN_OUT, EX_N};

type Api = MVBTreeApiExport<EX_FAN_OUT, EX_N>;

#[test]
fn find_insert_update_remove() {
    let mut api = Api::init_tree();
    assert_eq!(api.find(5), None);
    assert!(api.insert(5, 50));
    assert_eq!(api.find(5), Some(50));
    assert!(api.update(5, 51));
    assert_eq!(api.find(5), Some(51));
    assert!(!api.update(6, 60));
    assert!(api.remove(5));
    assert_eq!(api.find(5), None);
    assert!(!api.remove(5));
}

#[test]
fn scan_counts_the_keys_of_its_window() {
    let mut api = Api::init_tree();
    for k in 0..1000u64 {
        assert!(api.insert(k, k * 2));
    }
    let hits = api.scan(100, 10);
    let mut keys: Vec<u64> = hits.iter().map(|r| r.key).collect();
    keys.sort();
    assert_eq!(keys, (100..110).collect::<Vec<u64>>());
    assert!(hits.iter().all(|r| r.payload == r.key * 2));
    assert_eq!(api.scan(5000, 3).len(), 0);
    assert_eq!(api.scan(1, 0).len(), 0);
    assert_eq!(api.scan(u64::MAX, 1).len(), 0);
}
