use pickture::cache::{fnv1a, thumb_key, BudgetCache, DiskThumbCache};

#[test]
fn budget_evicts_least_recently_used() {
    let mut c: BudgetCache<u32, Vec<u8>> = BudgetCache::new(30);
    c.insert(1, vec![0; 10]);
    c.insert(2, vec![0; 10]);
    c.insert(3, vec![0; 10]);
    // Touch 1 so 2 becomes the coldest.
    assert!(c.get(&1).is_some());
    c.insert(4, vec![0; 10]);
    assert!(c.contains(&1));
    assert!(!c.contains(&2));
    assert!(c.used_bytes() <= 30);
}

#[test]
fn oversized_item_is_kept_but_clears_the_rest() {
    let mut c: BudgetCache<u32, Vec<u8>> = BudgetCache::new(20);
    c.insert(1, vec![0; 10]);
    c.insert(2, vec![0; 100]);
    assert!(c.contains(&2), "current frame must remain displayable");
    assert_eq!(c.len(), 1);
}

#[test]
fn reinsert_does_not_double_count() {
    let mut c: BudgetCache<u32, Vec<u8>> = BudgetCache::new(1000);
    c.insert(1, vec![0; 10]);
    c.insert(1, vec![0; 10]);
    assert_eq!(c.used_bytes(), 10);
    assert_eq!(c.len(), 1);
}

#[test]
fn keys_change_with_mtime_and_box() {
    let p = "/a/b.jpg";
    let t0 = Some(0u64);
    let t1 = Some(60u64);
    assert_ne!(thumb_key(p, t0, 10, 190, 150), thumb_key(p, t1, 10, 190, 150));
    assert_ne!(thumb_key(p, t0, 10, 190, 150), thumb_key(p, t0, 11, 190, 150));
    assert_ne!(thumb_key(p, t0, 10, 190, 150), thumb_key(p, t0, 10, 380, 150));
    assert_eq!(thumb_key(p, t0, 10, 190, 150), thumb_key(p, t0, 10, 190, 150));
}

#[test]
fn retain_frees_weight() {
    let mut c: BudgetCache<u32, Vec<u8>> = BudgetCache::new(1000);
    c.insert(1, vec![0; 10]);
    c.insert(2, vec![0; 10]);
    c.retain(|k| *k == 1);
    assert_eq!(c.used_bytes(), 10);
    assert_eq!(c.len(), 1);
}

#[test]
fn fnv1a_matches_the_published_vectors() {
    let basis = 0xcbf2_9ce4_8422_2325u64;
    assert_eq!(fnv1a(b"", basis), 0xcbf2_9ce4_8422_2325);
    assert_eq!(fnv1a(b"a", basis), 0xaf63_dc4c_8601_ec8c);
    assert_eq!(fnv1a(b"foobar", basis), 0x8594_4171_f739_67e8);
}

#[test]
fn missing_mtime_hashes_like_the_epoch() {
    assert_eq!(thumb_key("/a/b.jpg", None, 10, 190, 150), thumb_key("/a/b.jpg", Some(0), 10, 190, 150));
}

#[test]
fn a_read_moves_an_entry_to_the_warm_end() {
    let mut c: BudgetCache<u32, Vec<u8>> = BudgetCache::new(20);
    c.insert(1, vec![0; 10]);
    c.insert(2, vec![0; 10]);
    assert!(c.get(&1).is_some());
    c.insert(3, vec![0; 10]);
    assert!(c.contains(&1));
    assert!(!c.contains(&2));
    assert!(c.contains(&3));
    assert_eq!(c.used_bytes(), 20);
}

#[test]
fn clear_empties_the_cache() {
    let mut c: BudgetCache<u64, Vec<u8>> = BudgetCache::new(100);
    c.insert(7, vec![1, 2, 3]);
    assert!(!c.is_empty());
    c.clear();
    assert!(c.is_empty());
    assert_eq!(c.used_bytes(), 0);
}

#[test]
fn disk_cache_names_files_by_key() {
    let disk = DiskThumbCache::new(Some("/cache/thumbs".to_string()));
    assert_eq!(disk.path_for(0x1f).as_deref(), Some("/cache/thumbs/000000000000001f.jpg"));
    assert_eq!(DiskThumbCache::new(None).path_for(1), None);
}
