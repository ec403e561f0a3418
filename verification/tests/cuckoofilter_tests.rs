use cuckoofilter::CuckooFilter;

#[test]
fn test_bucket_insert_delete() {
    let mut c = CuckooFilter::new(4, 3);
    c.set_bucket_entry(2, c.get_bucket_length(2), 0x12345678);
    c.set_bucket_entry(2, c.get_bucket_length(2), 0xABCDEF01);
    c.set_bucket_entry(2, c.get_bucket_length(2), 0x12345679);
    println!("{}", c.dump_backing_vector());
    assert_eq!(c.get_bucket_length(2), 3);
    c.remove_bucket_entry(2, 1, c.get_bucket_length(2));
    assert_eq!(c.get_bucket_length(2), 2);
    println!("{}", c.dump_backing_vector());
}

#[test]
fn test_bucket_full_remove() {
    let mut c = CuckooFilter::new(4, 3);
    c.set_bucket_entry(2, c.get_bucket_length(2), 0x12345678);
    c.set_bucket_entry(2, c.get_bucket_length(2), 0xABCDEF01);
    c.set_bucket_entry(2, c.get_bucket_length(2), 0x12345679);
    c.set_bucket_entry(2, c.get_bucket_length(2), 0xABCDEF02);
    println!("{}", c.dump_backing_vector());
    assert_eq!(c.remove_bucket_entry(2, 3, c.get_bucket_length(2)), 0xABCDEF02);
}

#[test]
fn test_filter_insert_fail_2b1() {
    let mut c = CuckooFilter::new(4, 3);
    for _ in 0..8 {
        assert!(c.insert("h2"));
    }

    println!("{}", c.dump_backing_vector());
    assert!(!c.insert("h2"));
}

#[test]
fn test_filter_insert_random() {
    let mut c = CuckooFilter::new(4, 2);
    for i in 0..12 {
        assert!(c.insert(&format!("h{}", i)));
        println!("{}", c.dump_backing_vector());
    }
}

#[test]
fn test_filter_contains() {
    let mut c = CuckooFilter::new(4, 2);
    for i in 0..12 {
        assert!(c.insert(&format!("h{}", i)));
    }
    for i in 0..12 {
        assert!(c.contains(&format!("h{}", i)));
    }
}

#[test]
fn test_new_filter_is_empty() {
    let c = CuckooFilter::new(4, 3);
    assert_eq!(c.backing_vector.len(), 32);
    assert_eq!(c.occupied_entries, 0);
    assert_eq!(c.index_mask, 7);
    for b in 0..8 {
        assert_eq!(c.get_bucket_length(b), 0);
    }
    assert!(!c.contains("never inserted"));
}

#[test]
fn test_alternate_index_involution() {
    let c = CuckooFilter::new(4, 5);
    for i in 0..32 {
        for fp in [0u64, 1, 7, 0x12345678, u64::MAX] {
            let alt = c.get_hash_index_alt(i, fp);
            assert!(alt < 32);
            assert_eq!(c.get_hash_index_alt(alt, fp), i);
        }
    }
}

#[test]
fn test_bounded_occupancy_under_load() {
    let mut c = CuckooFilter::new(2, 2);
    for i in 0..64 {
        c.insert(&format!("key{}", i));
        for b in 0..4 {
            assert!(c.get_bucket_length(b) <= 2);
        }
    }
}

#[test]
fn test_occupancy_accounting_matches_scan() {
    let mut c = CuckooFilter::new(4, 2);
    for i in 0..12 {
        c.insert(&format!("h{}", i));
        let scanned = c.backing_vector.iter().filter(|&&v| v != 0).count() as u64;
        assert_eq!(c.occupied_entries, scanned);
    }
}

#[test]
fn test_load_factor_steps_by_one_slot() {
    let mut c = CuckooFilter::new(4, 2);
    let total = c.backing_vector.len() as f32;
    let mut last = c.occupied_entries as f32 / total;
    assert_eq!(last, 0.0);
    for i in 0..12 {
        assert!(c.insert(&format!("h{}", i)));
        let lf = c.occupied_entries as f32 / total;
        assert!(lf >= 0.0 && lf <= 1.0);
        assert_eq!(lf, last + 1.0 / total);
        last = lf;
    }
    assert_eq!(last, 0.75);
}

#[test]
fn test_deletion_compaction_keeps_other_entries() {
    let mut c = CuckooFilter::new(4, 3);
    c.set_bucket_entry(5, 0, 0x11);
    c.set_bucket_entry(5, 1, 0x22);
    c.set_bucket_entry(5, 2, 0x33);
    let removed = c.remove_bucket_entry(5, 0, 3);
    assert_eq!(removed, 0x11);
    assert_eq!(c.get_bucket_length(5), 2);
    // the remaining occupied prefix holds exactly the other two entries
    let mut rest: Vec<u64> = c.backing_vector[20..22].to_vec();
    rest.sort();
    assert_eq!(rest, vec![0x22, 0x33]);
    assert_eq!(c.backing_vector[22], 0);
    assert_eq!(c.backing_vector[23], 0);
}

#[test]
fn test_remove_last_entry() {
    let mut c = CuckooFilter::new(4, 3);
    c.set_bucket_entry(1, 0, 0xAA);
    c.set_bucket_entry(1, 1, 0xBB);
    assert_eq!(c.remove_bucket_entry(1, 1, 2), 0xBB);
    assert_eq!(c.get_bucket_length(1), 1);
    assert_eq!(c.backing_vector[4], 0xAA);
}

#[test]
fn test_dump_format() {
    let mut c = CuckooFilter::new(1, 1);
    let dump = c.dump_backing_vector();
    assert_eq!(
        dump,
        " 0 | 0000000000000000 | \n 1 | 0000000000000000 | \n"
    );
    c.set_bucket_entry(1, 0, 0xDEADBEEF);
    let dump = c.dump_backing_vector();
    assert_eq!(
        dump,
        " 0 | 0000000000000000 | \n 1 | 00000000deadbeef | \n"
    );
}

#[test]
fn test_insert_then_contains_single_key() {
    let mut c = CuckooFilter::new(1, 4);
    assert!(!c.contains("alpha"));
    assert!(c.insert("alpha"));
    assert!(c.contains("alpha"));
    assert_eq!(c.occupied_entries, 1);
}
