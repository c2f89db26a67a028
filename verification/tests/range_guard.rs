//! Ownership of key ranges and routing of buckets.
use crowdb_chunkdb::range_guard::{
    OwnedRange, RangeBindingValue, RangeGuard, RangePage, RangeScan, RangeScanStep,
};
use crowdb_chunkdb::routing::{
    default_binding_table, route, BindingCache, BindingTable, BucketBinding, MigrationState,
    RouteError,
};

fn owned(start: u16, end: u16) -> OwnedRange {
    OwnedRange { start, end, sub_range_index: 0 }
}

#[test]
fn check_in_range_ok() {
    let mut guard = RangeGuard::new(false);
    guard.replace(vec![owned(0, 32767)]);
    assert!(guard.check(1000).is_ok());
}

#[test]
fn check_out_of_range_rejects() {
    let mut guard = RangeGuard::new(false);
    guard.replace(vec![owned(0, 1000)]);
    let err = guard.check(5000).unwrap_err();
    assert_eq!(err.bucket, 5000);
}

#[test]
fn check_empty_guard_allow_all() {
    let guard = RangeGuard::new(true);
    assert!(guard.check(1000).is_ok());
}

#[test]
fn check_empty_guard_rejects() {
    let guard = RangeGuard::new(false);
    assert!(guard.check(1000).is_err());
}

#[test]
fn replace_updates_ranges() {
    let mut guard = RangeGuard::new(false);
    guard.replace(vec![owned(0, 1000)]);
    assert!(guard.check(500).is_ok());
    guard.replace(vec![owned(2000, 3000)]);
    assert!(guard.check(500).is_err());
}

#[test]
fn multiple_disjoint_ranges() {
    let mut guard = RangeGuard::new(false);
    guard.replace(vec![owned(0, 100), owned(200, 300), owned(500, 600)]);
    assert!(guard.check(50).is_ok());
    assert!(guard.check(250).is_ok());
    assert!(guard.check(550).is_ok());
    assert!(guard.check(150).is_err());
}

#[test]
fn allow_all_factory() {
    let guard = RangeGuard::allow_all();
    assert!(guard.check(1000).is_ok());
}

#[test]
fn is_empty_true_then_false_after_replace() {
    let mut guard = RangeGuard::new(false);
    assert!(guard.is_empty());
    guard.replace(vec![owned(0, 100)]);
    assert!(!guard.is_empty());
}

#[test]
fn order_of_ranges_does_not_matter() {
    let low = OwnedRange { start: 1, end: 2, sub_range_index: 0 };
    let high = OwnedRange { start: 8, end: 9, sub_range_index: 1 };
    let mut one = RangeGuard::new(false);
    one.replace(vec![low, high]);
    let mut other = RangeGuard::new(false);
    other.replace(vec![high, low]);
    assert_eq!(one.snapshot(), other.snapshot());
    for bucket in 0..12 {
        assert_eq!(one.check(bucket).is_ok(), other.check(bucket).is_ok());
    }
}

fn bound(instance_id: u64, range_start: u32, range_end: u32) -> RangeBindingValue {
    RangeBindingValue { instance_id, range_start, range_end, sub_range_index: 0 }
}

fn page(
    values: Vec<RangeBindingValue>,
    last_key: Option<Vec<u8>>,
    truncated: bool,
) -> Result<RangePage, String> {
    Ok(RangePage { values, last_key, truncated })
}

#[test]
fn bindings_of_other_instances_are_not_owned() {
    let mut guard = RangeGuard::new(false);
    let mut scan = RangeScan::new(7);
    let last = page(vec![bound(7, 0, 10), bound(8, 11, 20)], Some(vec![2]), false);
    assert_eq!(guard.load_from_group0(&mut scan, last), RangeScanStep::Loaded);
    assert!(guard.check(10).is_ok());
    assert!(guard.check(11).is_err());
}

#[test]
fn every_page_of_the_bindings_is_loaded() {
    let mut guard = RangeGuard::new(false);
    guard.replace(vec![owned(900, 999)]);
    let mut scan = RangeScan::new(7);
    let first = page(vec![bound(7, 50, 60), bound(8, 1, 2)], Some(vec![1, 2]), true);
    assert_eq!(guard.load_from_group0(&mut scan, first), RangeScanStep::Next(vec![1, 2]));
    assert_eq!(guard.snapshot(), vec![owned(900, 999)]);
    let second = page(vec![bound(7, 10, 20), bound(7, 70_000, 70_001)], Some(vec![3]), false);
    assert_eq!(guard.load_from_group0(&mut scan, second), RangeScanStep::Loaded);
    assert_eq!(guard.snapshot(), vec![owned(0, u16::MAX), owned(10, 20), owned(50, 60)]);
}

#[test]
fn empty_page_ends_the_scan() {
    let mut guard = RangeGuard::new(false);
    let mut scan = RangeScan::new(7);
    assert_eq!(
        guard.load_from_group0(&mut scan, page(Vec::new(), None, true)),
        RangeScanStep::Loaded
    );
    assert!(guard.is_empty());
}

#[test]
fn failed_page_leaves_the_ranges_alone() {
    let mut guard = RangeGuard::new(false);
    guard.replace(vec![owned(1, 9)]);
    let mut scan = RangeScan::new(7);
    let first = page(vec![bound(7, 50, 60)], Some(vec![1]), true);
    assert!(matches!(guard.load_from_group0(&mut scan, first), RangeScanStep::Next(_)));
    assert_eq!(
        guard.load_from_group0(&mut scan, Err("bad key".to_string())),
        RangeScanStep::Failed("bad key".to_string())
    );
    assert_eq!(guard.snapshot(), vec![owned(1, 9)]);
}

#[test]
fn refusal_names_the_bucket() {
    let guard = RangeGuard::new(false);
    let message = guard.check(77).unwrap_err().message();
    assert!(message.contains("77"), "{}", message);
}

fn binding(start: u16, end: u16) -> BucketBinding {
    BucketBinding {
        start,
        end,
        kv_store_id: 3,
        kv_group_id: 4,
        old_kv_store_id: None,
        old_kv_group_id: None,
        migration_state: MigrationState::NotMigrating,
    }
}

#[test]
fn default_table_binds_every_bucket() {
    let table = default_binding_table(5, 6);
    for bucket in [0u16, 1, 1000, 65535] {
        let found = table.route(bucket).unwrap();
        assert_eq!((found.kv_store_id, found.kv_group_id), (5, 6));
    }
}

#[test]
fn route_without_table_has_no_binding() {
    let cache = BindingCache::new();
    assert!(cache.is_empty());
    assert_eq!(route(&cache, 1).unwrap_err(), RouteError::NoBinding);
}

#[test]
fn unbound_bucket_is_named() {
    let mut cache = BindingCache::new();
    cache.replace(BindingTable::new(vec![binding(10, 20)]));
    let error = route(&cache, 20).unwrap_err();
    assert_eq!(error, RouteError::BucketUnbound { bucket: 20 });
    assert!(error.message().contains("20"));
    assert!(route(&cache, 19).is_ok());
}

#[test]
fn migrating_bucket_has_an_old_route() {
    let mut migrating = binding(0, 9);
    migrating.old_kv_store_id = Some(1);
    migrating.old_kv_group_id = Some(2);
    migrating.migration_state = MigrationState::Copying;
    let mut cache = BindingCache::new();
    cache.replace(BindingTable::new(vec![migrating]));
    let primary = route(&cache, 5).unwrap();
    assert_eq!((primary.kv_store_id, primary.kv_group_id), (3, 4));
    let old = primary.old_route().unwrap();
    assert_eq!((old.kv_store_id, old.kv_group_id), (1, 2));
}
