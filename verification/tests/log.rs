use toktokenizer::log::{Log, LogManager};

#[test]
fn log_append_at_and_get() {
    let mut log = Log::new();
    log.append_at(10, String::from("ten"));
    log.append_at(20, String::from("twenty"));
    log.append_at(15, String::from("fifteen"));

    assert_eq!(log.get(20).unwrap().data, "twenty");
    assert_eq!(log.get(20).unwrap().offset, 20);
    assert!(log.get(99).is_none());
}

#[test]
fn log_get_range_is_sorted_and_half_open() {
    let mut log = Log::new();
    log.append_at(20, String::from("twenty"));
    log.append_at(10, String::from("ten"));
    log.append_at(15, String::from("fifteen"));

    let range = log.get_range(10, 20);
    let items: Vec<(u64, String)> = range.iter().map(|e| (e.offset, e.data.clone())).collect();
    assert_eq!(
        items,
        vec![(10, String::from("ten")), (15, String::from("fifteen"))]
    );
}

#[test]
fn log_same_offset_replaces() {
    let mut log = Log::new();
    log.append_at(10, String::from("first"));
    log.append_at(10, String::from("second"));
    assert_eq!(log.get(10).unwrap().data, "second");
    assert_eq!(log.get_range(0, 100).len(), 1);
}

#[test]
fn log_flush_empties() {
    let mut log = Log::new();
    log.append_at(10, String::from("ten"));
    log.flush();
    assert!(log.get(10).is_none());
    assert!(log.get_range(0, u64::MAX).is_empty());
}

#[test]
fn log_append_uses_clock() {
    let mut log = Log::new();
    log.append(String::from("now"));
    let all = log.get_range(0, u64::MAX);
    assert_eq!(all.len(), 1);
    assert_eq!(all[0].data, "now");
    let _ = Log::current_microseconds();
}

#[test]
fn manager_create_append_read() {
    let mut mgr = LogManager::new();
    mgr.create_log("alpha");
    mgr.append_to_log("alpha", String::from("x"));

    let all = mgr.get_range_from_log("alpha", 0, u64::MAX);
    assert_eq!(all.len(), 1);
    assert_eq!(all[0].data, "x");

    assert!(mgr.get_log("alpha").is_some());
    assert!(mgr.get_log("beta").is_none());
}

#[test]
fn manager_missing_log_is_inert() {
    let mut mgr = LogManager::new();
    mgr.append_to_log("ghost", String::from("x"));
    assert!(mgr.get_from_log("ghost", 0).is_none());
    assert!(mgr.get_range_from_log("ghost", 0, u64::MAX).is_empty());
}

#[test]
fn manager_create_twice_resets() {
    let mut mgr = LogManager::new();
    mgr.create_log("alpha");
    mgr.append_to_log("alpha", String::from("x"));
    mgr.create_log("alpha");
    assert!(mgr.get_range_from_log("alpha", 0, u64::MAX).is_empty());
}

#[test]
fn manager_get_log_is_a_copy() {
    let mut mgr = LogManager::new();
    mgr.create_log("alpha");
    mgr.append_to_log("alpha", String::from("x"));
    let copy = mgr.get_log("alpha").unwrap();
    assert_eq!(copy.get_range(0, u64::MAX).len(), 1);
}
