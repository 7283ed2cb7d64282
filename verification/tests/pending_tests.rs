use airsim_rpc::pending::PendingTable;

#[test]
fn entries_come_back_by_id() {
    let mut t = PendingTable::new();
    t.insert(10, 100);
    t.insert(11, 101);
    t.insert(12, 102);
    assert_eq!(t.len(), 3);
    assert_eq!(t.remove(11), Some(101));
    assert_eq!(t.remove(11), None);
    assert_eq!(t.remove(10), Some(100));
    assert_eq!(t.remove(12), Some(102));
    assert_eq!(t.len(), 0);
}

#[test]
fn reused_id_replaces_the_stale_entry() {
    // After correlation-id wraparound an id may be registered again while a
    // stale entry for it still exists; the table then holds one entry for
    // the id, with the fresh token, exactly as a map insert would.
    let mut t = PendingTable::new();
    t.insert(0, 500);
    t.insert(0, 501);
    assert_eq!(t.len(), 1);
    assert_eq!(t.remove(0), Some(501));
    assert_eq!(t.len(), 0);
}

#[test]
fn drain_hands_back_everything_in_order() {
    let mut t = PendingTable::new();
    t.insert(1, 100);
    t.insert(2, 200);
    t.insert(3, 300);
    let all = t.drain();
    assert_eq!(all, vec![(1, 100), (2, 200), (3, 300)]);
    assert_eq!(t.len(), 0);
}
