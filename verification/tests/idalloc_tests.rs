use airsim_rpc::idalloc::IdAllocator;

#[test]
fn ids_count_up_from_zero() {
    let mut a = IdAllocator::new();
    assert_eq!(a.allocate(), 0);
    assert_eq!(a.allocate(), 1);
    assert_eq!(a.allocate(), 2);
}

#[test]
fn wraparound_hands_out_zero_again() {
    // After the counter has walked the whole id space, the next allocation
    // wraps to 0: the documented reuse policy.
    let mut a = IdAllocator::new();
    a.next = u32::MAX - 1;
    assert_eq!(a.allocate(), u32::MAX - 1);
    // The counter now stands at u32::MAX, which is wrapped to 0 before use.
    assert_eq!(a.allocate(), 0);
    assert_eq!(a.allocate(), 1);
}
