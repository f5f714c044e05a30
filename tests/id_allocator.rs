use synthesizer_io::id_allocator::IdAllocator;

#[test]
fn ids_count_up_from_zero() {
    let mut a = IdAllocator::new();
    assert_eq!(a.allocate(), 0);
    assert_eq!(a.allocate(), 1);
    assert_eq!(a.allocate(), 2);
}

#[test]
fn freed_id_is_reused() {
    let mut a = IdAllocator::new();
    a.allocate();
    a.allocate();
    a.allocate();
    a.free(1);
    assert_eq!(a.allocate(), 1);
    assert_eq!(a.allocate(), 3);
}

#[test]
fn freeing_the_highest_lowers_the_mark() {
    let mut a = IdAllocator::new();
    a.allocate();
    a.allocate();
    a.free(1);
    assert_eq!(a.allocate(), 1);
    assert_eq!(a.allocate(), 2);
}

#[test]
fn reserved_root_is_never_issued() {
    let mut a = IdAllocator::new();
    a.reserve(0);
    assert_eq!(a.allocate(), 1);
    assert_eq!(a.allocate(), 2);
}

#[test]
fn reserving_a_freed_id() {
    let mut a = IdAllocator::new();
    a.allocate();
    a.allocate();
    a.allocate();
    a.free(0);
    a.free(1);
    a.reserve(0);
    assert_eq!(a.allocate(), 1);
    assert_eq!(a.allocate(), 3);
}
