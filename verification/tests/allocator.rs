use linked_list_allocator::linked_list::{LinkedListAllocator, ListNode, Locked};

const HEAP_START: usize = 0x1000;

fn heap(size: usize) -> Locked<LinkedListAllocator> {
    let mut inner = LinkedListAllocator::new();
    inner.init(HEAP_START, size);
    Locked::new(inner)
}

#[test]
fn returned_addresses_meet_the_requested_alignment() {
    let mut h = heap(4096);
    for align in [1usize, 2, 4, 8, 16, 32, 64] {
        let a = h.allocate(40, align).expect("heap has room");
        assert_eq!(a % align, 0);
        assert!(a >= HEAP_START && a < HEAP_START + 4096);
    }
}

#[test]
fn exact_fit_succeeds_with_zero_leftover() {
    let mut h = heap(64);
    assert_eq!(h.allocate(64, 8), Some(HEAP_START));
    assert!(h.free_regions().is_empty());
}

#[test]
fn one_byte_more_than_the_region_is_rejected() {
    let mut h = heap(64);
    assert_eq!(h.allocate(65, 8), None);
}

#[test]
fn leftover_smaller_than_a_node_record_is_rejected() {
    // 72-byte region, 64-byte request: the 8-byte leftover could never
    // host a node record, so the fits test must turn the region down.
    let mut h = heap(72);
    assert_eq!(h.allocate(64, 8), None);
    // a request leaving a node-sized leftover is fine
    assert_eq!(h.allocate(56, 8), Some(HEAP_START));
}

#[test]
fn round_trip_reclaims_the_freed_span() {
    let mut h = heap(4096);
    let a = h.allocate(64, 8).expect("first allocation fits");
    assert_eq!(a % 8, 0);
    assert!(a >= HEAP_START && a < HEAP_START + 4096);
    h.deallocate(a, 64, 8);
    let b = h.allocate(64, 8).expect("the freed span is reusable");
    assert_eq!(b % 8, 0);
}

#[test]
fn freed_neighbours_are_not_coalesced() {
    let mut h = heap(128);
    let a1 = h.allocate(64, 8).expect("first block fits");
    let a2 = h.allocate(64, 8).expect("second block fits");
    h.deallocate(a1, 64, 8);
    h.deallocate(a2, 64, 8);
    // 128 free bytes in two adjacent 64-byte regions: a 96-byte request
    // fails, because freed regions are never merged.
    assert_eq!(h.allocate(96, 8), None);
    assert_eq!(h.free_regions().len(), 2);
}

#[test]
fn exhausted_heap_signals_failure_instead_of_crashing() {
    let mut h = heap(64);
    assert_eq!(h.allocate(100, 8), None);
    // the failed attempt must not have consumed the region
    assert_eq!(h.allocate(64, 8), Some(HEAP_START));
}

#[test]
fn live_spans_never_overlap() {
    let mut h = heap(4096);
    let mut live: Vec<(usize, usize)> = Vec::new();
    for (size, align) in [(64usize, 8usize), (100, 4), (32, 16), (1, 1), (200, 8)] {
        let a = h.allocate(size, align).expect("heap has room");
        let (nsize, _) = LinkedListAllocator::size_align(size, align);
        live.push((a, nsize));
    }
    let free = h.free_regions();
    let mut spans: Vec<(usize, usize)> = live.clone();
    for r in &free {
        spans.push((r.start_addr(), r.size));
    }
    for (i, &(ai, si)) in spans.iter().enumerate() {
        for &(aj, sj) in spans.iter().skip(i + 1) {
            assert!(ai + si <= aj || aj + sj <= ai, "spans overlap");
        }
    }
}

#[test]
fn free_and_allocated_bytes_always_total_the_heap() {
    let heap_size = 4096usize;
    let mut h = heap(heap_size);
    // live allocations as (address, requested size, requested align)
    let mut live: Vec<(usize, usize, usize)> = Vec::new();
    let check = |h: &Locked<LinkedListAllocator>, live: &Vec<(usize, usize, usize)>| {
        let free: usize = h.free_regions().iter().map(|r| r.size).sum();
        let used: usize = live
            .iter()
            .map(|&(_, size, align)| LinkedListAllocator::size_align(size, align).0)
            .sum();
        assert_eq!(free + used, heap_size);
    };
    check(&h, &live);
    for (size, align) in [(64usize, 8usize), (100, 4), (24, 2)] {
        let a = h.allocate(size, align).expect("heap has room");
        live.push((a, size, align));
        check(&h, &live);
    }
    while let Some((a, size, align)) = live.pop() {
        h.deallocate(a, size, align);
        check(&h, &live);
    }
}

#[test]
fn normalization_pads_to_node_requirements() {
    assert_eq!(LinkedListAllocator::size_align(0, 1), (16, 8));
    assert_eq!(LinkedListAllocator::size_align(1, 1), (16, 8));
    assert_eq!(LinkedListAllocator::size_align(16, 8), (16, 8));
    assert_eq!(LinkedListAllocator::size_align(17, 8), (24, 8));
    assert_eq!(LinkedListAllocator::size_align(100, 4), (104, 8));
    assert_eq!(LinkedListAllocator::size_align(8, 16), (16, 16));
    assert_eq!(LinkedListAllocator::size_align(40, 64), (64, 64));
}

#[test]
fn fits_test_rejects_overflowing_arithmetic() {
    // a region at the very top of the address space: adding the
    // request size would wrap, which must read as "does not fit"
    let region = ListNode::new(usize::MAX - 127, 127);
    assert_eq!(
        LinkedListAllocator::alloc_from_region(&region, usize::MAX, 8),
        Err(())
    );
    assert_eq!(
        LinkedListAllocator::alloc_from_region(&region, 64, 8),
        Ok(usize::MAX - 127)
    );
}

#[test]
fn fits_test_accounts_for_alignment_rounding() {
    let region = ListNode::new(0x1008, 64);
    // rounded start 0x1040 leaves only 8 of the 64 bytes usable
    assert_eq!(
        LinkedListAllocator::alloc_from_region(&region, 64, 64),
        Err(())
    );
    assert_eq!(
        LinkedListAllocator::alloc_from_region(&region, 8, 64),
        Ok(0x1040)
    );
}

#[test]
fn search_tries_most_recently_registered_regions_first() {
    let mut h = heap(256);
    let a1 = h.allocate(64, 8).expect("fits");
    let a2 = h.allocate(64, 8).expect("fits");
    assert_eq!(a1, HEAP_START);
    assert_eq!(a2, HEAP_START + 64);
    h.deallocate(a1, 64, 8);
    // the span freed last went to the front of the list, so an exactly
    // fitting request is served from it, not from the larger tail
    let b = h.allocate(64, 8).expect("fits");
    assert_eq!(b, a1);
}

#[test]
fn node_records_describe_their_span() {
    let n = ListNode::new(0x2000, 48);
    assert_eq!(n.start_addr(), 0x2000);
    assert_eq!(n.end_addr(), 0x2000 + 48);
    assert_eq!(n.addr, 0x2000);
    assert_eq!(n.size, 48);
}

#[test]
fn init_registers_the_whole_heap_as_one_region() {
    let mut inner = LinkedListAllocator::new();
    assert!(inner.free_regions().is_empty());
    inner.init(HEAP_START, 4096);
    let regions = inner.free_regions();
    assert_eq!(regions.len(), 1);
    assert_eq!(regions[0].addr, HEAP_START);
    assert_eq!(regions[0].size, 4096);
}

#[test]
fn find_region_unlinks_the_chosen_region() {
    let mut inner = LinkedListAllocator::new();
    inner.init(HEAP_START, 128);
    let (node, start) = inner.find_region(64, 8).expect("fits");
    assert_eq!(node.addr, HEAP_START);
    assert_eq!(node.size, 128);
    assert_eq!(start, HEAP_START);
    assert!(inner.free_regions().is_empty());
    assert_eq!(inner.find_region(64, 8), None);
}

#[test]
fn over_aligned_requests_may_strand_their_padding() {
    let mut h = heap(4096);
    let a1 = h.allocate(64, 8).expect("fits");
    assert_eq!(a1, HEAP_START);
    // the remaining region starts at 0x1040; a 128-aligned request
    // rounds past 64 bytes of it, which leave the free list for good,
    // and its size is itself padded to a 128-byte span
    let a2 = h.allocate(64, 128).expect("fits");
    assert_eq!(a2 % 128, 0);
    assert_eq!(a2, 0x1080);
    let free: usize = h.free_regions().iter().map(|r| r.size).sum();
    assert_eq!(free, 4096 - 64 - 128 - 64);
}
