use basic_allocator::{
    alloc_impl, calloc, dealloc_impl, free, malloc, realloc, zeroed_size, BasicAllocator,
    BlockMeta, BRK_FAILED, HEADER_SIZE,
};

/// A program break that starts at `top` and refuses to pass `limit`.
struct Break {
    top: usize,
    limit: usize,
}

impl Break {
    fn new(top: usize, limit: usize) -> Self {
        Break { top, limit }
    }

    fn sbrk(&mut self, delta: isize) -> usize {
        let grown = self.top + delta as usize;
        if grown > self.limit {
            return BRK_FAILED;
        }
        let before = self.top;
        self.top = grown;
        before
    }

    fn answer(&mut self, delta: Option<isize>) -> usize {
        match delta {
            Some(delta) => self.sbrk(delta),
            None => BRK_FAILED,
        }
    }
}

fn allocate(heap: &mut BasicAllocator, brk: &mut Break, size: usize) -> usize {
    let answer = brk.answer(heap.growth_needed(size));
    malloc(heap, size, answer)
}

fn zero_allocate(heap: &mut BasicAllocator, brk: &mut Break, num: usize, size: usize) -> usize {
    let delta = match zeroed_size(num, size) {
        Some(bytes) => heap.growth_needed(bytes),
        None => None,
    };
    let answer = brk.answer(delta);
    calloc(heap, num, size, answer)
}

fn resize(heap: &mut BasicAllocator, brk: &mut Break, ptr: usize, size: usize) -> usize {
    let answer = brk.answer(heap.growth_needed(size));
    realloc(heap, ptr, size, answer)
}

fn fill(heap: &mut BasicAllocator, ptr: usize, len: usize, seed: u8) {
    for k in 0..len {
        assert!(heap.store(ptr, k, seed.wrapping_add(k as u8)));
    }
}

fn snapshot(heap: &BasicAllocator) -> Vec<(usize, BlockMeta)> {
    (0..heap.len()).map(|i| heap.header(i).unwrap()).collect()
}

#[test]
fn allocate_release_allocate_returns_same_pointer() {
    for size in [0usize, 1, 7, 16, 24, 100, 4096] {
        let mut heap = BasicAllocator::new();
        let mut brk = Break::new(0x1000, 0x100000);
        let first = allocate(&mut heap, &mut brk, size);
        assert_ne!(first, 0);
        let top = brk.top;
        free(&mut heap, first);
        let second = allocate(&mut heap, &mut brk, size);
        assert_eq!(second, first);
        assert_eq!(brk.top, top);
        assert_eq!(heap.len(), 1);
    }
}

#[test]
fn allocate_release_allocate_in_a_used_heap() {
    let mut heap = BasicAllocator::new();
    let mut brk = Break::new(0x1000, 0x100000);
    let a = allocate(&mut heap, &mut brk, 64);
    let b = allocate(&mut heap, &mut brk, 8);
    free(&mut heap, a);
    let first = allocate(&mut heap, &mut brk, 32);
    assert_eq!(first, a);
    free(&mut heap, first);
    let second = allocate(&mut heap, &mut brk, 32);
    assert_eq!(second, first);
    assert_ne!(b, first);
    assert_eq!(heap.len(), 2);
}

#[test]
fn released_block_is_reused_before_a_tighter_later_one() {
    let mut heap = BasicAllocator::new();
    let mut brk = Break::new(0x2000, 0x100000);
    let a = allocate(&mut heap, &mut brk, 64);
    let keep = allocate(&mut heap, &mut brk, 8);
    let b = allocate(&mut heap, &mut brk, 16);
    free(&mut heap, b);
    free(&mut heap, a);
    let top = brk.top;
    let again = allocate(&mut heap, &mut brk, 16);
    assert_eq!(again, a);
    assert_eq!(brk.top, top);
    assert_eq!(heap.len(), 3);
    assert_ne!(keep, again);
    assert_eq!(heap.header(0).unwrap().1.size, 64);
    assert!(heap.header(2).unwrap().1.is_free);
}

#[test]
fn earlier_free_block_wins_over_the_released_one() {
    let mut heap = BasicAllocator::new();
    let mut brk = Break::new(0x2000, 0x100000);
    let early = allocate(&mut heap, &mut brk, 32);
    let a = allocate(&mut heap, &mut brk, 32);
    free(&mut heap, early);
    free(&mut heap, a);
    let again = allocate(&mut heap, &mut brk, 32);
    assert_eq!(again, early);
    assert_eq!(heap.len(), 2);
}

#[test]
fn end_to_end_first_fit_reuse() {
    let mut heap = BasicAllocator::new();
    let mut brk = Break::new(0x4000, 0x100000);
    let a = allocate(&mut heap, &mut brk, 16);
    let b = allocate(&mut heap, &mut brk, 32);
    assert_ne!(a, 0);
    assert_ne!(b, 0);
    assert_ne!(a, b);
    free(&mut heap, a);
    let top = brk.top;
    let c = allocate(&mut heap, &mut brk, 8);
    assert_eq!(c, a);
    assert_eq!(brk.top, top);
    assert_eq!(heap.len(), 2);
}

#[test]
fn pointers_and_headers_have_exact_values() {
    let mut heap = BasicAllocator::new();
    assert_eq!(heap.base(), 0);
    assert_eq!(heap.growth_needed(16), Some(40));
    let a = malloc(&mut heap, 16, 1000);
    assert_eq!(a, 1024);
    assert_eq!(heap.base(), 1000);
    assert_eq!(heap.growth_needed(32), Some(56));
    let b = malloc(&mut heap, 32, 1040);
    assert_eq!(b, 1064);
    assert_eq!(heap.base(), 1000);
    assert_eq!(
        snapshot(&heap),
        vec![
            (1000, BlockMeta { size: 16, is_free: false, next: 1040 }),
            (1040, BlockMeta { size: 32, is_free: false, next: 0 }),
        ]
    );
    free(&mut heap, a);
    assert_eq!(heap.growth_needed(8), None);
    assert_eq!(heap.growth_needed(16), None);
    assert_eq!(heap.growth_needed(17), Some(41));
    assert_eq!(heap.growth_needed(33), Some(57));
    assert_eq!(
        snapshot(&heap),
        vec![
            (1000, BlockMeta { size: 16, is_free: true, next: 1040 }),
            (1040, BlockMeta { size: 32, is_free: false, next: 0 }),
        ]
    );
}

#[test]
fn header_constants() {
    assert_eq!(HEADER_SIZE, 24);
    assert_eq!(BRK_FAILED, usize::MAX);
}

#[test]
fn data_pointer_and_header_pointer_are_inverse() {
    for header in [1usize, 24, 1000, 0x7fff_0000, usize::MAX - 24] {
        let ptr = BlockMeta::get_data_ptr(header);
        assert_eq!(ptr, header + 24);
        assert_eq!(BlockMeta::get_meta_ptr(ptr), header);
    }
    for ptr in [24usize, 25, 1024, usize::MAX] {
        let header = BlockMeta::get_meta_ptr(ptr);
        assert_eq!(header, ptr - 24);
        assert_eq!(BlockMeta::get_data_ptr(header), ptr);
    }
}

#[test]
fn zero_size_request_gets_a_real_header() {
    let mut heap = BasicAllocator::new();
    let mut brk = Break::new(0x1000, 0x100000);
    assert_eq!(heap.growth_needed(0), Some(24));
    let p = allocate(&mut heap, &mut brk, 0);
    assert_eq!(p, 0x1000 + 24);
    assert_eq!(brk.top, 0x1000 + 24);
    assert_eq!(heap.header(0), Some((0x1000, BlockMeta { size: 0, is_free: false, next: 0 })));
    assert_eq!(heap.load(p, 0), None);
    assert!(!heap.store(p, 0, 1));
    let q = allocate(&mut heap, &mut brk, 0);
    assert_eq!(q, 0x1000 + 48);
    assert_ne!(p, q);
}

#[test]
fn search_on_an_empty_heap_finds_nothing() {
    let heap = BasicAllocator::new();
    assert_eq!(heap.find_free_block(0), (None, None));
    assert_eq!(heap.find_free_block(100), (None, None));
    assert_eq!(heap.len(), 0);
    assert_eq!(heap.header(0), None);
}

#[test]
fn search_returns_first_fit_and_last_visited() {
    let mut heap = BasicAllocator::new();
    let mut brk = Break::new(0x1000, 0x100000);
    let a = allocate(&mut heap, &mut brk, 8);
    let b = allocate(&mut heap, &mut brk, 64);
    let c = allocate(&mut heap, &mut brk, 32);
    let d = allocate(&mut heap, &mut brk, 32);
    assert_eq!(heap.find_free_block(1), (None, Some(3)));
    free(&mut heap, b);
    free(&mut heap, c);
    free(&mut heap, a);
    assert_eq!(heap.find_free_block(8), (Some(0), Some(0)));
    assert_eq!(heap.find_free_block(9), (Some(1), Some(1)));
    assert_eq!(heap.find_free_block(32), (Some(1), Some(1)));
    assert_eq!(heap.find_free_block(64), (Some(1), Some(1)));
    assert_eq!(heap.find_free_block(65), (None, Some(3)));
    free(&mut heap, d);
    assert_eq!(heap.find_free_block(0), (Some(0), Some(0)));
}

#[test]
fn request_space_reads_the_answer_of_the_primitive() {
    let mut heap = BasicAllocator::new();
    let fresh = BlockMeta { size: 10, is_free: false, next: 0 };
    assert_eq!(heap.request_space(10, 5000), Some((5000, fresh)));
    assert_eq!(heap.request_space(10, BRK_FAILED), None);
    assert_eq!(heap.request_space(10, 0), None);
    assert_eq!(heap.request_space(10, usize::MAX - 33), None);
    assert_eq!(heap.request_space(10, usize::MAX - 34), Some((usize::MAX - 34, fresh)));
    assert_eq!(heap.request_space(isize::MAX as usize - 23, 8), None);
    assert_eq!(malloc(&mut heap, 10, 5000), 5024);
    assert_eq!(heap.request_space(10, 5033), None);
    assert_eq!(heap.request_space(10, 5034), Some((5034, fresh)));
    assert_eq!(heap.request_space(10, 4000), None);
}

#[test]
fn claim_block_walks_its_states() {
    let mut heap = BasicAllocator::new();
    assert_eq!(heap.claim_block(16, BRK_FAILED), None);
    assert_eq!(heap.base(), 0);
    assert_eq!(heap.len(), 0);
    assert_eq!(heap.claim_block(16, 0x1000), Some(0));
    assert_eq!(heap.base(), 0x1000);
    assert_eq!(heap.claim_block(16, BRK_FAILED), None);
    assert_eq!(heap.len(), 1);
    assert_eq!(heap.claim_block(16, 0x1028), Some(1));
    assert_eq!(heap.header(0).unwrap().1.next, 0x1028);
    assert_eq!(heap.base(), 0x1000);
    heap.dealloc(0x1000 + 24);
    assert_eq!(heap.claim_block(4, 0x2000), Some(0));
    assert_eq!(heap.len(), 2);
    assert_eq!(heap.header(0), Some((0x1000, BlockMeta { size: 16, is_free: false, next: 0x1028 })));
}

#[test]
fn growth_failure_returns_null_and_leaves_the_heap() {
    let mut heap = BasicAllocator::new();
    let mut brk = Break::new(0x1000, 0x1000 + 100);
    let a = allocate(&mut heap, &mut brk, 16);
    assert_eq!(a, 0x1018);
    let before = snapshot(&heap);
    let b = allocate(&mut heap, &mut brk, 64);
    assert_eq!(b, 0);
    assert_eq!(snapshot(&heap), before);
    assert_eq!(brk.top, 0x1000 + 40);
    let c = allocate(&mut heap, &mut brk, 36);
    assert_eq!(c, 0x1000 + 40 + 24);
    assert_eq!(brk.top, 0x1000 + 100);
}

#[test]
fn failure_on_an_empty_heap_leaves_the_head_unset() {
    let mut heap = BasicAllocator::new();
    assert_eq!(malloc(&mut heap, 16, BRK_FAILED), 0);
    assert_eq!(heap.base(), 0);
    assert_eq!(heap.len(), 0);
    assert_eq!(malloc(&mut heap, 16, 0), 0);
    assert_eq!(heap.len(), 0);
}

#[test]
fn request_beyond_the_signed_range_fails() {
    let mut heap = BasicAllocator::new();
    let huge = isize::MAX as usize - 23;
    assert_eq!(heap.growth_needed(huge), None);
    assert_eq!(heap.growth_needed(usize::MAX), None);
    assert_eq!(malloc(&mut heap, huge, 0x1000), 0);
    assert_eq!(malloc(&mut heap, usize::MAX, 0x1000), 0);
    assert_eq!(heap.len(), 0);
    assert_eq!(heap.growth_needed(isize::MAX as usize - 24), Some(isize::MAX));
}

#[test]
fn grant_below_the_heap_is_refused() {
    let mut heap = BasicAllocator::new();
    assert_eq!(malloc(&mut heap, 16, 0x1000), 0x1018);
    let before = snapshot(&heap);
    assert_eq!(malloc(&mut heap, 16, 0x1000), 0);
    assert_eq!(malloc(&mut heap, 16, 0x1027), 0);
    assert_eq!(snapshot(&heap), before);
    assert_eq!(malloc(&mut heap, 16, 0x1028), 0x1040);
}

#[test]
fn reused_block_keeps_its_size() {
    let mut heap = BasicAllocator::new();
    let mut brk = Break::new(0x1000, 0x100000);
    let a = allocate(&mut heap, &mut brk, 100);
    free(&mut heap, a);
    let b = allocate(&mut heap, &mut brk, 10);
    assert_eq!(b, a);
    assert_eq!(heap.header(0).unwrap().1, BlockMeta { size: 100, is_free: false, next: 0 });
    assert!(heap.store(b, 99, 7));
    assert_eq!(heap.load(b, 99), Some(7));
    assert_eq!(heap.load(b, 100), None);
    let c = allocate(&mut heap, &mut brk, 10);
    assert_ne!(c, 0);
    assert_ne!(c, a);
    assert_eq!(heap.len(), 2);
}

#[test]
fn neighbouring_free_blocks_are_not_merged() {
    let mut heap = BasicAllocator::new();
    let mut brk = Break::new(0x1000, 0x100000);
    let a = allocate(&mut heap, &mut brk, 16);
    let b = allocate(&mut heap, &mut brk, 16);
    free(&mut heap, a);
    free(&mut heap, b);
    let top = brk.top;
    let c = allocate(&mut heap, &mut brk, 32);
    assert_eq!(c, top + 24);
    assert_eq!(heap.len(), 3);
    assert_eq!(brk.top, top + 56);
}

#[test]
fn release_keeps_the_bytes() {
    let mut heap = BasicAllocator::new();
    let mut brk = Break::new(0x1000, 0x100000);
    let a = allocate(&mut heap, &mut brk, 4);
    fill(&mut heap, a, 4, 10);
    free(&mut heap, a);
    assert_eq!(heap.load(a, 0), None);
    assert!(!heap.store(a, 0, 1));
    let b = allocate(&mut heap, &mut brk, 4);
    assert_eq!(b, a);
    assert_eq!(heap.load(b, 0), Some(10));
    assert_eq!(heap.load(b, 3), Some(13));
}

#[test]
fn release_twice_is_release_once() {
    let mut heap = BasicAllocator::new();
    let mut brk = Break::new(0x1000, 0x100000);
    let a = allocate(&mut heap, &mut brk, 4);
    free(&mut heap, a);
    let before = snapshot(&heap);
    free(&mut heap, a);
    assert_eq!(snapshot(&heap), before);
}

#[test]
fn release_null_changes_nothing() {
    let mut heap = BasicAllocator::new();
    free(&mut heap, 0);
    assert_eq!(heap.len(), 0);
    let mut brk = Break::new(0x1000, 0x100000);
    let a = allocate(&mut heap, &mut brk, 4);
    fill(&mut heap, a, 4, 1);
    let before = snapshot(&heap);
    free(&mut heap, 0);
    dealloc_impl(&mut heap, 0);
    heap.dealloc(0);
    assert_eq!(snapshot(&heap), before);
    assert_eq!(heap.load(a, 2), Some(3));
}

#[test]
fn release_of_a_foreign_pointer_changes_nothing() {
    let mut heap = BasicAllocator::new();
    let mut brk = Break::new(0x1000, 0x100000);
    let a = allocate(&mut heap, &mut brk, 16);
    let before = snapshot(&heap);
    for ptr in [1usize, 23, 24, a - 1, a + 1, a - 24, a + 16, usize::MAX] {
        free(&mut heap, ptr);
        assert_eq!(snapshot(&heap), before);
    }
    assert_eq!(heap.block_of(a), Some(0));
    assert_eq!(heap.block_of(a + 1), None);
    assert_eq!(heap.block_of(0), None);
    assert_eq!(heap.loan_of(a), Some(0));
    free(&mut heap, a);
    assert_eq!(heap.block_of(a), Some(0));
    assert_eq!(heap.loan_of(a), None);
}

#[test]
fn resize_null_is_an_allocation() {
    let mut one = BasicAllocator::new();
    let mut two = BasicAllocator::new();
    for (size, answer) in [(16usize, 0x1000usize), (32, 0x1028), (8, BRK_FAILED), (0, 0x2000)] {
        let p = realloc(&mut one, 0, size, answer);
        let q = malloc(&mut two, size, answer);
        assert_eq!(p, q);
        assert_eq!(snapshot(&one), snapshot(&two));
    }
    assert_eq!(one.len(), 3);
    free(&mut one, 0x1018);
    free(&mut two, 0x1018);
    assert_eq!(realloc(&mut one, 0, 10, BRK_FAILED), 0x1018);
    assert_eq!(malloc(&mut two, 10, BRK_FAILED), 0x1018);
    assert_eq!(snapshot(&one), snapshot(&two));
}

#[test]
fn resize_to_a_smaller_size_keeps_the_front() {
    let mut heap = BasicAllocator::new();
    let mut brk = Break::new(0x1000, 0x100000);
    let p = allocate(&mut heap, &mut brk, 32);
    fill(&mut heap, p, 32, 100);
    let q = resize(&mut heap, &mut brk, p, 10);
    assert_ne!(q, 0);
    assert_ne!(q, p);
    for k in 0..10 {
        assert_eq!(heap.load(q, k), Some(100 + k as u8));
    }
    assert_eq!(heap.load(q, 10), None);
    assert_eq!(heap.loan_of(p), None);
    assert!(heap.header(0).unwrap().1.is_free);
    assert_eq!(heap.header(1).unwrap().1, BlockMeta { size: 10, is_free: false, next: 0 });
}

#[test]
fn resize_to_a_larger_size_keeps_all_bytes() {
    let mut heap = BasicAllocator::new();
    let mut brk = Break::new(0x1000, 0x100000);
    let p = allocate(&mut heap, &mut brk, 8);
    fill(&mut heap, p, 8, 50);
    let q = resize(&mut heap, &mut brk, p, 20);
    assert_ne!(q, 0);
    assert_ne!(q, p);
    for k in 0..8 {
        assert_eq!(heap.load(q, k), Some(50 + k as u8));
    }
    for k in 8..20 {
        assert!(heap.load(q, k).is_some());
    }
    assert_eq!(heap.load(q, 20), None);
    assert!(heap.header(0).unwrap().1.is_free);
}

#[test]
fn resize_into_a_reused_block_copies_the_block_size() {
    let mut heap = BasicAllocator::new();
    let mut brk = Break::new(0x1000, 0x100000);
    let big = allocate(&mut heap, &mut brk, 16);
    fill(&mut heap, big, 16, 200);
    let small = allocate(&mut heap, &mut brk, 4);
    fill(&mut heap, small, 4, 1);
    free(&mut heap, big);
    let q = resize(&mut heap, &mut brk, small, 6);
    assert_eq!(q, big);
    assert_eq!(heap.len(), 2);
    for k in 0..4 {
        assert_eq!(heap.load(q, k), Some(1 + k as u8));
    }
    for k in 4..16 {
        assert_eq!(heap.load(q, k), Some(200 + k as u8));
    }
    assert!(heap.header(1).unwrap().1.is_free);
}

#[test]
fn failed_resize_leaves_the_old_region() {
    let mut heap = BasicAllocator::new();
    let mut brk = Break::new(0x1000, 0x1000 + 40);
    let p = allocate(&mut heap, &mut brk, 16);
    fill(&mut heap, p, 16, 9);
    let before = snapshot(&heap);
    let q = resize(&mut heap, &mut brk, p, 64);
    assert_eq!(q, 0);
    assert_eq!(snapshot(&heap), before);
    assert_eq!(heap.loan_of(p), Some(0));
    for k in 0..16 {
        assert_eq!(heap.load(p, k), Some(9 + k as u8));
    }
}

#[test]
fn resize_of_a_pointer_not_on_loan_yields_null() {
    let mut heap = BasicAllocator::new();
    let mut brk = Break::new(0x1000, 0x100000);
    let p = allocate(&mut heap, &mut brk, 16);
    let before = snapshot(&heap);
    assert_eq!(realloc(&mut heap, p + 1, 8, 0x8000), 0);
    assert_eq!(snapshot(&heap), before);
    free(&mut heap, p);
    let before = snapshot(&heap);
    assert_eq!(realloc(&mut heap, p, 8, 0x8000), 0);
    assert_eq!(snapshot(&heap), before);
}

#[test]
fn zero_allocation_returns_zero_bytes() {
    let mut heap = BasicAllocator::new();
    let mut brk = Break::new(0x1000, 0x100000);
    let dirty = allocate(&mut heap, &mut brk, 24);
    fill(&mut heap, dirty, 24, 0x80);
    free(&mut heap, dirty);
    let p = zero_allocate(&mut heap, &mut brk, 5, 4);
    assert_eq!(p, dirty);
    for k in 0..20 {
        assert_eq!(heap.load(p, k), Some(0));
    }
    for k in 20..24 {
        assert_eq!(heap.load(p, k), Some(0x80 + k as u8));
    }
    let q = zero_allocate(&mut heap, &mut brk, 3, 7);
    assert_ne!(q, 0);
    assert_eq!(heap.header(1).unwrap().1.size, 21);
    for k in 0..21 {
        assert_eq!(heap.load(q, k), Some(0));
    }
    assert_eq!(heap.load(q, 21), None);
}

#[test]
fn zero_allocation_of_nothing_is_valid() {
    let mut heap = BasicAllocator::new();
    let mut brk = Break::new(0x1000, 0x100000);
    let p = zero_allocate(&mut heap, &mut brk, 0, 100);
    assert_eq!(p, 0x1018);
    assert_eq!(heap.header(0).unwrap().1.size, 0);
    let q = zero_allocate(&mut heap, &mut brk, 100, 0);
    assert_eq!(q, 0x1030);
}

#[test]
fn zero_allocation_overflow_returns_null() {
    let mut heap = BasicAllocator::new();
    let mut brk = Break::new(0x1000, 0x100000);
    let a = allocate(&mut heap, &mut brk, 16);
    free(&mut heap, a);
    let before = snapshot(&heap);
    assert_eq!(calloc(&mut heap, usize::MAX, 2, 0x8000), 0);
    assert_eq!(calloc(&mut heap, 1 << (usize::BITS / 2), 1 << (usize::BITS / 2), 0x8000), 0);
    assert_eq!(calloc(&mut heap, usize::MAX / 2 + 1, 2, 0x8000), 0);
    assert_eq!(snapshot(&heap), before);
    assert_eq!(zero_allocate(&mut heap, &mut brk, usize::MAX, usize::MAX), 0);
    assert_eq!(brk.top, 0x1000 + 40);
}

#[test]
fn zeroed_size_is_the_checked_product() {
    assert_eq!(zeroed_size(0, 0), Some(0));
    assert_eq!(zeroed_size(3, 7), Some(21));
    assert_eq!(zeroed_size(usize::MAX, 1), Some(usize::MAX));
    assert_eq!(zeroed_size(usize::MAX, 2), None);
    assert_eq!(zeroed_size(usize::MAX / 2 + 1, 2), None);
    assert_eq!(zeroed_size(usize::MAX, 0), Some(0));
}

#[test]
fn fresh_regions_read_as_zero() {
    let mut heap = BasicAllocator::new();
    let mut brk = Break::new(0x1000, 0x100000);
    let p = allocate(&mut heap, &mut brk, 5);
    for k in 0..5 {
        assert_eq!(heap.load(p, k), Some(0));
    }
}

#[test]
fn store_and_load_stay_inside_the_region() {
    let mut heap = BasicAllocator::new();
    let mut brk = Break::new(0x1000, 0x100000);
    let a = allocate(&mut heap, &mut brk, 3);
    let b = allocate(&mut heap, &mut brk, 3);
    fill(&mut heap, a, 3, 1);
    fill(&mut heap, b, 3, 11);
    assert!(!heap.store(a, 3, 99));
    assert!(!heap.store(a + 1, 0, 99));
    assert!(!heap.store(0, 0, 99));
    assert_eq!(heap.load(a, 3), None);
    assert_eq!(heap.load(a + 1, 0), None);
    assert_eq!(
        (0..3).map(|k| heap.load(a, k)).collect::<Vec<_>>(),
        vec![Some(1), Some(2), Some(3)]
    );
    assert_eq!(
        (0..3).map(|k| heap.load(b, k)).collect::<Vec<_>>(),
        vec![Some(11), Some(12), Some(13)]
    );
}

#[test]
fn zero_and_copy_work_on_loaned_regions_only() {
    let mut heap = BasicAllocator::new();
    let mut brk = Break::new(0x1000, 0x100000);
    let a = allocate(&mut heap, &mut brk, 4);
    let b = allocate(&mut heap, &mut brk, 6);
    fill(&mut heap, a, 4, 1);
    fill(&mut heap, b, 6, 21);
    assert!(!heap.copy(b, a, 5));
    assert!(!heap.copy(a, a, 1));
    assert!(!heap.copy(a, b + 1, 1));
    assert!(!heap.zero(a, 5));
    assert!(!heap.zero(a + 2, 1));
    assert_eq!(heap.load(a, 0), Some(1));
    assert!(heap.copy(b, a, 3));
    assert_eq!(
        (0..6).map(|k| heap.load(b, k)).collect::<Vec<_>>(),
        vec![Some(1), Some(2), Some(3), Some(24), Some(25), Some(26)]
    );
    assert!(heap.zero(b, 2));
    assert_eq!(
        (0..6).map(|k| heap.load(b, k)).collect::<Vec<_>>(),
        vec![Some(0), Some(0), Some(3), Some(24), Some(25), Some(26)]
    );
    assert!(heap.copy(a, b, 0));
    assert!(heap.zero(a, 0));
    assert_eq!(heap.load(a, 0), Some(1));
    free(&mut heap, a);
    assert!(!heap.copy(b, a, 1));
    assert!(!heap.zero(a, 1));
}

#[test]
fn allocator_methods_agree_with_the_functions() {
    let mut one = BasicAllocator::new();
    let mut two = BasicAllocator::new();
    let mut three = BasicAllocator::new();
    for (size, answer) in [(16usize, 0x1000usize), (32, 0x1028), (8, BRK_FAILED)] {
        let p = one.allocate(size, answer);
        let q = alloc_impl(&mut two, size, answer);
        let r = malloc(&mut three, size, answer);
        assert_eq!(p, q);
        assert_eq!(q, r);
    }
    one.dealloc(0x1018);
    dealloc_impl(&mut two, 0x1018);
    free(&mut three, 0x1018);
    assert_eq!(snapshot(&one), snapshot(&two));
    assert_eq!(snapshot(&two), snapshot(&three));
    assert!(one.header(0).unwrap().1.is_free);
}

#[test]
fn chain_links_follow_growth_order() {
    let mut heap = BasicAllocator::new();
    let mut brk = Break::new(0x1000, 0x100000);
    let mut pointers = Vec::new();
    for size in [8usize, 0, 100, 1, 16] {
        pointers.push(allocate(&mut heap, &mut brk, size));
    }
    let blocks = snapshot(&heap);
    assert_eq!(blocks.len(), 5);
    assert_eq!(heap.base(), blocks[0].0);
    for i in 0..5 {
        assert_eq!(pointers[i], blocks[i].0 + 24);
        let next = if i + 1 < 5 { blocks[i + 1].0 } else { 0 };
        assert_eq!(blocks[i].1.next, next);
        if i + 1 < 5 {
            assert!(blocks[i].0 + 24 + blocks[i].1.size <= blocks[i + 1].0);
        }
    }
    free(&mut heap, pointers[2]);
    free(&mut heap, pointers[0]);
    let again = snapshot(&heap);
    for i in 0..5 {
        assert_eq!(again[i].0, blocks[i].0);
        assert_eq!(again[i].1.size, blocks[i].1.size);
        assert_eq!(again[i].1.next, blocks[i].1.next);
    }
}

#[test]
fn space_needed_adds_the_header() {
    assert_eq!(BlockMeta::space_needed(0), Some(24));
    assert_eq!(BlockMeta::space_needed(16), Some(40));
    assert_eq!(BlockMeta::space_needed(isize::MAX as usize - 24), Some(isize::MAX));
    assert_eq!(BlockMeta::space_needed(isize::MAX as usize - 23), None);
    assert_eq!(BlockMeta::space_needed(usize::MAX), None);
}
