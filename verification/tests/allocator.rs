use talc::heap::{AllocError, ErrOnOom, Layout, OomHandler, Talc};
use talc::span::Span;

fn new_heap(size: usize) -> Talc<ErrOnOom> {
    let mut t = Talc::new();
    t.init(Span::new(8, 8 + size));
    t
}

fn metadata_snapshot(t: &Talc<ErrOnOom>) -> (u64, u64, bool, Vec<Vec<talc::heap::BinEntry>>, Span, Span) {
    (
        t.availability_low,
        t.availability_high,
        t.is_top_free,
        t.bins.clone(),
        t.get_allocatable_span(),
        t.get_allocated_span(),
    )
}

#[test]
fn talc_test() {
    const ARENA_SIZE: usize = 10000000;

    let mut talc = Talc::new();
    talc.init(Span::new(8, 8 + ARENA_SIZE));

    let layout = Layout::from_size_align(1243, 8).unwrap();

    let a = talc.malloc(layout);
    assert!(a.is_ok());
    let a = a.unwrap();
    for i in 0..(1243 / 8) {
        assert!(talc.store(a + 8 * i, 0xFFFF_FFFF_FFFF_FFFF));
    }

    let mut x = vec![0usize; 100];

    for i in 0..100 {
        let allocation = talc.malloc(layout);
        assert!(allocation.is_ok());
        let p = allocation.unwrap();
        for k in 0..(1243 / 8) {
            assert!(talc.store(p + 8 * k, 0xabab_abab_abab_abab));
        }
        x[i] = p;
    }

    for i in 0..50 {
        talc.free(x[i], layout);
    }
    for i in (50..100).rev() {
        talc.free(x[i], layout);
    }

    talc.free(a, layout);
    assert!(talc.scan_for_errors());
}

// a 10-million-byte arena serves one allocation and returns to a
// consistent state on free
#[test]
fn single_alloc_roundtrip() {
    let mut t = new_heap(10_000_000);
    assert!(t.scan_for_errors());
    let layout = Layout::from_size_align(1243, 8).unwrap();
    let snap = metadata_snapshot(&t);

    let p = t.malloc(layout).unwrap();
    assert_eq!(p % 8, 0);
    for i in 0..(1243 / 8) {
        assert!(t.store(p + 8 * i, 0xFF));
    }
    assert!(t.scan_for_errors());

    t.free(p, layout);
    assert!(t.scan_for_errors());
    // the heap's metadata returns to its state before the allocation
    assert_eq!(metadata_snapshot(&t), snap);
}

// a loop of allocations freed lower-half in order, upper half in
// reverse, restores the state before the loop
#[test]
fn alloc_loop_restores_state() {
    let mut t = new_heap(10_000_000);
    let layout = Layout::from_size_align(1243, 8).unwrap();
    let a = t.malloc(layout).unwrap();
    let snap = metadata_snapshot(&t);

    let mut x = vec![0usize; 100];
    for i in 0..100 {
        x[i] = t.malloc(layout).unwrap();
    }
    assert!(t.scan_for_errors());
    for i in 0..50 {
        t.free(x[i], layout);
    }
    for i in (50..100).rev() {
        t.free(x[i], layout);
    }
    assert!(t.scan_for_errors());
    assert_eq!(metadata_snapshot(&t), snap);
    t.free(a, layout);
    assert!(t.scan_for_errors());
}

// an over-aligned request from a fresh arena returns an aligned
// pointer and frees back to the post-init state
#[test]
fn over_aligned_alloc() {
    let mut t = new_heap(1 << 20);
    let snap = metadata_snapshot(&t);
    let layout = Layout::from_size_align(1, 4096).unwrap();

    let p = t.malloc(layout).unwrap();
    assert_eq!(p % 4096, 0);
    assert!(t.store(p, 0x55));
    assert!(t.scan_for_errors());

    t.free(p, layout);
    assert!(t.scan_for_errors());
    assert_eq!(metadata_snapshot(&t), snap);
}

// growing into the free chunk above keeps the pointer and the payload
#[test]
fn grow_in_place() {
    let mut t = new_heap(1 << 20);
    let layout = Layout::from_size_align(64, 8).unwrap();
    let p = t.malloc(layout).unwrap();
    for i in 0..8 {
        assert!(t.store(p + 8 * i, 0x1111 * (i as u64 + 1)));
    }
    let q = t.grow(p, layout, 128).unwrap();
    assert_eq!(q, p);
    for i in 0..8 {
        assert_eq!(t.load(p + 8 * i), Some(0x1111 * (i as u64 + 1)));
    }
    assert!(t.scan_for_errors());
}

// growing against an allocated neighbour reallocates and copies
#[test]
fn grow_by_reallocation() {
    let mut t = new_heap(1 << 20);
    let layout = Layout::from_size_align(64, 8).unwrap();
    let p1 = t.malloc(layout).unwrap();
    let _p2 = t.malloc(layout).unwrap();
    for i in 0..8 {
        assert!(t.store(p1 + 8 * i, 0x2222 * (i as u64 + 1)));
    }
    let q = t.grow(p1, layout, 128).unwrap();
    assert_ne!(q, p1);
    for i in 0..8 {
        assert_eq!(t.load(q + 8 * i), Some(0x2222 * (i as u64 + 1)));
    }
    assert!(t.scan_for_errors());
    // the old chunk was freed: the same request is served from it again
    let p3 = t.malloc(layout).unwrap();
    assert_eq!(p3, p1);
}

// shrinking keeps the pointer and the kept prefix, and frees the tail
#[test]
fn shrink_in_place() {
    let mut t = new_heap(1 << 20);
    let layout = Layout::from_size_align(256, 8).unwrap();
    let p = t.malloc(layout).unwrap();
    for i in 0..8 {
        assert!(t.store(p + 8 * i, 0x3333 * (i as u64 + 1)));
    }
    t.shrink(p, layout, 64);
    for i in 0..8 {
        assert_eq!(t.load(p + 8 * i), Some(0x3333 * (i as u64 + 1)));
    }
    assert!(t.scan_for_errors());
}

// extending then truncating back preserves the live allocations
#[test]
fn extend_truncate_roundtrip() {
    let mut t = new_heap(1 << 20);
    let layout = Layout::from_size_align(64, 8).unwrap();
    let p = t.malloc(layout).unwrap();
    for i in 0..8 {
        assert!(t.store(p + 8 * i, 0x4444 * (i as u64 + 1)));
    }
    let arena0 = t.get_arena();
    let allocated0 = t.get_allocated_span();

    t.extend(arena0.extend(0, 1 << 20));
    assert!(t.scan_for_errors());
    assert_eq!(t.get_allocated_span(), allocated0);

    t.truncate(arena0);
    assert!(t.scan_for_errors());
    assert_eq!(t.get_allocated_span(), allocated0);
    assert_eq!(t.get_arena(), arena0);
    for i in 0..8 {
        assert_eq!(t.load(p + 8 * i), Some(0x4444 * (i as u64 + 1)));
    }
}

// truncating a sliver off each end keeps every invariant
#[test]
fn truncate_sliver() {
    let mut t = new_heap(1 << 20);
    let layout = Layout::from_size_align(64, 8).unwrap();
    let p = t.malloc(layout).unwrap();
    let arena0 = t.get_arena();
    let new_arena = arena0.truncate(23, 23).fit_over(t.get_allocated_span());
    t.truncate(new_arena);
    assert!(t.scan_for_errors());
    t.free(p, layout);
    assert!(t.scan_for_errors());
}

// boundary request sizes around the minimum chunk size
#[test]
fn boundary_sizes() {
    let mut t = new_heap(1 << 20);
    let sizes = [16usize, 17, 24];
    let mut ptrs = vec![];
    for &s in sizes.iter() {
        let layout = Layout::from_size_align(s, 8).unwrap();
        let p = t.malloc(layout).unwrap();
        assert_eq!(p % 8, 0);
        ptrs.push((p, layout));
        assert!(t.scan_for_errors());
    }
    for &(p, layout) in ptrs.iter() {
        t.free(p, layout);
        assert!(t.scan_for_errors());
    }
}

// every supported alignment yields a pointer aligned to it
#[test]
fn boundary_alignments() {
    let mut t = new_heap(1 << 20);
    for &a in [1usize, 8, 16, 4096].iter() {
        let layout = Layout::from_size_align(100, a).unwrap();
        let p = t.malloc(layout).unwrap();
        let min_align = if a > 8 { a } else { 8 };
        assert_eq!(p % min_align, 0);
        assert!(t.scan_for_errors());
        t.free(p, layout);
        assert!(t.scan_for_errors());
    }
}

// the default handler fails every exhausted allocation
#[test]
fn oom_default_fails() {
    let mut t = new_heap(4096);
    let layout = Layout::from_size_align(1 << 20, 8).unwrap();
    assert_eq!(t.malloc(layout), Err(AllocError));
    assert!(t.scan_for_errors());
    // an uninitialized heap fails immediately too
    let mut u: Talc<ErrOnOom> = Talc::new();
    assert_eq!(u.malloc(Layout::from_size_align(8, 8).unwrap()), Err(AllocError));
}

struct ExtendOnce {
    target: Span,
    used: bool,
}

impl OomHandler for ExtendOnce {
    fn spec_may_supply() -> bool {
        true
    }

    fn handle_oom(talc: &mut Talc<ExtendOnce>, _layout: Layout) -> Result<(), AllocError> {
        if talc.oom_handler.used {
            return Err(AllocError);
        }
        talc.oom_handler.used = true;
        let target = talc.oom_handler.target;
        if target.contains_span(talc.get_arena()) && !target.contains(0) {
            talc.extend(target);
            Ok(())
        } else {
            Err(AllocError)
        }
    }
}

// a handler that extends the arena once makes the allocation succeed
#[test]
fn oom_extend_once_succeeds() {
    let arena = Span::new(8, 8 + 4096);
    let handler = ExtendOnce { target: Span::new(8, 8 + (1 << 20)), used: false };
    let mut t = Talc::with_arena_and_oom_handler(arena, handler);
    let layout = Layout::from_size_align(100_000, 8).unwrap();
    let p = t.malloc(layout);
    assert!(p.is_ok());
    assert!(t.oom_handler.used);
    assert!(t.scan_for_errors());
    t.free(p.unwrap(), layout);
    assert!(t.scan_for_errors());
}

struct CountingFail {
    calls: usize,
}

impl OomHandler for CountingFail {
    fn spec_may_supply() -> bool {
        true
    }

    fn handle_oom(talc: &mut Talc<CountingFail>, _layout: Layout) -> Result<(), AllocError> {
        talc.oom_handler.calls += 1;
        Err(AllocError)
    }
}

// the handler is invoked when a full heap cannot serve a request
#[test]
fn oom_invoked_from_full_heap() {
    let arena = Span::new(8, 8 + 8192);
    let mut t = Talc::with_arena_and_oom_handler(arena, CountingFail { calls: 0 });
    let layout = Layout::from_size_align(512, 8).unwrap();
    let mut ptrs = vec![];
    loop {
        match t.malloc(layout) {
            Ok(p) => ptrs.push(p),
            Err(_) => break,
        }
    }
    assert!(t.oom_handler.calls >= 1);
    assert!(!ptrs.is_empty());
    assert!(t.scan_for_errors());
    for &p in ptrs.iter() {
        t.free(p, layout);
    }
    assert!(t.scan_for_errors());
}

// a bad pointer is rejected without touching the heap
#[test]
fn invalid_pointer_is_ignored() {
    let mut t = new_heap(1 << 16);
    let layout = Layout::from_size_align(64, 8).unwrap();
    let snap = metadata_snapshot(&t);
    t.free(3, layout);
    assert_eq!(metadata_snapshot(&t), snap);
    assert_eq!(t.grow(3, layout, 128), Err(AllocError));
    t.shrink(3, layout, 8);
    assert_eq!(metadata_snapshot(&t), snap);
    assert!(t.scan_for_errors());
}

// constructors hand out the arena they were given
#[test]
fn constructors_and_queries() {
    let arena = Span::new(8, 8 + 65536);
    let t = Talc::with_arena(arena);
    assert_eq!(t.get_arena(), arena);
    let alloc_span = t.get_allocatable_span();
    assert!(arena.contains_span(alloc_span));
    assert!(!alloc_span.is_empty());
    assert!(t.scan_for_errors());

    let u: Talc<ErrOnOom> = Talc::with_oom_handler(ErrOnOom);
    assert!(u.get_arena().is_empty());
    assert!(u.get_allocatable_span().is_empty());
    assert!(u.get_allocated_span().is_empty());
}

// freeing between two free neighbours coalesces into one chunk and
// restores the pre-allocation metadata
#[test]
fn free_coalesces_both_neighbours() {
    let mut t = new_heap(1 << 20);
    let layout = Layout::from_size_align(64, 8).unwrap();
    let snap = metadata_snapshot(&t);
    let a = t.malloc(layout).unwrap();
    let b = t.malloc(layout).unwrap();
    let c = t.malloc(layout).unwrap();
    t.free(a, layout);
    assert!(t.scan_for_errors());
    t.free(c, layout);
    assert!(t.scan_for_errors());
    t.free(b, layout);
    assert!(t.scan_for_errors());
    assert_eq!(metadata_snapshot(&t), snap);
}
