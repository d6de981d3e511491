use rusl::malloc::expand_heap::traverses_stack_p;
use rusl::malloc::heap::{Allocation, Heap, Resized};
use rusl::malloc::mapped::{
    map_chunk, resize_after_allocate, resize_after_remap, resize_mapped,
    unmap_range, Chunk, MappedResize,
};
use rusl::malloc::{adjust_size, bin_index, bin_index_up, MMAP_THRESHOLD};

fn adjusted(n: usize) -> Option<usize> {
    let mut m = n;
    if adjust_size(&mut m) == 0 {
        Some(m)
    } else {
        None
    }
}

#[test]
fn adjust_size_rounds_up_to_chunks() {
    assert_eq!(adjusted(0), Some(32));
    assert_eq!(adjusted(1), Some(32));
    assert_eq!(adjusted(16), Some(32));
    assert_eq!(adjusted(17), Some(64));
    assert_eq!(adjusted(100), Some(128));
    assert_eq!(adjusted(usize::MAX), None);
    assert_eq!(adjusted(isize::MAX as usize), None);
    let mut m = usize::MAX - 3;
    assert_eq!(adjust_size(&mut m), -1);
    assert_eq!(m, usize::MAX - 3);
}

#[test]
fn bin_index_of_small_and_large_chunks() {
    assert_eq!(bin_index(32), 0);
    assert_eq!(bin_index(64), 1);
    assert_eq!(bin_index(33 * 32), 32);
    assert_eq!(bin_index(34 * 32), 32);
    assert_eq!(bin_index(40 * 32), 32);
    assert_eq!(bin_index(41 * 32), 33);
    assert_eq!(bin_index(7169 * 32), 63);
    assert_eq!(bin_index(100000 * 32), 63);
}

#[test]
fn bin_index_up_rounds_to_a_bin_of_large_enough_chunks() {
    assert_eq!(bin_index_up(32), 0);
    assert_eq!(bin_index_up(33 * 32), 32);
    assert_eq!(bin_index_up(34 * 32), 33);
    assert_eq!(bin_index_up(41 * 32), 33);
    assert_eq!(bin_index_up(42 * 32), 34);
    assert!(bin_index_up(MMAP_THRESHOLD) <= 63);
}

#[test]
fn an_empty_heap_without_room_fails() {
    let mut h = Heap::new(0);
    assert!(matches!(h.allocate(10), Allocation::Fail));
}

#[test]
fn allocate_store_load_free() {
    let mut h = Heap::new(1 << 20);
    let p = match h.allocate(100) {
        Allocation::Heap { ptr, .. } => ptr,
        _ => panic!("no allocation"),
    };
    assert_eq!(p % 32, 0);
    assert!(h.owns(p));
    h.store(p, p, 0xdead);
    h.store(p, p + 8, 0xbeef);
    assert_eq!(h.load(p, p), 0xdead);
    assert_eq!(h.load(p, p + 8), 0xbeef);
    let q = match h.allocate(40) {
        Allocation::Heap { ptr, .. } => ptr,
        _ => panic!("no allocation"),
    };
    assert_ne!(p, q);
    h.store(q, q, 7);
    assert_eq!(h.load(p, p), 0xdead);
    assert!(h.free_ptr(p).is_none());
    assert!(!h.owns(p));
    assert!(h.owns(q));
    assert_eq!(h.load(q, q), 7);
    assert!(h.free_ptr(0).is_none());
}

#[test]
fn a_freed_chunk_is_reused() {
    let mut h = Heap::new(1 << 20);
    let a = match h.allocate(64) {
        Allocation::Heap { ptr, .. } => ptr,
        _ => panic!("no allocation"),
    };
    let _b = match h.allocate(64) {
        Allocation::Heap { ptr, .. } => ptr,
        _ => panic!("no allocation"),
    };
    h.free_ptr(a);
    let c = match h.allocate(64) {
        Allocation::Heap { ptr, .. } => ptr,
        _ => panic!("no allocation"),
    };
    assert_eq!(a, c);
}

#[test]
fn large_requests_go_to_a_mapping() {
    let mut h = Heap::new(1 << 20);
    match h.allocate(300000) {
        Allocation::Mapped { len } => {
            assert_eq!(len % 4096, 0);
            assert!(len >= 300000 + 32);
            assert_eq!(len, 303104);
        }
        _ => panic!("expected a mapping"),
    }
    assert!(matches!(h.allocate(usize::MAX), Allocation::Fail));
}

#[test]
fn reallocate_keeps_contents() {
    let mut h = Heap::new(1 << 20);
    let p = match h.reallocate(0, 40) {
        Resized::Heap { ptr, .. } => ptr,
        _ => panic!("no allocation"),
    };
    h.store(p, p, 11);
    h.store(p, p + 8, 22);
    let _blocker = match h.allocate(32) {
        Allocation::Heap { ptr, .. } => ptr,
        _ => panic!("no allocation"),
    };
    let q = match h.reallocate(p, 1000) {
        Resized::Heap { ptr, .. } => ptr,
        _ => panic!("no allocation"),
    };
    assert!(h.owns(q));
    assert_eq!(h.load(q, q), 11);
    assert_eq!(h.load(q, q + 8), 22);
    let r = match h.reallocate(q, 8) {
        Resized::Heap { ptr, .. } => ptr,
        _ => panic!("no allocation"),
    };
    assert_eq!(r, q);
    assert_eq!(h.load(r, r), 11);
    match h.reallocate(r, 500000) {
        Resized::Mapped { len, copy } => {
            assert_eq!(len % 4096, 0);
            assert!(copy >= 8);
        }
        _ => panic!("expected a mapping"),
    }
}

#[test]
fn malloc0_clears_the_payload() {
    let mut h = Heap::new(1 << 20);
    let p = match h.allocate(64) {
        Allocation::Heap { ptr, .. } => ptr,
        _ => panic!("no allocation"),
    };
    h.store(p, p, 5);
    h.store(p, p + 40, 6);
    h.free_ptr(p);
    let q = match h.malloc0(64) {
        Allocation::Heap { ptr, .. } => ptr,
        _ => panic!("no allocation"),
    };
    assert_eq!(q, p);
    assert_eq!(h.load(q, q), 0);
    assert_eq!(h.load(q, q + 40), 0);
}

#[test]
fn chunk_header_words() {
    let c = Chunk { psize: 33, csize: 64 };
    assert!(c.is_mmapped());
    assert_eq!(c.size(), 64);
    assert_eq!(c.psize(), 32);
    let d = Chunk { psize: 0, csize: 97 };
    assert!(!d.is_mmapped());
    assert_eq!(d.size(), 96);
    assert_eq!(Chunk::from_mem(48), 32);
    assert_eq!(Chunk::as_mem(32), 48);
}

#[test]
fn mapped_chunk_layout_and_unmapping() {
    assert!(map_chunk(usize::MAX, 8192).is_none());
    let (c, hdr) = map_chunk(0x10000, 8192).unwrap();
    assert_eq!(c, 0x10010);
    assert_eq!(hdr.psize, 16);
    assert_eq!(hdr.csize, 8192 - 16);
    assert_eq!(Chunk::as_mem(c), 0x10020);
    assert_eq!(unmap_range(c, &hdr), Some((0x10000, 8192)));
    let freed = Chunk { psize: 17, csize: 8176 };
    assert_eq!(unmap_range(c, &freed), None);
}

#[test]
fn resizing_a_mapped_chunk() {
    let hdr = Chunk { psize: 16, csize: 3 * 4096 - 16 };
    let c = 0x20010;
    assert!(matches!(resize_mapped(c, &hdr, usize::MAX), MappedResize::Fail));
    assert!(matches!(
        resize_mapped(c, &Chunk { psize: 17, csize: 4080 }, 100),
        MappedResize::Crash
    ));
    // a size that fits in a page with the header asks the heap for a block
    match resize_mapped(c, &hdr, 100) {
        MappedResize::Allocate { n } => assert_eq!(n, 128),
        _ => panic!("expected a request to the heap"),
    }
    match resize_mapped(c, &hdr, 4048) {
        MappedResize::Allocate { n } => assert_eq!(n, 4064),
        _ => panic!("expected a request to the heap"),
    }
    // a larger one never asks the heap: the mapping is kept or remapped
    match resize_mapped(c, &hdr, 4064) {
        MappedResize::Remap { base, old_len, new_len } => {
            assert_eq!(base, 0x20000);
            assert_eq!(old_len, 3 * 4096);
            assert_eq!(new_len, 2 * 4096);
        }
        _ => panic!("expected a remap"),
    }
    assert!(matches!(resize_mapped(c, &hdr, 2 * 4096 + 64), MappedResize::Keep));
    match resize_mapped(c, &hdr, 5 * 4096) {
        MappedResize::Remap { new_len, .. } => assert_eq!(new_len, 6 * 4096),
        _ => panic!("expected a remap"),
    }
    // with the heap's block the contents move; without it the mapping shrinks
    match resize_after_allocate(c, &hdr, 128, true) {
        MappedResize::MoveToHeap { copy } => assert_eq!(copy, 112),
        _ => panic!("expected a move"),
    }
    match resize_after_allocate(c, &hdr, 128, false) {
        MappedResize::Remap { base, old_len, new_len } => {
            assert_eq!(base, 0x20000);
            assert_eq!(old_len, 3 * 4096);
            assert_eq!(new_len, 4096);
        }
        _ => panic!("expected a remap"),
    }
    assert!(matches!(
        resize_after_remap(&hdr, 3 * 4096, 4096, usize::MAX),
        MappedResize::Keep
    ));
    assert!(matches!(
        resize_after_remap(&hdr, 3 * 4096, 6 * 4096, usize::MAX),
        MappedResize::Fail
    ));
    match resize_after_remap(&hdr, 3 * 4096, 6 * 4096, 0x40000) {
        MappedResize::Remapped { chunk, csize, mem } => {
            assert_eq!(chunk, 0x40010);
            assert_eq!(csize, 6 * 4096 - 16);
            assert_eq!(mem, 0x40020);
        }
        _ => panic!("expected the remapped chunk"),
    }
}

#[test]
fn traverses_stack_detects_crossings() {
    let top = 0x7fff_0000_0000u64;
    let len = 8u64 << 20;
    assert_eq!(traverses_stack_p(0x1000, 0x2000, top, top), 0);
    assert_eq!(traverses_stack_p(top - len - 0x1000, top - len + 1, top, top), 1);
    assert_eq!(traverses_stack_p(top - len - 0x1000, top - len, top, top), 0);
    assert_eq!(traverses_stack_p(0x1000, 0x2000, top, 0x1800), 1);
    assert_eq!(traverses_stack_p(0, 1, 0x100, 0x7000_0000), 1);
}

fn heap_ptr(a: Allocation) -> usize {
    match a {
        Allocation::Heap { ptr, .. } => ptr,
        _ => panic!("no allocation"),
    }
}

#[test]
fn free_after_allocate_restores_the_heap() {
    let mut h = Heap::new(1 << 20);
    let p = heap_ptr(h.allocate(48));
    h.store(p, p, 99);
    let q = heap_ptr(h.allocate(200));
    assert!(h.owns(q));
    h.free_ptr(q);
    assert!(!h.owns(q));
    assert!(h.owns(p));
    assert_eq!(h.load(p, p), 99);
}

#[test]
fn allocations_do_not_overlap() {
    let mut h = Heap::new(1 << 20);
    let sizes = [1usize, 31, 100, 500, 2000, 64];
    let mut live: Vec<(usize, usize)> = Vec::new();
    for &n in sizes.iter() {
        let p = heap_ptr(h.allocate(n));
        let len = adjusted(n).unwrap();
        for &(q, qlen) in live.iter() {
            assert!(p + len <= q || q + qlen <= p);
        }
        live.push((p, len));
    }
}

#[test]
fn stores_stay_in_their_allocation() {
    let mut h = Heap::new(1 << 20);
    let p = heap_ptr(h.allocate(16));
    let q = heap_ptr(h.allocate(16));
    h.store(p, p, 1);
    h.store(q, q, 2);
    h.store(p, p + 8, 3);
    assert_eq!(h.load(q, q), 2);
    assert_eq!(h.load(p, p), 1);
    assert_eq!(h.load(p, p + 8), 3);
}

#[test]
fn bins_never_go_down_as_chunks_grow() {
    let mut last = 0;
    let mut size = 32;
    while size < 400000 * 32 {
        let b = bin_index(size);
        assert!(b >= last);
        last = b;
        size += 32 * (1 + size / 1000);
    }
    assert_eq!(last, 63);
}

#[test]
fn joining_large_free_chunks_gives_whole_pages_back() {
    let mut h = Heap::new(1 << 22);
    let a = heap_ptr(h.allocate(100_000));
    let b = heap_ptr(h.allocate(100_000));
    let _c = heap_ptr(h.allocate(10));
    assert!(h.free_ptr(a).is_none());
    let r = h.free_ptr(b).expect("pages to give back");
    assert_eq!(r.start % 4096, 0);
    assert_eq!(r.len % 4096, 0);
    assert!(r.len > 0);
    assert!(r.start >= a);
    assert!(r.start + r.len <= b + 100_000);
}

#[test]
fn shrinking_in_place_gives_pages_back() {
    let mut h = Heap::new(1 << 22);
    let p = heap_ptr(h.allocate(200_000));
    h.store(p, p, 42);
    match h.reallocate(p, 10) {
        Resized::Heap { ptr, reclaim, freed } => {
            assert_eq!(ptr, p);
            assert!(freed.is_none());
            let r = reclaim.expect("pages to give back");
            assert_eq!(r.start % 4096, 0);
            assert!(r.len > 0);
            assert!(r.start >= p + 32);
        }
        _ => panic!("expected the allocation kept"),
    }
    assert_eq!(h.load(p, p), 42);
}

#[test]
fn allocation_takes_the_lowest_bin_that_fits() {
    let mut h = Heap::new(1 << 20);
    let a = heap_ptr(h.allocate(64));
    let _g1 = heap_ptr(h.allocate(10));
    let b = heap_ptr(h.allocate(1000));
    let _g2 = heap_ptr(h.allocate(10));
    h.free_ptr(b);
    h.free_ptr(a);
    // 500 bytes need a chunk of 544: bin 16 and up; the freed 1024-byte chunk
    // (bin 31) is the lowest non-empty bin there
    assert_eq!(heap_ptr(h.allocate(500)), b);
    // 50 bytes need a chunk of 96: the freed 96-byte chunk (bin 2) serves them
    assert_eq!(heap_ptr(h.allocate(50)), a);
}

#[test]
fn a_resize_without_room_fails_and_keeps_the_allocation() {
    let mut h = Heap::new(8192);
    let p = heap_ptr(h.allocate(100));
    h.store(p, p, 7);
    assert!(matches!(h.reallocate(p, usize::MAX), Resized::Fail));
    assert!(matches!(h.reallocate(p, 100_000), Resized::Fail));
    assert!(h.owns(p));
    assert_eq!(h.load(p, p), 7);
    match h.reallocate(0, 40) {
        Resized::Heap { ptr, reclaim, freed } => {
            assert!(h.owns(ptr));
            assert!(reclaim.is_none() && freed.is_none());
        }
        _ => panic!("expected a new allocation"),
    }
}

fn heap_alloc(h: &mut Heap, n: usize) -> usize {
    match h.allocate(n) {
        Allocation::Heap { ptr } => ptr,
        _ => panic!("no allocation"),
    }
}

#[test]
fn freed_chunks_are_reused_oldest_first() {
    let mut h = Heap::new(1 << 20);
    let a = heap_alloc(&mut h, 64);
    let _x = heap_alloc(&mut h, 64);
    let b = heap_alloc(&mut h, 64);
    let _y = heap_alloc(&mut h, 64);
    h.free_ptr(a);
    h.free_ptr(b);
    // a freed chunk goes to the tail of its bin, and requests take the head
    assert_eq!(heap_alloc(&mut h, 64), a);
    assert_eq!(heap_alloc(&mut h, 64), b);
}

#[test]
fn reallocating_null_serves_like_allocate() {
    let mut h1 = Heap::new(1 << 20);
    let mut h2 = Heap::new(1 << 20);
    let p = heap_alloc(&mut h1, 100);
    match h2.reallocate(0, 100) {
        Resized::Heap { ptr, reclaim, freed } => {
            assert_eq!(ptr, p);
            assert!(reclaim.is_none() && freed.is_none());
        }
        _ => panic!("expected an allocation from the heap"),
    }
    assert_eq!(h1.arena().len(), h2.arena().len());
    assert_eq!(heap_alloc(&mut h1, 40), match h2.reallocate(0, 40) {
        Resized::Heap { ptr, .. } => ptr,
        _ => panic!("expected an allocation from the heap"),
    });
}

#[test]
fn size_words_of_live_allocations_agree() {
    let mut h = Heap::new(1 << 20);
    let a = heap_alloc(&mut h, 24);
    let b = heap_alloc(&mut h, 500);
    assert!(h.tags_intact(a));
    assert!(h.tags_intact(b));
    h.free_ptr(a);
    assert!(h.tags_intact(b));
}

#[test]
fn a_request_is_cut_from_the_front_and_the_rest_serves_the_next() {
    let mut h = Heap::new(1 << 20);
    let a = heap_alloc(&mut h, 1000);
    let _guard = heap_alloc(&mut h, 64);
    h.free_ptr(a);
    // the freed chunk of 1024 bytes serves 128, and the rest goes to its own bin
    assert_eq!(heap_alloc(&mut h, 100), a);
    assert_eq!(heap_alloc(&mut h, 100), a + 128);
}

#[test]
fn malloc0_clears_exactly_the_bytes_asked_for() {
    let mut h = Heap::new(1 << 20);
    let p = heap_alloc(&mut h, 100);
    let _guard = heap_alloc(&mut h, 100);
    h.store(p, p, usize::MAX);
    h.store(p, p + 96, usize::MAX);
    h.free_ptr(p);
    match h.malloc0(99) {
        Allocation::Heap { ptr } => {
            assert_eq!(ptr, p);
            assert_eq!(h.load(p, p), 0);
            // bytes 96 to 98 are cleared, bytes 99 on are left as they were
            assert_eq!(h.load(p, p + 96), 0xffff_ffff_ff00_0000);
        }
        _ => panic!("expected an allocation from the heap"),
    }
}

#[test]
fn size_words_that_are_not_there_do_not_agree() {
    let mut h = Heap::new(1 << 20);
    assert!(!h.tags_intact(0));
    assert!(!h.tags_intact(8));
    let a = heap_alloc(&mut h, 24);
    assert!(h.tags_intact(a));
    assert!(!h.tags_intact(a + (1 << 20)));
}

#[test]
fn a_moving_resize_without_memory_fails_and_keeps_the_block() {
    let mut h = Heap::new(2 * 4096);
    let p = heap_alloc(&mut h, 100);
    h.store(p, p, 0x1234);
    assert!(matches!(h.reallocate(p, 20000), Resized::Fail));
    assert!(h.owns(p));
    assert_eq!(h.load(p, p), 0x1234);
}
