use segalloc::layout::{ADD_LIST_SIZE, INIT_HEAP_SIZE, INIT_LIST_SIZE, NUM_LIST};
use segalloc::{
    calloc, free, get_align, get_header, malloc, realloc, unmap_diagnostic, Allocator, Chunk,
    Diagnostic, Fill, Header, Mapping, Origin, Release, Reply, Resize, Step, ALIGN,
    BREAK_CEILING, HEADER_SIZE, MAX_BYTE,
};
use std::collections::HashMap;
use std::collections::HashSet;

/// A stand-in for the operating system: a heap break that only grows, and
/// mappings handed out one page-aligned region after another.
struct System {
    brk: usize,
    next_mapping: usize,
    breaks: Vec<usize>,
    mappings: Vec<(usize, usize)>,
    unmapped: Vec<(usize, usize)>,
    memory: HashMap<usize, u8>,
}

impl System {
    fn new() -> System {
        System {
            brk: 0x10_0000,
            next_mapping: 0x7000_0000,
            breaks: Vec::new(),
            mappings: Vec::new(),
            unmapped: Vec::new(),
            memory: HashMap::new(),
        }
    }

    fn extend(&mut self, bytes: usize) -> Reply {
        let before = self.brk;
        self.brk += bytes;
        self.breaks.push(bytes);
        Reply::Break { before, start: before }
    }

    fn map(&mut self, request: Mapping) -> Reply {
        assert_eq!(request, mapping(request.bytes));
        let bytes = request.bytes;
        let addr = self.next_mapping;
        self.next_mapping += (bytes + 4095) / 4096 * 4096;
        self.mappings.push((addr, bytes));
        Reply::Mapping { addr }
    }

    fn answer(&mut self, step: Step) -> Reply {
        match step {
            Step::NeedBreak(bytes) => self.extend(bytes),
            Step::NeedMapping(request) => self.map(request),
            Step::Ready(_) => unreachable!(),
        }
    }

    fn release(&mut self, release: Release) {
        if let Release::Unmap { addr, len } = release {
            self.unmapped.push((addr, len));
        }
    }

    fn write(&mut self, at: usize, bytes: &[u8]) {
        for (i, b) in bytes.iter().enumerate() {
            self.memory.insert(at + i, *b);
        }
    }

    fn read(&self, at: usize, len: usize) -> Vec<u8> {
        (0..len).map(|i| *self.memory.get(&(at + i)).unwrap_or(&0xAA)).collect()
    }

    fn copy(&mut self, to: usize, from: usize, len: usize) {
        let bytes = self.read(from, len);
        self.write(to, &bytes);
    }
}

/// The mapping that a large block is held in.
fn mapping(bytes: usize) -> Mapping {
    Mapping { bytes, read: true, write: true, execute: true, private: true, anonymous: true }
}

/// Runs an allocation to its end, as a caller on a real system would.
fn allocate(heap: &mut Allocator, system: &mut System, size: usize) -> usize {
    let mut reply = Reply::Nothing;
    loop {
        match malloc(heap, size, reply) {
            Step::Ready(p) => return p,
            step => reply = system.answer(step),
        }
    }
}

/// Runs a reallocation to its end: the new pointer; the bytes are copied and
/// the old mapping, if any, is released.
fn reallocate(heap: &mut Allocator, system: &mut System, p: usize, size: usize) -> usize {
    let mut reply = Reply::Nothing;
    loop {
        match realloc(heap, p, size, reply) {
            Resize::Ready { ptr, copy, release } => {
                if copy > 0 {
                    system.copy(ptr, p, copy);
                }
                system.release(release);
                return ptr;
            }
            Resize::NeedBreak(bytes) => reply = system.extend(bytes),
            Resize::NeedMapping(request) => reply = system.map(request),
        }
    }
}

fn deallocate(heap: &mut Allocator, system: &mut System, p: usize) {
    let release = free(heap, p);
    system.release(release);
}

#[test]
fn zero_request_is_null_and_touches_nothing() {
    let mut heap = Allocator::new();
    assert_eq!(malloc(&mut heap, 0, Reply::Nothing), Step::Ready(0));
    assert!(!heap.is_initialized());
    assert_eq!(
        malloc(&mut heap, 0, Reply::Break { before: 4096, start: 4096 }),
        Step::Ready(0)
    );
    assert_eq!(malloc(&mut heap, 0, Reply::Mapping { addr: 4096 }), Step::Ready(0));
    assert!(!heap.is_initialized());
    for class in 0..NUM_LIST {
        assert!(heap.free_list(class).is_empty());
    }
    let mut system = System::new();
    let p = allocate(&mut heap, &mut system, 8);
    let before = heap.free_list(1);
    assert_eq!(malloc(&mut heap, 0, Reply::Nothing), Step::Ready(0));
    assert_eq!(heap.free_list(1), before);
    assert!(heap.lookup(p).is_some());
    assert_eq!(system.breaks.len(), 1);
}

#[test]
fn first_request_asks_for_the_bootstrap_region() {
    let mut heap = Allocator::new();
    assert_eq!(INIT_HEAP_SIZE, 34840);
    assert_eq!(malloc(&mut heap, 8, Reply::Nothing), Step::NeedBreak(34840));
    assert_eq!(malloc(&mut heap, 4000, Reply::Nothing), Step::NeedBreak(34840));
    assert_eq!(malloc(&mut heap, 8, Reply::NoMapping), Step::NeedBreak(34840));
    assert!(!heap.is_initialized());
}

#[test]
fn bootstrap_lays_the_classes_out_one_after_another() {
    let mut heap = Allocator::new();
    let base = 0x10_0000;
    let step = malloc(&mut heap, 16, Reply::Break { before: base, start: base });
    assert!(heap.is_initialized());
    // class 1 comes first: 64 blocks, 8 + 24 bytes apart
    let class1 = heap.free_list(1);
    assert_eq!(class1.len(), 64);
    for (k, a) in class1.iter().enumerate() {
        assert_eq!(*a, base + k * 32);
    }
    // class 2 follows: 32 blocks, 16 + 24 bytes apart; its first block was handed out
    assert_eq!(step, Step::Ready(base + 2048 + HEADER_SIZE));
    let class2 = heap.free_list(2);
    assert_eq!(class2.len(), 31);
    for (k, a) in class2.iter().enumerate() {
        assert_eq!(*a, base + 2048 + (k + 1) * 40);
    }
    // class 3 starts where class 2 ends
    assert_eq!(heap.free_list(3)[0], base + 2048 + 32 * 40);
    assert_eq!(heap.free_list(3).len(), 21);
    // the last class has one block, and the carving ends inside the region
    let last = heap.free_list(64);
    assert_eq!(last.len(), 1);
    assert_eq!(last[0] + HEADER_SIZE + 512, base + 33944);
    assert!(base + 33944 <= base + INIT_HEAP_SIZE);
    assert!(heap.free_list(0).is_empty());
    assert!(heap.free_list(NUM_LIST).is_empty());
    let mut blocks = 1;
    let mut seen = HashSet::new();
    for class in 1..NUM_LIST {
        let list = heap.free_list(class);
        if class != 2 {
            assert_eq!(list.len(), INIT_LIST_SIZE / (class * ALIGN));
        }
        for a in list {
            assert!(seen.insert(a));
            assert!(a >= base && a + HEADER_SIZE + class * ALIGN <= base + INIT_HEAP_SIZE);
            blocks += 1;
        }
    }
    assert_eq!(blocks, 280);
}

#[test]
fn failed_bootstrap_fails_the_request_and_is_not_tried_again() {
    let mut heap = Allocator::new();
    let step = malloc(&mut heap, 8, Reply::Break { before: 4096, start: usize::MAX });
    assert_eq!(step, Step::Ready(0));
    assert!(heap.is_initialized());
    for class in 0..NUM_LIST {
        assert!(heap.free_list(class).is_empty());
    }
    // the class is empty: the next request grows it
    assert_eq!(malloc(&mut heap, 8, Reply::Nothing), Step::NeedBreak(64 * 32));
    assert_eq!(malloc(&mut heap, 512, Reply::Nothing), Step::NeedBreak(536));
    assert_eq!(malloc(&mut heap, 100, Reply::Nothing), Step::NeedBreak(4 * (104 + 24)));
}

#[test]
fn bootstrap_region_that_leaves_the_address_space_fails() {
    let mut heap = Allocator::new();
    let base = usize::MAX - 100;
    assert_eq!(malloc(&mut heap, 8, Reply::Break { before: base, start: base }), Step::Ready(0));
    assert!(heap.is_initialized());
    assert!(heap.free_list(1).is_empty());
}

#[test]
fn freed_block_is_the_next_one_of_its_class() {
    let mut heap = Allocator::new();
    let mut system = System::new();
    let first = allocate(&mut heap, &mut system, 8);
    assert_ne!(first, 0);
    deallocate(&mut heap, &mut system, first);
    let second = allocate(&mut heap, &mut system, 8);
    assert_eq!(second, first);
    for size in [1usize, 9, 24, 100, 255, 256, 505, 512] {
        let a = allocate(&mut heap, &mut system, size);
        let b = allocate(&mut heap, &mut system, size);
        assert_ne!(a, b);
        deallocate(&mut heap, &mut system, a);
        assert_eq!(heap.free_list(get_align(size) / ALIGN)[0], get_header(a));
        assert_eq!(allocate(&mut heap, &mut system, get_align(size)), a);
        deallocate(&mut heap, &mut system, b);
        deallocate(&mut heap, &mut system, a);
        assert_eq!(allocate(&mut heap, &mut system, size), a);
        assert_eq!(allocate(&mut heap, &mut system, size), b);
    }
}

#[test]
fn large_request_is_mapped_and_unmapped_by_its_stored_size() {
    let mut heap = Allocator::new();
    let mut system = System::new();
    let size = 5000;
    let p = allocate(&mut heap, &mut system, size);
    assert_eq!(system.mappings, vec![(0x7000_0000, HEADER_SIZE + size)]);
    assert_eq!(p, 0x7000_0000 + HEADER_SIZE);
    assert_eq!(
        heap.lookup(p),
        Some(Chunk { size: HEADER_SIZE + size, origin: Origin::Mapped })
    );
    assert_eq!(get_header(p), 0x7000_0000);
    let release = free(&mut heap, p);
    assert_eq!(release, Release::Unmap { addr: 0x7000_0000, len: HEADER_SIZE + size });
    assert_eq!(heap.lookup(p), None);
    for class in 0..NUM_LIST {
        assert!(!heap.free_list(class).contains(&0x7000_0000));
    }
}

#[test]
fn threshold_between_classes_and_mappings() {
    let mut heap = Allocator::new();
    let mut system = System::new();
    let p = allocate(&mut heap, &mut system, MAX_BYTE);
    assert_eq!(heap.lookup(p), Some(Chunk { size: 512, origin: Origin::Heap }));
    assert!(system.mappings.is_empty());
    // 513 rounds to 520, beyond the classes: the mapping has the requested size
    assert_eq!(malloc(&mut heap, 513, Reply::Nothing), Step::NeedMapping(mapping(24 + 513)));
    let q = allocate(&mut heap, &mut system, 513);
    assert_eq!(heap.lookup(q), Some(Chunk { size: 537, origin: Origin::Mapped }));
    // 505 rounds to 512
    let r = allocate(&mut heap, &mut system, 505);
    assert_eq!(heap.lookup(r), Some(Chunk { size: 512, origin: Origin::Heap }));
}

#[test]
fn refused_mapping_fails_the_request() {
    let mut heap = Allocator::new();
    let mut system = System::new();
    let _ = allocate(&mut heap, &mut system, 8);
    assert_eq!(malloc(&mut heap, 1000, Reply::NoMapping), Step::Ready(0));
    assert_eq!(malloc(&mut heap, 1000, Reply::Nothing), Step::NeedMapping(mapping(1024)));
    // a reply of the wrong kind counts as none
    assert_eq!(
        malloc(&mut heap, 1000, Reply::Break { before: 0x20_0000, start: 0x20_0000 }),
        Step::NeedMapping(mapping(1024))
    );
}

#[test]
fn mapping_that_cannot_be_used_fails_the_request() {
    let mut heap = Allocator::new();
    let mut system = System::new();
    let p = allocate(&mut heap, &mut system, 8);
    // at the header of a held block
    assert_eq!(malloc(&mut heap, 1000, Reply::Mapping { addr: get_header(p) }), Step::Ready(0));
    assert_eq!(heap.lookup(p), Some(Chunk { size: 8, origin: Origin::Heap }));
    // at the header of a free block
    let free_block = heap.free_list(3)[0];
    assert_eq!(malloc(&mut heap, 1000, Reply::Mapping { addr: free_block }), Step::Ready(0));
    assert_eq!(heap.free_list(3)[0], free_block);
    // beyond the end of the address space
    assert_eq!(
        malloc(&mut heap, 1000, Reply::Mapping { addr: usize::MAX - 1000 }),
        Step::Ready(0)
    );
    assert_eq!(
        malloc(&mut heap, 1000, Reply::Mapping { addr: usize::MAX - 1024 }),
        Step::Ready(usize::MAX - 1000)
    );
}

#[test]
fn every_class_hands_out_blocks_of_its_own_size() {
    let mut heap = Allocator::new();
    let mut system = System::new();
    let mut held = HashSet::new();
    for size in 1..=MAX_BYTE {
        let p = allocate(&mut heap, &mut system, size);
        assert_ne!(p, 0);
        assert!(held.insert(p));
        let rounded = get_align(size);
        assert_eq!(heap.lookup(p), Some(Chunk { size: rounded, origin: Origin::Heap }));
    }
    // freed blocks go back to their own class only
    for p in held.iter() {
        let c = heap.lookup(*p).unwrap();
        deallocate(&mut heap, &mut system, *p);
        for class in 1..NUM_LIST {
            assert_eq!(
                heap.free_list(class).contains(&get_header(*p)),
                class == c.size / ALIGN
            );
        }
    }
}

#[test]
fn reallocate_keeps_the_start_of_the_payload() {
    let mut heap = Allocator::new();
    let mut system = System::new();
    let p = allocate(&mut heap, &mut system, 16);
    let pattern: Vec<u8> = (1..=16).collect();
    system.write(p, &pattern);
    assert_eq!(
        realloc(&mut heap, p, 4, Reply::Nothing),
        Resize::Ready { ptr: 0x10_0000 + HEADER_SIZE, copy: 8, release: Release::Nothing }
    );
    let q = 0x10_0000 + HEADER_SIZE;
    system.copy(q, p, 8);
    assert_eq!(system.read(q, 4), vec![1, 2, 3, 4]);
    assert_eq!(heap.lookup(q), Some(Chunk { size: 8, origin: Origin::Heap }));
    assert_eq!(heap.lookup(p), None);
    assert_eq!(heap.free_list(2)[0], get_header(p));
}

#[test]
fn reallocate_copies_the_lesser_of_old_size_and_rounded_size() {
    let mut heap = Allocator::new();
    let mut system = System::new();
    let p = allocate(&mut heap, &mut system, 24);
    // growing: the old header's size bounds the copy
    match realloc(&mut heap, p, 100, Reply::Nothing) {
        Resize::Ready { ptr, copy, release } => {
            assert_ne!(ptr, 0);
            assert_eq!(copy, 24);
            assert_eq!(release, Release::Nothing);
            assert_eq!(heap.lookup(ptr), Some(Chunk { size: 104, origin: Origin::Heap }));
        }
        other => panic!("{:?}", other),
    }
    // same class: still a new block, never in place
    let a = allocate(&mut heap, &mut system, 40);
    match realloc(&mut heap, a, 33, Reply::Nothing) {
        Resize::Ready { ptr, copy, .. } => {
            assert_ne!(ptr, a);
            assert_eq!(copy, 40);
        }
        other => panic!("{:?}", other),
    }
    // from a mapped block: the stored size is that of the whole mapping
    let m = allocate(&mut heap, &mut system, 1000);
    let q = reallocate(&mut heap, &mut system, m, 2000);
    assert_eq!(heap.lookup(q), Some(Chunk { size: 2024, origin: Origin::Mapped }));
    assert_eq!(system.unmapped, vec![(get_header(m), 1024)]);
    let m2 = allocate(&mut heap, &mut system, 1000);
    match realloc(&mut heap, m2, 64, Reply::Nothing) {
        Resize::Ready { copy, release, .. } => {
            assert_eq!(copy, 64);
            assert_eq!(release, Release::Unmap { addr: get_header(m2), len: 1024 });
        }
        other => panic!("{:?}", other),
    }
    let m3 = allocate(&mut heap, &mut system, 1000);
    let reply = system.map(mapping(24 + 3000));
    match realloc(&mut heap, m3, 2999, reply) {
        Resize::Ready { copy, .. } => assert_eq!(copy, 1024),
        other => panic!("{:?}", other),
    }
}

#[test]
fn reallocate_of_null_only_allocates_the_rounded_size() {
    let mut heap = Allocator::new();
    let mut system = System::new();
    let p = reallocate(&mut heap, &mut system, 0, 13);
    assert_eq!(heap.lookup(p), Some(Chunk { size: 16, origin: Origin::Heap }));
    assert_eq!(realloc(&mut heap, 0, 601, Reply::Nothing), Resize::NeedMapping(mapping(24 + 608)));
    assert_eq!(
        realloc(&mut heap, 0, 601, Reply::Mapping { addr: 0x7000_0000 }),
        Resize::Ready { ptr: 0x7000_0000 + 24, copy: 0, release: Release::Nothing }
    );
    assert_eq!(realloc(&mut heap, 0, 0, Reply::Nothing), Resize::Ready {
        ptr: 0,
        copy: 0,
        release: Release::Nothing
    });
}

#[test]
fn reallocate_to_no_bytes_gives_the_block_back() {
    let mut heap = Allocator::new();
    let mut system = System::new();
    let p = allocate(&mut heap, &mut system, 64);
    assert_eq!(
        realloc(&mut heap, p, 0, Reply::Nothing),
        Resize::Ready { ptr: 0, copy: 0, release: Release::Nothing }
    );
    assert_eq!(heap.lookup(p), None);
    assert_eq!(heap.free_list(8)[0], get_header(p));
}

#[test]
fn reallocate_that_needs_memory_keeps_the_old_block_until_it_comes() {
    let mut heap = Allocator::new();
    let mut system = System::new();
    let p = allocate(&mut heap, &mut system, 64);
    assert_eq!(realloc(&mut heap, p, 4096, Reply::Nothing), Resize::NeedMapping(mapping(24 + 4096)));
    assert_eq!(heap.lookup(p), Some(Chunk { size: 64, origin: Origin::Heap }));
    // the mapping is refused: no bytes are copied, the old block is given back
    assert_eq!(
        realloc(&mut heap, p, 4096, Reply::NoMapping),
        Resize::Ready { ptr: 0, copy: 0, release: Release::Nothing }
    );
    assert_eq!(heap.lookup(p), None);
    assert_eq!(heap.free_list(8)[0], get_header(p));
}

#[test]
fn exhausted_class_grows_and_leaves_the_others_alone() {
    let mut heap = Allocator::new();
    let mut system = System::new();
    let other = allocate(&mut heap, &mut system, 200);
    let class25 = heap.free_list(25);
    let mut held = Vec::new();
    for _ in 0..64 {
        held.push(allocate(&mut heap, &mut system, 8));
    }
    assert!(heap.free_list(1).is_empty());
    assert_eq!(system.breaks, vec![INIT_HEAP_SIZE]);
    // one more: the class asks for its growth step
    assert_eq!(
        malloc(&mut heap, 8, Reply::Nothing),
        Step::NeedBreak(ADD_LIST_SIZE / 8 * (8 + HEADER_SIZE))
    );
    let brk = system.brk;
    let p = allocate(&mut heap, &mut system, 8);
    assert_eq!(system.breaks, vec![INIT_HEAP_SIZE, 2048]);
    assert_eq!(p, brk + HEADER_SIZE);
    assert_eq!(heap.lookup(p), Some(Chunk { size: 8, origin: Origin::Heap }));
    assert!(!held.contains(&p));
    let fresh = heap.free_list(1);
    assert_eq!(fresh.len(), 63);
    for (k, a) in fresh.iter().enumerate() {
        assert_eq!(*a, brk + (k + 1) * 32);
    }
    for q in held.iter() {
        assert_eq!(heap.lookup(*q), Some(Chunk { size: 8, origin: Origin::Heap }));
    }
    assert_eq!(heap.lookup(other), Some(Chunk { size: 200, origin: Origin::Heap }));
    assert_eq!(heap.free_list(25), class25);
}

#[test]
fn growth_fails_on_a_moved_break_and_again_on_the_next_try() {
    let mut heap = Allocator::new();
    let mut system = System::new();
    let mut held = Vec::new();
    for _ in 0..2 {
        held.push(allocate(&mut heap, &mut system, 256));
    }
    assert!(heap.free_list(32).is_empty());
    assert_eq!(malloc(&mut heap, 256, Reply::Nothing), Step::NeedBreak(2 * 280));
    for _ in 0..2 {
        assert_eq!(
            malloc(&mut heap, 256, Reply::Break { before: 0x20_0000, start: 0x20_0008 }),
            Step::Ready(0)
        );
        assert!(heap.free_list(32).is_empty());
        assert_eq!(heap.lookup(held[0]), Some(Chunk { size: 256, origin: Origin::Heap }));
    }
    // a region that collides with a block of the allocator is no use either
    let taken = get_header(held[1]);
    assert_eq!(
        malloc(&mut heap, 256, Reply::Break { before: taken - 280, start: taken - 280 }),
        Step::Ready(0)
    );
    assert!(heap.free_list(32).is_empty());
    // and one that leaves the address space
    assert_eq!(
        malloc(&mut heap, 256, Reply::Break { before: usize::MAX - 500, start: usize::MAX - 500 }),
        Step::Ready(0)
    );
    assert_eq!(
        malloc(&mut heap, 256, Reply::Break { before: 0x20_0000, start: 0x20_0000 }),
        Step::Ready(0x20_0000 + 24)
    );
    assert_eq!(heap.free_list(32), vec![0x20_0000 + 280]);
}

#[test]
fn hundred_blocks_freed_in_reverse_are_all_reused() {
    assert_eq!(ALIGN, 8);
    assert_eq!(MAX_BYTE, 512);
    let mut heap = Allocator::new();
    let mut system = System::new();
    let mut first = Vec::new();
    for _ in 0..100 {
        let p = allocate(&mut heap, &mut system, 8);
        assert_ne!(p, 0);
        first.push(p);
    }
    let distinct: HashSet<usize> = first.iter().copied().collect();
    assert_eq!(distinct.len(), 100);
    for p in first.iter().rev() {
        deallocate(&mut heap, &mut system, *p);
    }
    let breaks = system.breaks.clone();
    let mut second = Vec::new();
    for _ in 0..100 {
        second.push(allocate(&mut heap, &mut system, 8));
    }
    let reused: HashSet<usize> = second.iter().copied().collect();
    assert_eq!(reused.len(), 100);
    assert_eq!(reused, distinct);
    // last freed, first reused: the second batch comes in the order of the first
    assert_eq!(second, first);
    assert_eq!(system.breaks, breaks);
}

#[test]
fn free_of_null_does_nothing() {
    let mut heap = Allocator::new();
    assert_eq!(free(&mut heap, 0), Release::Nothing);
    assert!(!heap.is_initialized());
    let mut system = System::new();
    let p = allocate(&mut heap, &mut system, 8);
    let list = heap.free_list(1);
    assert_eq!(free(&mut heap, 0), Release::Nothing);
    assert_eq!(heap.free_list(1), list);
    assert!(heap.lookup(p).is_some());
}

#[test]
fn headers_thread_the_free_lists() {
    let mut heap = Allocator::new();
    let mut system = System::new();
    let base = system.brk;
    assert!(heap.header(base).is_none());
    let p = allocate(&mut heap, &mut system, 8);
    // the held block: size and origin, marked as held
    let h = heap.header(get_header(p)).unwrap();
    assert_eq!((h.size, h.origin, h.in_use), (8, Origin::Heap, true));
    // the free blocks of class 1 point to one another, the last to none
    let list = heap.free_list(1);
    for (k, a) in list.iter().enumerate() {
        let next = if k + 1 < list.len() { Some(list[k + 1]) } else { None };
        let h: Header = heap.header(*a).unwrap();
        assert_eq!((h.size, h.origin, h.next, h.in_use), (8, Origin::Heap, next, false));
    }
    assert_eq!(heap.header(base + 63 * 32).unwrap().next, None);
    // the one block of the last class points to none
    let last = heap.free_list(64)[0];
    let h = heap.header(last).unwrap();
    assert_eq!((h.size, h.origin, h.next, h.in_use), (512, Origin::Heap, None, false));
    // a freed block points to the block that was first before it
    let first = heap.free_list(1)[0];
    deallocate(&mut heap, &mut system, p);
    let h = heap.header(get_header(p)).unwrap();
    assert_eq!((h.size, h.origin, h.next, h.in_use), (8, Origin::Heap, Some(first), false));
    // a mapped block: the size of the whole mapping
    let m = allocate(&mut heap, &mut system, 700);
    let h = heap.header(get_header(m)).unwrap();
    assert_eq!((h.size, h.origin, h.in_use), (724, Origin::Mapped, true));
    deallocate(&mut heap, &mut system, m);
    assert!(heap.header(get_header(m)).is_none());
    // no header between the blocks
    assert!(heap.header(base + 8).is_none());
}

#[test]
fn lookup_knows_held_blocks_only() {
    let mut heap = Allocator::new();
    let mut system = System::new();
    assert_eq!(heap.lookup(0), None);
    assert_eq!(heap.lookup(23), None);
    assert_eq!(heap.lookup(0x10_0000 + 24), None);
    let p = allocate(&mut heap, &mut system, 8);
    assert_eq!(p, 0x10_0000 + 24);
    assert_eq!(heap.lookup(p), Some(Chunk { size: 8, origin: Origin::Heap }));
    assert_eq!(heap.lookup(p + 1), None);
    assert_eq!(heap.lookup(p + 32), None);
    deallocate(&mut heap, &mut system, p);
    assert_eq!(heap.lookup(p), None);
}

#[test]
fn rounding_goes_up_to_the_next_multiple_of_eight() {
    assert_eq!(get_align(0), 0);
    assert_eq!(get_align(1), 8);
    assert_eq!(get_align(7), 8);
    assert_eq!(get_align(8), 8);
    assert_eq!(get_align(9), 16);
    assert_eq!(get_align(512), 512);
    assert_eq!(get_align(513), 520);
    assert_eq!(get_align(usize::MAX - 7), usize::MAX - 7);
    for size in 0..2000usize {
        let r = get_align(size);
        assert!(r % ALIGN == 0 && r >= size && r < size + ALIGN);
    }
}

#[test]
fn header_lies_right_before_the_payload() {
    assert_eq!(HEADER_SIZE, 24);
    assert_eq!(get_header(24), 0);
    assert_eq!(get_header(4120), 4096);
    assert_eq!(get_header(usize::MAX), usize::MAX - 24);
}

#[test]
fn bulk_allocation_bumps_the_break_below_the_ceiling() {
    assert_eq!(BREAK_CEILING, 69680);
    assert_eq!(calloc(3, 5, 1000), Some(Fill { ptr: 1000, bytes: 15, value: 0 }));
    assert_eq!(calloc(0, 8, 1000), Some(Fill { ptr: 1000, bytes: 0, value: 0 }));
    assert_eq!(calloc(-2, -4, 1000), Some(Fill { ptr: 1000, bytes: 8, value: 0 }));
    assert_eq!(calloc(1, 680, 69000), Some(Fill { ptr: 69000, bytes: 680, value: 0 }));
    assert_eq!(calloc(1, 681, 69000), None);
    assert_eq!(calloc(1, 0, 69680), Some(Fill { ptr: 69680, bytes: 0, value: 0 }));
    assert_eq!(calloc(1, 0, 69681), None);
    assert_eq!(calloc(1, 1, 0x10_0000), None);
    assert_eq!(calloc(isize::MAX, 1, 0), None);
    assert_eq!(calloc(1, isize::MAX, usize::MAX), None);
}

#[test]
fn bulk_allocation_is_zero_filled_by_its_answer() {
    let mut system = System::new();
    system.brk = 4096;
    system.write(4096, &[7u8; 64]);
    let fill = calloc(4, 10, system.brk).unwrap();
    assert_eq!(fill, Fill { ptr: 4096, bytes: 40, value: 0 });
    system.extend(fill.bytes);
    system.write(fill.ptr, &vec![fill.value; fill.bytes]);
    assert_eq!(system.brk, 4136);
    assert_eq!(system.read(fill.ptr, 40), vec![0u8; 40]);
    assert_eq!(system.read(fill.ptr + 40, 1), vec![7u8]);
}

#[test]
fn unmap_failure_is_reported() {
    assert_eq!(unmap_diagnostic(0), None);
    let complaint = Diagnostic { fd: 1, message: "fail munmanp\n" };
    assert_eq!(unmap_diagnostic(-1), Some(complaint));
    assert_eq!(unmap_diagnostic(1), Some(complaint));
    assert_eq!(unmap_diagnostic(i32::MIN), Some(complaint));
}

#[test]
fn demand_leaves_the_allocator_unchanged() {
    let mut heap = Allocator::new();
    let mut system = System::new();
    let p = allocate(&mut heap, &mut system, 512);
    assert!(heap.free_list(64).is_empty());
    let lists: Vec<Vec<usize>> = (0..NUM_LIST).map(|c| heap.free_list(c)).collect();
    assert_eq!(malloc(&mut heap, 512, Reply::Nothing), Step::NeedBreak(536));
    assert_eq!(malloc(&mut heap, 512, Reply::NoMapping), Step::NeedBreak(536));
    assert_eq!(malloc(&mut heap, 9999, Reply::Nothing), Step::NeedMapping(mapping(10023)));
    let unchanged: Vec<Vec<usize>> = (0..NUM_LIST).map(|c| heap.free_list(c)).collect();
    assert_eq!(lists, unchanged);
    assert_eq!(heap.lookup(p), Some(Chunk { size: 512, origin: Origin::Heap }));
}
