use risky::memory::allocator::{FrameAllocator, FreeError, InitError, OutOfMemory, MAX_ORDER};
use risky::memory::frame::Frame;
use risky::memory::PhysAddr;

const START: u64 = 0x8020_0000;
const ZONE: u64 = 0x20_0000;

fn heap(zones: u64) -> FrameAllocator {
    FrameAllocator::init(PhysAddr::new_truncate(START), zones * ZONE).unwrap()
}

fn frame(addr: u64) -> Frame {
    Frame::new(PhysAddr::new_truncate(addr)).unwrap()
}

fn init_err(start: u64, size: u64) -> InitError {
    match FrameAllocator::init(PhysAddr::new_truncate(start), size) {
        Ok(_) => panic!("the heap should be refused"),
        Err(e) => e,
    }
}

#[test]
fn init_refuses_a_small_heap() {
    assert_eq!(init_err(START, 0), InitError::TooSmall);
    assert_eq!(init_err(START, 4096), InitError::TooSmall);
    assert_eq!(init_err(START, ZONE - 1), InitError::TooSmall);
    assert_eq!(init_err(START + 1, ZONE - 4096), InitError::TooSmall);
}

#[test]
fn init_refuses_a_size_that_is_not_whole_pages() {
    assert_eq!(init_err(START, ZONE + 1), InitError::UnalignedSize);
    assert_eq!(init_err(START, 3 * ZONE - 1), InitError::UnalignedSize);
}

#[test]
fn init_refuses_a_size_that_is_not_whole_zones() {
    assert_eq!(init_err(START, ZONE + 4096), InitError::PartialZone);
    assert_eq!(init_err(START, 2 * ZONE - 4096), InitError::PartialZone);
}

#[test]
fn init_refuses_a_start_inside_a_zone() {
    assert_eq!(init_err(START + 4096, ZONE), InitError::UnalignedStart);
    assert_eq!(init_err(START + 1, ZONE), InitError::UnalignedStart);
    assert_eq!(init_err(START + ZONE / 2, 2 * ZONE), InitError::UnalignedStart);
}

#[test]
fn init_refuses_a_heap_beyond_the_address_space() {
    let limit: u64 = 1 << 56;
    assert_eq!(init_err(limit - ZONE, 2 * ZONE), InitError::OutOfRange);
    assert_eq!(init_err(START, limit), InitError::OutOfRange);
    assert!(FrameAllocator::init(PhysAddr::new_truncate(limit - ZONE), ZONE).is_ok());
}

#[test]
fn init_makes_every_page_free() {
    let a = heap(1);
    assert_eq!(a.heap_start(), START);
    assert_eq!(a.heap_size(), ZONE);
    assert_eq!(a.free_pages(), 512);
    assert!(a.is_free(frame(START), 9));
    assert!(!a.is_free(frame(START), 8));
    assert!(!a.is_allocated(frame(START), 9));
    let b = heap(3);
    assert_eq!(b.heap_size(), 3 * ZONE);
    assert_eq!(b.free_pages(), 3 * 512);
    for z in 0..3 {
        assert!(b.is_free(frame(START + z * ZONE), 9));
    }
    assert!(!b.is_free(frame(START + 3 * ZONE), 9));
}

#[test]
fn a_heap_of_one_zone_gives_512_pages_and_no_more() {
    let mut a = heap(1);
    let mut seen = vec![false; 512];
    for left in (0..512u64).rev() {
        let f = a.allocate(0).unwrap();
        let addr = f.start_address().as_u64();
        assert_eq!(addr % 4096, 0);
        assert!(addr >= START && addr < START + ZONE);
        let page = ((addr - START) / 4096) as usize;
        assert!(!seen[page], "page {} was handed out twice", page);
        seen[page] = true;
        assert_eq!(a.free_pages(), left);
        assert!(a.is_allocated(f, 0));
    }
    assert!(seen.iter().all(|s| *s));
    assert!(matches!(a.allocate(0), Err(OutOfMemory)));
    assert!(matches!(a.allocate(0), Err(OutOfMemory)));
    assert_eq!(a.free_pages(), 0);
}

#[test]
fn a_heap_of_two_zones_gives_1024_pages_and_no_more() {
    let mut a = heap(2);
    let mut count = 0;
    while a.allocate(0).is_ok() {
        count += 1;
        assert!(count <= 1024);
    }
    assert_eq!(count, 1024);
    assert_eq!(a.heap_size() / 4096, 1024);
}

#[test]
fn allocate_then_free_restores_the_free_lists() {
    for order in 0..MAX_ORDER {
        let mut a = heap(2);
        let kept = a.allocate(3).unwrap();
        let pages = a.free_pages();
        let state = |a: &FrameAllocator| {
            let mut free = Vec::new();
            for k in 0..MAX_ORDER {
                for page in 0..(1024u64 >> k) {
                    let f = frame(START + (page << k) * 4096);
                    free.push(a.is_free(f, k));
                }
            }
            free
        };
        let before = state(&a);
        let f = a.allocate(order).unwrap();
        assert_eq!(a.free_pages(), pages - (1 << order));
        assert_ne!(state(&a), before);
        assert_eq!(a.free(f, order), Ok(()));
        assert_eq!(a.free_pages(), pages);
        assert_eq!(state(&a), before);
        assert!(a.is_allocated(kept, 3));
    }
}

#[test]
fn the_first_page_comes_from_a_split_zone() {
    let mut a = heap(1);
    let f = a.allocate(0).unwrap();
    assert_eq!(f.start_address().as_u64(), START);
    assert!(!a.is_free(frame(START), 9));
    for k in 0..9u32 {
        assert!(a.is_free(frame(START + (4096 << k)), k), "the upper half of order {}", k);
        assert!(!a.is_free(frame(START), k));
    }
    assert_eq!(a.free_pages(), 511);
}

#[test]
fn freeing_one_buddy_leaves_the_pair_split() {
    for first in [0usize, 1] {
        let mut a = heap(1);
        let pages: Vec<Frame> = (0..4).map(|_| a.allocate(0).unwrap()).collect();
        let mut at: Vec<u64> = pages.iter().map(|f| f.start_address().as_u64()).collect();
        at.sort();
        assert_eq!(at, vec![START, START + 4096, START + 2 * 4096, START + 3 * 4096]);
        let pair = [frame(START), frame(START + 4096)];
        let free = a.free_pages();

        assert_eq!(a.free(pair[first], 0), Ok(()));
        assert!(a.is_free(pair[first], 0));
        assert!(a.is_allocated(pair[1 - first], 0));
        assert!(!a.is_free(frame(START), 1));
        assert_eq!(a.free_pages(), free + 1);

        assert_eq!(a.free(pair[1 - first], 0), Ok(()));
        assert!(a.is_free(frame(START), 1));
        assert!(!a.is_free(pair[0], 0));
        assert!(!a.is_free(pair[1], 0));
        assert!(!a.is_allocated(pair[0], 0));
        assert!(!a.is_allocated(pair[1], 0));
        assert!(!a.is_free(frame(START), 2));
        assert_eq!(a.free_pages(), free + 2);
    }
}

#[test]
fn freeing_everything_gives_the_zone_back() {
    let mut a = heap(1);
    let pages: Vec<Frame> = (0..512).map(|_| a.allocate(0).unwrap()).collect();
    for f in pages.iter().rev() {
        assert_eq!(a.free(*f, 0), Ok(()));
    }
    assert_eq!(a.free_pages(), 512);
    assert!(a.is_free(frame(START), 9));
    let whole = a.allocate(9).unwrap();
    assert_eq!(whole.start_address().as_u64(), START);
    assert!(matches!(a.allocate(0), Err(OutOfMemory)));
}

#[test]
fn blocks_of_every_order_are_aligned_to_their_size() {
    let mut a = heap(4);
    let mut taken: Vec<(u64, u64)> = Vec::new();
    for order in [0u32, 3, 1, 9, 5, 0, 8, 2, 7, 4, 6] {
        let f = a.allocate(order).unwrap();
        let addr = f.start_address().as_u64();
        let size = 4096u64 << order;
        assert_eq!(addr % size, 0);
        assert!(addr >= START && addr + size <= START + 4 * ZONE);
        for (other, len) in &taken {
            assert!(addr + size <= *other || other + len <= addr, "blocks overlap");
        }
        taken.push((addr, size));
        assert!(a.is_allocated(f, order));
    }
}

#[test]
fn allocate_fails_only_when_nothing_large_enough_is_free() {
    let mut a = heap(1);
    assert!(matches!(a.allocate(MAX_ORDER), Err(OutOfMemory)));
    assert!(matches!(a.allocate(u32::MAX), Err(OutOfMemory)));
    assert_eq!(a.free_pages(), 512);
    let one = a.allocate(0).unwrap();
    assert!(matches!(a.allocate(9), Err(OutOfMemory)));
    let half = a.allocate(8).unwrap();
    assert_eq!(half.start_address().as_u64(), START + ZONE / 2);
    assert!(matches!(a.allocate(8), Err(OutOfMemory)));
    assert!(a.allocate(7).is_ok());
    assert_eq!(a.free(one, 0), Ok(()));
    assert_eq!(a.free(half, 8), Ok(()));
    assert!(a.allocate(8).is_ok());
}

#[test]
fn free_refuses_what_is_not_allocated() {
    let mut a = heap(1);
    let f = a.allocate(2).unwrap();
    let pages = a.free_pages();
    assert_eq!(a.free(f, 1), Err(FreeError::NotAllocated));
    assert_eq!(a.free(f, 3), Err(FreeError::NotAllocated));
    assert_eq!(a.free(f, MAX_ORDER), Err(FreeError::NotAllocated));
    assert_eq!(a.free(frame(START + 4096), 2), Err(FreeError::NotAllocated));
    assert_eq!(a.free(frame(START - 4096), 2), Err(FreeError::NotAllocated));
    assert_eq!(a.free(frame(START + ZONE), 2), Err(FreeError::NotAllocated));
    assert_eq!(a.free(frame(0), 0), Err(FreeError::NotAllocated));
    assert_eq!(a.free_pages(), pages);
    assert!(a.is_allocated(f, 2));
    assert_eq!(a.free(f, 2), Ok(()));
    assert_eq!(a.free(f, 2), Err(FreeError::NotAllocated));
    assert_eq!(a.free_pages(), 512);
}
