use risky::memory::allocator::{FrameAllocator, InitError};
use risky::memory::frame::Frame;
use risky::memory::init_paging;
use risky::memory::mapper::{MapError, Mapper, NotMapped};
use risky::memory::page::{EntryFlags, Page, TableEntryFlags};
use risky::memory::{PhysAddr, VirtAddr};

const START: u64 = 0x8020_0000;
const ZONE: u64 = 0x20_0000;

fn setup() -> (FrameAllocator, Mapper) {
    init_paging(START, ZONE).unwrap()
}

fn page(addr: u64) -> Page {
    Page::new(VirtAddr::new_truncate(addr)).unwrap()
}

fn frame(addr: u64) -> Frame {
    Frame::new(PhysAddr::new_truncate(addr)).unwrap()
}

fn flags(preset: TableEntryFlags) -> EntryFlags {
    EntryFlags::new(preset.bits())
}

fn translate(m: &Mapper, addr: u64) -> Option<u64> {
    m.translate(VirtAddr::new_truncate(addr)).map(|p| p.as_u64())
}

#[test]
fn map_then_translate() {
    let (mut alloc, mut m) = setup();
    let r = m.map(&mut alloc, page(0x1000), frame(0x8000_1000), flags(TableEntryFlags::ReadWrite));
    assert_eq!(r, Ok(()));
    assert_eq!(translate(&m, 0x1000 + 0x123), Some(0x8000_1000 + 0x123));
    assert_eq!(translate(&m, 0x1000), Some(0x8000_1000));
    assert_eq!(translate(&m, 0x1FFF), Some(0x8000_1FFF));
    assert_eq!(translate(&m, 0x0FFF), None);
    assert_eq!(translate(&m, 0x2000), None);
}

#[test]
fn nothing_is_mapped_at_first() {
    let (alloc, m) = setup();
    for addr in [0u64, 0x1000, 0x3F_FFFF_F000, 0xFFFF_FFC0_0000_0000, u64::MAX] {
        assert_eq!(translate(&m, addr), None);
    }
    assert!(m.is_backed_by(&alloc));
    assert_eq!(alloc.free_pages(), 512);
}

#[test]
fn tables_are_made_on_the_way() {
    let (mut alloc, mut m) = setup();
    let rw = flags(TableEntryFlags::ReadWrite);
    assert_eq!(m.map(&mut alloc, page(0x1000), frame(0x9000_0000), rw), Ok(()));
    assert_eq!(alloc.free_pages(), 510);
    assert_eq!(m.map(&mut alloc, page(0x2000), frame(0x9000_1000), rw), Ok(()));
    assert_eq!(alloc.free_pages(), 510);
    assert_eq!(m.map(&mut alloc, page(0x20_0000), frame(0x9000_2000), rw), Ok(()));
    assert_eq!(alloc.free_pages(), 509);
    assert_eq!(m.map(&mut alloc, page(0x4000_0000), frame(0x9000_3000), rw), Ok(()));
    assert_eq!(alloc.free_pages(), 507);
    assert_eq!(m.map(&mut alloc, page(0xFFFF_FFFF_FFFF_F000), frame(0x9000_4000), rw), Ok(()));
    assert_eq!(alloc.free_pages(), 505);
    assert!(m.is_backed_by(&alloc));

    assert_eq!(translate(&m, 0x1008), Some(0x9000_0008));
    assert_eq!(translate(&m, 0x2FFF), Some(0x9000_1FFF));
    assert_eq!(translate(&m, 0x20_0010), Some(0x9000_2010));
    assert_eq!(translate(&m, 0x4000_0abc), Some(0x9000_3abc));
    assert_eq!(translate(&m, u64::MAX), Some(0x9000_4FFF));
    assert_eq!(translate(&m, 0x7F_FFFF_F123), Some(0x9000_4123));
    assert_eq!(translate(&m, 0x3000), None);
    assert_eq!(translate(&m, 0x20_1000), None);
    assert_eq!(translate(&m, 0x4000_1000), None);
}

#[test]
fn table_frames_come_from_the_allocator() {
    let (mut alloc, mut m) = setup();
    let rw = flags(TableEntryFlags::ReadWrite);
    assert!(!m.is_table_frame(frame(START)));
    assert_eq!(m.map(&mut alloc, page(0x1000), frame(0x9000_0000), rw), Ok(()));
    let mut tables = 0;
    for p in 0..512u64 {
        let f = frame(START + p * 4096);
        if m.is_table_frame(f) {
            tables += 1;
            assert!(alloc.is_allocated(f, 0));
        }
    }
    assert_eq!(tables, 2);
    assert!(!m.is_table_frame(frame(0x9000_0000)));
    assert!(m.is_backed_by(&alloc));
}

#[test]
fn a_mapped_page_is_not_mapped_again() {
    let (mut alloc, mut m) = setup();
    let rw = flags(TableEntryFlags::ReadWrite);
    assert_eq!(m.map(&mut alloc, page(0x5000), frame(0x9000_0000), rw), Ok(()));
    let free = alloc.free_pages();
    assert_eq!(
        m.map(&mut alloc, page(0x5000), frame(0x9000_1000), rw),
        Err(MapError::AlreadyMapped)
    );
    assert_eq!(
        m.map(&mut alloc, page(0x5000), frame(0x9000_0000), flags(TableEntryFlags::ReadExecute)),
        Err(MapError::AlreadyMapped)
    );
    assert_eq!(translate(&m, 0x5004), Some(0x9000_0004));
    assert_eq!(m.map(&mut alloc, page(0x5000), frame(0x9000_0000), rw), Ok(()));
    assert_eq!(
        m.map(&mut alloc, page(0x5000), frame(0x9000_0000), EntryFlags::new(0x07)),
        Ok(())
    );
    assert_eq!(translate(&m, 0x5004), Some(0x9000_0004));
    assert_eq!(alloc.free_pages(), free);
}

#[test]
fn flags_that_make_no_leaf_are_refused() {
    let (mut alloc, mut m) = setup();
    for bits in [0x00u8, 0x01, 0x04, 0x05, 0x0C, 0x0D, 0x10, 0xF1, 0xF4] {
        assert_eq!(
            m.map(&mut alloc, page(0x1000), frame(0x9000_0000), EntryFlags::new(bits)),
            Err(MapError::InvalidFlags)
        );
    }
    assert_eq!(alloc.free_pages(), 512);
    assert_eq!(translate(&m, 0x1000), None);
    for (i, bits) in [0x02u8, 0x06, 0x08, 0x0A, 0x0E, 0x1E, 0xFF].into_iter().enumerate() {
        let at = 0x1000 * (i as u64 + 1);
        assert_eq!(
            m.map(&mut alloc, page(at), frame(0x9000_0000), EntryFlags::new(bits)),
            Ok(())
        );
        assert_eq!(translate(&m, at), Some(0x9000_0000));
    }
}

#[test]
fn map_fails_without_frames_for_tables() {
    let (mut alloc, mut m) = setup();
    let rw = flags(TableEntryFlags::ReadWrite);
    assert_eq!(m.map(&mut alloc, page(0x1000), frame(0x9000_0000), rw), Ok(()));
    while alloc.free_pages() > 1 {
        alloc.allocate(0).unwrap();
    }
    assert_eq!(
        m.map(&mut alloc, page(0x4000_0000), frame(0x9000_1000), rw),
        Err(MapError::OutOfMemory)
    );
    assert_eq!(alloc.free_pages(), 0);
    assert_eq!(translate(&m, 0x4000_0000), None);
    assert_eq!(translate(&m, 0x1000), Some(0x9000_0000));
    assert_eq!(
        m.map(&mut alloc, page(0x20_0000), frame(0x9000_1000), rw),
        Err(MapError::OutOfMemory)
    );
    assert_eq!(m.map(&mut alloc, page(0x3000), frame(0x9000_3000), rw), Ok(()));
    assert_eq!(translate(&m, 0x3000), Some(0x9000_3000));
    assert!(m.is_backed_by(&alloc));
}

#[test]
fn unmap_gives_the_frame_back() {
    let (mut alloc, mut m) = setup();
    let rx = flags(TableEntryFlags::ReadExecute);
    assert!(matches!(m.unmap(page(0x7000)), Err(NotMapped)));
    assert_eq!(m.map(&mut alloc, page(0x7000), frame(0x9000_7000), rx), Ok(()));
    assert_eq!(m.map(&mut alloc, page(0x8000), frame(0x9000_8000), rx), Ok(()));
    let free = alloc.free_pages();
    let f = m.unmap(page(0x7000)).unwrap();
    assert_eq!(f.start_address().as_u64(), 0x9000_7000);
    assert_eq!(translate(&m, 0x7000), None);
    assert_eq!(translate(&m, 0x8000), Some(0x9000_8000));
    assert!(matches!(m.unmap(page(0x7000)), Err(NotMapped)));
    assert!(matches!(m.unmap(page(0x4000_0000)), Err(NotMapped)));
    assert!(matches!(m.unmap(page(0x20_0000)), Err(NotMapped)));
    assert_eq!(alloc.free_pages(), free);
    assert_eq!(m.map(&mut alloc, page(0x7000), frame(0x9000_9000), rx), Ok(()));
    assert_eq!(translate(&m, 0x7001), Some(0x9000_9001));
    assert_eq!(alloc.free_pages(), free);
}

#[test]
fn a_frame_from_the_allocator_can_be_mapped_and_freed() {
    let (mut alloc, mut m) = setup();
    let data = alloc.allocate(0).unwrap();
    let rw = flags(TableEntryFlags::ReadWriteU);
    assert_eq!(m.map(&mut alloc, page(0x1000), data, rw), Ok(()));
    assert!(alloc.is_allocated(data, 0));
    assert_eq!(alloc.free_pages(), 509);
    assert_eq!(translate(&m, 0x1010), Some(data.start_address().as_u64() + 0x10));
    let back = m.unmap(page(0x1000)).unwrap();
    assert!(back == data);
    assert!(!m.is_table_frame(back));
    assert_eq!(alloc.free(back, 0), Ok(()));
    assert!(m.is_backed_by(&alloc));
}

#[test]
fn a_freed_table_frame_is_noticed() {
    let (mut alloc, mut m) = setup();
    let rw = flags(TableEntryFlags::ReadWrite);
    assert_eq!(m.map(&mut alloc, page(0x1000), frame(0x9000_0000), rw), Ok(()));
    let table = (0..512u64)
        .map(|p| frame(START + p * 4096))
        .find(|f| m.is_table_frame(*f))
        .unwrap();
    assert_eq!(alloc.free(table, 0), Ok(()));
    assert!(!m.is_backed_by(&alloc));
}

#[test]
fn init_paging_checks_the_heap() {
    assert!(init_paging(START, 4 * ZONE).is_ok());
    let err = |start: u64, size: u64| match init_paging(start, size) {
        Ok(_) => panic!("the heap should be refused"),
        Err(e) => e,
    };
    assert_eq!(err(START, 4096), InitError::TooSmall);
    assert_eq!(err(START, ZONE + 1), InitError::UnalignedSize);
    assert_eq!(err(START, ZONE + 4096), InitError::PartialZone);
    assert_eq!(err(START + 4096, ZONE), InitError::UnalignedStart);
    assert_eq!(err(1 << 56, ZONE), InitError::OutOfRange);
    assert_eq!(err((1 << 56) + START, ZONE), InitError::OutOfRange);
    assert_eq!(err((1 << 56) + 4096, ZONE), InitError::UnalignedStart);
    assert_eq!(err(1 << 60, 12), InitError::TooSmall);
    assert_eq!(err((1 << 56) - ZONE, 2 * ZONE), InitError::OutOfRange);
    let (alloc, m) = init_paging(START, 2 * ZONE).unwrap();
    assert_eq!(alloc.free_pages(), 1024);
    assert_eq!(alloc.heap_start(), START);
    assert!(m.is_backed_by(&alloc));
}
