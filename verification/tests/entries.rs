use risky::memory::frame::Frame;
use risky::memory::page::{
    AddressNotAligned, EntryError, EntryFlags, Page, PageTable, PageTableEntry, Size2Mib,
    Size4Kib, TableEntryFlags, WalkStep,
};
use risky::memory::{PhysAddr, VirtAddr};

#[test]
fn preset_bits() {
    assert_eq!(TableEntryFlags::Empty.bits(), 0);
    assert_eq!(TableEntryFlags::Valid.bits(), 1);
    assert_eq!(TableEntryFlags::Read.bits(), 2);
    assert_eq!(TableEntryFlags::Write.bits(), 4);
    assert_eq!(TableEntryFlags::Execute.bits(), 8);
    assert_eq!(TableEntryFlags::User.bits(), 16);
    assert_eq!(TableEntryFlags::Global.bits(), 32);
    assert_eq!(TableEntryFlags::Accessed.bits(), 64);
    assert_eq!(TableEntryFlags::Dirty.bits(), 128);
    assert_eq!(TableEntryFlags::ReadWrite.bits(), 0x06);
    assert_eq!(TableEntryFlags::ReadExecute.bits(), 0x0A);
    assert_eq!(TableEntryFlags::Rwx.bits(), 0x0E);
    assert_eq!(TableEntryFlags::ReadWriteU.bits(), 0x16);
    assert_eq!(TableEntryFlags::ReadExecuteU.bits(), 0x1A);
    assert_eq!(TableEntryFlags::RwxU.bits(), 0x1E);
    assert_eq!(!TableEntryFlags::ReadWrite, 0xF9);
}

#[test]
fn every_flag_is_read_as_its_own_bit() {
    for bits in 0..=255u8 {
        let f = EntryFlags::new(bits);
        assert_eq!(f.as_u8(), bits);
        assert_eq!(f.is_valid(), bits & 0x01 != 0);
        assert_eq!(f.is_read(), bits & 0x02 != 0);
        assert_eq!(f.is_write(), bits & 0x04 != 0);
        assert_eq!(f.is_execute(), bits & 0x08 != 0);
        assert_eq!(f.is_user(), bits & 0x10 != 0);
        assert_eq!(f.is_global(), bits & 0x20 != 0);
        assert_eq!(f.is_accessed(), bits & 0x40 != 0);
        assert_eq!(f.is_dirty(), bits & 0x80 != 0);
    }
}

#[test]
fn flag_setters_change_one_flag() {
    for bits in [0u8, 0xFF, 0xA5, 0x5A] {
        for val in [false, true] {
            let put = |mask: u8| if val { bits | mask } else { bits & !mask };
            let mut f = EntryFlags::new(bits);
            f.set_valid(val);
            assert_eq!(f.as_u8(), put(0x01));
            let mut f = EntryFlags::new(bits);
            f.set_read(val);
            assert_eq!(f.as_u8(), put(0x02));
            let mut f = EntryFlags::new(bits);
            f.set_write(val);
            assert_eq!(f.as_u8(), put(0x04));
            let mut f = EntryFlags::new(bits);
            f.set_execute(val);
            assert_eq!(f.as_u8(), put(0x08));
            let mut f = EntryFlags::new(bits);
            f.set_user(val);
            assert_eq!(f.as_u8(), put(0x10));
            let mut f = EntryFlags::new(bits);
            f.set_global(val);
            assert_eq!(f.as_u8(), put(0x20));
            let mut f = EntryFlags::new(bits);
            f.set_accessed(val);
            assert_eq!(f.as_u8(), put(0x40));
            let mut f = EntryFlags::new(bits);
            f.set_dirty(val);
            assert_eq!(f.as_u8(), put(0x80));
        }
    }
}

#[test]
fn set_field_takes_presets() {
    let mut f = EntryFlags::new(0x81);
    f.set_field(TableEntryFlags::RwxU, true);
    assert_eq!(f.as_u8(), 0x9F);
    f.set_field(TableEntryFlags::ReadWrite, false);
    assert_eq!(f.as_u8(), 0x99);
    f.set_field(TableEntryFlags::Empty, true);
    assert_eq!(f.as_u8(), 0x99);
    f.set_field(TableEntryFlags::Empty, false);
    assert_eq!(f.as_u8(), 0x99);
}

#[test]
fn flag_operators() {
    let mut f = EntryFlags::new(0x03);
    assert_eq!(f & TableEntryFlags::Rwx, 0x02);
    assert_eq!(f & 0x01u8, 0x01);
    f |= TableEntryFlags::Execute;
    assert_eq!(f.as_u8(), 0x0B);
    f &= 0x0Au8;
    assert_eq!(f.as_u8(), 0x0A);
    f &= !TableEntryFlags::Read;
    assert_eq!(f.as_u8(), 0x08);
}

#[test]
fn entry_new_clears_the_top_ten_bits() {
    assert_eq!(PageTableEntry::new(u64::MAX).as_u64(), 0x003F_FFFF_FFFF_FFFF);
    assert_eq!(PageTableEntry::new(0).as_u64(), 0);
    assert_eq!(PageTableEntry::new(0xFFC0_0000_0000_0005).as_u64(), 5);
    assert!(PageTableEntry::new(0).is_free());
    assert!(!PageTableEntry::new(1).is_free());
}

#[test]
fn entry_set_rejects_write_without_read() {
    for low in 0..16u64 {
        let reserved = low & 0x4 != 0 && low & 0x2 == 0;
        for high in [0u64, 0x2000_0400, 0xFFFF_FFFF_FFFF_FFF0] {
            let raw = (high & !0xF) | low;
            let mut e = PageTableEntry::new(0x2F);
            let r = e.set(raw);
            if reserved {
                assert_eq!(r, Err(EntryError::ReservedEncoding));
                assert_eq!(e.as_u64(), 0x2F);
            } else {
                assert_eq!(r, Ok(()));
                assert_eq!(e.as_u64(), raw);
            }
        }
    }
}

#[test]
fn entry_set_names_the_reserved_triples() {
    let mut e = PageTableEntry::new(0);
    assert_eq!(e.set(0b0100), Err(EntryError::ReservedEncoding));
    assert_eq!(e.set(0b1100), Err(EntryError::ReservedEncoding));
    assert_eq!(e.set(0b0101), Err(EntryError::ReservedEncoding));
    assert_eq!(e.set(0b1101), Err(EntryError::ReservedEncoding));
    assert!(e.is_free());
    for ok in [0b0000u64, 0b0010, 0b0110, 0b1000, 0b1010, 0b1110] {
        assert_eq!(e.set(ok), Ok(()));
        assert_eq!(e.as_u64(), ok);
    }
}

#[test]
fn entry_fields_round_trip() {
    for (p0, p1, p2) in [(0u32, 0u32, 0u32), (0xAA, 0x155, 0x2AB_CDEF), (511, 511, 0x3FF_FFFF), (1, 0, 2)] {
        for flags in [0x01u64, 0x0F, 0xCF, 0xFB] {
            let raw = (p2 as u64) << 28 | (p1 as u64) << 19 | (p0 as u64) << 10 | 2 << 8 | flags;
            let mut e = PageTableEntry::new(0);
            assert_eq!(e.set(raw), Ok(()));
            assert_eq!(e.ppn_parts(), [p0, p1, p2]);
            assert_eq!(e.ppn_0(), p0);
            assert_eq!(e.ppn_1(), p1);
            assert_eq!(e.ppn_2(), p2);
            assert_eq!(e.flags().as_u8() as u64, flags);
        }
    }
    let e = PageTableEntry::new(0x002A_BCDE_FAAA_AACF);
    assert_eq!(e.ppn_parts(), [0xAA, 0x155, 0x2AB_CDEF]);
    assert_eq!(e.flags().as_u8(), 0xCF);
}

#[test]
fn entry_kinds() {
    let leaf = PageTableEntry::new(0x2000_0407);
    assert!(leaf.is_valid());
    assert!(leaf.is_leaf());
    assert!(!leaf.is_branch());
    assert!(!leaf.is_free());
    let branch = PageTableEntry::new(0x2000_0401);
    assert!(branch.is_valid());
    assert!(!branch.is_leaf());
    assert!(branch.is_branch());
    let mut free = PageTableEntry::new(0x2000_0407);
    free.set_free();
    assert!(free.is_free());
    assert_eq!(free.as_u64(), 0);
    assert!(!free.is_valid());
    assert!(free.is_branch());
    free.set_free();
    assert_eq!(free.as_u64(), 0);
    let execute_only = PageTableEntry::new(0x9);
    assert!(execute_only.is_leaf());
}

#[test]
fn entry_pack_and_address() {
    let raw = PageTableEntry::pack(PhysAddr::new_truncate(0x8000_1000), EntryFlags::new(0x07));
    assert_eq!(raw, 0x2000_0407);
    let e = PageTableEntry::new(raw);
    assert_eq!(e.address().as_u64(), 0x8000_1000);
    assert_eq!(e.flags().as_u8(), 0x07);
    let inside = PageTableEntry::pack(PhysAddr::new_truncate(0x8000_1FFF), EntryFlags::new(0x01));
    assert_eq!(inside, 0x2000_0401);
    let top = PageTableEntry::pack(PhysAddr::new_truncate(u64::MAX), EntryFlags::new(0xFF));
    assert_eq!(top, 0x003F_FFFF_FFFF_FCFF);
    assert_eq!(PageTableEntry::new(top).address().as_u64(), 0x00FF_FFFF_FFFF_F000);
}

#[test]
fn pages_must_be_aligned() {
    let small: Result<Page<Size4Kib>, _> = Page::new(VirtAddr::new_truncate(0x1000));
    let small = small.unwrap();
    assert_eq!(small.start_address().as_u64(), 0x1000);
    assert_eq!(small.size(), 4096);
    let off: Result<Page<Size4Kib>, _> = Page::new(VirtAddr::new_truncate(0x1001));
    assert!(matches!(off, Err(AddressNotAligned)));
    let late: Result<Page<Size4Kib>, _> = Page::new(VirtAddr::new_truncate(0x1FFF));
    assert!(late.is_err());

    let big: Result<Page<Size2Mib>, _> = Page::new(VirtAddr::new_truncate(0x40_0000));
    let big = big.unwrap();
    assert_eq!(big.size(), 0x20_0000);
    assert_eq!(big.start_address().as_u64(), 0x40_0000);
    let not_big: Result<Page<Size2Mib>, _> = Page::new(VirtAddr::new_truncate(0x1000));
    assert!(not_big.is_err());
    let high: Result<Page<Size4Kib>, _> = Page::new(VirtAddr::new_truncate(0xFFFF_FFFF_FFFF_F000));
    assert!(high.is_ok());
    let zero: Page = Page::new(VirtAddr::new_truncate(0)).unwrap();
    assert_eq!(zero.start_address().as_u64(), 0);
}

#[test]
fn frames_must_be_aligned() {
    let small: Frame = Frame::new(PhysAddr::new_truncate(0x8000_1000)).unwrap();
    assert_eq!(small.start_address().as_u64(), 0x8000_1000);
    assert_eq!(small.size(), 4096);
    let off: Result<Frame<Size4Kib>, _> = Frame::new(PhysAddr::new_truncate(0x8000_1004));
    assert!(matches!(off, Err(AddressNotAligned)));
    let big: Frame<Size2Mib> = Frame::new(PhysAddr::new_truncate(0x8020_0000)).unwrap();
    assert_eq!(big.size(), 0x20_0000);
    let not_big: Result<Frame<Size2Mib>, _> = Frame::new(PhysAddr::new_truncate(0x8020_1000));
    assert!(not_big.is_err());
    let copy = small;
    assert!(copy == small);
}

#[test]
fn a_new_table_is_free() {
    let t = PageTable::new();
    for i in 0..512 {
        assert!(t.entry(i).is_free());
        assert!(matches!(t.walk(i), WalkStep::Missing));
    }
}

#[test]
fn table_entries_change_in_place() {
    let mut t = PageTable::new();
    assert_eq!(t.entry_mut(7).set(0x2000_0407), Ok(()));
    assert_eq!(t.entry_mut(8).set(0x2000_0801), Ok(()));
    assert_eq!(t.entry_mut(9).set(0x2000_0406), Ok(()));
    assert_eq!(t.entry_mut(10).set(0x5), Err(EntryError::ReservedEncoding));
    assert_eq!(t.entry(7).as_u64(), 0x2000_0407);
    assert_eq!(t.entry(6).as_u64(), 0);
    assert_eq!(t.entry(10).as_u64(), 0);
    match t.walk(7) {
        WalkStep::Leaf(e) => assert_eq!(e.as_u64(), 0x2000_0407),
        _ => panic!("a leaf was written"),
    }
    match t.walk(8) {
        WalkStep::Table(next) => assert_eq!(next.as_u64(), 0x8000_2000),
        _ => panic!("a table entry was written"),
    }
    assert!(matches!(t.walk(9), WalkStep::Missing));
    t.entry_mut(7).set_free();
    assert!(t.entry(7).is_free());
    assert!(matches!(t.walk(7), WalkStep::Missing));
}
