use risky::memory::{PhysAddr, VirtAddr};

fn is_canonical(a: u64) -> bool {
    let top = a >> 38;
    top == 0 || top == 0x3FF_FFFF
}

const SAMPLES: [u64; 12] = [
    0,
    1,
    0x1000,
    0x3F_FFFF_FFFF,
    0x40_0000_0000,
    0x7F_FFFF_FFFF,
    0x80_0000_0000,
    0x7F_C020_1123,
    0x0123_4567_89AB_CDEF,
    0x8000_0000_0000_0000,
    0xFFFF_FFC0_0000_0000,
    0xFFFF_FFFF_FFFF_FFFF,
];

#[test]
fn virt_new_truncate_is_canonical() {
    for a in SAMPLES {
        let v = VirtAddr::new_truncate(a).as_u64();
        assert!(is_canonical(v), "{:#x} -> {:#x}", a, v);
        assert_eq!(v & 0x7F_FFFF_FFFF, a & 0x7F_FFFF_FFFF);
    }
}

#[test]
fn virt_new_truncate_exact_values() {
    assert_eq!(VirtAddr::new_truncate(0x1000).as_u64(), 0x1000);
    assert_eq!(VirtAddr::new_truncate(0x3F_FFFF_FFFF).as_u64(), 0x3F_FFFF_FFFF);
    assert_eq!(VirtAddr::new_truncate(0x40_0000_0000).as_u64(), 0xFFFF_FFC0_0000_0000);
    assert_eq!(VirtAddr::new_truncate(0x80_0000_0000).as_u64(), 0);
    assert_eq!(VirtAddr::new_truncate(0x7F_C020_1123).as_u64(), 0xFFFF_FFFF_C020_1123);
    assert_eq!(VirtAddr::new_truncate(0x0123_4567_89AB_CDEF).as_u64(), 0xFFFF_FFE7_89AB_CDEF);
    assert_eq!(VirtAddr::new_truncate(u64::MAX).as_u64(), u64::MAX);
}

#[test]
fn virt_new_truncate_keeps_canonical_input() {
    for a in [0u64, 0x1000, 0x3F_FFFF_FFFF, 0xFFFF_FFC0_0000_0000, u64::MAX] {
        assert_eq!(VirtAddr::new_truncate(a).as_u64(), a);
    }
}

#[test]
fn virt_fields_exact_values() {
    let v = VirtAddr::new_truncate(0x0123_4567_89AB_CDEF);
    assert_eq!(v.page_offset(), 0xDEF);
    assert_eq!(v.vpn_0(), 188);
    assert_eq!(v.vpn_1(), 77);
    assert_eq!(v.vpn_2(), 414);
    assert_eq!(v.parts(), [188, 77, 414]);

    let w = VirtAddr::new_truncate(0x7F_C020_1123);
    assert_eq!(w.page_offset(), 0x123);
    assert_eq!(w.parts(), [1, 1, 511]);

    let top = VirtAddr::new_truncate(0x40_0000_0000);
    assert_eq!(top.parts(), [0, 0, 256]);
    assert_eq!(top.page_offset(), 0);
}

#[test]
fn virt_parts_reassemble_the_low_39_bits() {
    for a in SAMPLES {
        let v = VirtAddr::new_truncate(a);
        let parts = v.parts();
        for p in parts {
            assert!(p < 512);
        }
        let number = (parts[0] as u64) | (parts[1] as u64) << 9 | (parts[2] as u64) << 18;
        let low = number << 12 | v.page_offset() as u64;
        assert_eq!(low, v.as_u64() & 0x7F_FFFF_FFFF);
        assert_eq!(VirtAddr::new_truncate(low).as_u64(), v.as_u64());
    }
}

#[test]
fn virt_addresses_compare_by_value() {
    let a = VirtAddr::new_truncate(0x1000);
    let b = VirtAddr::new_truncate(0x2000);
    assert!(a < b);
    assert!(a == VirtAddr::new_truncate(0x80_0000_1000));
    assert!(a != b);
}

#[test]
fn phys_new_truncate_is_below_two_to_the_56() {
    for a in SAMPLES {
        let p = PhysAddr::new_truncate(a).as_u64();
        assert!(p < 1 << 56);
        assert_eq!(p, a % (1 << 56));
    }
}

#[test]
fn phys_new_truncate_exact_values() {
    assert_eq!(PhysAddr::new_truncate(u64::MAX).as_u64(), 0x00FF_FFFF_FFFF_FFFF);
    assert_eq!(PhysAddr::new_truncate(0x0123_4567_89AB_CDEF).as_u64(), 0x0023_4567_89AB_CDEF);
    assert_eq!(PhysAddr::new_truncate(0x8000_1123).as_u64(), 0x8000_1123);
    assert_eq!(PhysAddr::new_truncate(1 << 56).as_u64(), 0);
}

#[test]
fn phys_fields_exact_values() {
    let p = PhysAddr::new_truncate(0x00AB_CDEF_1234_5678);
    assert_eq!(p.page_offset(), 0x678);
    assert_eq!(p.ppn_0(), 325);
    assert_eq!(p.ppn_1(), 145);
    assert_eq!(p.ppn_2(), 45037500);
    assert_eq!(p.parts(), [325, 145, 45037500]);

    let q = PhysAddr::new_truncate(0x8000_1123);
    assert_eq!(q.parts(), [1, 0, 2]);
    assert_eq!(q.page_offset(), 0x123);

    let all = PhysAddr::new_truncate(u64::MAX);
    assert_eq!(all.parts(), [511, 511, 0x3FF_FFFF]);
    assert_eq!(all.page_offset(), 0xFFF);
}

#[test]
fn phys_parts_reassemble_the_address() {
    for a in SAMPLES {
        let p = PhysAddr::new_truncate(a);
        let parts = p.parts();
        let again = (parts[2] as u64) << 30 | (parts[1] as u64) << 21 | (parts[0] as u64) << 12
            | p.page_offset() as u64;
        assert_eq!(again, p.as_u64());
    }
}
