//! Virtual and physical addresses under Sv39.

use vstd::prelude::*;
use crate::memory::allocator::{init_error, AllocatorView, FrameAllocator, InitError};
use crate::memory::mapper::{Mapper, Mapping};

pub mod allocator;
pub mod frame;
pub mod mapper;
pub mod page;
mod sealed;

verus! {

/// Size of the smallest page, in bytes.
pub const BASE_PAGE_SIZE: u64 = 4096;

/// Exclusive upper bound of the physical address space, `2^56`.
pub const PHYS_LIMIT: u64 = 0x100_0000_0000_0000;

/// A 64-bit value is canonical when bits 63..39 all repeat bit 38.
pub open spec fn is_canonical(a: nat) -> bool {
    a < 0x40_0000_0000 || 0xFFFF_FFC0_0000_0000 <= a < 0x1_0000_0000_0000_0000
}

/// The canonical value that shares its low 39 bits with `a`.
pub open spec fn sign_extend(a: nat) -> nat {
    let low = a % 0x80_0000_0000;
    if low < 0x40_0000_0000 {
        low
    } else {
        low + 0xFFFF_FF80_0000_0000
    }
}

/// The 12-bit offset of an address inside its 4 KiB page.
pub open spec fn offset_of(a: nat) -> nat {
    a % 4096
}

/// The 9-bit index field of an address at `level` (0 is the lowest).
pub open spec fn index_of(a: nat, level: nat) -> nat {
    if level == 0 {
        (a / 0x1000) % 512
    } else if level == 1 {
        (a / 0x20_0000) % 512
    } else {
        (a / 0x4000_0000) % 512
    }
}

/// The 26-bit top page number of a physical address.
pub open spec fn top_ppn_of(a: nat) -> nat {
    (a / 0x4000_0000) % 0x400_0000
}

proof fn lemma_address_fields(x: u64)
    by (bit_vector)
    ensures
        x & 0xFFF == x % 4096,
        (x >> 12) & 0x1FF == (x / 0x1000) % 512,
        (x >> 21) & 0x1FF == (x / 0x20_0000) % 512,
        (x >> 30) & 0x1FF == (x / 0x4000_0000) % 512,
        (x >> 30) & 0x3FF_FFFF == (x / 0x4000_0000) % 0x400_0000,
{
}

proof fn lemma_sign_extension(addr: u64, low: u64, r: u64)
    by (bit_vector)
    requires
        low == addr & 0x7F_FFFF_FFFF,
        r == (if low & 0x40_0000_0000 != 0 {
            low | 0xFFFF_FF80_0000_0000
        } else {
            low
        }),
    ensures
        low == addr % 0x80_0000_0000,
        low & 0x40_0000_0000 != 0 <==> low >= 0x40_0000_0000,
        low & 0x40_0000_0000 != 0 ==> r == low + 0xFFFF_FF80_0000_0000,
{
}

proof fn lemma_fields_reassemble(x: u64)
    by (bit_vector)
    ensures
        ((x / 0x4000_0000) % 512) * 0x4000_0000 + ((x / 0x20_0000) % 512) * 0x20_0000 + ((x
            / 0x1000) % 512) * 0x1000 + x % 4096 == x % 0x80_0000_0000,
        x < 0x100_0000_0000_0000 ==> ((x / 0x4000_0000) % 0x400_0000) * 0x4000_0000 + ((x
            / 0x20_0000) % 512) * 0x20_0000 + ((x / 0x1000) % 512) * 0x1000 + x % 4096 == x,
        ((((x / 0x1000) % 512) | ((x / 0x20_0000) % 512) << 9 | ((x / 0x4000_0000) % 512) << 18)
            << 12) | (x % 4096) == x & 0x7F_FFFF_FFFF,
        x & 0x7F_FFFF_FFFF == x % 0x80_0000_0000,
{
}

/// A canonical 39-bit virtual address, sign-extended to 64 bits.
#[derive(Clone, Copy, PartialEq, Eq, Structural, PartialOrd, Ord)]
pub struct VirtAddr(u64);

impl View for VirtAddr {
    type V = nat;

    closed spec fn view(&self) -> nat {
        self.0 as nat
    }
}

impl VirtAddr {
    #[verifier::type_invariant]
    closed spec fn canonical(self) -> bool {
        is_canonical(self.0 as nat)
    }

    /// Every address that executable code can hold is valid; a value that
    /// exists only in a proof has to be assumed so.
    pub open spec fn is_valid(self) -> bool {
        is_canonical(self@)
    }

    /// Builds the canonical address that agrees with `addr` on bits 38..0.
    /// Bits 63..39 of `addr` are discarded and replaced by copies of bit 38.
    pub fn new_truncate(addr: u64) -> (r: Self)
        ensures
            r@ == sign_extend(addr as nat),
            r.is_valid(),
            r@ % 0x80_0000_0000 == addr % 0x80_0000_0000,
            is_canonical(addr as nat) ==> r@ == addr,
    {
        let low: u64 = addr & 0x7F_FFFF_FFFF;
        let r: u64 = if low & 0x40_0000_0000 != 0 {
            low | 0xFFFF_FF80_0000_0000
        } else {
            low
        };
        proof {
            lemma_sign_extension(addr, low, r);
        }
        VirtAddr(r)
    }

    /// The offset of the address in its 4 KiB page.
    pub fn page_offset(self) -> (r: u16)
        ensures
            r == offset_of(self@),
    {
        proof {
            lemma_address_fields(self.0);
        }
        (self.0 & 0xFFF) as u16
    }

    /// The index into the table of leaves.
    pub fn vpn_0(self) -> (r: u32)
        ensures
            r == index_of(self@, 0),
    {
        proof {
            lemma_address_fields(self.0);
        }
        ((self.0 >> 12) & 0x1FF) as u32
    }

    /// The index into the table of the middle level.
    pub fn vpn_1(self) -> (r: u32)
        ensures
            r == index_of(self@, 1),
    {
        proof {
            lemma_address_fields(self.0);
        }
        ((self.0 >> 21) & 0x1FF) as u32
    }

    /// The index into the root table.
    pub fn vpn_2(self) -> (r: u32)
        ensures
            r == index_of(self@, 2),
    {
        proof {
            lemma_address_fields(self.0);
        }
        ((self.0 >> 30) & 0x1FF) as u32
    }

    /// The three index fields, lowest level first.
    pub fn parts(self) -> (r: [u32; 3])
        ensures
            r@ =~= seq![
                index_of(self@, 0) as u32,
                index_of(self@, 1) as u32,
                index_of(self@, 2) as u32,
            ],
    {
        [self.vpn_0(), self.vpn_1(), self.vpn_2()]
    }

    /// The address as a number.
    pub fn as_u64(self) -> (r: u64)
        ensures
            r == self@,
            is_canonical(r as nat),
    {
        proof {
            use_type_invariant(&self);
        }
        self.0
    }
}

/// The index fields and the page offset of a valid virtual address put its
/// low 39 bits together again.
pub proof fn lemma_virt_addr_reassembles(v: VirtAddr)
    requires
        v.is_valid(),
    ensures
        index_of(v@, 2) * 0x4000_0000 + index_of(v@, 1) * 0x20_0000 + index_of(v@, 0) * 0x1000
            + offset_of(v@) == v@ % 0x80_0000_0000,
        sign_extend(
            index_of(v@, 2) * 0x4000_0000 + index_of(v@, 1) * 0x20_0000 + index_of(v@, 0) * 0x1000
                + offset_of(v@),
        ) == v@,
        (((index_of(v@, 0) as u64) | (index_of(v@, 1) as u64) << 9 | (index_of(v@, 2) as u64)
            << 18) << 12) | (offset_of(v@) as u64) == v@ % 0x80_0000_0000,
{
    lemma_fields_reassemble(v@ as u64);
}

/// A 56-bit physical address.
#[derive(Clone, Copy, PartialEq, Eq, Structural, PartialOrd, Ord)]
pub struct PhysAddr(u64);

impl View for PhysAddr {
    type V = nat;

    closed spec fn view(&self) -> nat {
        self.0 as nat
    }
}

impl PhysAddr {
    #[verifier::type_invariant]
    closed spec fn in_range(self) -> bool {
        self.0 < PHYS_LIMIT
    }

    /// Every address that executable code can hold is valid; a value that
    /// exists only in a proof has to be assumed so.
    pub open spec fn is_valid(self) -> bool {
        self@ < PHYS_LIMIT
    }

    /// Keeps the low 56 bits of `addr` and clears bits 63..56.
    pub fn new_truncate(addr: u64) -> (r: Self)
        ensures
            r@ == addr % 0x100_0000_0000_0000,
            r.is_valid(),
    {
        PhysAddr(addr % PHYS_LIMIT)
    }

    /// The offset of the address in its 4 KiB page.
    pub fn page_offset(self) -> (r: u16)
        ensures
            r == offset_of(self@),
    {
        proof {
            lemma_address_fields(self.0);
        }
        (self.0 & 0xFFF) as u16
    }

    /// Bits 20..12 of the address.
    pub fn ppn_0(self) -> (r: u32)
        ensures
            r == index_of(self@, 0),
    {
        proof {
            lemma_address_fields(self.0);
        }
        ((self.0 >> 12) & 0x1FF) as u32
    }

    /// Bits 29..21 of the address.
    pub fn ppn_1(self) -> (r: u32)
        ensures
            r == index_of(self@, 1),
    {
        proof {
            lemma_address_fields(self.0);
        }
        ((self.0 >> 21) & 0x1FF) as u32
    }

    /// Bits 55..30 of the address.
    pub fn ppn_2(self) -> (r: u32)
        ensures
            r == top_ppn_of(self@),
    {
        proof {
            lemma_address_fields(self.0);
        }
        ((self.0 >> 30) & 0x3FF_FFFF) as u32
    }

    /// The three page-number fields, lowest first.
    pub fn parts(self) -> (r: [u32; 3])
        ensures
            r@ =~= seq![
                index_of(self@, 0) as u32,
                index_of(self@, 1) as u32,
                top_ppn_of(self@) as u32,
            ],
    {
        [self.ppn_0(), self.ppn_1(), self.ppn_2()]
    }

    /// The address as a number.
    pub fn as_u64(self) -> (r: u64)
        ensures
            r == self@,
            r < PHYS_LIMIT,
    {
        proof {
            use_type_invariant(&self);
        }
        self.0
    }
}

/// The page-number fields and the page offset of a valid physical address put
/// the address together again.
pub proof fn lemma_phys_addr_reassembles(p: PhysAddr)
    requires
        p.is_valid(),
    ensures
        top_ppn_of(p@) * 0x4000_0000 + index_of(p@, 1) * 0x20_0000 + index_of(p@, 0) * 0x1000
            + offset_of(p@) == p@,
{
    lemma_fields_reassemble(p@ as u64);
}

/// Sets paging up over the heap of `heap_size` bytes at `heap_start`: a
/// frame allocator that holds the whole heap as free zones, and a mapper
/// with no page mapped. The heap is refused for the reasons for which the
/// allocator refuses one, and also where it starts beyond the physical
/// address space.
pub fn init_paging(heap_start: u64, heap_size: u64) -> (r: Result<(FrameAllocator, Mapper), InitError>)
    ensures
        match r {
            Ok((alloc, mapper)) => init_error(heap_start as nat, heap_size as nat) is None
                && alloc.wf() && alloc@ == AllocatorView::fresh(
                heap_start as nat,
                heap_size as nat / 0x20_0000,
            ) && mapper.wf() && mapper@ == Map::<nat, Mapping>::empty() && mapper.backed_by(
                alloc@,
            ),
            Err(e) => init_error(heap_start as nat, heap_size as nat) == Some(e),
        },
{
    if heap_start < PHYS_LIMIT {
        match FrameAllocator::init(PhysAddr::new_truncate(heap_start), heap_size) {
            Ok(alloc) => Ok((alloc, Mapper::new())),
            Err(e) => Err(e),
        }
    } else if heap_size < 0x20_0000 {
        Err(InitError::TooSmall)
    } else if heap_size % 4096 != 0 {
        Err(InitError::UnalignedSize)
    } else if heap_size % 0x20_0000 != 0 {
        Err(InitError::PartialZone)
    } else if heap_start % 0x20_0000 != 0 {
        Err(InitError::UnalignedStart)
    } else {
        Err(InitError::OutOfRange)
    }
}

} // verus!
