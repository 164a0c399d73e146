//! Page sizes, entry flags, page-table entries and page tables.

use core::marker::PhantomData;
use vstd::prelude::*;
use crate::memory::sealed::Sealed;
use crate::memory::{PhysAddr, VirtAddr};

verus! {

/// A page size known at compile time. The sizes are the ones of this
/// module: no other type can have this trait.
pub trait PageSize: Copy + Eq + PartialOrd + Ord + Sealed {
    const SIZE: u64;

    /// A page size is a positive multiple of 4 KiB.
    proof fn size_is_page_multiple()
        ensures
            Self::SIZE > 0,
            Self::SIZE % 4096 == 0,
    ;
}

/// Tag of the 4 KiB base page.
#[derive(Clone, Copy, PartialEq, Eq, PartialOrd, Ord)]
pub enum Size4Kib {
    Tag,
}

impl Sealed for Size4Kib {

}

impl PageSize for Size4Kib {
    const SIZE: u64 = 4096;

    proof fn size_is_page_multiple() {
    }
}

/// Tag of the 2 MiB megapage.
#[derive(Clone, Copy, PartialEq, Eq, PartialOrd, Ord)]
pub enum Size2Mib {
    Tag,
}

impl Sealed for Size2Mib {

}

impl PageSize for Size2Mib {
    const SIZE: u64 = 0x20_0000;

    proof fn size_is_page_multiple() {
    }
}

/// The sizes that the two tags stand for.
pub proof fn lemma_page_sizes()
    ensures
        Size4Kib::SIZE == 4096,
        Size2Mib::SIZE == 0x20_0000,
{
}

/// The eight state and permission flags of a page-table entry.
pub struct FlagSet {
    pub valid: bool,
    pub read: bool,
    pub write: bool,
    pub execute: bool,
    pub user: bool,
    pub global: bool,
    pub accessed: bool,
    pub dirty: bool,
}

impl FlagSet {
    /// The flags that `mask` names take the value `val`; the others stay.
    pub open spec fn assign(self, mask: FlagSet, val: bool) -> FlagSet {
        FlagSet {
            valid: if mask.valid { val } else { self.valid },
            read: if mask.read { val } else { self.read },
            write: if mask.write { val } else { self.write },
            execute: if mask.execute { val } else { self.execute },
            user: if mask.user { val } else { self.user },
            global: if mask.global { val } else { self.global },
            accessed: if mask.accessed { val } else { self.accessed },
            dirty: if mask.dirty { val } else { self.dirty },
        }
    }

    /// Write without read is reserved, with or without execute.
    pub open spec fn is_reserved(self) -> bool {
        self.write && !self.read
    }

    /// Any of read, write, execute: the entry ends the translation.
    pub open spec fn is_leaf(self) -> bool {
        self.read || self.write || self.execute
    }
}

/// The flags that a byte encodes, bit 0 being `valid` and bit 7 `dirty`.
pub open spec fn flag_set_of(bits: u8) -> FlagSet {
    FlagSet {
        valid: bits % 2 == 1,
        read: (bits / 2) % 2 == 1,
        write: (bits / 4) % 2 == 1,
        execute: (bits / 8) % 2 == 1,
        user: (bits / 16) % 2 == 1,
        global: (bits / 32) % 2 == 1,
        accessed: (bits / 64) % 2 == 1,
        dirty: (bits / 128) % 2 == 1,
    }
}

/// The value of a flag's bit: `bit` if the flag is set.
pub open spec fn weight(flag: bool, bit: int) -> int {
    if flag {
        bit
    } else {
        0
    }
}

/// The byte that encodes a set of flags.
pub open spec fn bits_of(flags: FlagSet) -> u8 {
    (weight(flags.valid, 1) + weight(flags.read, 2) + weight(flags.write, 4) + weight(
        flags.execute,
        8,
    ) + weight(flags.user, 16) + weight(flags.global, 32) + weight(flags.accessed, 64) + weight(
        flags.dirty,
        128,
    )) as u8
}

proof fn lemma_byte_is_sum_of_bits(b: u8)
    by (bit_vector)
    ensures
        b == ((if b % 2 == 1 { 1int } else { 0 }) + (if (b / 2) % 2 == 1 { 2int } else { 0 }) + (
        if (b / 4) % 2 == 1 { 4int } else { 0 }) + (if (b / 8) % 2 == 1 { 8int } else { 0 }) + (
        if (b / 16) % 2 == 1 { 16int } else { 0 }) + (if (b / 32) % 2 == 1 { 32int } else { 0 })
            + (if (b / 64) % 2 == 1 { 64int } else { 0 }) + (if (b / 128) % 2 == 1 {
            128int
        } else {
            0
        })) as u8,
{
}

proof fn lemma_sum_of_bits_is_byte(
    b: u8,
    f0: bool,
    f1: bool,
    f2: bool,
    f3: bool,
    f4: bool,
    f5: bool,
    f6: bool,
    f7: bool,
)
    by (bit_vector)
    requires
        b == ((if f0 { 1int } else { 0 }) + (if f1 { 2int } else { 0 }) + (if f2 { 4int } else { 0 })
            + (if f3 { 8int } else { 0 }) + (if f4 { 16int } else { 0 }) + (if f5 {
            32int
        } else {
            0
        }) + (if f6 { 64int } else { 0 }) + (if f7 { 128int } else { 0 })) as u8,
    ensures
        (b % 2 == 1) == f0,
        ((b / 2) % 2 == 1) == f1,
        ((b / 4) % 2 == 1) == f2,
        ((b / 8) % 2 == 1) == f3,
        ((b / 16) % 2 == 1) == f4,
        ((b / 32) % 2 == 1) == f5,
        ((b / 64) % 2 == 1) == f6,
        ((b / 128) % 2 == 1) == f7,
{
}

/// A byte and its set of flags determine each other.
pub proof fn lemma_flag_bits_round_trip(bits: u8, flags: FlagSet)
    ensures
        bits_of(flag_set_of(bits)) == bits,
        flag_set_of(bits_of(flags)) == flags,
{
    lemma_byte_is_sum_of_bits(bits);
    lemma_sum_of_bits_is_byte(
        bits_of(flags),
        flags.valid,
        flags.read,
        flags.write,
        flags.execute,
        flags.user,
        flags.global,
        flags.accessed,
        flags.dirty,
    );
}

proof fn lemma_flag_tests(b: u8)
    by (bit_vector)
    ensures
        (b & 0x01 != 0) == (b % 2 == 1),
        (b & 0x02 != 0) == ((b / 2) % 2 == 1),
        (b & 0x04 != 0) == ((b / 4) % 2 == 1),
        (b & 0x08 != 0) == ((b / 8) % 2 == 1),
        (b & 0x10 != 0) == ((b / 16) % 2 == 1),
        (b & 0x20 != 0) == ((b / 32) % 2 == 1),
        (b & 0x40 != 0) == ((b / 64) % 2 == 1),
        (b & 0x80 != 0) == ((b / 128) % 2 == 1),
        (b & 0x0E != 0) == ((b / 2) % 2 == 1 || (b / 4) % 2 == 1 || (b / 8) % 2 == 1),
{
}

proof fn lemma_flag_assignment(b: u8, m: u8)
    by (bit_vector)
    ensures
        ((b | m) % 2 == 1) == (m % 2 == 1 || b % 2 == 1),
        (((b | m) / 2) % 2 == 1) == ((m / 2) % 2 == 1 || (b / 2) % 2 == 1),
        (((b | m) / 4) % 2 == 1) == ((m / 4) % 2 == 1 || (b / 4) % 2 == 1),
        (((b | m) / 8) % 2 == 1) == ((m / 8) % 2 == 1 || (b / 8) % 2 == 1),
        (((b | m) / 16) % 2 == 1) == ((m / 16) % 2 == 1 || (b / 16) % 2 == 1),
        (((b | m) / 32) % 2 == 1) == ((m / 32) % 2 == 1 || (b / 32) % 2 == 1),
        (((b | m) / 64) % 2 == 1) == ((m / 64) % 2 == 1 || (b / 64) % 2 == 1),
        (((b | m) / 128) % 2 == 1) == ((m / 128) % 2 == 1 || (b / 128) % 2 == 1),
        ((b & !m) % 2 == 1) == (!(m % 2 == 1) && b % 2 == 1),
        (((b & !m) / 2) % 2 == 1) == (!((m / 2) % 2 == 1) && (b / 2) % 2 == 1),
        (((b & !m) / 4) % 2 == 1) == (!((m / 4) % 2 == 1) && (b / 4) % 2 == 1),
        (((b & !m) / 8) % 2 == 1) == (!((m / 8) % 2 == 1) && (b / 8) % 2 == 1),
        (((b & !m) / 16) % 2 == 1) == (!((m / 16) % 2 == 1) && (b / 16) % 2 == 1),
        (((b & !m) / 32) % 2 == 1) == (!((m / 32) % 2 == 1) && (b / 32) % 2 == 1),
        (((b & !m) / 64) % 2 == 1) == (!((m / 64) % 2 == 1) && (b / 64) % 2 == 1),
        (((b & !m) / 128) % 2 == 1) == (!((m / 128) % 2 == 1) && (b / 128) % 2 == 1),
{
}

/// Names of the single flags and of the usual combinations of them.
#[derive(Clone, Copy)]
pub enum TableEntryFlags {
    Empty,
    Valid,
    Read,
    Write,
    Execute,
    User,
    Global,
    Accessed,
    Dirty,
    ReadWrite,
    ReadExecute,
    Rwx,
    ReadWriteU,
    ReadExecuteU,
    RwxU,
}

impl View for TableEntryFlags {
    type V = FlagSet;

    open spec fn view(&self) -> FlagSet {
        flag_set_of(self.spec_bits())
    }
}

impl TableEntryFlags {
    /// The byte in which exactly the named flags are set.
    pub open spec fn spec_bits(self) -> u8 {
        match self {
            TableEntryFlags::Empty => 0x00,
            TableEntryFlags::Valid => 0x01,
            TableEntryFlags::Read => 0x02,
            TableEntryFlags::Write => 0x04,
            TableEntryFlags::Execute => 0x08,
            TableEntryFlags::User => 0x10,
            TableEntryFlags::Global => 0x20,
            TableEntryFlags::Accessed => 0x40,
            TableEntryFlags::Dirty => 0x80,
            TableEntryFlags::ReadWrite => 0x06,
            TableEntryFlags::ReadExecute => 0x0A,
            TableEntryFlags::Rwx => 0x0E,
            TableEntryFlags::ReadWriteU => 0x16,
            TableEntryFlags::ReadExecuteU => 0x1A,
            TableEntryFlags::RwxU => 0x1E,
        }
    }

    /// The byte in which exactly the named flags are set.
    #[verifier::when_used_as_spec(spec_bits)]
    pub fn bits(self) -> (r: u8)
        ensures
            r == self.spec_bits(),
            flag_set_of(r) == self@,
    {
        match self {
            TableEntryFlags::Empty => 0x00,
            TableEntryFlags::Valid => 0x01,
            TableEntryFlags::Read => 0x02,
            TableEntryFlags::Write => 0x04,
            TableEntryFlags::Execute => 0x08,
            TableEntryFlags::User => 0x10,
            TableEntryFlags::Global => 0x20,
            TableEntryFlags::Accessed => 0x40,
            TableEntryFlags::Dirty => 0x80,
            TableEntryFlags::ReadWrite => 0x06,
            TableEntryFlags::ReadExecute => 0x0A,
            TableEntryFlags::Rwx => 0x0E,
            TableEntryFlags::ReadWriteU => 0x16,
            TableEntryFlags::ReadExecuteU => 0x1A,
            TableEntryFlags::RwxU => 0x1E,
        }
    }
}

impl vstd::std_specs::ops::NotSpecImpl for TableEntryFlags {
    open spec fn obeys_not_spec() -> bool {
        true
    }

    open spec fn not_req(self) -> bool {
        true
    }

    open spec fn not_spec(self) -> u8 {
        !self.spec_bits()
    }
}

impl core::ops::Not for TableEntryFlags {
    type Output = u8;

    /// The byte in which exactly the flags that are not named are set.
    fn not(self) -> (r: u8)
        ensures
            r == !self.spec_bits(),
    {
        !self.bits()
    }
}

/// The flag byte of a page-table entry.
#[derive(Copy, Clone)]
pub struct EntryFlags(u8);

impl View for EntryFlags {
    type V = FlagSet;

    closed spec fn view(&self) -> FlagSet {
        flag_set_of(self.0)
    }
}

impl EntryFlags {
    /// The flags that `bits` encodes.
    pub fn new(bits: u8) -> (r: Self)
        ensures
            r@ == flag_set_of(bits),
    {
        EntryFlags(bits)
    }

    /// Sets or clears every flag that `field` names and leaves the others.
    pub fn set_field(&mut self, field: TableEntryFlags, val: bool)
        ensures
            final(self)@ == old(self)@.assign(field@, val),
    {
        let m: u8 = field.bits();
        proof {
            lemma_flag_assignment(self.0, m);
        }
        if val {
            self.0 = self.0 | m;
        } else {
            self.0 = self.0 & !m;
        }
    }

    pub fn is_valid(self) -> (r: bool)
        ensures
            r == self@.valid,
    {
        proof {
            lemma_flag_tests(self.0);
        }
        self.0 & 0x01 != 0
    }

    pub fn set_valid(&mut self, val: bool)
        ensures
            final(self)@ == (FlagSet { valid: val, ..old(self)@ }),
    {
        self.set_field(TableEntryFlags::Valid, val);
    }

    pub fn is_read(self) -> (r: bool)
        ensures
            r == self@.read,
    {
        proof {
            lemma_flag_tests(self.0);
        }
        self.0 & 0x02 != 0
    }

    pub fn set_read(&mut self, val: bool)
        ensures
            final(self)@ == (FlagSet { read: val, ..old(self)@ }),
    {
        self.set_field(TableEntryFlags::Read, val);
    }

    pub fn is_write(self) -> (r: bool)
        ensures
            r == self@.write,
    {
        proof {
            lemma_flag_tests(self.0);
        }
        self.0 & 0x04 != 0
    }

    pub fn set_write(&mut self, val: bool)
        ensures
            final(self)@ == (FlagSet { write: val, ..old(self)@ }),
    {
        self.set_field(TableEntryFlags::Write, val);
    }

    pub fn is_execute(self) -> (r: bool)
        ensures
            r == self@.execute,
    {
        proof {
            lemma_flag_tests(self.0);
        }
        self.0 & 0x08 != 0
    }

    pub fn set_execute(&mut self, val: bool)
        ensures
            final(self)@ == (FlagSet { execute: val, ..old(self)@ }),
    {
        self.set_field(TableEntryFlags::Execute, val);
    }

    pub fn is_user(self) -> (r: bool)
        ensures
            r == self@.user,
    {
        proof {
            lemma_flag_tests(self.0);
        }
        self.0 & 0x10 != 0
    }

    pub fn set_user(&mut self, val: bool)
        ensures
            final(self)@ == (FlagSet { user: val, ..old(self)@ }),
    {
        self.set_field(TableEntryFlags::User, val);
    }

    pub fn is_global(self) -> (r: bool)
        ensures
            r == self@.global,
    {
        proof {
            lemma_flag_tests(self.0);
        }
        self.0 & 0x20 != 0
    }

    pub fn set_global(&mut self, val: bool)
        ensures
            final(self)@ == (FlagSet { global: val, ..old(self)@ }),
    {
        self.set_field(TableEntryFlags::Global, val);
    }

    pub fn is_accessed(self) -> (r: bool)
        ensures
            r == self@.accessed,
    {
        proof {
            lemma_flag_tests(self.0);
        }
        self.0 & 0x40 != 0
    }

    pub fn set_accessed(&mut self, val: bool)
        ensures
            final(self)@ == (FlagSet { accessed: val, ..old(self)@ }),
    {
        self.set_field(TableEntryFlags::Accessed, val);
    }

    pub fn is_dirty(self) -> (r: bool)
        ensures
            r == self@.dirty,
    {
        proof {
            lemma_flag_tests(self.0);
        }
        self.0 & 0x80 != 0
    }

    pub fn set_dirty(&mut self, val: bool)
        ensures
            final(self)@ == (FlagSet { dirty: val, ..old(self)@ }),
    {
        self.set_field(TableEntryFlags::Dirty, val);
    }

    /// The flags as a byte, bit 0 being `valid` and bit 7 `dirty`.
    pub fn as_u8(self) -> (r: u8)
        ensures
            r == bits_of(self@),
            flag_set_of(r) == self@,
    {
        proof {
            lemma_flag_bits_round_trip(self.0, self@);
        }
        self.0
    }
}

impl vstd::std_specs::ops::BitAndSpecImpl<TableEntryFlags> for EntryFlags {
    open spec fn obeys_bitand_spec() -> bool {
        true
    }

    open spec fn bitand_req(self, rhs: TableEntryFlags) -> bool {
        true
    }

    open spec fn bitand_spec(self, rhs: TableEntryFlags) -> u8 {
        bits_of(self@) & rhs.spec_bits()
    }
}

impl core::ops::BitAnd<TableEntryFlags> for EntryFlags {
    type Output = u8;

    /// The byte of the flags that are both set here and named by `rhs`.
    fn bitand(self, rhs: TableEntryFlags) -> (r: u8)
        ensures
            r == bits_of(self@) & rhs.spec_bits(),
    {
        proof {
            lemma_flag_bits_round_trip(self.0, self@);
        }
        self.0 & rhs.bits()
    }
}

impl vstd::std_specs::ops::BitAndSpecImpl<u8> for EntryFlags {
    open spec fn obeys_bitand_spec() -> bool {
        true
    }

    open spec fn bitand_req(self, rhs: u8) -> bool {
        true
    }

    open spec fn bitand_spec(self, rhs: u8) -> u8 {
        bits_of(self@) & rhs
    }
}

impl core::ops::BitAnd<u8> for EntryFlags {
    type Output = u8;

    fn bitand(self, rhs: u8) -> (r: u8)
        ensures
            r == bits_of(self@) & rhs,
    {
        proof {
            lemma_flag_bits_round_trip(self.0, self@);
        }
        self.0 & rhs
    }
}

impl core::ops::BitOrAssign<TableEntryFlags> for EntryFlags {
    /// Sets every flag that `rhs` names.
    fn bitor_assign(&mut self, rhs: TableEntryFlags)
        ensures
            final(self)@ == old(self)@.assign(rhs@, true),
    {
        self.set_field(rhs, true);
    }
}

impl core::ops::BitAndAssign<u8> for EntryFlags {
    /// Clears every flag whose bit is clear in `rhs`.
    fn bitand_assign(&mut self, rhs: u8)
        ensures
            final(self)@ == old(self)@.assign(flag_set_of(!rhs), false),
    {
        proof {
            lemma_flag_assignment(self.0, !rhs);
            assert(!!rhs == rhs) by (bit_vector);
        }
        self.0 = self.0 & rhs;
    }
}

/// A start address that is no multiple of the page size.
#[derive(Clone, Copy, Debug, PartialEq, Eq)]
pub struct AddressNotAligned;

/// A virtual page of size `S`, named by its first address.
#[derive(PartialEq, Eq, PartialOrd, Ord)]
pub struct Page<S: PageSize = Size4Kib> {
    start: VirtAddr,
    size: PhantomData<S>,
}

impl<S: PageSize> Clone for Page<S> {
    fn clone(&self) -> (r: Self)
        ensures
            r == *self,
    {
        *self
    }
}

impl<S: PageSize> Copy for Page<S> {

}

impl<S: PageSize> View for Page<S> {
    type V = nat;

    /// The first address of the page.
    closed spec fn view(&self) -> nat {
        self.start@
    }
}

impl<S: PageSize> Page<S> {
    #[verifier::type_invariant]
    closed spec fn aligned(self) -> bool {
        self.start@ % (S::SIZE as nat) == 0 && self.start.is_valid()
    }

    /// The page that starts at `start`, which must be a multiple of the page
    /// size.
    pub fn new(start: VirtAddr) -> (r: Result<Self, AddressNotAligned>)
        ensures
            r is Ok <==> start@ % (S::SIZE as nat) == 0,
            r is Ok ==> r->Ok_0@ == start@,
    {
        proof {
            S::size_is_page_multiple();
        }
        let raw: u64 = start.as_u64();
        if raw % S::SIZE == 0 {
            Ok(Page { start, size: PhantomData })
        } else {
            Err(AddressNotAligned)
        }
    }

    /// The first address of the page.
    pub fn start_address(self) -> (r: VirtAddr)
        ensures
            r@ == self@,
            r@ % (S::SIZE as nat) == 0,
            r.is_valid(),
    {
        proof {
            use_type_invariant(&self);
        }
        self.start
    }

    /// The size of the page in bytes.
    pub fn size(self) -> (r: u64)
        ensures
            r == S::SIZE,
    {
        S::SIZE
    }
}

/// The flag byte of a raw entry.
pub open spec fn entry_flags(raw: nat) -> FlagSet {
    flag_set_of((raw % 256) as u8)
}

/// The page-number field `k` of a raw entry: 9, 9 and 26 bits wide.
pub open spec fn entry_ppn(raw: nat, k: nat) -> nat {
    if k == 0 {
        (raw / 0x400) % 512
    } else if k == 1 {
        (raw / 0x8_0000) % 512
    } else {
        (raw / 0x1000_0000) % 0x400_0000
    }
}

/// The physical address that the page-number fields of a raw entry name.
pub open spec fn entry_address(raw: nat) -> nat {
    ((raw / 0x400) % 0x1000_0000_0000) * 4096
}

/// The raw entry that holds the flag byte `bits` and points at the 4 KiB
/// frame around `addr`; the software bits and the reserved bits are zero.
pub open spec fn entry_of(addr: nat, bits: u8) -> nat {
    (addr / 4096) * 1024 + bits as nat
}

/// The raw entry with the given fields.
pub open spec fn entry_from_fields(bits: u8, rsw: nat, p0: nat, p1: nat, p2: nat) -> nat {
    p2 * 0x1000_0000 + p1 * 0x8_0000 + p0 * 0x400 + rsw * 0x100 + bits as nat
}

proof fn lemma_entry_fields(x: u64)
    by (bit_vector)
    ensures
        x & 0xFF == x % 256,
        (x >> 10) & 0x1FF == (x / 0x400) % 512,
        (x >> 19) & 0x1FF == (x / 0x8_0000) % 512,
        (x >> 28) & 0x3FF_FFFF == (x / 0x1000_0000) % 0x400_0000,
        x & 0x3F_FFFF_FFFF_FFFF == x % 0x40_0000_0000_0000,
        ((x >> 10) & 0xFFF_FFFF_FFFF) << 12 == ((x / 0x400) % 0x1000_0000_0000) * 4096,
        ((x >> 10) & 0xFFF_FFFF_FFFF) << 12 < 0x100_0000_0000_0000,
{
}

proof fn lemma_entry_packing(a: u64, b: u8)
    by (bit_vector)
    requires
        a < 0x100_0000_0000_0000,
    ensures
        ((a >> 12) << 10) | (b as u64) == (a / 4096) * 1024 + b,
        (a / 4096) * 1024 + b < 0x40_0000_0000_0000,
        ((a / 4096) * 1024 + b) % 256 == b,
        ((((a / 4096) * 1024 + b) / 0x400) % 0x1000_0000_0000) * 4096 == a - a % 4096,
{
}

proof fn lemma_entry_unpacking(b: u8, rsw: u64, p0: u64, p1: u64, p2: u64)
    by (bit_vector)
    requires
        rsw < 4,
        p0 < 512,
        p1 < 512,
        p2 < 0x400_0000,
    ensures
        p2 * 0x1000_0000 + p1 * 0x8_0000 + p0 * 0x400 + rsw * 0x100 + b < 0x40_0000_0000_0000,
        (p2 * 0x1000_0000 + p1 * 0x8_0000 + p0 * 0x400 + rsw * 0x100 + b) % 256 == b,
        ((p2 * 0x1000_0000 + p1 * 0x8_0000 + p0 * 0x400 + rsw * 0x100 + b) / 0x400) % 512 == p0,
        ((p2 * 0x1000_0000 + p1 * 0x8_0000 + p0 * 0x400 + rsw * 0x100 + b) / 0x8_0000) % 512
            == p1,
        ((p2 * 0x1000_0000 + p1 * 0x8_0000 + p0 * 0x400 + rsw * 0x100 + b) / 0x1000_0000)
            % 0x400_0000 == p2,
{
}

/// The fields from which a raw entry was put together are the fields that
/// are read back from it.
pub proof fn lemma_entry_fields_round_trip(bits: u8, rsw: nat, p0: nat, p1: nat, p2: nat)
    requires
        rsw < 4,
        p0 < 512,
        p1 < 512,
        p2 < 0x400_0000,
    ensures
        entry_from_fields(bits, rsw, p0, p1, p2) < 0x40_0000_0000_0000,
        entry_flags(entry_from_fields(bits, rsw, p0, p1, p2)) == flag_set_of(bits),
        entry_ppn(entry_from_fields(bits, rsw, p0, p1, p2), 0) == p0,
        entry_ppn(entry_from_fields(bits, rsw, p0, p1, p2), 1) == p1,
        entry_ppn(entry_from_fields(bits, rsw, p0, p1, p2), 2) == p2,
{
    lemma_entry_unpacking(bits, rsw as u64, p0 as u64, p1 as u64, p2 as u64);
}

/// An entry made by `entry_of` gives back its flag byte and the start of
/// the frame it was made for.
pub proof fn lemma_entry_of_round_trip(addr: nat, bits: u8)
    requires
        addr < 0x100_0000_0000_0000,
    ensures
        entry_of(addr, bits) < 0x40_0000_0000_0000,
        entry_flags(entry_of(addr, bits)) == flag_set_of(bits),
        entry_address(entry_of(addr, bits)) == addr - addr % 4096,
        entry_of(addr, bits) == 0 <==> addr < 4096 && bits == 0,
{
    lemma_entry_packing(addr as u64, bits);
}

/// Why an entry was not written.
#[derive(Clone, Copy, Debug, PartialEq, Eq)]
pub enum EntryError {
    /// The flags ask for write without read.
    ReservedEncoding,
}

/// One 64-bit slot of a page table.
#[derive(Copy, Clone)]
pub struct PageTableEntry(u64);

impl View for PageTableEntry {
    type V = nat;

    /// The raw 64-bit value.
    closed spec fn view(&self) -> nat {
        self.0 as nat
    }
}

impl PageTableEntry {
    /// The flags of the entry.
    pub open spec fn spec_flags(self) -> FlagSet {
        entry_flags(self@)
    }

    /// Keeps bits 53..0 of `entry` and clears the ten bits above them. The
    /// flags are taken as they come.
    pub fn new(entry: u64) -> (r: Self)
        ensures
            r@ == entry % 0x40_0000_0000_0000,
    {
        proof {
            lemma_entry_fields(entry);
        }
        PageTableEntry(entry & 0x3F_FFFF_FFFF_FFFF)
    }

    /// Whether the valid flag is set.
    pub fn is_valid(&self) -> (r: bool)
        ensures
            r == self.spec_flags().valid,
    {
        self.flags().is_valid()
    }

    /// Whether any of read, write and execute is set.
    pub fn is_leaf(&self) -> (r: bool)
        ensures
            r == self.spec_flags().is_leaf(),
    {
        let f = self.flags();
        f.is_read() || f.is_write() || f.is_execute()
    }

    /// Whether none of read, write and execute is set.
    pub fn is_branch(&self) -> (r: bool)
        ensures
            r == !self.spec_flags().is_leaf(),
    {
        !self.is_leaf()
    }

    /// Whether the entry is zero.
    pub fn is_free(&self) -> (r: bool)
        ensures
            r == (self@ == 0),
    {
        self.0 == 0
    }

    /// Makes the entry zero.
    pub fn set_free(&mut self)
        ensures
            final(self)@ == 0,
    {
        self.0 = 0;
    }

    /// Writes `new` into the entry unless its flags are a reserved
    /// combination, in which case the entry stays as it was.
    pub fn set(&mut self, new: u64) -> (r: Result<(), EntryError>)
        ensures
            r is Ok <==> !entry_flags(new as nat).is_reserved(),
            r is Ok ==> final(self)@ == new,
            r is Err ==> final(self)@ == old(self)@ && r->Err_0 == EntryError::ReservedEncoding,
    {
        proof {
            lemma_entry_fields(new);
        }
        let flags = EntryFlags((new & 0xFF) as u8);
        if flags.is_write() && !flags.is_read() {
            Err(EntryError::ReservedEncoding)
        } else {
            self.0 = new;
            Ok(())
        }
    }

    /// The low byte of the entry.
    pub fn flags(&self) -> (r: EntryFlags)
        ensures
            r@ == self.spec_flags(),
    {
        proof {
            lemma_entry_fields(self.0);
        }
        EntryFlags((self.0 & 0xFF) as u8)
    }

    /// Bits 18..10 of the entry.
    pub fn ppn_0(&self) -> (r: u32)
        ensures
            r == entry_ppn(self@, 0),
    {
        proof {
            lemma_entry_fields(self.0);
        }
        ((self.0 >> 10) & 0x1FF) as u32
    }

    /// Bits 27..19 of the entry.
    pub fn ppn_1(&self) -> (r: u32)
        ensures
            r == entry_ppn(self@, 1),
    {
        proof {
            lemma_entry_fields(self.0);
        }
        ((self.0 >> 19) & 0x1FF) as u32
    }

    /// Bits 53..28 of the entry.
    pub fn ppn_2(&self) -> (r: u32)
        ensures
            r == entry_ppn(self@, 2),
    {
        proof {
            lemma_entry_fields(self.0);
        }
        ((self.0 >> 28) & 0x3FF_FFFF) as u32
    }

    /// The three page-number fields, lowest first.
    pub fn ppn_parts(&self) -> (r: [u32; 3])
        ensures
            r@ =~= seq![
                entry_ppn(self@, 0) as u32,
                entry_ppn(self@, 1) as u32,
                entry_ppn(self@, 2) as u32,
            ],
    {
        [self.ppn_0(), self.ppn_1(), self.ppn_2()]
    }

    /// The entry as a number.
    pub fn as_u64(&self) -> (r: u64)
        ensures
            r == self@,
    {
        self.0
    }

    /// The start of the frame or of the child table that the entry points at.
    pub fn address(&self) -> (r: PhysAddr)
        ensures
            r@ == entry_address(self@),
            r@ % 4096 == 0,
    {
        proof {
            lemma_entry_fields(self.0);
        }
        PhysAddr::new_truncate(((self.0 >> 10) & 0xFFF_FFFF_FFFF) << 12)
    }

    /// The raw entry that points at the 4 KiB frame around `addr` and carries
    /// `flags`.
    pub fn pack(addr: PhysAddr, flags: EntryFlags) -> (r: u64)
        ensures
            r == entry_of(addr@, bits_of(flags@)),
    {
        let a: u64 = addr.as_u64();
        let b: u8 = flags.as_u8();
        proof {
            lemma_entry_packing(a, b);
        }
        ((a >> 12) << 10) | (b as u64)
    }
}

/// What an entry means to a walk through the tree.
pub enum WalkStep {
    /// The entry is not valid: nothing is mapped below it.
    Missing,
    /// The entry points at the table of the next level.
    Table(PhysAddr),
    /// The entry ends the walk.
    Leaf(PageTableEntry),
}

/// A valid raw entry that points at a table.
pub open spec fn is_table_entry(raw: nat) -> bool {
    entry_flags(raw).valid && !entry_flags(raw).is_leaf()
}

/// A valid raw entry that ends a walk.
pub open spec fn is_leaf_entry(raw: nat) -> bool {
    entry_flags(raw).valid && entry_flags(raw).is_leaf()
}

/// One level of the translation tree: 512 entries.
pub struct PageTable {
    entries: [PageTableEntry; 512],
}

impl View for PageTable {
    type V = Seq<nat>;

    /// The raw values of the 512 entries.
    closed spec fn view(&self) -> Seq<nat> {
        Seq::new(512, |i: int| self.entries[i]@)
    }
}

impl PageTable {
    /// A table in which every entry is free.
    pub fn new() -> (r: Self)
        ensures
            r@ =~= Seq::new(512, |i: int| 0nat),
    {
        PageTable { entries: [PageTableEntry(0);512] }
    }

    /// The entry at `index`.
    pub fn entry(&self, index: usize) -> (r: &PageTableEntry)
        requires
            index < 512,
        ensures
            r@ == self@[index as int],
    {
        &self.entries[index]
    }

    /// What a walk finds at `index`.
    pub fn walk(&self, index: usize) -> (r: WalkStep)
        requires
            index < 512,
        ensures
            match r {
                WalkStep::Missing => !entry_flags(self@[index as int]).valid,
                WalkStep::Table(next) => is_table_entry(self@[index as int]) && next@
                    == entry_address(self@[index as int]),
                WalkStep::Leaf(entry) => is_leaf_entry(self@[index as int]) && entry@
                    == self@[index as int],
            },
    {
        let entry = self.entries[index];
        if !entry.is_valid() {
            WalkStep::Missing
        } else if entry.is_leaf() {
            WalkStep::Leaf(entry)
        } else {
            WalkStep::Table(entry.address())
        }
    }

    /// The entry at `index`, to be changed in place.
    pub fn entry_mut(&mut self, index: usize) -> (r: &mut PageTableEntry)
        requires
            index < 512,
        ensures
            r@ == old(self)@[index as int],
            final(self)@ =~= old(self)@.update(index as int, final(r)@),
    {
        &mut self.entries[index]
    }
}

} // verus!
