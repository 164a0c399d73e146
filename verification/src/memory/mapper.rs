//! The address-space mapper: one three-level tree of page tables.
//!
//! The root table belongs to the mapper. Every other table is backed by a
//! frame that the mapper took from the frame allocator, and is found again
//! through the address of that frame, which is what the entry above it holds.

use vstd::prelude::*;
use crate::memory::allocator::{
    lemma_after_allocate,
    lemma_can_allocate_a_page,
    lemma_order_sizes,
    AllocatorView,
    Block,
    FrameAllocator,
};
use crate::memory::frame::Frame;
use crate::memory::page::{
    bits_of,
    entry_address,
    entry_flags,
    entry_of,
    flag_set_of,
    is_leaf_entry,
    is_table_entry,
    lemma_entry_of_round_trip,
    lemma_flag_bits_round_trip,
    lemma_page_sizes,
    EntryFlags,
    FlagSet,
    Page,
    PageTable,
    PageTableEntry,
    WalkStep,
};
use crate::memory::{offset_of, PhysAddr, VirtAddr};

verus! {

/// Where a virtual page is mapped to, and with which flags.
pub struct Mapping {
    /// Address of the first byte of the frame.
    pub frame: nat,
    pub flags: FlagSet,
}

/// The 27-bit number of the virtual page that holds the address `va`.
pub open spec fn page_number(va: nat) -> nat {
    (va / 4096) % 0x800_0000
}

/// The flags with which a leaf is written: those asked for, and `valid`.
pub open spec fn leaf_flags(flags: FlagSet) -> FlagSet {
    FlagSet { valid: true, ..flags }
}

/// Why a page was not mapped.
#[derive(Clone, Copy, Debug, PartialEq, Eq)]
pub enum MapError {
    /// The flags name none of read, write and execute, or write without
    /// read.
    InvalidFlags,
    /// The page is mapped already, to another frame or with other flags.
    AlreadyMapped,
    /// A table was needed and no frame was left for it.
    OutOfMemory,
}

/// The page is not mapped.
#[derive(Clone, Copy, Debug, PartialEq, Eq)]
pub struct NotMapped;

proof fn lemma_page_indices(va: u64)
    by (bit_vector)
    ensures
        (va / 4096) % 0x800_0000 < 0x800_0000,
        (va / 0x4000_0000) % 512 == ((va / 4096) % 0x800_0000) / 0x4_0000,
        (va / 0x20_0000) % 512 == (((va / 4096) % 0x800_0000) / 512) % 512,
        (va / 0x1000) % 512 == ((va / 4096) % 0x800_0000) % 512,
{
}

/// A table below the root, with the frame that backs it.
struct TableSlot {
    frame: PhysAddr,
    table: PageTable,
    /// 1 for a table that the root points at, 0 for a table of leaves.
    level: Ghost<nat>,
    /// The page numbers that the table covers, without the bits that index
    /// into it and below.
    prefix: Ghost<nat>,
}

/// A leaf as the mapper writes it: valid, permitted, and with nothing set
/// but the flags and the frame.
spec fn leaf_ok(raw: nat) -> bool {
    raw == 0 || (is_leaf_entry(raw) && !entry_flags(raw).is_reserved() && raw == entry_of(
        entry_address(raw),
        bits_of(entry_flags(raw)),
    ))
}

/// The mapper of one address space.
pub struct Mapper {
    root: PageTable,
    tables: Vec<TableSlot>,
}

impl View for Mapper {
    type V = Map<nat, Mapping>;

    /// The mapped pages, by page number.
    closed spec fn view(&self) -> Map<nat, Mapping> {
        Map::new(
            |vpn: nat| vpn < 0x800_0000 && self.lookup(vpn) is Some,
            |vpn: nat| self.lookup(vpn)->Some_0,
        )
    }
}

impl Mapper {
    spec fn has_table(&self, frame: nat) -> bool {
        exists|s: int| 0 <= s < self.tables@.len() && (#[trigger] self.tables@[s]).frame@ == frame
    }

    spec fn slot_of(&self, frame: nat) -> int {
        choose|s: int| 0 <= s < self.tables@.len() && (#[trigger] self.tables@[s]).frame@ == frame
    }

    spec fn distinct(&self) -> bool {
        forall|s: int, t: int|
            0 <= s < self.tables@.len() && 0 <= t < self.tables@.len() && s != t ==> (
            #[trigger] self.tables@[s]).frame@ != (#[trigger] self.tables@[t]).frame@
    }

    /// The entry is free, or points at a table of the mapper that stands
    /// at the given place in the tree.
    spec fn branch_ok(&self, raw: nat, level: nat, prefix: nat) -> bool {
        raw == 0 || (is_table_entry(raw) && self.has_table(entry_address(raw)) && self.tables@[self.slot_of(
            entry_address(raw),
        )].level@ == level && self.tables@[self.slot_of(entry_address(raw))].prefix@ == prefix)
    }

    spec fn root_ok(&self, i: int) -> bool {
        self.branch_ok(self.root@[i], 1, i as nat)
    }

    spec fn entry_ok(&self, s: int, j: int) -> bool {
        let slot = self.tables@[s];
        if slot.level@ == 1 {
            self.branch_ok(slot.table@[j], 0, slot.prefix@ * 512 + j as nat)
        } else {
            leaf_ok(slot.table@[j])
        }
    }

    /// The tables form a tree: each is reached from one place only.
    #[verifier::opaque]
    pub closed spec fn wf(&self) -> bool {
        &&& self.distinct()
        &&& self.root@.len() == 512
        &&& forall|s: int|
            0 <= s < self.tables@.len() ==> (#[trigger] self.tables@[s]).level@ <= 1
                && self.tables@[s].frame@ % 4096 == 0 && self.tables@[s].frame@
                < 0x100_0000_0000_0000 && self.tables@[s].table@.len() == 512
        &&& forall|i: int| 0 <= i < 512 ==> #[trigger] self.root_ok(i)
        &&& forall|s: int, j: int|
            0 <= s < self.tables@.len() && 0 <= j < 512 ==> #[trigger] self.entry_ok(s, j)
    }

    /// The table of the middle level on the way to a page, if there is one.
    #[verifier::opaque]
    spec fn middle(&self, vpn: nat) -> Option<int> {
        let e2 = self.root@[(vpn / 0x4_0000) as int];
        if is_table_entry(e2) {
            Some(self.slot_of(entry_address(e2)))
        } else {
            None
        }
    }

    /// The table of leaves on the way to a page, if there is one.
    #[verifier::opaque]
    spec fn bottom(&self, vpn: nat) -> Option<int> {
        match self.middle(vpn) {
            None => None,
            Some(s1) => {
                let e1 = self.tables@[s1].table@[((vpn / 512) % 512) as int];
                if is_table_entry(e1) {
                    Some(self.slot_of(entry_address(e1)))
                } else {
                    None
                }
            },
        }
    }

    /// What a walk down the tree finds for a page.
    #[verifier::opaque]
    pub closed spec fn lookup(&self, vpn: nat) -> Option<Mapping> {
        match self.bottom(vpn) {
            None => None,
            Some(s0) => {
                let e0 = self.tables@[s0].table@[(vpn % 512) as int];
                if is_leaf_entry(e0) {
                    Some(Mapping { frame: entry_address(e0), flags: entry_flags(e0) })
                } else {
                    None
                }
            },
        }
    }

    /// How many tables are missing on the way to a page: 0, 1 or 2.
    pub closed spec fn missing_tables(&self, vpn: nat) -> nat {
        if self.middle(vpn) is None {
            2
        } else if self.bottom(vpn) is None {
            1
        } else {
            0
        }
    }

    /// The addresses of the frames that back the tables below the root.
    pub closed spec fn table_frames(&self) -> Set<nat> {
        Set::new(|f: nat| self.has_table(f))
    }

    /// Every frame that backs a table is allocated, as one page.
    pub open spec fn backed_by(&self, alloc: AllocatorView) -> bool {
        forall|f: nat| #[trigger] self.table_frames().contains(f) ==> alloc.is_allocated(0, f)
    }

    /// From `before` to `after` the allocator has kept its heap and all that
    /// was allocated, and what it has handed out since is single pages that
    /// back tables of this mapper.
    pub open spec fn only_took_tables(&self, before: AllocatorView, after: AllocatorView) -> bool {
        &&& after.start == before.start
        &&& after.zones == before.zones
        &&& forall|b: Block| #[trigger] before.is_used(b) ==> after.is_used(b)
        &&& forall|b: Block| #[trigger]
            after.is_used(b) && !before.is_used(b) ==> b.order == 0
                && self.table_frames().contains(before.address_of(b))
    }

    /// What mapping a page comes to, with `free_pages` pages left for tables.
    pub open spec fn map_outcome(&self, free_pages: nat, vpn: nat, frame: nat, flags: FlagSet) -> Result<
        (),
        MapError,
    > {
        let wanted = Mapping { frame, flags: leaf_flags(flags) };
        if flags.is_reserved() || !flags.is_leaf() {
            Err(MapError::InvalidFlags)
        } else if self.missing_tables(vpn) > free_pages {
            Err(MapError::OutOfMemory)
        } else if self@.contains_key(vpn) && self@[vpn] != wanted {
            Err(MapError::AlreadyMapped)
        } else {
            Ok(())
        }
    }

    /// Every page is looked up in `other` as it is here.
    spec fn walks_kept(&self, other: &Mapper) -> bool {
        forall|vpn: nat| vpn < 0x800_0000 ==> #[trigger] other.lookup(vpn) == self.lookup(vpn)
    }

    spec fn middles_kept(&self, other: &Mapper) -> bool {
        forall|vpn: nat| vpn < 0x800_0000 ==> #[trigger] other.middle(vpn) == self.middle(vpn)
    }

    spec fn bottoms_kept(&self, other: &Mapper) -> bool {
        forall|vpn: nat| vpn < 0x800_0000 ==> #[trigger] other.bottom(vpn) == self.bottom(vpn)
    }

    /// The same tables stand at the same places, whatever they hold.
    spec fn same_shape(&self, other: &Mapper) -> bool {
        &&& self.tables@.len() == other.tables@.len()
        &&& forall|s: int|
            0 <= s < self.tables@.len() ==> (#[trigger] other.tables@[s]).frame
                == self.tables@[s].frame && other.tables@[s].level == self.tables@[s].level
                && other.tables@[s].prefix == self.tables@[s].prefix
    }

    proof fn lemma_slot(&self, s: int)
        requires
            self.distinct(),
            0 <= s < self.tables@.len(),
        ensures
            self.has_table(self.tables@[s].frame@),
            self.slot_of(self.tables@[s].frame@) == s,
    {
        let f = self.tables@[s].frame@;
        assert(self.tables@[s].frame@ == f);
        let t = self.slot_of(f);
        assert(0 <= t < self.tables@.len() && self.tables@[t].frame@ == f);
    }

    /// A table of a well-formed mapper, found by the address of its frame.
    proof fn lemma_found(&self, s: int)
        requires
            self.wf(),
            0 <= s < self.tables@.len(),
        ensures
            self.has_table(self.tables@[s].frame@),
            self.slot_of(self.tables@[s].frame@) == s,
            self.table_frames().contains(self.tables@[s].frame@),
            self.tables@[s].frame@ % 4096 == 0,
            self.tables@[s].table@.len() == 512,
            self.tables@[s].level@ <= 1,
    {
        reveal(Mapper::wf);
        self.lemma_slot(s);
    }

    /// A table of this mapper is a table of a mapper that has the same
    /// tables, and maybe more, at the same places.
    proof fn lemma_extends(&self, other: &Mapper)
        requires
            self.distinct(),
            other.distinct(),
            self.tables@.len() <= other.tables@.len(),
            forall|s: int|
                0 <= s < self.tables@.len() ==> (#[trigger] other.tables@[s]).frame
                    == self.tables@[s].frame && other.tables@[s].level == self.tables@[s].level
                    && other.tables@[s].prefix == self.tables@[s].prefix,
        ensures
            forall|f: nat| #[trigger]
                self.has_table(f) ==> other.has_table(f) && other.slot_of(f) == self.slot_of(f),
            forall|raw: nat, level: nat, prefix: nat| #[trigger]
                self.branch_ok(raw, level, prefix) ==> other.branch_ok(raw, level, prefix),
    {
        assert forall|f: nat| #[trigger] self.has_table(f) implies other.has_table(f)
            && other.slot_of(f) == self.slot_of(f) by {
            let s = self.slot_of(f);
            assert(other.tables@[s].frame@ == f);
            other.lemma_slot(s);
        }
    }

    /// What stands on the way to a page, level by level.
    proof fn lemma_path(&self, vpn: nat)
        requires
            self.wf(),
            vpn < 0x800_0000,
        ensures
            self.root@.len() == 512,
            self.root@[(vpn / 0x4_0000) as int] == 0 || is_table_entry(
                self.root@[(vpn / 0x4_0000) as int],
            ),
            is_table_entry(self.root@[(vpn / 0x4_0000) as int]) <==> self.middle(vpn) is Some,
            self.middle(vpn) matches Some(s1) ==> 0 <= s1 < self.tables@.len()
                && self.tables@[s1].level@ == 1 && self.tables@[s1].prefix@ == vpn / 0x4_0000
                && self.tables@[s1].table@.len() == 512 && self.tables@[s1].frame@
                == entry_address(self.root@[(vpn / 0x4_0000) as int]) && (self.tables@[s1].table@[((
            vpn / 512) % 512) as int] == 0 || is_table_entry(
                self.tables@[s1].table@[((vpn / 512) % 512) as int],
            )) && (is_table_entry(self.tables@[s1].table@[((vpn / 512) % 512) as int])
                <==> self.bottom(vpn) is Some),
            self.middle(vpn) is None ==> self.bottom(vpn) is None,
            self.middle(vpn) is Some ==> self.middle(vpn) == Some(
                self.slot_of(entry_address(self.root@[(vpn / 0x4_0000) as int])),
            ) && self.has_table(entry_address(self.root@[(vpn / 0x4_0000) as int])),
            self.bottom(vpn) is Some ==> self.bottom(vpn) == Some(
                self.slot_of(
                    entry_address(
                        self.tables@[self.middle(vpn)->Some_0].table@[((vpn / 512) % 512) as int],
                    ),
                ),
            ) && self.has_table(
                entry_address(
                    self.tables@[self.middle(vpn)->Some_0].table@[((vpn / 512) % 512) as int],
                ),
            ),
            self.bottom(vpn) matches Some(s0) ==> 0 <= s0 < self.tables@.len()
                && self.tables@[s0].level@ == 0 && self.tables@[s0].prefix@ == vpn / 512
                && self.tables@[s0].table@.len() == 512 && self.tables@[s0].frame@
                == entry_address(
                self.tables@[self.middle(vpn)->Some_0].table@[((vpn / 512) % 512) as int],
            ) && leaf_ok(self.tables@[s0].table@[(vpn % 512) as int]) && self.lookup(vpn) == (
            if self.tables@[s0].table@[(vpn % 512) as int] == 0 {
                None
            } else {
                Some(
                    Mapping {
                        frame: entry_address(self.tables@[s0].table@[(vpn % 512) as int]),
                        flags: entry_flags(self.tables@[s0].table@[(vpn % 512) as int]),
                    },
                )
            }),
            self.bottom(vpn) is None ==> self.lookup(vpn) is None,
    {
        reveal(Mapper::wf);
        reveal(Mapper::middle);
        reveal(Mapper::bottom);
        reveal(Mapper::lookup);
        let i2 = (vpn / 0x4_0000) as int;
        let i1 = ((vpn / 512) % 512) as int;
        let i0 = (vpn % 512) as int;
        assert(self.root_ok(i2));
        assert(!entry_flags(0).valid);
        if self.middle(vpn) is Some {
            let s1 = self.middle(vpn)->Some_0;
            assert(self.entry_ok(s1, i1));
            if self.bottom(vpn) is Some {
                let s0 = self.bottom(vpn)->Some_0;
                assert(self.entry_ok(s0, i0));
            }
        }
    }

    /// What the view holds for a page.
    proof fn lemma_view(&self, vpn: nat)
        ensures
            self@.contains_key(vpn) <==> vpn < 0x800_0000 && self.lookup(vpn) is Some,
            self@.contains_key(vpn) ==> self@[vpn] == self.lookup(vpn)->Some_0,
    {
    }

    /// Two mappers in which every page is looked up alike have one view.
    proof fn lemma_same_view(&self, other: &Mapper)
        requires
            self.walks_kept(other),
        ensures
            other@ == self@,
    {
        assert(other@ =~= self@);
    }

    /// The view after the only leaf for the page `vpn` was written.
    proof fn lemma_one_leaf(&self, other: &Mapper, slot: int, vpn: nat, now: Option<Mapping>)
        requires
            self.wf(),
            vpn < 0x800_0000,
            self.bottom(vpn) == Some(slot),
            forall|k: nat|
                k < 0x800_0000 ==> #[trigger] other.lookup(k) == (if self.bottom(k) == Some(slot)
                    && k % 512 == vpn % 512 {
                    now
                } else {
                    self.lookup(k)
                }),
        ensures
            now matches Some(m) ==> other@ == self@.insert(vpn, m),
            now is None ==> other@ == self@.remove(vpn),
    {
        assert forall|k: nat| k < 0x800_0000 implies #[trigger] other.lookup(k) == (if k == vpn {
            now
        } else {
            self.lookup(k)
        }) by {
            self.lemma_path(k);
            self.lemma_path(vpn);
        }
        match now {
            Some(m) => {
                assert(other@ =~= self@.insert(vpn, m));
            },
            None => {
                assert(other@ =~= self@.remove(vpn));
            },
        }
    }

    /// What follows for a mapper of the same shape.
    proof fn lemma_shape(&self, other: &Mapper)
        requires
            self.wf(),
            self.same_shape(other),
        ensures
            other.distinct(),
            other.table_frames() == self.table_frames(),
    {
        reveal(Mapper::wf);
        assert forall|s: int, t: int|
            0 <= s < other.tables@.len() && 0 <= t < other.tables@.len() && s != t implies (
        #[trigger] other.tables@[s]).frame@ != (#[trigger] other.tables@[t]).frame@ by {
            assert(self.tables@[s].frame@ != self.tables@[t].frame@);
        }
        assert forall|f: nat| self.has_table(f) implies other.has_table(f) by {
            let s = self.slot_of(f);
            assert(other.tables@[s].frame@ == f);
        }
        assert forall|f: nat| other.has_table(f) implies self.has_table(f) by {
            let s = other.slot_of(f);
            assert(self.tables@[s].frame@ == f);
        }
        assert(other.table_frames() =~= self.table_frames());
    }

    /// An entry that points at a table of this mapper points at the same
    /// table of a mapper of the same shape.
    proof fn lemma_same_branch(&self, other: &Mapper, raw: nat, level: nat, prefix: nat)
        requires
            self.wf(),
            self.same_shape(other),
            self.branch_ok(raw, level, prefix),
        ensures
            other.branch_ok(raw, level, prefix),
            raw != 0 ==> other.slot_of(entry_address(raw)) == self.slot_of(entry_address(raw)) && 0
                <= self.slot_of(entry_address(raw)) < self.tables@.len(),
    {
        self.lemma_shape(other);
        if raw != 0 {
            let f = entry_address(raw);
            let s = self.slot_of(f);
            assert(other.tables@[s].frame@ == f);
            other.lemma_slot(s);
        }
    }

    proof fn lemma_root_kept(&self, other: &Mapper, i: int)
        requires
            self.wf(),
            self.same_shape(other),
            0 <= i < 512,
            other.root@[i] == self.root@[i],
        ensures
            other.root_ok(i),
    {
        reveal(Mapper::wf);
        assert(self.root_ok(i));
        self.lemma_same_branch(other, self.root@[i], 1, i as nat);
    }

    proof fn lemma_entry_kept(&self, other: &Mapper, s: int, j: int)
        requires
            self.wf(),
            self.same_shape(other),
            0 <= s < self.tables@.len(),
            0 <= j < 512,
            other.tables@[s].table@[j] == self.tables@[s].table@[j],
        ensures
            other.entry_ok(s, j),
    {
        reveal(Mapper::wf);
        assert(self.entry_ok(s, j));
        if self.tables@[s].level@ == 1 {
            self.lemma_same_branch(
                other,
                self.tables@[s].table@[j],
                0,
                self.tables@[s].prefix@ * 512 + j as nat,
            );
        }
    }

    /// The way to a page as far as the middle level, after a table below the
    /// root was written.
    proof fn lemma_middle_kept(&self, other: &Mapper, vpn: nat)
        requires
            self.wf(),
            self.same_shape(other),
            other.root@ == self.root@,
            vpn < 0x800_0000,
        ensures
            other.middle(vpn) == self.middle(vpn),
    {
        reveal(Mapper::wf);
        reveal(Mapper::middle);
        let i2 = (vpn / 0x4_0000) as int;
        assert(self.root_ok(i2));
        assert(!entry_flags(0).valid);
        self.lemma_same_branch(other, self.root@[i2], 1, i2 as nat);
    }

    /// What a walk finds after a leaf was written.
    proof fn lemma_leaf_written(&self, other: &Mapper, slot: int, index: int, raw: nat, vpn: nat)
        requires
            self.wf(),
            self.same_shape(other),
            other.root@ == self.root@,
            0 <= slot < self.tables@.len(),
            0 <= index < 512,
            self.tables@[slot].level@ == 0,
            leaf_ok(raw),
            other.tables@[slot].table@ == self.tables@[slot].table@.update(index, raw),
            forall|s: int|
                0 <= s < self.tables@.len() && s != slot ==> #[trigger] other.tables@[s]
                    == self.tables@[s],
            vpn < 0x800_0000,
        ensures
            other.middle(vpn) == self.middle(vpn),
            other.bottom(vpn) == self.bottom(vpn),
            other.lookup(vpn) == (if self.bottom(vpn) == Some(slot) && vpn % 512 == index {
                if raw == 0 {
                    None
                } else {
                    Some(Mapping { frame: entry_address(raw), flags: entry_flags(raw) })
                }
            } else {
                self.lookup(vpn)
            }),
    {
        let i1 = ((vpn / 512) % 512) as int;
        let i0 = (vpn % 512) as int;
        self.lemma_middle_kept(other, vpn);
        self.lemma_path(vpn);
        reveal(Mapper::wf);
        reveal(Mapper::bottom);
        reveal(Mapper::lookup);
        assert(!entry_flags(0).valid);
        if self.middle(vpn) is Some {
            let s1 = self.middle(vpn)->Some_0;
            assert(other.tables@[s1] == self.tables@[s1]);
            assert(self.entry_ok(s1, i1));
            self.lemma_same_branch(
                other,
                self.tables@[s1].table@[i1],
                0,
                self.tables@[s1].prefix@ * 512 + i1 as nat,
            );
            if self.bottom(vpn) is Some {
                let s0 = self.bottom(vpn)->Some_0;
                if s0 != slot {
                    assert(other.tables@[s0] == self.tables@[s0]);
                }
            }
        }
    }

    /// What a walk finds after a table of the middle level was made to
    /// point at an empty table of leaves.
    proof fn lemma_branch_written(&self, other: &Mapper, parent: int, index: int, child: int, vpn: nat)
        requires
            self.wf(),
            self.same_shape(other),
            other.root@ == self.root@,
            0 <= parent < self.tables@.len(),
            0 <= child < self.tables@.len(),
            0 <= index < 512,
            self.tables@[parent].level@ == 1,
            self.tables@[parent].table@[index] == 0,
            self.tables@[child].level@ == 0,
            self.tables@[child].table@ == Seq::new(512, |i: int| 0nat),
            is_table_entry(other.tables@[parent].table@[index]),
            entry_address(other.tables@[parent].table@[index]) == self.tables@[child].frame@,
            other.tables@[parent].table@ == self.tables@[parent].table@.update(
                index,
                other.tables@[parent].table@[index],
            ),
            forall|s: int|
                0 <= s < self.tables@.len() && s != parent ==> #[trigger] other.tables@[s]
                    == self.tables@[s],
            vpn < 0x800_0000,
        ensures
            other.middle(vpn) == self.middle(vpn),
            other.lookup(vpn) == self.lookup(vpn),
            other.bottom(vpn) == (if self.middle(vpn) == Some(parent) && (vpn / 512) % 512
                == index {
                Some(child)
            } else {
                self.bottom(vpn)
            }),
    {
        let i1 = ((vpn / 512) % 512) as int;
        let i0 = (vpn % 512) as int;
        self.lemma_middle_kept(other, vpn);
        self.lemma_path(vpn);
        self.lemma_shape(other);
        other.lemma_slot(child);
        reveal(Mapper::wf);
        reveal(Mapper::bottom);
        reveal(Mapper::lookup);
        assert(!entry_flags(0).valid);
        if self.middle(vpn) is Some {
            let s1 = self.middle(vpn)->Some_0;
            if s1 == parent && i1 == index {
                assert(other.tables@[child] == self.tables@[child]);
            } else {
                assert(other.tables@[s1].table@[i1] == self.tables@[s1].table@[i1]);
                assert(self.entry_ok(s1, i1));
                self.lemma_same_branch(
                    other,
                    self.tables@[s1].table@[i1],
                    0,
                    self.tables@[s1].prefix@ * 512 + i1 as nat,
                );
                if self.bottom(vpn) is Some {
                    let s0 = self.bottom(vpn)->Some_0;
                    assert(other.tables@[s0] == self.tables@[s0]);
                }
            }
        }
    }

    /// A mapper with no page mapped.
    pub fn new() -> (r: Self)
        ensures
            r.wf(),
            r@ == Map::<nat, Mapping>::empty(),
            r.table_frames() == Set::<nat>::empty(),
            forall|vpn: nat| vpn < 0x800_0000 ==> #[trigger] r.missing_tables(vpn) == 2,
    {
        let r = Mapper { root: PageTable::new(), tables: Vec::new() };
        proof {
            reveal(Mapper::wf);
            reveal(Mapper::middle);
            reveal(Mapper::bottom);
            reveal(Mapper::lookup);
            assert(!entry_flags(0).valid);
            assert forall|i: int| 0 <= i < 512 implies #[trigger] r.root_ok(i) by {}
            assert forall|vpn: nat| vpn < 0x800_0000 implies #[trigger] r.missing_tables(vpn)
                == 2 by {
                assert(r.root@[(vpn / 0x4_0000) as int] == 0);
            }
            assert(r@ =~= Map::<nat, Mapping>::empty());
            assert(r.table_frames() =~= Set::<nat>::empty());
        }
        r
    }

    /// Index of the table that the frame at `frame` backs.
    fn find_table(&self, frame: PhysAddr) -> (r: Option<usize>)
        ensures
            match r {
                Some(s) => s < self.tables@.len() && self.tables@[s as int].frame@ == frame@,
                None => !self.has_table(frame@),
            },
    {
        let wanted = frame.as_u64();
        let mut s: usize = 0;
        while s < self.tables.len()
            invariant
                s <= self.tables@.len(),
                wanted == frame@,
                forall|t: int| 0 <= t < s ==> (#[trigger] self.tables@[t]).frame@ != frame@,
            decreases self.tables@.len() - s,
        {
            if self.tables[s].frame.as_u64() == wanted {
                return Some(s);
            }
            s += 1;
        }
        None
    }

    /// The table that an entry points at, where the entry is a table entry
    /// of this mapper.
    fn follow(&self, table: &PageTable, index: usize) -> (r: Option<usize>)
        requires
            index < 512,
            table@.len() == 512,
            table@[index as int] != 0 ==> self.has_table(entry_address(table@[index as int])),
            self.wf(),
        ensures
            r is Some <==> is_table_entry(table@[index as int]),
            r matches Some(s) ==> s < self.tables@.len() && s == self.slot_of(
                entry_address(table@[index as int]),
            ) && self.tables@[s as int].frame@ == entry_address(table@[index as int]),
    {
        match table.walk(index) {
            WalkStep::Table(next) => {
                let found = self.find_table(next);
                proof {
                    assert(!entry_flags(0).valid);
                    if found is Some {
                        self.lemma_found(found->Some_0 as int);
                    }
                }
                found
            },
            _ => None,
        }
    }

    /// The table of leaves and the index in it at which the page of `virt`
    /// is mapped, if it is.
    fn locate(&self, virt: VirtAddr) -> (r: Option<(usize, usize)>)
        requires
            self.wf(),
        ensures
            r is Some <==> self@.contains_key(page_number(virt@)),
            r matches Some((slot, index)) ==> slot < self.tables@.len() && index == page_number(
                virt@,
            ) % 512 && self.bottom(page_number(virt@)) == Some(slot as int)
                && self.tables@[slot as int].level@ == 0 && self.tables@[slot as int].table@.len()
                == 512 && is_leaf_entry(self.tables@[slot as int].table@[index as int])
                && self@[page_number(virt@)] == (Mapping {
                frame: entry_address(self.tables@[slot as int].table@[index as int]),
                flags: entry_flags(self.tables@[slot as int].table@[index as int]),
            }),
    {
        let ghost vpn = page_number(virt@);
        let raw = virt.as_u64();
        proof {
            lemma_page_indices(raw);
            self.lemma_path(vpn);
            self.lemma_view(vpn);
            assert(!entry_flags(0).valid);
        }
        let i2 = virt.vpn_2() as usize;
        let i1 = virt.vpn_1() as usize;
        let i0 = virt.vpn_0() as usize;
        let s1 = match self.follow(&self.root, i2) {
            Some(s) => s,
            None => {
                return None;
            },
        };
        let s0 = match self.follow(&self.tables[s1].table, i1) {
            Some(s) => s,
            None => {
                return None;
            },
        };
        if self.tables[s0].table.entry(i0).is_free() {
            None
        } else {
            Some((s0, i0))
        }
    }

    /// The physical address that `virt` is mapped to, if its page is mapped.
    pub fn translate(&self, virt: VirtAddr) -> (r: Option<PhysAddr>)
        requires
            self.wf(),
        ensures
            r is Some <==> self@.contains_key(page_number(virt@)),
            r is Some ==> r->Some_0@ == self@[page_number(virt@)].frame + offset_of(virt@),
    {
        match self.locate(virt) {
            None => None,
            Some((slot, index)) => {
                let entry = self.tables[slot].table.entry(index);
                let base = entry.address().as_u64();
                let offset = virt.page_offset() as u64;
                Some(PhysAddr::new_truncate(base + offset))
            },
        }
    }

    /// Takes a frame from the allocator and puts an empty table on it.
    fn grow(&mut self, alloc: &mut FrameAllocator, level: Ghost<nat>, prefix: Ghost<nat>) -> (r:
        Option<usize>)
        requires
            old(self).wf(),
            old(alloc).wf(),
            old(self).backed_by(old(alloc)@),
            level@ <= 1,
        ensures
            final(self).wf(),
            final(alloc).wf(),
            final(self).backed_by(final(alloc)@),
            final(self).root@ == old(self).root@,
            r is Some <==> old(alloc)@.free_pages() > 0,
            r is None ==> final(self).tables@ == old(self).tables@ && final(alloc)@ == old(alloc)@,
            r is Some ==> final(alloc)@.free_pages() == old(alloc)@.free_pages() - 1,
            r is Some ==> r->Some_0 == old(self).tables@.len(),
            r is Some ==> final(self).tables@.len() == old(self).tables@.len() + 1,
            r is Some ==> final(self).tables@.subrange(0, old(self).tables@.len() as int) == old(
                self,
            ).tables@,
            r is Some ==> final(self).tables@[r->Some_0 as int].level == level,
            r is Some ==> final(self).tables@[r->Some_0 as int].prefix == prefix,
            r is Some ==> final(self).tables@[r->Some_0 as int].table@ == Seq::new(
                512,
                |i: int| 0nat,
            ),
            old(self).walks_kept(final(self)),
            old(self).middles_kept(final(self)),
            old(self).bottoms_kept(final(self)),
            old(self).table_frames().subset_of(final(self).table_frames()),
            final(self).only_took_tables(old(alloc)@, final(alloc)@),
    {
        let ghost before = *self;
        let ghost pool = alloc@;
        proof {
            lemma_can_allocate_a_page(alloc@);
            lemma_order_sizes();
        }
        let frame = match alloc.allocate(0) {
            Ok(frame) => frame,
            Err(_) => {
                return None;
            },
        };
        let addr = frame.start_address();
        proof {
            reveal(Mapper::wf);
            lemma_page_sizes();
            lemma_after_allocate(pool, 0, addr@);
            assert(!before.has_table(addr@)) by {
                if before.has_table(addr@) {
                    assert(before.table_frames().contains(addr@));
                    assert(pool.is_allocated(0, addr@));
                }
            }
            assert forall|f: nat| #[trigger] before.table_frames().contains(f) implies alloc@.is_allocated(
                0,
                f,
            ) by {
                assert(pool.is_allocated(0, f));
                assert(alloc@.is_used(pool.block_at(f, 0)));
            }
        }
        let slot = TableSlot { frame: addr, table: PageTable::new(), level, prefix };
        self.tables.push(slot);
        let at = self.tables.len() - 1;
        proof {
            reveal(Mapper::middle);
            reveal(Mapper::bottom);
            reveal(Mapper::lookup);
            assert(self.tables@.subrange(0, before.tables@.len() as int) == before.tables@);
            assert forall|s: int, t: int|
                0 <= s < self.tables@.len() && 0 <= t < self.tables@.len() && s != t implies (
            #[trigger] self.tables@[s]).frame@ != (#[trigger] self.tables@[t]).frame@ by {
                if s < before.tables@.len() {
                    assert(before.tables@[s].frame@ == self.tables@[s].frame@);
                }
                if t < before.tables@.len() {
                    assert(before.tables@[t].frame@ == self.tables@[t].frame@);
                }
            }
            before.lemma_extends(self);
            assert(!entry_flags(0).valid);
            assert forall|i: int| 0 <= i < 512 implies #[trigger] self.root_ok(i) by {
                assert(before.root_ok(i));
            }
            assert forall|s: int, j: int|
                0 <= s < self.tables@.len() && 0 <= j < 512 implies #[trigger] self.entry_ok(
                s,
                j,
            ) by {
                if s < before.tables@.len() {
                    assert(before.entry_ok(s, j));
                    assert(self.tables@[s] == before.tables@[s]);
                }
            }
            assert forall|vpn: nat| vpn < 0x800_0000 implies self.middle(vpn) == before.middle(vpn)
                && self.bottom(vpn) == before.bottom(vpn) && self.lookup(vpn) == before.lookup(
                vpn,
            ) by {
                before.lemma_path(vpn);
                if before.middle(vpn) is Some {
                    let s1 = before.middle(vpn)->Some_0;
                    assert(self.tables@[s1] == before.tables@[s1]);
                    before.lemma_slot(s1);
                    if before.bottom(vpn) is Some {
                        let s0 = before.bottom(vpn)->Some_0;
                        assert(self.tables@[s0] == before.tables@[s0]);
                        before.lemma_slot(s0);
                    }
                }
            }
            assert forall|f: nat| #[trigger] self.table_frames().contains(f) implies alloc@.is_allocated(
                0,
                f,
            ) by {
                let s = self.slot_of(f);
                if s < before.tables@.len() {
                    assert(before.tables@[s].frame@ == f);
                    assert(before.table_frames().contains(f));
                }
            }
            assert forall|f: nat| before.table_frames().contains(f) implies self.table_frames().contains(
                f,
            ) by {
                assert(before.has_table(f));
            }
            assert(self.tables@[at as int].frame@ == addr@);
            assert(self.table_frames().contains(addr@));
            let taken = pool.block_at(addr@, 0);
            assert forall|b: Block| #[trigger] alloc@.is_used(b) == (pool.is_used(b) || b
                == taken) by {
                assert(alloc@.used == pool.put_used(taken).used);
            }
        }
        Some(at)
    }

    /// Writes one entry of a table below the root.
    fn write(&mut self, slot: usize, index: usize, raw: u64)
        requires
            slot < old(self).tables@.len(),
            index < 512,
            old(self).tables@[slot as int].table@.len() == 512,
            !entry_flags(raw as nat).is_reserved(),
        ensures
            old(self).same_shape(final(self)),
            final(self).root@ == old(self).root@,
            final(self).tables@[slot as int].table@ == old(self).tables@[slot as int].table@.update(
                index as int,
                raw as nat,
            ),
            forall|s: int|
                0 <= s < old(self).tables@.len() && s != slot ==> #[trigger] final(self).tables@[s]
                    == old(self).tables@[s],
    {
        let entry = self.tables[slot].table.entry_mut(index);
        let done = entry.set(raw);
    }

    /// Makes the root point at an empty table of the middle level.
    fn link_root(&mut self, index: usize, child: usize)
        requires
            old(self).wf(),
            index < 512,
            child < old(self).tables@.len(),
            old(self).root@[index as int] == 0,
            old(self).tables@[child as int].level@ == 1,
            old(self).tables@[child as int].prefix@ == index,
            old(self).tables@[child as int].table@ == Seq::new(512, |i: int| 0nat),
        ensures
            final(self).wf(),
            final(self).tables@ == old(self).tables@,
            final(self).table_frames() == old(self).table_frames(),
            old(self).walks_kept(final(self)),
            old(self).bottoms_kept(final(self)),
            forall|vpn: nat|
                vpn < 0x800_0000 ==> #[trigger] final(self).middle(vpn) == (if vpn / 0x4_0000
                    == index {
                    Some(child as int)
                } else {
                    old(self).middle(vpn)
                }),
    {
        let ghost before = *self;
        let frame = self.tables[child].frame;
        let raw = PageTableEntry::pack(frame, EntryFlags::new(1));
        proof {
            reveal(Mapper::wf);
            lemma_entry_of_round_trip(frame@, 1);
            lemma_flag_bits_round_trip(1, flag_set_of(1));
            assert(is_table_entry(raw as nat));
            assert(entry_address(raw as nat) == frame@);
        }
        let entry = self.root.entry_mut(index);
        let done = entry.set(raw);
        proof {
            reveal(Mapper::middle);
            reveal(Mapper::bottom);
            reveal(Mapper::lookup);
            before.lemma_extends(self);
            self.lemma_slot(child as int);
            assert(!entry_flags(0).valid);
            assert forall|i: int| 0 <= i < 512 implies #[trigger] self.root_ok(i) by {
                assert(before.root_ok(i));
            }
            assert forall|s: int, j: int|
                0 <= s < self.tables@.len() && 0 <= j < 512 implies #[trigger] self.entry_ok(
                s,
                j,
            ) by {
                assert(before.entry_ok(s, j));
            }
            assert forall|vpn: nat| vpn < 0x800_0000 implies self.lookup(vpn) == before.lookup(vpn)
                && self.bottom(vpn) == before.bottom(vpn) && self.middle(vpn) == (if vpn / 0x4_0000
                == index {
                Some(child as int)
            } else {
                before.middle(vpn)
            }) by {
                before.lemma_path(vpn);
            }
            assert(self.table_frames() =~= before.table_frames());
        }
    }

    /// Makes a table of the middle level point at an empty table of leaves.
    fn link_inner(&mut self, parent: usize, index: usize, child: usize)
        requires
            old(self).wf(),
            index < 512,
            parent < old(self).tables@.len(),
            child < old(self).tables@.len(),
            old(self).tables@[parent as int].level@ == 1,
            old(self).tables@[parent as int].table@[index as int] == 0,
            old(self).tables@[child as int].level@ == 0,
            old(self).tables@[child as int].prefix@ == old(self).tables@[parent as int].prefix@
                * 512 + index,
            old(self).tables@[child as int].table@ == Seq::new(512, |i: int| 0nat),
        ensures
            final(self).wf(),
            old(self).same_shape(final(self)),
            final(self).root@ == old(self).root@,
            final(self).table_frames() == old(self).table_frames(),
            old(self).walks_kept(final(self)),
            old(self).middles_kept(final(self)),
            forall|vpn: nat|
                vpn < 0x800_0000 ==> #[trigger] final(self).bottom(vpn) == (if old(self).middle(vpn)
                    == Some(parent as int) && (vpn / 512) % 512 == index {
                    Some(child as int)
                } else {
                    old(self).bottom(vpn)
                }),
    {
        let ghost before = *self;
        let frame = self.tables[child].frame;
        let raw = PageTableEntry::pack(frame, EntryFlags::new(1));
        proof {
            reveal(Mapper::wf);
            lemma_entry_of_round_trip(frame@, 1);
            lemma_flag_bits_round_trip(1, flag_set_of(1));
            assert(is_table_entry(raw as nat));
            assert(entry_address(raw as nat) == frame@);
        }
        self.write(parent, index, raw);
        proof {
            before.lemma_shape(self);
            self.lemma_slot(child as int);
            assert forall|i: int| 0 <= i < 512 implies #[trigger] self.root_ok(i) by {
                before.lemma_root_kept(self, i);
            }
            assert forall|s: int, j: int|
                0 <= s < self.tables@.len() && 0 <= j < 512 implies #[trigger] self.entry_ok(
                s,
                j,
            ) by {
                if s == parent && j == index {
                } else {
                    before.lemma_entry_kept(self, s, j);
                }
            }
            assert forall|vpn: nat| vpn < 0x800_0000 implies self.lookup(vpn) == before.lookup(vpn)
                && self.middle(vpn) == before.middle(vpn) && self.bottom(vpn) == (if before.middle(
                vpn,
            ) == Some(parent as int) && (vpn / 512) % 512 == index {
                Some(child as int)
            } else {
                before.bottom(vpn)
            }) by {
                before.lemma_branch_written(self, parent as int, index as int, child as int, vpn);
            }
        }
    }

    /// Writes a leaf, or frees one, in a table of leaves.
    fn put_leaf(&mut self, slot: usize, index: usize, raw: u64)
        requires
            old(self).wf(),
            index < 512,
            slot < old(self).tables@.len(),
            old(self).tables@[slot as int].level@ == 0,
            leaf_ok(raw as nat),
        ensures
            final(self).wf(),
            old(self).same_shape(final(self)),
            final(self).root@ == old(self).root@,
            final(self).table_frames() == old(self).table_frames(),
            old(self).middles_kept(final(self)),
            old(self).bottoms_kept(final(self)),
            forall|vpn: nat|
                vpn < 0x800_0000 ==> #[trigger] final(self).lookup(vpn) == (if old(self).bottom(vpn)
                    == Some(slot as int) && vpn % 512 == index {
                    if raw == 0 {
                        None
                    } else {
                        Some(
                            Mapping {
                                frame: entry_address(raw as nat),
                                flags: entry_flags(raw as nat),
                            },
                        )
                    }
                } else {
                    old(self).lookup(vpn)
                }),
    {
        let ghost before = *self;
        proof {
            reveal(Mapper::wf);
            assert(!entry_flags(0).valid);
            assert(!entry_flags(0).is_reserved());
        }
        self.write(slot, index, raw);
        proof {
            before.lemma_shape(self);
            assert forall|i: int| 0 <= i < 512 implies #[trigger] self.root_ok(i) by {
                before.lemma_root_kept(self, i);
            }
            assert forall|s: int, j: int|
                0 <= s < self.tables@.len() && 0 <= j < 512 implies #[trigger] self.entry_ok(
                s,
                j,
            ) by {
                if s == slot && j == index {
                } else {
                    before.lemma_entry_kept(self, s, j);
                }
            }
            assert forall|vpn: nat| vpn < 0x800_0000 implies self.middle(vpn) == before.middle(vpn)
                && self.bottom(vpn) == before.bottom(vpn) && self.lookup(vpn) == (
            if before.bottom(vpn) == Some(slot as int) && vpn % 512 == index {
                if raw == 0 {
                    None
                } else {
                    Some(
                        Mapping {
                            frame: entry_address(raw as nat),
                            flags: entry_flags(raw as nat),
                        },
                    )
                }
            } else {
                before.lookup(vpn)
            }) by {
                before.lemma_leaf_written(self, slot as int, index as int, raw as nat, vpn);
            }
        }
    }

    /// The table of the middle level on the way to the page `vpn`; it is
    /// made if it is not there and a frame is left for it.
    fn descend_root(&mut self, alloc: &mut FrameAllocator, index: usize, vpn: Ghost<nat>) -> (r:
        Option<usize>)
        requires
            old(self).wf(),
            old(alloc).wf(),
            old(self).backed_by(old(alloc)@),
            vpn@ < 0x800_0000,
            index == vpn@ / 0x4_0000,
        ensures
            final(self).wf(),
            final(alloc).wf(),
            final(self).backed_by(final(alloc)@),
            old(self).walks_kept(final(self)),
            old(self).bottoms_kept(final(self)),
            old(self).table_frames().subset_of(final(self).table_frames()),
            final(self).only_took_tables(old(alloc)@, final(alloc)@),
            forall|k: nat|
                k < 0x800_0000 && old(self).middle(k) is Some ==> #[trigger] final(self).middle(k)
                    == old(self).middle(k),
            r is Some <==> old(self).middle(vpn@) is Some || old(alloc)@.free_pages() > 0,
            r matches Some(s) ==> final(self).middle(vpn@) == Some(s as int),
            r is None ==> final(alloc)@ == old(alloc)@,
            old(self).middle(vpn@) is Some ==> final(alloc)@ == old(alloc)@,
            r is Some && old(self).middle(vpn@) is None ==> final(alloc)@.free_pages() == old(
                alloc,
            )@.free_pages() - 1,
    {
        let ghost before = *self;
        proof {
            before.lemma_path(vpn@);
            assert(!entry_flags(0).valid);
        }
        match self.follow(&self.root, index) {
            Some(s) => Some(s),
            None => match self.grow(alloc, Ghost(1), Ghost(index as nat)) {
                None => None,
                Some(s) => {
                    let ghost grown = *self;
                    self.link_root(index, s);
                    proof {
                        assert forall|k: nat| k < 0x800_0000 implies #[trigger] self.lookup(k)
                            == before.lookup(k) by {
                            assert(grown.lookup(k) == before.lookup(k));
                        }
                        assert forall|k: nat| k < 0x800_0000 implies #[trigger] self.bottom(k)
                            == before.bottom(k) by {
                            assert(grown.bottom(k) == before.bottom(k));
                        }
                        assert forall|k: nat|
                            k < 0x800_0000 && before.middle(k) is Some implies #[trigger] self.middle(
                            k,
                        ) == before.middle(k) by {
                            assert(grown.middle(k) == before.middle(k));
                            before.lemma_path(k);
                        }
                    }
                    Some(s)
                },
            },
        }
    }

    /// The table of leaves on the way to the page `vpn`, below the table
    /// `parent` of the middle level; it is made if it is not there and a
    /// frame is left for it.
    fn descend_inner(
        &mut self,
        alloc: &mut FrameAllocator,
        parent: usize,
        index: usize,
        vpn: Ghost<nat>,
    ) -> (r: Option<usize>)
        requires
            old(self).wf(),
            old(alloc).wf(),
            old(self).backed_by(old(alloc)@),
            vpn@ < 0x800_0000,
            index == (vpn@ / 512) % 512,
            old(self).middle(vpn@) == Some(parent as int),
        ensures
            final(self).wf(),
            final(alloc).wf(),
            final(self).backed_by(final(alloc)@),
            old(self).walks_kept(final(self)),
            old(self).middles_kept(final(self)),
            old(self).table_frames().subset_of(final(self).table_frames()),
            final(self).only_took_tables(old(alloc)@, final(alloc)@),
            forall|k: nat|
                k < 0x800_0000 && old(self).bottom(k) is Some ==> #[trigger] final(self).bottom(k)
                    == old(self).bottom(k),
            r is Some <==> old(self).bottom(vpn@) is Some || old(alloc)@.free_pages() > 0,
            r matches Some(s) ==> final(self).bottom(vpn@) == Some(s as int),
            r is None ==> final(alloc)@ == old(alloc)@,
            old(self).bottom(vpn@) is Some ==> final(alloc)@ == old(alloc)@,
            r is Some && old(self).bottom(vpn@) is None ==> final(alloc)@.free_pages() == old(
                alloc,
            )@.free_pages() - 1,
    {
        let ghost before = *self;
        proof {
            before.lemma_path(vpn@);
            assert(!entry_flags(0).valid);
        }
        match self.follow(&self.tables[parent].table, index) {
            Some(s) => Some(s),
            None => match self.grow(
                alloc,
                Ghost(0),
                Ghost(before.tables@[parent as int].prefix@ * 512 + index as nat),
            ) {
                None => None,
                Some(s) => {
                    let ghost grown = *self;
                    proof {
                        assert(grown.tables@[parent as int] == before.tables@[parent as int]) by {
                            assert(grown.tables@.subrange(0, before.tables@.len() as int)[parent as int]
                                == grown.tables@[parent as int]);
                        }
                    }
                    self.link_inner(parent, index, s);
                    proof {
                        assert forall|k: nat| k < 0x800_0000 implies #[trigger] self.lookup(k)
                            == before.lookup(k) by {
                            assert(grown.lookup(k) == before.lookup(k));
                        }
                        assert forall|k: nat| k < 0x800_0000 implies #[trigger] self.middle(k)
                            == before.middle(k) by {
                            assert(grown.middle(k) == before.middle(k));
                        }
                        assert forall|k: nat|
                            k < 0x800_0000 && before.bottom(k) is Some implies #[trigger] self.bottom(
                            k,
                        ) == before.bottom(k) by {
                            assert(grown.bottom(k) == before.bottom(k));
                            assert(grown.middle(k) == before.middle(k));
                            before.lemma_path(k);
                        }
                        assert(grown.middle(vpn@) == before.middle(vpn@));
                    }
                    Some(s)
                },
            },
        }
    }

    /// The table of leaves on the way to the page `vpn`; the tables that
    /// are missing on the way are made as far as frames are left for them.
    fn descend(&mut self, alloc: &mut FrameAllocator, upper: usize, lower: usize, vpn: Ghost<nat>) -> (r:
        Option<usize>)
        requires
            old(self).wf(),
            old(alloc).wf(),
            old(self).backed_by(old(alloc)@),
            vpn@ < 0x800_0000,
            upper == vpn@ / 0x4_0000,
            lower == (vpn@ / 512) % 512,
        ensures
            final(self).wf(),
            final(alloc).wf(),
            final(self).backed_by(final(alloc)@),
            final(self)@ == old(self)@,
            old(self).table_frames().subset_of(final(self).table_frames()),
            final(self).only_took_tables(old(alloc)@, final(alloc)@),
            forall|k: nat|
                k < 0x800_0000 ==> #[trigger] final(self).missing_tables(k) <= old(
                    self,
                ).missing_tables(k),
            r is Some <==> old(self).missing_tables(vpn@) <= old(alloc)@.free_pages(),
            r matches Some(s) ==> final(self).bottom(vpn@) == Some(s as int),
            r is Some ==> final(self).missing_tables(vpn@) == 0,
            r is Some ==> final(alloc)@.free_pages() == old(alloc)@.free_pages() - old(
                self,
            ).missing_tables(vpn@),
            r is None ==> final(alloc)@.free_pages() == 0,
            old(self).missing_tables(vpn@) == 0 ==> final(alloc)@ == old(alloc)@,
    {
        let ghost before = *self;
        proof {
            before.lemma_path(vpn@);
        }
        let s1 = match self.descend_root(alloc, upper, vpn) {
            Some(s) => s,
            None => {
                proof {
                    before.lemma_same_view(self);
                }
                return None;
            },
        };
        let ghost mid = *self;
        proof {
            before.lemma_same_view(&mid);
            assert(mid.bottom(vpn@) == before.bottom(vpn@));
            assert forall|k: nat| k < 0x800_0000 implies #[trigger] mid.missing_tables(k)
                <= before.missing_tables(k) by {
                assert(mid.bottom(k) == before.bottom(k));
                before.lemma_path(k);
                if before.middle(k) is Some {
                    assert(mid.middle(k) == before.middle(k));
                }
            }
        }
        let found = self.descend_inner(alloc, s1, lower, vpn);
        proof {
            mid.lemma_same_view(self);
            assert(self.middle(vpn@) == mid.middle(vpn@));
            assert forall|k: nat| k < 0x800_0000 implies #[trigger] self.missing_tables(k)
                <= before.missing_tables(k) by {
                assert(self.middle(k) == mid.middle(k));
                assert(mid.missing_tables(k) <= before.missing_tables(k));
                if mid.bottom(k) is Some {
                    assert(self.bottom(k) == mid.bottom(k));
                }
            }
        }
        found
    }

    /// Writes the leaf `raw` for the page `vpn` unless the page is mapped
    /// otherwise, and says whether the page is now mapped as `raw` says.
    fn place(&mut self, slot: usize, index: usize, raw: u64, vpn: Ghost<nat>) -> (r: bool)
        requires
            old(self).wf(),
            vpn@ < 0x800_0000,
            index == vpn@ % 512,
            old(self).bottom(vpn@) == Some(slot as int),
            leaf_ok(raw as nat),
            raw != 0,
        ensures
            final(self).wf(),
            final(self).table_frames() == old(self).table_frames(),
            forall|k: nat|
                k < 0x800_0000 ==> #[trigger] final(self).missing_tables(k) == old(
                    self,
                ).missing_tables(k),
            r <==> !(old(self)@.contains_key(vpn@) && old(self)@[vpn@] != (Mapping {
                frame: entry_address(raw as nat),
                flags: entry_flags(raw as nat),
            })),
            r ==> final(self)@ == old(self)@.insert(
                vpn@,
                Mapping { frame: entry_address(raw as nat), flags: entry_flags(raw as nat) },
            ),
            !r ==> final(self)@ == old(self)@,
    {
        let ghost before = *self;
        let ghost wanted = Mapping {
            frame: entry_address(raw as nat),
            flags: entry_flags(raw as nat),
        };
        proof {
            before.lemma_path(vpn@);
            before.lemma_view(vpn@);
            assert(!entry_flags(0).valid);
        }
        let found = *self.tables[slot].table.entry(index);
        if found.is_free() {
            self.put_leaf(slot, index, raw);
            proof {
                before.lemma_one_leaf(self, slot as int, vpn@, Some(wanted));
                assert forall|k: nat| k < 0x800_0000 implies #[trigger] self.missing_tables(k)
                    == before.missing_tables(k) by {
                    assert(self.middle(k) == before.middle(k));
                    assert(self.bottom(k) == before.bottom(k));
                }
            }
            true
        } else if found.as_u64() == raw {
            proof {
                assert(before@ =~= before@.insert(vpn@, wanted));
            }
            true
        } else {
            false
        }
    }

    /// Maps the page `virt` to the frame `phys` with `flags` and `valid`.
    /// Tables that are missing on the way are put on frames taken from
    /// `alloc`. A page that is mapped already stays as it is: that is an
    /// error unless it is mapped to `phys` with the same flags.
    pub fn map(&mut self, alloc: &mut FrameAllocator, virt: Page, phys: Frame, flags: EntryFlags) -> (r:
        Result<(), MapError>)
        requires
            old(self).wf(),
            old(alloc).wf(),
            old(self).backed_by(old(alloc)@),
        ensures
            final(self).wf(),
            final(alloc).wf(),
            final(self).backed_by(final(alloc)@),
            old(self).table_frames().subset_of(final(self).table_frames()),
            final(self).only_took_tables(old(alloc)@, final(alloc)@),
            r == old(self).map_outcome(
                old(alloc)@.free_pages(),
                page_number(virt@),
                phys@,
                flags@,
            ),
            r is Ok ==> final(self)@ == old(self)@.insert(
                page_number(virt@),
                Mapping { frame: phys@, flags: leaf_flags(flags@) },
            ),
            r is Err ==> final(self)@ == old(self)@,
            r is Ok ==> final(alloc)@.free_pages() == old(alloc)@.free_pages() - old(
                self,
            ).missing_tables(page_number(virt@)),
            r == Err::<(), MapError>(MapError::OutOfMemory) ==> final(alloc)@.free_pages() == 0,
            r == Err::<(), MapError>(MapError::InvalidFlags) || r == Err::<(), MapError>(
                MapError::AlreadyMapped,
            ) ==> final(alloc)@ == old(alloc)@,
            forall|vpn: nat|
                vpn < 0x800_0000 ==> #[trigger] final(self).missing_tables(vpn) <= old(
                    self,
                ).missing_tables(vpn),
            r is Ok ==> final(self).missing_tables(page_number(virt@)) == 0,
    {
        let ghost before = *self;
        let ghost vpn = page_number(virt@);
        let va = virt.start_address();
        proof {
            lemma_page_indices(va@ as u64);
            lemma_page_sizes();
            before.lemma_path(vpn);
            before.lemma_view(vpn);
        }
        let i2 = va.vpn_2() as usize;
        let i1 = va.vpn_1() as usize;
        let i0 = va.vpn_0() as usize;
        if (flags.is_write() && !flags.is_read()) || !(flags.is_read() || flags.is_write()
            || flags.is_execute()) {
            return Err(MapError::InvalidFlags);
        }
        let mut leaf = flags;
        leaf.set_valid(true);
        let target = phys.start_address();
        let raw = PageTableEntry::pack(target, leaf);
        proof {
            lemma_entry_of_round_trip(target@, bits_of(leaf@));
            lemma_flag_bits_round_trip(bits_of(leaf@), leaf@);
            assert(entry_flags(raw as nat) == leaf_flags(flags@));
            assert(entry_address(raw as nat) == phys@);
            assert(leaf_ok(raw as nat));
            assert(raw != 0);
        }
        let slot = match self.descend(alloc, i2, i1, Ghost(vpn)) {
            Some(slot) => slot,
            None => {
                return Err(MapError::OutOfMemory);
            },
        };
        let ghost low = *self;
        if self.place(slot, i0, raw, Ghost(vpn)) {
            proof {
                assert forall|k: nat| k < 0x800_0000 implies #[trigger] self.missing_tables(k)
                    <= before.missing_tables(k) by {
                    assert(low.missing_tables(k) <= before.missing_tables(k));
                }
            }
            Ok(())
        } else {
            proof {
                assert forall|k: nat| k < 0x800_0000 implies #[trigger] self.missing_tables(k)
                    <= before.missing_tables(k) by {
                    assert(low.missing_tables(k) <= before.missing_tables(k));
                }
                low.lemma_path(vpn);
                low.lemma_view(vpn);
                before.lemma_path(vpn);
            }
            Err(MapError::AlreadyMapped)
        }
    }

    /// Takes the mapping of the page `virt` away and hands back the frame
    /// that it was mapped to. The tables stay, and so do their frames.
    pub fn unmap(&mut self, virt: Page) -> (r: Result<Frame, NotMapped>)
        requires
            old(self).wf(),
        ensures
            final(self).wf(),
            r is Ok <==> old(self)@.contains_key(page_number(virt@)),
            r is Ok ==> r->Ok_0@ == old(self)@[page_number(virt@)].frame,
            r is Ok ==> final(self)@ == old(self)@.remove(page_number(virt@)),
            r is Err ==> final(self)@ == old(self)@,
            final(self).table_frames() == old(self).table_frames(),
            forall|vpn: nat|
                vpn < 0x800_0000 ==> #[trigger] final(self).missing_tables(vpn) == old(
                    self,
                ).missing_tables(vpn),
    {
        let ghost before = *self;
        let ghost vpn = page_number(virt@);
        proof {
            lemma_page_indices(virt@ as u64);
            lemma_page_sizes();
        }
        match self.locate(virt.start_address()) {
            None => Err(NotMapped),
            Some((slot, index)) => {
                let target = self.tables[slot].table.entry(index).address();
                self.put_leaf(slot, index, 0);
                proof {
                    before.lemma_one_leaf(self, slot as int, vpn, None);
                    assert forall|k: nat| k < 0x800_0000 implies #[trigger] self.missing_tables(k)
                        == before.missing_tables(k) by {
                        assert(self.middle(k) == before.middle(k));
                        assert(self.bottom(k) == before.bottom(k));
                    }
                }
                Ok(Frame::from_aligned(target))
            },
        }
    }

    /// Whether every frame that backs a table is allocated in `alloc`.
    pub fn is_backed_by(&self, alloc: &FrameAllocator) -> (r: bool)
        requires
            self.wf(),
            alloc.wf(),
        ensures
            r == self.backed_by(alloc@),
    {
        let mut s: usize = 0;
        while s < self.tables.len()
            invariant
                self.wf(),
                alloc.wf(),
                s <= self.tables@.len(),
                forall|t: int|
                    0 <= t < s ==> alloc@.is_allocated(0, (#[trigger] self.tables@[t]).frame@),
            decreases self.tables@.len() - s,
        {
            proof {
                lemma_page_sizes();
                self.lemma_found(s as int);
            }
            let frame: Frame = Frame::from_aligned(self.tables[s].frame);
            if !alloc.is_allocated(frame, 0) {
                return false;
            }
            s += 1;
        }
        proof {
            assert forall|f: nat| #[trigger] self.table_frames().contains(f) implies alloc@.is_allocated(
                0,
                f,
            ) by {
                let t = self.slot_of(f);
                assert(self.tables@[t].frame@ == f);
            }
        }
        true
    }

    /// Whether the frame at `frame` backs a table of this mapper.
    pub fn is_table_frame(&self, frame: Frame) -> (r: bool)
        ensures
            r == self.table_frames().contains(frame@),
    {
        let found = self.find_table(frame.start_address());
        proof {
            if found is Some {
                assert(self.tables@[found->Some_0 as int].frame@ == frame@);
            }
        }
        found.is_some()
    }
}

} // verus!
