//! A buddy allocator for the physical frames of one contiguous heap.
//!
//! The heap is cut into zones of 512 base pages. A block of order `k` is a
//! run of `2^k` pages whose first page is a multiple of `2^k`; a block of
//! order `k + 1` is made of two buddies of order `k`.

use vstd::prelude::*;
use crate::memory::frame::Frame;
use crate::memory::page::lemma_page_sizes;
use crate::memory::{PhysAddr, BASE_PAGE_SIZE, PHYS_LIMIT};
use vstd::arithmetic::div_mod::{
    lemma_div_pos_is_pos,
    lemma_fundamental_div_mod,
    lemma_fundamental_div_mod_converse_mod,
};
use vstd::arithmetic::power2::{lemma2_to64, lemma_pow2_adds, lemma_pow2_pos, lemma_pow2_unfold, pow2};

verus! {

/// Number of block orders: the orders are `0..MAX_ORDER`.
pub const MAX_ORDER: u32 = 10;

/// Pages in a block of the highest order.
pub const ZONE_PAGES: u64 = 512;

/// Bytes in a block of the highest order.
pub const ZONE_SIZE: u64 = 0x20_0000;

/// A block of `2^order` pages that starts at page `page` of the heap.
pub struct Block {
    pub order: nat,
    pub page: nat,
}

impl Block {
    /// The page after the last page of the block.
    pub open spec fn end(self) -> nat {
        self.page + pow2(self.order)
    }

    /// The two blocks share a page.
    pub open spec fn overlaps(self, other: Block) -> bool {
        self.page < other.end() && other.page < self.end()
    }

    /// The block is aligned to its own size and ends inside a heap of
    /// `total` pages.
    pub open spec fn fits(self, total: nat) -> bool {
        &&& self.order < MAX_ORDER
        &&& self.page % pow2(self.order) == 0
        &&& self.end() <= total
    }

    /// The block is the first half of the block one order up.
    pub open spec fn is_lower_half(self) -> bool {
        self.page % pow2(self.order + 1) == 0
    }

    /// The other half of the block one order up.
    pub open spec fn buddy(self) -> Block {
        Block {
            order: self.order,
            page: if self.is_lower_half() {
                self.page + pow2(self.order)
            } else {
                (self.page - pow2(self.order)) as nat
            },
        }
    }

    /// The block one order up that this block is a half of.
    pub open spec fn parent(self) -> Block {
        Block {
            order: self.order + 1,
            page: if self.is_lower_half() {
                self.page
            } else {
                (self.page - pow2(self.order)) as nat
            },
        }
    }

    /// The first half of the block, one order down.
    pub open spec fn lower(self) -> Block {
        Block { order: (self.order - 1) as nat, page: self.page }
    }

    /// The second half of the block, one order down.
    pub open spec fn upper(self) -> Block {
        Block { order: (self.order - 1) as nat, page: self.page + pow2((self.order - 1) as nat) }
    }
}

/// The sizes of the orders, written out.
pub proof fn lemma_order_sizes()
    ensures
        pow2(0) == 1,
        pow2(1) == 2,
        pow2(2) == 4,
        pow2(3) == 8,
        pow2(4) == 16,
        pow2(5) == 32,
        pow2(6) == 64,
        pow2(7) == 128,
        pow2(8) == 256,
        pow2(9) == 512,
        pow2(10) == 1024,
{
    lemma2_to64();
}

proof fn lemma_multiple_steps(p: int, s: int, total: int)
    requires
        s > 0,
        0 <= p < total,
        total % (2 * s) == 0,
    ensures
        p % (2 * s) == 0 ==> p % s == 0 && (p + s) % s == 0 && (p + s) % (2 * s) != 0,
        p % s == 0 && p % (2 * s) != 0 ==> p >= s && (p - s) % (2 * s) == 0,
        p % (2 * s) == 0 ==> p + 2 * s <= total,
{
    let d = 2 * s;
    lemma_fundamental_div_mod(p, d);
    lemma_fundamental_div_mod(p, s);
    lemma_fundamental_div_mod(total, d);
    if p % d == 0 {
        let q = p / d;
        assert(p == (2 * q) * s + 0 && p + s == (2 * q + 1) * s + 0 && p + s == q * d + s)
            by (nonlinear_arith)
            requires
                p == d * q,
                d == 2 * s,
        ;
        lemma_fundamental_div_mod_converse_mod(p, s, 2 * q, 0);
        lemma_fundamental_div_mod_converse_mod(p + s, s, 2 * q + 1, 0);
        lemma_fundamental_div_mod_converse_mod(p + s, d, q, s);
        let q2 = total / d;
        assert(q < q2) by (nonlinear_arith)
            requires
                p == d * q,
                total == d * q2,
                p < total,
                d > 0,
        ;
        assert(p + d <= total) by (nonlinear_arith)
            requires
                p == d * q,
                total == d * q2,
                q + 1 <= q2,
                d > 0,
        ;
    }
    if p % s == 0 && p % d != 0 {
        let q = p / s;
        let t = q / 2;
        lemma_div_pos_is_pos(p, s);
        if q % 2 == 0 {
            assert(p == t * d + 0) by (nonlinear_arith)
                requires
                    p == s * q,
                    q == 2 * t,
                    d == 2 * s,
            ;
            lemma_fundamental_div_mod_converse_mod(p, d, t, 0);
        } else {
            assert(p - s == t * d + 0 && p >= s) by (nonlinear_arith)
                requires
                    p == s * q,
                    q == 2 * t + 1,
                    d == 2 * s,
                    t >= 0,
                    s > 0,
            ;
            lemma_fundamental_div_mod_converse_mod(p - s, d, t, 0);
        }
    }
}

proof fn lemma_alignment_steps(p: nat, k: nat, total: nat)
    requires
        k + 1 < MAX_ORDER,
        total % 512 == 0,
        p < total,
    ensures
        pow2(k) > 0,
        pow2(k + 1) == 2 * pow2(k),
        p % pow2(k + 1) == 0 ==> p % pow2(k) == 0 && (p + pow2(k)) % pow2(k) == 0 && (p + pow2(k))
            % pow2(k + 1) != 0,
        p % pow2(k) == 0 && p % pow2(k + 1) != 0 ==> p >= pow2(k) && (p - pow2(k)) % (pow2(
            k + 1,
        ) as int) == 0,
        p % pow2(k + 1) == 0 ==> p + pow2(k + 1) <= total,
{
    lemma_order_sizes();
    lemma_pow2_unfold(k + 1);
    lemma_pow2_pos(k);
    let d = pow2(k + 1) as int;
    let e = pow2((8 - k) as nat) as int;
    lemma_pow2_adds(k + 1, (8 - k) as nat);
    lemma_pow2_pos((8 - k) as nat);
    lemma_fundamental_div_mod(total as int, 512);
    let m = total as int / 512;
    assert(total == (e * m) * d + 0) by (nonlinear_arith)
        requires
            total == 512 * m,
            d * e == 512,
    ;
    lemma_fundamental_div_mod_converse_mod(total as int, d, e * m, 0);
    lemma_multiple_steps(p as int, pow2(k) as int, total as int);
}

/// How a block, its buddy and their parent lie in a heap of whole zones.
pub proof fn lemma_block_family(b: Block, total: nat)
    requires
        b.order + 1 < MAX_ORDER,
        b.fits(total),
        total % 512 == 0,
    ensures
        pow2(b.order + 1) == 2 * pow2(b.order),
        b.buddy().fits(total),
        b.parent().fits(total),
        b.buddy().buddy() == b,
        b.buddy() != b,
        b.buddy().parent() == b.parent(),
        b.is_lower_half() ==> b.parent().lower() == b && b.parent().upper() == b.buddy(),
        !b.is_lower_half() ==> b.parent().upper() == b && b.parent().lower() == b.buddy(),
        b.parent().page == (if b.is_lower_half() { b.page } else { b.buddy().page }),
        b.parent().end() == (if b.is_lower_half() { b.buddy().end() } else { b.end() }),
        b.is_lower_half() ==> b.buddy().page == b.end(),
        !b.is_lower_half() ==> b.buddy().end() == b.page,
{
    lemma_pow2_pos(b.order);
    lemma_alignment_steps(b.page, b.order, total);
    lemma_alignment_steps(b.buddy().page, b.order, total);
}

/// How a block of order above zero falls into its two halves.
pub proof fn lemma_block_halves(c: Block, total: nat)
    requires
        c.order > 0,
        c.fits(total),
        total % 512 == 0,
    ensures
        pow2(c.order) == 2 * pow2((c.order - 1) as nat),
        c.lower().fits(total),
        c.upper().fits(total),
        c.lower().buddy() == c.upper(),
        c.upper().buddy() == c.lower(),
        c.lower().parent() == c,
        c.upper().parent() == c,
        c.lower().page == c.page,
        c.lower().end() == c.upper().page,
        c.upper().end() == c.end(),
{
    lemma_pow2_pos(c.order);
    lemma_pow2_pos((c.order - 1) as nat);
    lemma_alignment_steps(c.page, (c.order - 1) as nat, total);
    lemma_alignment_steps(c.upper().page, (c.order - 1) as nat, total);
}

/// Pages in the blocks of the first `orders` orders, where `sets[k]` holds
/// the blocks of order `k`.
pub open spec fn page_count(sets: Seq<Set<nat>>, orders: nat) -> nat
    decreases orders,
{
    if orders == 0 {
        0
    } else {
        page_count(sets, (orders - 1) as nat) + sets[orders - 1].len() * pow2((orders - 1) as nat)
    }
}

proof fn lemma_count_insert(sets: Seq<Set<nat>>, k: int, x: nat, n: nat)
    requires
        0 <= k < sets.len(),
        n <= sets.len(),
        sets[k].finite(),
        !sets[k].contains(x),
    ensures
        page_count(sets.update(k, sets[k].insert(x)), n) == page_count(sets, n) + (if k < n {
            pow2(k as nat)
        } else {
            0
        }),
    decreases n,
{
    if n > 0 {
        lemma_count_insert(sets, k, x, (n - 1) as nat);
        if k == n - 1 {
            let l = sets[k].len();
            let p = pow2(k as nat);
            assert(sets[k].insert(x).len() == l + 1);
            assert((l + 1) * p == l * p + p) by (nonlinear_arith);
        }
    }
}

proof fn lemma_count_remove(sets: Seq<Set<nat>>, k: int, x: nat, n: nat)
    requires
        0 <= k < sets.len(),
        n <= sets.len(),
        sets[k].finite(),
        sets[k].contains(x),
    ensures
        page_count(sets.update(k, sets[k].remove(x)), n) + (if k < n {
            pow2(k as nat)
        } else {
            0
        }) == page_count(sets, n),
    decreases n,
{
    if n > 0 {
        lemma_count_remove(sets, k, x, (n - 1) as nat);
        if k == n - 1 {
            let l = sets[k].remove(x).len();
            let p = pow2(k as nat);
            assert(sets[k].len() == l + 1);
            assert((l + 1) * p == l * p + p) by (nonlinear_arith);
        }
    }
}

/// What the allocator holds: the heap it manages, and for each order the
/// first pages of the free blocks and of the blocks handed out.
pub struct AllocatorView {
    /// Address of the first byte of the heap.
    pub start: nat,
    /// Number of zones in the heap.
    pub zones: nat,
    /// `free[k]` holds the first pages of the free blocks of order `k`.
    pub free: Seq<Set<nat>>,
    /// `used[k]` holds the first pages of the allocated blocks of order `k`.
    pub used: Seq<Set<nat>>,
}

impl AllocatorView {
    /// Pages in the heap.
    pub open spec fn total_pages(self) -> nat {
        self.zones * 512
    }

    /// The block is free.
    pub open spec fn is_free(self, b: Block) -> bool {
        b.order < MAX_ORDER && self.free[b.order as int].contains(b.page)
    }

    /// The block is allocated.
    pub open spec fn is_used(self, b: Block) -> bool {
        b.order < MAX_ORDER && self.used[b.order as int].contains(b.page)
    }

    /// The block is free or allocated.
    pub open spec fn holds(self, b: Block) -> bool {
        self.is_free(b) || self.is_used(b)
    }

    /// Pages in free blocks.
    pub open spec fn free_pages(self) -> nat {
        page_count(self.free, MAX_ORDER as nat)
    }

    /// Pages in allocated blocks.
    pub open spec fn used_pages(self) -> nat {
        page_count(self.used, MAX_ORDER as nat)
    }

    /// Address of the first byte of a block.
    pub open spec fn address_of(self, b: Block) -> nat {
        self.start + b.page * 4096
    }

    /// The block of the given order whose first page holds `addr`.
    pub open spec fn block_at(self, addr: nat, order: nat) -> Block {
        Block { order, page: ((addr - self.start) / 4096) as nat }
    }

    /// The view with the block among the free ones.
    pub open spec fn put_free(self, b: Block) -> AllocatorView {
        AllocatorView {
            free: self.free.update(b.order as int, self.free[b.order as int].insert(b.page)),
            ..self
        }
    }

    /// The view without the block among the free ones.
    pub open spec fn take_free(self, b: Block) -> AllocatorView {
        AllocatorView {
            free: self.free.update(b.order as int, self.free[b.order as int].remove(b.page)),
            ..self
        }
    }

    /// The view with the block among the allocated ones.
    pub open spec fn put_used(self, b: Block) -> AllocatorView {
        AllocatorView {
            used: self.used.update(b.order as int, self.used[b.order as int].insert(b.page)),
            ..self
        }
    }

    /// The view without the block among the allocated ones.
    pub open spec fn take_used(self, b: Block) -> AllocatorView {
        AllocatorView {
            used: self.used.update(b.order as int, self.used[b.order as int].remove(b.page)),
            ..self
        }
    }

    /// The heap is made of whole zones inside the physical address space,
    /// every block lies in it, no two blocks share a page, and no two free
    /// blocks are buddies.
    pub open spec fn sound(self) -> bool {
        &&& self.zones > 0
        &&& self.start % 0x20_0000 == 0
        &&& self.start + self.zones * 0x20_0000 <= 0x100_0000_0000_0000
        &&& self.free.len() == MAX_ORDER
        &&& self.used.len() == MAX_ORDER
        &&& forall|k: int| 0 <= k < MAX_ORDER ==> (#[trigger] self.free[k]).finite()
        &&& forall|k: int| 0 <= k < MAX_ORDER ==> (#[trigger] self.used[k]).finite()
        &&& forall|b: Block|
            #![trigger self.is_free(b)]
            #![trigger self.is_used(b)]
            self.holds(b) ==> b.fits(self.total_pages())
        &&& forall|a: Block, b: Block|
            #![trigger self.is_free(a), self.is_free(b)]
            self.is_free(a) && self.is_free(b) && a != b ==> !a.overlaps(b)
        &&& forall|a: Block, b: Block|
            #![trigger self.is_free(a), self.is_used(b)]
            self.is_free(a) && self.is_used(b) ==> !a.overlaps(b)
        &&& forall|a: Block, b: Block|
            #![trigger self.is_used(a), self.is_used(b)]
            self.is_used(a) && self.is_used(b) && a != b ==> !a.overlaps(b)
        &&& forall|b: Block| #[trigger]
            self.is_free(b) && b.order + 1 < MAX_ORDER ==> !self.is_free(b.buddy())
    }

    /// The view is sound, and every page of the heap is in exactly one block.
    pub open spec fn wf(self) -> bool {
        &&& self.sound()
        &&& self.free_pages() + self.used_pages() == self.total_pages()
    }

    /// The block `c` is in neither set, shares no page with a block that is,
    /// and accounts for the pages that the two sets lack.
    pub open spec fn carrying(self, c: Block) -> bool {
        &&& c.fits(self.total_pages())
        &&& forall|b: Block|
            #![trigger self.is_free(b)]
            #![trigger self.is_used(b)]
            self.holds(b) ==> !c.overlaps(b)
        &&& self.free_pages() + self.used_pages() + pow2(c.order) == self.total_pages()
    }
}

proof fn lemma_put_free_effect(v: AllocatorView, b: Block)
    requires
        v.sound(),
        b.order < MAX_ORDER,
        !v.is_free(b),
    ensures
        forall|x: Block| #[trigger] v.put_free(b).is_free(x) == (v.is_free(x) || x == b),
        forall|x: Block| #[trigger] v.put_free(b).is_used(x) == v.is_used(x),
        forall|k: int| 0 <= k < MAX_ORDER ==> (#[trigger] v.put_free(b).free[k]).finite(),
        v.put_free(b).free_pages() == v.free_pages() + pow2(b.order),
        v.put_free(b).used_pages() == v.used_pages(),
{
    lemma_count_insert(v.free, b.order as int, b.page, MAX_ORDER as nat);
}

proof fn lemma_take_free_effect(v: AllocatorView, b: Block)
    requires
        v.sound(),
        v.is_free(b),
    ensures
        forall|x: Block| #[trigger] v.take_free(b).is_free(x) == (v.is_free(x) && x != b),
        forall|x: Block| #[trigger] v.take_free(b).is_used(x) == v.is_used(x),
        forall|k: int| 0 <= k < MAX_ORDER ==> (#[trigger] v.take_free(b).free[k]).finite(),
        v.take_free(b).free_pages() + pow2(b.order) == v.free_pages(),
        v.take_free(b).used_pages() == v.used_pages(),
{
    lemma_count_remove(v.free, b.order as int, b.page, MAX_ORDER as nat);
}

proof fn lemma_put_used_effect(v: AllocatorView, b: Block)
    requires
        v.sound(),
        b.order < MAX_ORDER,
        !v.is_used(b),
    ensures
        forall|x: Block| #[trigger] v.put_used(b).is_used(x) == (v.is_used(x) || x == b),
        forall|x: Block| #[trigger] v.put_used(b).is_free(x) == v.is_free(x),
        forall|k: int| 0 <= k < MAX_ORDER ==> (#[trigger] v.put_used(b).used[k]).finite(),
        v.put_used(b).used_pages() == v.used_pages() + pow2(b.order),
        v.put_used(b).free_pages() == v.free_pages(),
{
    lemma_count_insert(v.used, b.order as int, b.page, MAX_ORDER as nat);
}

proof fn lemma_take_used_effect(v: AllocatorView, b: Block)
    requires
        v.sound(),
        v.is_used(b),
    ensures
        forall|x: Block| #[trigger] v.take_used(b).is_used(x) == (v.is_used(x) && x != b),
        forall|x: Block| #[trigger] v.take_used(b).is_free(x) == v.is_free(x),
        forall|k: int| 0 <= k < MAX_ORDER ==> (#[trigger] v.take_used(b).used[k]).finite(),
        v.take_used(b).used_pages() + pow2(b.order) == v.used_pages(),
        v.take_used(b).free_pages() == v.free_pages(),
{
    lemma_count_remove(v.used, b.order as int, b.page, MAX_ORDER as nat);
}

/// Taking a free block out of a well-formed view leaves a sound view that
/// carries the block.
pub proof fn lemma_take_free(v: AllocatorView, b: Block)
    requires
        v.wf(),
        v.is_free(b),
    ensures
        v.take_free(b).sound(),
        v.take_free(b).carrying(b),
{
    lemma_take_free_effect(v, b);
    let w = v.take_free(b);
    assert forall|x: Block| #[trigger] w.is_free(x) && x.order + 1 < MAX_ORDER implies !w.is_free(
        x.buddy(),
    ) by {
        assert(v.is_free(x));
    }
}

/// Taking an allocated block out of a well-formed view leaves a sound view
/// that carries the block.
pub proof fn lemma_take_used(v: AllocatorView, b: Block)
    requires
        v.wf(),
        v.is_used(b),
    ensures
        v.take_used(b).sound(),
        v.take_used(b).carrying(b),
{
    lemma_take_used_effect(v, b);
    let w = v.take_used(b);
    assert forall|x: Block| #[trigger] w.is_free(x) && x.order + 1 < MAX_ORDER implies !w.is_free(
        x.buddy(),
    ) by {
        assert(v.is_free(x));
    }
}

/// Freeing the upper half of a carried block leaves a sound view that
/// carries the lower half.
pub proof fn lemma_split_step(v: AllocatorView, c: Block)
    requires
        v.sound(),
        v.carrying(c),
        c.order > 0,
    ensures
        !v.is_free(c.upper()),
        v.put_free(c.upper()).sound(),
        v.put_free(c.upper()).carrying(c.lower()),
{
    lemma_block_halves(c, v.total_pages());
    let hi = c.upper();
    let lo = c.lower();
    lemma_pow2_pos(hi.order);
    assert(c.overlaps(hi));
    assert(c.overlaps(lo));
    lemma_put_free_effect(v, hi);
    let w = v.put_free(hi);
    assert forall|x: Block| #[trigger] w.is_free(x) && x.order + 1 < MAX_ORDER implies !w.is_free(
        x.buddy(),
    ) by {
        if x == hi {
            assert(!v.is_free(lo));
        } else {
            assert(v.is_free(x));
            lemma_block_family(x, v.total_pages());
            if x.buddy() == hi {
                assert(x == lo);
            }
        }
    }
}

/// Taking the free buddy of a carried block leaves a sound view that carries
/// the parent of the two.
pub proof fn lemma_merge_step(v: AllocatorView, c: Block)
    requires
        v.sound(),
        v.carrying(c),
        c.order + 1 < MAX_ORDER,
        v.is_free(c.buddy()),
    ensures
        v.take_free(c.buddy()).sound(),
        v.take_free(c.buddy()).carrying(c.parent()),
{
    lemma_block_family(c, v.total_pages());
    lemma_take_free_effect(v, c.buddy());
    let w = v.take_free(c.buddy());
    assert forall|x: Block| #[trigger] w.is_free(x) && x.order + 1 < MAX_ORDER implies !w.is_free(
        x.buddy(),
    ) by {
        assert(v.is_free(x));
    }
    assert forall|x: Block|
        #![trigger w.is_free(x)]
        #![trigger w.is_used(x)]
        w.holds(x) implies !c.parent().overlaps(x) by {
        assert(v.holds(x));
        lemma_pow2_pos(x.order);
        lemma_pow2_pos(c.order);
        assert(!c.overlaps(x));
        assert(!c.buddy().overlaps(x));
    }
}

/// Putting a carried block among the free ones, when its buddy is not free
/// or it has none, gives a well-formed view.
pub proof fn lemma_put_free(v: AllocatorView, c: Block)
    requires
        v.sound(),
        v.carrying(c),
        c.order + 1 == MAX_ORDER || !v.is_free(c.buddy()),
    ensures
        !v.is_free(c),
        v.put_free(c).wf(),
{
    assert(c.overlaps(c)) by {
        lemma_order_sizes();
        vstd::arithmetic::power2::lemma_pow2_pos(c.order);
    }
    lemma_put_free_effect(v, c);
    let w = v.put_free(c);
    assert forall|x: Block| #[trigger] w.is_free(x) && x.order + 1 < MAX_ORDER implies !w.is_free(
        x.buddy(),
    ) by {
        if x == c {
            lemma_block_family(c, v.total_pages());
        } else {
            assert(v.is_free(x));
            lemma_block_family(x, v.total_pages());
        }
    }
}

/// Putting a carried block among the allocated ones gives a well-formed
/// view.
pub proof fn lemma_put_used(v: AllocatorView, c: Block)
    requires
        v.sound(),
        v.carrying(c),
    ensures
        !v.is_used(c),
        v.put_used(c).wf(),
{
    assert(c.overlaps(c)) by {
        vstd::arithmetic::power2::lemma_pow2_pos(c.order);
    }
    lemma_put_used_effect(v, c);
    let w = v.put_used(c);
    assert forall|x: Block| #[trigger] w.is_free(x) && x.order + 1 < MAX_ORDER implies !w.is_free(
        x.buddy(),
    ) by {
        assert(v.is_free(x));
    }
}


impl AllocatorView {
    /// The lowest order from `order` up that has a free block, or
    /// `MAX_ORDER` if there is none.
    pub open spec fn source_order(self, order: nat) -> nat
        decreases MAX_ORDER - order,
    {
        if order >= MAX_ORDER {
            MAX_ORDER as nat
        } else if self.free[order as int].len() > 0 {
            order
        } else {
            self.source_order(order + 1)
        }
    }

    /// Some block of the given order or above is free.
    pub open spec fn can_allocate(self, order: nat) -> bool {
        self.source_order(order) < MAX_ORDER
    }

    /// The carried block `c` is halved until it has the given order; each
    /// time the upper half becomes free and the lower half is carried on.
    pub open spec fn carve(self, c: Block, order: nat) -> AllocatorView
        decreases c.order,
    {
        if c.order <= order {
            self
        } else {
            self.put_free(c.upper()).carve(c.lower(), order)
        }
    }

    /// The carried block `c` is merged with its buddy as long as that is
    /// free, and what is left of it becomes free.
    pub open spec fn coalesce(self, c: Block) -> AllocatorView
        decreases MAX_ORDER - c.order,
    {
        if c.order + 1 < MAX_ORDER && self.is_free(c.buddy()) {
            self.take_free(c.buddy()).coalesce(c.parent())
        } else {
            self.put_free(c)
        }
    }

    /// The view after the block of the given order at `addr` was allocated:
    /// it was cut from the free block at the same place in the lowest order
    /// that had one.
    pub open spec fn after_allocate(self, order: nat, addr: nat) -> AllocatorView {
        let b = self.block_at(addr, order);
        let top = Block { order: self.source_order(order), page: b.page };
        self.take_free(top).carve(top, order).put_used(b)
    }

    /// An allocation of the given order may return the frame at `addr`.
    pub open spec fn may_allocate(self, order: nat, addr: nat) -> bool {
        let b = self.block_at(addr, order);
        let top = Block { order: self.source_order(order), page: b.page };
        &&& self.can_allocate(order)
        &&& addr == self.address_of(b)
        &&& self.is_free(top)
    }

    /// The block of the given order at `addr` is allocated.
    pub open spec fn is_allocated(self, order: nat, addr: nat) -> bool {
        let b = self.block_at(addr, order);
        &&& addr >= self.start
        &&& addr == self.address_of(b)
        &&& self.is_used(b)
    }

    /// The view after the allocated block of the given order at `addr` was
    /// freed.
    pub open spec fn after_free(self, order: nat, addr: nat) -> AllocatorView {
        let b = self.block_at(addr, order);
        self.take_used(b).coalesce(b)
    }

    /// A heap of `zones` zones at `start` in which every zone is one free
    /// block of the highest order.
    pub open spec fn fresh(start: nat, zones: nat) -> AllocatorView {
        AllocatorView {
            start,
            zones,
            free: Seq::new(
                MAX_ORDER as nat,
                |k: int|
                    if k == MAX_ORDER - 1 {
                        Set::new(|p: nat| p % 512 == 0 && p < zones * 512)
                    } else {
                        Set::empty()
                    },
            ),
            used: Seq::new(MAX_ORDER as nat, |k: int| Set::empty()),
        }
    }
}

proof fn lemma_put_then_take(w: AllocatorView, b: Block)
    requires
        b.order < MAX_ORDER,
        w.free.len() == MAX_ORDER,
        w.used.len() == MAX_ORDER,
    ensures
        !w.is_free(b) ==> w.put_free(b).take_free(b) == w,
        w.is_free(b) ==> w.take_free(b).put_free(b) == w,
        !w.is_used(b) ==> w.put_used(b).take_used(b) == w,
        w.is_used(b) ==> w.take_used(b).put_used(b) == w,
{
    if !w.is_free(b) {
        assert(w.put_free(b).take_free(b).free =~~= w.free);
    } else {
        assert(w.take_free(b).put_free(b).free =~~= w.free);
    }
    if !w.is_used(b) {
        assert(w.put_used(b).take_used(b).used =~~= w.used);
    } else {
        assert(w.take_used(b).put_used(b).used =~~= w.used);
    }
}

/// Carving a carried block keeps the view sound, and freeing the piece that
/// is left gives what freeing the whole block would have given.
pub proof fn lemma_carve(w: AllocatorView, c: Block, order: nat)
    requires
        w.sound(),
        w.carrying(c),
        order <= c.order,
    ensures
        w.carve(c, order).sound(),
        w.carve(c, order).carrying(Block { order, page: c.page }),
        w.carve(c, order).start == w.start,
        w.carve(c, order).zones == w.zones,
        w.carve(c, order).used == w.used,
        w.carve(c, order).coalesce(Block { order, page: c.page }) == w.coalesce(c),
    decreases c.order,
{
    if c.order > order {
        lemma_split_step(w, c);
        lemma_block_halves(c, w.total_pages());
        let next = w.put_free(c.upper());
        lemma_carve(next, c.lower(), order);
        lemma_put_then_take(w, c.upper());
        assert(next.coalesce(c.lower()) == next.take_free(c.upper()).coalesce(c));
    }
}

/// Merging a carried block upwards ends in a well-formed view.
pub proof fn lemma_coalesce(w: AllocatorView, c: Block)
    requires
        w.sound(),
        w.carrying(c),
    ensures
        w.coalesce(c).wf(),
        w.coalesce(c).start == w.start,
        w.coalesce(c).zones == w.zones,
        w.coalesce(c).used == w.used,
        w.coalesce(c).free_pages() == w.free_pages() + pow2(c.order),
    decreases MAX_ORDER - c.order,
{
    if c.order + 1 < MAX_ORDER && w.is_free(c.buddy()) {
        lemma_merge_step(w, c);
        lemma_take_free_effect(w, c.buddy());
        lemma_block_family(c, w.total_pages());
        lemma_coalesce(w.take_free(c.buddy()), c.parent());
    } else {
        lemma_put_free(w, c);
        lemma_put_free_effect(w, c);
    }
}

proof fn lemma_count_positive(sets: Seq<Set<nat>>, n: nat)
    requires
        n <= sets.len(),
    ensures
        page_count(sets, n) > 0 <==> exists|k: int| 0 <= k < n && (#[trigger] sets[k]).len() > 0,
    decreases n,
{
    if n > 0 {
        lemma_count_positive(sets, (n - 1) as nat);
        let l = sets[n - 1].len();
        let p = pow2((n - 1) as nat);
        lemma_pow2_pos((n - 1) as nat);
        assert(l * p > 0 <==> l > 0) by (nonlinear_arith)
            requires
                p > 0,
                l >= 0,
        ;
        if page_count(sets, n) > 0 {
            if l > 0 {
                assert(sets[n - 1].len() > 0);
            } else {
                let k = choose|k: int| 0 <= k < n - 1 && (#[trigger] sets[k]).len() > 0;
                assert(sets[k].len() > 0);
            }
        }
    }
}

proof fn lemma_source_order(v: AllocatorView, from: nat)
    requires
        v.free.len() == MAX_ORDER,
        from <= MAX_ORDER,
    ensures
        from <= v.source_order(from) <= MAX_ORDER,
        v.source_order(from) < MAX_ORDER ==> v.free[v.source_order(from) as int].len() > 0,
        forall|k: int| from <= k < v.source_order(from) ==> (#[trigger] v.free[k]).len() == 0,
    decreases MAX_ORDER - from,
{
    if from < MAX_ORDER && v.free[from as int].len() == 0 {
        lemma_source_order(v, from + 1);
    }
}

/// A page can be allocated exactly when a page is free.
pub proof fn lemma_can_allocate_a_page(v: AllocatorView)
    requires
        v.wf(),
    ensures
        v.can_allocate(0) <==> v.free_pages() > 0,
{
    lemma_source_order(v, 0);
    lemma_count_positive(v.free, MAX_ORDER as nat);
    if v.can_allocate(0) {
        assert(v.free[v.source_order(0) as int].len() > 0);
    }
}

/// An allocation leaves a well-formed view of the same heap, with the block
/// allocated, and with as many free pages fewer as the block has.
pub proof fn lemma_after_allocate(v: AllocatorView, order: nat, addr: nat)
    requires
        v.wf(),
        order < MAX_ORDER,
        v.may_allocate(order, addr),
    ensures
        v.after_allocate(order, addr).wf(),
        v.after_allocate(order, addr).start == v.start,
        v.after_allocate(order, addr).zones == v.zones,
        v.after_allocate(order, addr).is_allocated(order, addr),
        v.after_allocate(order, addr).used == v.put_used(v.block_at(addr, order)).used,
        !v.is_used(v.block_at(addr, order)),
        forall|u: Block| #[trigger] v.is_used(u) ==> !u.overlaps(v.block_at(addr, order)),
        v.after_allocate(order, addr).free_pages() + pow2(order) == v.free_pages(),
{
    let b = v.block_at(addr, order);
    let top = Block { order: v.source_order(order), page: b.page };
    lemma_source_order(v, order);
    lemma_take_free(v, top);
    lemma_take_free_effect(v, top);
    let taken = v.take_free(top);
    lemma_carve(taken, top, order);
    let carved = taken.carve(top, order);
    lemma_put_used(carved, b);
    lemma_put_used_effect(carved, b);
    lemma_pow2_pos(order);
    assert forall|u: Block| #[trigger] v.is_used(u) implies !u.overlaps(b) by {
        assert(carved.is_used(u));
        lemma_pow2_pos(u.order);
    }
    assert(b.overlaps(b));
}

/// Freeing an allocated block leaves a well-formed view of the same heap,
/// with as many free pages more as the block has.
pub proof fn lemma_after_free(v: AllocatorView, order: nat, addr: nat)
    requires
        v.wf(),
        order < MAX_ORDER,
        v.is_allocated(order, addr),
    ensures
        v.after_free(order, addr).wf(),
        v.after_free(order, addr).start == v.start,
        v.after_free(order, addr).zones == v.zones,
        v.after_free(order, addr).used == v.take_used(v.block_at(addr, order)).used,
        v.after_free(order, addr).free_pages() == v.free_pages() + pow2(order),
{
    let b = v.block_at(addr, order);
    lemma_take_used(v, b);
    lemma_take_used_effect(v, b);
    lemma_coalesce(v.take_used(b), b);
}

/// Allocating a block and freeing it at once, at the same order, gives back
/// the view from before the allocation: the same blocks are free and the
/// same are allocated.
pub proof fn lemma_allocate_then_free(v: AllocatorView, order: nat, addr: nat)
    requires
        v.wf(),
        order < MAX_ORDER,
        v.may_allocate(order, addr),
    ensures
        v.after_allocate(order, addr).is_allocated(order, addr),
        v.after_allocate(order, addr).after_free(order, addr) == v,
{
    let b = v.block_at(addr, order);
    let top = Block { order: v.source_order(order), page: b.page };
    lemma_after_allocate(v, order, addr);
    lemma_source_order(v, order);
    lemma_take_free(v, top);
    lemma_take_free_effect(v, top);
    let taken = v.take_free(top);
    lemma_carve(taken, top, order);
    let carved = taken.carve(top, order);
    lemma_put_used(carved, b);
    let after = carved.put_used(b);
    assert(after.block_at(addr, order) == b);
    lemma_put_then_take(carved, b);
    assert(after.take_used(b) == carved);
    assert(carved.coalesce(b) == taken.coalesce(top));
    assert(taken.coalesce(top) == taken.put_free(top));
    lemma_put_then_take(v, top);
}

/// Of two allocated buddies, freeing one leaves the pair split: the freed
/// half is free, the other is still allocated and their parent is not free.
/// Freeing the other as well gives what freeing their parent as one block
/// would give, in whichever order the two are freed: where the parent has no
/// free buddy to merge with in turn, the parent is free and neither half is.
pub proof fn lemma_free_buddies(v: AllocatorView, order: nat, first: nat, second: nat)
    requires
        v.wf(),
        order + 1 < MAX_ORDER,
        v.is_allocated(order, first),
        v.is_allocated(order, second),
        v.block_at(second, order) == v.block_at(first, order).buddy(),
    ensures
        v.after_free(order, first) == v.take_used(v.block_at(first, order)).put_free(
            v.block_at(first, order),
        ),
        v.after_free(order, first).is_allocated(order, second),
        !v.after_free(order, first).is_free(v.block_at(first, order).parent()),
        v.after_free(order, first).after_free(order, second) == v.take_used(
            v.block_at(first, order),
        ).take_used(v.block_at(second, order)).coalesce(v.block_at(first, order).parent()),
        v.after_free(order, first).after_free(order, second) == v.after_free(
            order,
            second,
        ).after_free(order, first),
        order + 2 == MAX_ORDER || !v.is_free(v.block_at(first, order).parent().buddy()) ==> {
            let both = v.after_free(order, first).after_free(order, second);
            &&& both.is_free(v.block_at(first, order).parent())
            &&& !both.is_free(v.block_at(first, order))
            &&& !both.is_free(v.block_at(second, order))
            &&& both == v.take_used(v.block_at(first, order)).take_used(
                v.block_at(second, order),
            ).put_free(v.block_at(first, order).parent())
        },
{
    let a = v.block_at(first, order);
    let b = v.block_at(second, order);
    lemma_block_family(a, v.total_pages());
    lemma_free_one_buddy(v, a);
    lemma_free_one_buddy(v, b);
    let one = v.after_free(order, first);
    let other = v.after_free(order, second);
    assert(one.block_at(second, order) == b);
    assert(other.block_at(first, order) == a);
    assert(v.take_used(a).take_used(b).used =~~= v.take_used(b).take_used(a).used);
    let parent = a.parent();
    let rest = v.take_used(a).take_used(b);
    if order + 2 == MAX_ORDER || !v.is_free(parent.buddy()) {
        assert(rest.free == v.free);
        assert(rest.is_free(parent.buddy()) == v.is_free(parent.buddy()));
        assert(rest.coalesce(parent) == rest.put_free(parent));
        assert(!v.is_free(a) && !v.is_free(b)) by {
            lemma_pow2_pos(order);
            assert(a.overlaps(a) && b.overlaps(b));
        }
        assert(rest.put_free(parent).is_free(parent));
    }
}

proof fn lemma_free_one_buddy(v: AllocatorView, a: Block)
    requires
        v.wf(),
        a.order + 1 < MAX_ORDER,
        v.is_used(a),
        v.is_used(a.buddy()),
    ensures
        v.take_used(a).coalesce(a) == v.take_used(a).put_free(a),
        v.take_used(a).put_free(a).wf(),
        v.take_used(a).put_free(a).is_used(a.buddy()),
        !v.take_used(a).put_free(a).is_free(a.parent()),
        v.take_used(a).put_free(a).take_used(a.buddy()).coalesce(a.buddy()) == v.take_used(
            a,
        ).take_used(a.buddy()).coalesce(a.parent()),
{
    let b = a.buddy();
    lemma_block_family(a, v.total_pages());
    lemma_take_used(v, a);
    lemma_take_used_effect(v, a);
    let w = v.take_used(a);
    assert(!w.is_free(b)) by {
        assert(v.is_used(b));
        lemma_pow2_pos(a.order);
    }
    lemma_put_free(w, a);
    lemma_put_free_effect(w, a);
    let one = w.put_free(a);
    assert(!one.is_free(a.parent())) by {
        if one.is_free(a.parent()) {
            lemma_pow2_pos(a.order);
            assert(one.is_used(b));
            assert(a.parent().overlaps(b));
        }
    }
    lemma_take_used_effect(one, b);
    let two = one.take_used(b);
    assert(two.is_free(b.buddy()));
    assert(two.take_free(a) == w.take_used(b)) by {
        assert(two.take_free(a).free =~~= w.take_used(b).free);
        assert(two.take_free(a).used =~~= w.take_used(b).used);
    }
}

/// Page after page is allocated from a well-formed view. As many
/// allocations succeed as the view has free pages, and no more: after that
/// many, none can be made.
pub proof fn lemma_page_allocations(states: Seq<AllocatorView>, addrs: Seq<nat>)
    requires
        states.len() == addrs.len() + 1,
        states[0].wf(),
        forall|i: int|
            0 <= i < addrs.len() ==> (#[trigger] states[i]).may_allocate(0, addrs[i]) && states[i
                + 1] == states[i].after_allocate(0, addrs[i]),
    ensures
        addrs.len() <= states[0].free_pages(),
        states.last().wf(),
        states.last().free_pages() == states[0].free_pages() - addrs.len(),
        states.last().can_allocate(0) <==> addrs.len() < states[0].free_pages(),
    decreases addrs.len(),
{
    lemma_order_sizes();
    if addrs.len() > 0 {
        let n = addrs.len() as int;
        lemma_page_allocations(states.drop_last(), addrs.drop_last());
        let v = states[n - 1];
        assert(states.drop_last().last() == v);
        assert(v.may_allocate(0, addrs[n - 1]) && states[n] == v.after_allocate(0, addrs[n - 1]));
        lemma_can_allocate_a_page(v);
        lemma_after_allocate(v, 0, addrs[n - 1]);
    }
    lemma_can_allocate_a_page(states.last());
}

/// Page after page is allocated from a fresh heap. The allocations that
/// succeed are as many as the heap has pages, and no more: after that many,
/// none can be made.
pub proof fn lemma_heap_gives_all_its_pages(
    start: nat,
    size: nat,
    states: Seq<AllocatorView>,
    addrs: Seq<nat>,
)
    requires
        init_error(start, size) is None,
        states.len() == addrs.len() + 1,
        states[0] == AllocatorView::fresh(start, size / 0x20_0000),
        forall|i: int|
            0 <= i < addrs.len() ==> (#[trigger] states[i]).may_allocate(0, addrs[i]) && states[i
                + 1] == states[i].after_allocate(0, addrs[i]),
    ensures
        addrs.len() <= size / 4096,
        states.last().can_allocate(0) <==> addrs.len() < size / 4096,
{
    lemma_fresh(start, size / 0x20_0000);
    lemma_page_allocations(states, addrs);
}

/// A fresh heap is well formed and all of its pages are free.
pub proof fn lemma_fresh(start: nat, zones: nat)
    requires
        zones > 0,
        start % 0x20_0000 == 0,
        start + zones * 0x20_0000 <= 0x100_0000_0000_0000,
    ensures
        AllocatorView::fresh(start, zones).wf(),
        AllocatorView::fresh(start, zones).free_pages() == zones * 512,
        AllocatorView::fresh(start, zones).used_pages() == 0,
{
    let v = AllocatorView::fresh(start, zones);
    lemma_order_sizes();
    lemma_zone_set(zones);
    reveal_with_fuel(page_count, 11);
    assert forall|k: int| 0 <= k < MAX_ORDER implies (#[trigger] v.free[k]).finite() && v.free[k].len()
        == (if k == 9 {
        zones
    } else {
        0
    }) by {}
    assert forall|k: int| 0 <= k < MAX_ORDER implies (#[trigger] v.used[k]).finite()
        && v.used[k].len() == 0 by {}
    assert(v.free_pages() == zones * 512);
    assert(v.used_pages() == 0);
    assert forall|b: Block| #[trigger] v.is_free(b) implies b.order == 9 && b.page % 512 == 0
        && b.fits(v.total_pages()) by {
        lemma_zone_block_fits(b.page, zones);
    }
    assert forall|b: Block| !#[trigger] v.is_used(b) by {}
}

proof fn lemma_zone_block_fits(page: nat, zones: nat)
    requires
        page % 512 == 0,
        page < zones * 512,
    ensures
        (Block { order: 9, page }).fits(zones * 512),
{
    lemma_order_sizes();
    let d = pow2(9) as int;
    let q = page as int / 512;
    assert(page == q * d + 0) by (nonlinear_arith)
        requires
            page == q * 512,
            d == 512,
    ;
    lemma_fundamental_div_mod_converse_mod(page as int, d, q, 0);
}

proof fn lemma_zone_set(zones: nat)
    ensures
        Set::new(|p: nat| p % 512 == 0 && p < zones * 512).finite(),
        Set::new(|p: nat| p % 512 == 0 && p < zones * 512).len() == zones,
    decreases zones,
{
    let set = Set::new(|p: nat| p % 512 == 0 && p < zones * 512);
    if zones == 0 {
        assert(set =~= Set::empty());
    } else {
        let less = (zones - 1) as nat;
        lemma_zone_set(less);
        let before = Set::new(|p: nat| p % 512 == 0 && p < less * 512);
        assert(set =~= before.insert(less * 512));
    }
}

/// A block that fits the heap lies inside the heap, at an address that is a
/// multiple of its size, and is found again from that address.
pub proof fn lemma_block_address(v: AllocatorView, b: Block)
    requires
        v.sound(),
        b.fits(v.total_pages()),
    ensures
        v.start <= v.address_of(b),
        v.address_of(b) + pow2(b.order) * 4096 <= v.start + v.zones * 0x20_0000,
        v.address_of(b) % (pow2(b.order) * 4096) == 0,
        v.address_of(b) % 4096 == 0,
        v.block_at(v.address_of(b), b.order) == b,
{
    lemma_order_sizes();
    lemma_pow2_pos(b.order);
    let s = pow2(b.order) as int;
    let e = pow2((9 - b.order) as nat) as int;
    lemma_pow2_adds(b.order, (9 - b.order) as nat);
    lemma_fundamental_div_mod(v.start as int, 0x20_0000);
    lemma_fundamental_div_mod(b.page as int, s);
    let q = v.start as int / 0x20_0000;
    let t = b.page as int / s;
    let size = s * 4096;
    assert(v.address_of(b) == (e * q + t) * size + 0) by (nonlinear_arith)
        requires
            v.address_of(b) == v.start + b.page * 4096,
            v.start == 0x20_0000 * q,
            b.page == s * t,
            s * e == 512,
            size == s * 4096,
    ;
    lemma_fundamental_div_mod_converse_mod(v.address_of(b) as int, size, e * q + t, 0);
}

/// No free block is large enough for the request.
#[derive(Clone, Copy, Debug, PartialEq, Eq)]
pub struct OutOfMemory;

/// Why a frame was not taken back.
#[derive(Clone, Copy, Debug, PartialEq, Eq)]
pub enum FreeError {
    /// No block of that order at that address is allocated.
    NotAllocated,
}

/// Why a heap was refused.
#[derive(Clone, Copy, Debug, PartialEq, Eq)]
pub enum InitError {
    /// The heap is smaller than one block of the highest order.
    TooSmall,
    /// The size is no multiple of the base page size.
    UnalignedSize,
    /// The size is no multiple of the size of a block of the highest order.
    PartialZone,
    /// The start is no multiple of the size of a block of the highest order.
    UnalignedStart,
    /// The heap ends beyond the physical address space.
    OutOfRange,
    /// The heap has more pages than this machine can count.
    TooLarge,
}

/// The reason for which a heap of `size` bytes at `start` is refused, if
/// there is one.
pub open spec fn init_error(start: nat, size: nat) -> Option<InitError> {
    if size < 0x20_0000 {
        Some(InitError::TooSmall)
    } else if size % 4096 != 0 {
        Some(InitError::UnalignedSize)
    } else if size % 0x20_0000 != 0 {
        Some(InitError::PartialZone)
    } else if start % 0x20_0000 != 0 {
        Some(InitError::UnalignedStart)
    } else if start + size > 0x100_0000_0000_0000 {
        Some(InitError::OutOfRange)
    } else if size / 4096 > usize::MAX {
        Some(InitError::TooLarge)
    } else {
        None
    }
}

/// Flipping the bit of a block's size in its first page gives the first
/// page of its buddy; clearing it gives the first page of their parent.
proof fn lemma_flipped_bit(first: u64, size: u64)
    by (bit_vector)
    ensures
        size == 1 && first % 1 == 0 && first % 2 == 0 ==> first ^ size == first + 1
            && first & !size == first,
        size == 1 && first % 1 == 0 && first % 2 != 0 ==> first ^ size == first - 1
            && first & !size == first - 1,
        size == 2 && first % 2 == 0 && first % 4 == 0 ==> first ^ size == first + 2
            && first & !size == first,
        size == 2 && first % 2 == 0 && first % 4 != 0 ==> first ^ size == first - 2
            && first & !size == first - 2,
        size == 4 && first % 4 == 0 && first % 8 == 0 ==> first ^ size == first + 4
            && first & !size == first,
        size == 4 && first % 4 == 0 && first % 8 != 0 ==> first ^ size == first - 4
            && first & !size == first - 4,
        size == 8 && first % 8 == 0 && first % 16 == 0 ==> first ^ size == first + 8
            && first & !size == first,
        size == 8 && first % 8 == 0 && first % 16 != 0 ==> first ^ size == first - 8
            && first & !size == first - 8,
        size == 16 && first % 16 == 0 && first % 32 == 0 ==> first ^ size == first + 16
            && first & !size == first,
        size == 16 && first % 16 == 0 && first % 32 != 0 ==> first ^ size == first - 16
            && first & !size == first - 16,
        size == 32 && first % 32 == 0 && first % 64 == 0 ==> first ^ size == first + 32
            && first & !size == first,
        size == 32 && first % 32 == 0 && first % 64 != 0 ==> first ^ size == first - 32
            && first & !size == first - 32,
        size == 64 && first % 64 == 0 && first % 128 == 0 ==> first ^ size == first + 64
            && first & !size == first,
        size == 64 && first % 64 == 0 && first % 128 != 0 ==> first ^ size == first - 64
            && first & !size == first - 64,
        size == 128 && first % 128 == 0 && first % 256 == 0 ==> first ^ size == first + 128
            && first & !size == first,
        size == 128 && first % 128 == 0 && first % 256 != 0 ==> first ^ size == first - 128
            && first & !size == first - 128,
        size == 256 && first % 256 == 0 && first % 512 == 0 ==> first ^ size == first + 256
            && first & !size == first,
        size == 256 && first % 256 == 0 && first % 512 != 0 ==> first ^ size == first - 256
            && first & !size == first - 256,
{
}

/// Index of `x` in `list`, if it is there.
fn position(list: &Vec<u64>, x: u64) -> (r: Option<usize>)
    ensures
        match r {
            Some(i) => i < list@.len() && list@[i as int] == x,
            None => !list@.contains(x),
        },
{
    let mut i: usize = 0;
    while i < list.len()
        invariant
            i <= list@.len(),
            forall|j: int| 0 <= j < i ==> list@[j] != x,
        decreases list@.len() - i,
    {
        if list[i] == x {
            return Some(i);
        }
        i += 1;
    }
    None
}

/// Pages in a block of the given order.
fn pages_of(order: u32) -> (r: u64)
    requires
        order < MAX_ORDER,
    ensures
        r == pow2(order as nat),
        1 <= r <= 512,
{
    let mut r: u64 = 1;
    let mut i: u32 = 0;
    proof {
        lemma_order_sizes();
    }
    while i < order
        invariant
            i <= order < MAX_ORDER,
            r == pow2(i as nat),
            1 <= r,
            i < MAX_ORDER ==> r <= 512,
        decreases order - i,
    {
        proof {
            lemma_pow2_unfold((i + 1) as nat);
            lemma_order_sizes();
            vstd::arithmetic::power2::lemma_pow2_strictly_increases((i + 1) as nat, 10);
        }
        r = r * 2;
        i += 1;
    }
    r
}

/// A buddy allocator over one heap of whole zones.
pub struct FrameAllocator {
    heap_start: u64,
    zones: u64,
    /// For each order, the first pages of its free blocks.
    free_lists: Vec<Vec<u64>>,
    /// For each page, one more than the order of the allocated block that
    /// starts there, or zero.
    owners: Vec<u8>,
    free_pages: u64,
    state: Ghost<AllocatorView>,
}

impl View for FrameAllocator {
    type V = AllocatorView;

    closed spec fn view(&self) -> AllocatorView {
        self.state@
    }
}

impl FrameAllocator {
    spec fn list(&self, k: int) -> Seq<u64> {
        self.free_lists@[k]@
    }

    /// The lists and the table hold what the view says.
    pub closed spec fn linked(&self) -> bool {
        &&& self.free_lists@.len() == MAX_ORDER
        &&& self@.free.len() == MAX_ORDER
        &&& self@.used.len() == MAX_ORDER
        &&& forall|k: int| 0 <= k < MAX_ORDER ==> (#[trigger] self.list(k)).no_duplicates()
        &&& forall|k: int, i: int|
            0 <= k < MAX_ORDER && 0 <= i < self.list(k).len() ==> self@.free[k].contains(
                #[trigger] self.list(k)[i] as nat,
            )
        &&& forall|k: int, p: nat|
            0 <= k < MAX_ORDER && #[trigger] self@.free[k].contains(p) ==> p <= u64::MAX
                && self.list(k).contains(p as u64)
        &&& self.owners@.len() == self@.zones * 512
        &&& forall|p: int| 0 <= p < self.owners@.len() ==> #[trigger] self.owners@[p] <= MAX_ORDER
        &&& forall|k: int, p: nat|
            0 <= k < MAX_ORDER ==> (#[trigger] self@.used[k].contains(p) <==> p
                < self.owners@.len() && self.owners@[p as int] == k + 1)
        &&& self.heap_start == self@.start
        &&& self.zones == self@.zones
        &&& self.free_pages == self@.free_pages()
    }

    /// The allocator is in order: its view is well formed and its data say
    /// what the view says.
    pub open spec fn wf(&self) -> bool {
        self.linked() && self@.wf()
    }

    /// Puts the block on its free list.
    fn push_free(&mut self, order: u32, page: u64)
        requires
            old(self).linked(),
            old(self)@.sound(),
            order < MAX_ORDER,
            !old(self)@.is_free(Block { order: order as nat, page: page as nat }),
            old(self)@.free_pages() + pow2(order as nat) <= u64::MAX,
        ensures
            final(self).linked(),
            final(self)@ == old(self)@.put_free(Block { order: order as nat, page: page as nat }),
    {
        let ghost b = Block { order: order as nat, page: page as nat };
        let ghost before = *self;
        let pages = pages_of(order);
        proof {
            lemma_put_free_effect(self@, b);
        }
        self.free_lists[order as usize].push(page);
        self.free_pages = self.free_pages + pages;
        self.state = Ghost(before@.put_free(b));
        proof {
            assert forall|k: int| 0 <= k < MAX_ORDER implies #[trigger] self.list(k) == (if k
                == order {
                before.list(k).push(page)
            } else {
                before.list(k)
            }) by {}
            assert forall|k: int| 0 <= k < MAX_ORDER implies (#[trigger] self.list(
                k,
            )).no_duplicates() by {
                assert(before.list(k).no_duplicates());
                if k == order {
                    assert forall|i: int| 0 <= i < before.list(k).len() implies before.list(
                        k,
                    )[i] != page by {
                        assert(before@.free[k].contains(before.list(k)[i] as nat));
                    }
                }
            }
            assert forall|k: int, i: int|
                0 <= k < MAX_ORDER && 0 <= i < self.list(k).len() implies self@.free[k].contains(
                #[trigger] self.list(k)[i] as nat,
            ) by {
                if k == order && i == before.list(k).len() {
                } else {
                    assert(before@.free[k].contains(before.list(k)[i] as nat));
                }
            }
            assert forall|k: int, p: nat|
                0 <= k < MAX_ORDER && #[trigger] self@.free[k].contains(p) implies p <= u64::MAX
                && self.list(k).contains(p as u64) by {
                if k == order && p == page {
                    assert(self.list(k)[before.list(k).len() as int] == page);
                } else {
                    assert(before@.free[k].contains(p));
                    let i = choose|i: int|
                        0 <= i < before.list(k).len() && before.list(k)[i] == p as u64;
                    assert(self.list(k)[i] == p as u64);
                }
            }
            assert forall|k: int, p: nat| 0 <= k < MAX_ORDER implies (
            #[trigger] self@.used[k].contains(p) <==> p < self.owners@.len() && self.owners@[p as int]
                == k + 1) by {
                assert(before@.used[k].contains(p) <==> p < before.owners@.len()
                    && before.owners@[p as int] == k + 1);
            }
        }
    }

    /// Takes a block from the free list of the given order.
    fn pop_free(&mut self, order: u32) -> (page: u64)
        requires
            old(self).linked(),
            old(self)@.sound(),
            order < MAX_ORDER,
            old(self).list(order as int).len() > 0,
        ensures
            final(self).linked(),
            old(self)@.is_free(Block { order: order as nat, page: page as nat }),
            final(self)@ == old(self)@.take_free(Block { order: order as nat, page: page as nat }),
    {
        let ghost before = *self;
        let pages = pages_of(order);
        let last = self.free_lists[order as usize].pop();
        let page = last.unwrap();
        let ghost b = Block { order: order as nat, page: page as nat };
        proof {
            let n = before.list(order as int).len();
            assert(before.list(order as int)[n - 1] == page);
            assert(before@.free[order as int].contains(before.list(order as int)[n - 1] as nat));
            lemma_take_free_effect(before@, b);
        }
        self.free_pages = self.free_pages - pages;
        self.state = Ghost(before@.take_free(b));
        proof {
            let n = before.list(order as int).len();
            assert forall|k: int| 0 <= k < MAX_ORDER implies #[trigger] self.list(k) == (if k
                == order {
                before.list(k).subrange(0, n - 1)
            } else {
                before.list(k)
            }) by {}
            assert forall|k: int| 0 <= k < MAX_ORDER implies (#[trigger] self.list(
                k,
            )).no_duplicates() by {
                assert(before.list(k).no_duplicates());
            }
            assert forall|k: int, i: int|
                0 <= k < MAX_ORDER && 0 <= i < self.list(k).len() implies self@.free[k].contains(
                #[trigger] self.list(k)[i] as nat,
            ) by {
                assert(before.list(k).no_duplicates());
                assert(before@.free[k].contains(before.list(k)[i] as nat));
            }
            assert forall|k: int, p: nat|
                0 <= k < MAX_ORDER && #[trigger] self@.free[k].contains(p) implies p <= u64::MAX
                && self.list(k).contains(p as u64) by {
                assert(before@.free[k].contains(p));
                let i = choose|i: int|
                    0 <= i < before.list(k).len() && before.list(k)[i] == p as u64;
                assert(self.list(k)[i] == p as u64);
            }
            assert forall|k: int, p: nat| 0 <= k < MAX_ORDER implies (
            #[trigger] self@.used[k].contains(p) <==> p < self.owners@.len() && self.owners@[p as int]
                == k + 1) by {
                assert(before@.used[k].contains(p) <==> p < before.owners@.len()
                    && before.owners@[p as int] == k + 1);
            }
        }
        page
    }

    /// Takes the block out of its free list if it is there.
    fn remove_free(&mut self, order: u32, page: u64) -> (found: bool)
        requires
            old(self).linked(),
            old(self)@.sound(),
            order < MAX_ORDER,
        ensures
            final(self).linked(),
            found == old(self)@.is_free(Block { order: order as nat, page: page as nat }),
            found ==> final(self)@ == old(self)@.take_free(
                Block { order: order as nat, page: page as nat },
            ),
            !found ==> final(self)@ == old(self)@,
    {
        let ghost before = *self;
        let ghost b = Block { order: order as nat, page: page as nat };
        let at = position(&self.free_lists[order as usize], page);
        match at {
            None => {
                proof {
                    if before@.is_free(b) {
                        assert(before@.free[order as int].contains(page as nat));
                    }
                }
                false
            },
            Some(i) => {
                let pages = pages_of(order);
                proof {
                    assert(before@.free[order as int].contains(
                        before.list(order as int)[i as int] as nat,
                    ));
                    lemma_take_free_effect(before@, b);
                }
                let taken = self.free_lists[order as usize].swap_remove(i);
                self.free_pages = self.free_pages - pages;
                self.state = Ghost(before@.take_free(b));
                proof {
                    let n = before.list(order as int).len();
                    let old_list = before.list(order as int);
                    assert forall|k: int| 0 <= k < MAX_ORDER implies #[trigger] self.list(k) == (
                    if k == order {
                        old_list.update(i as int, old_list.last()).drop_last()
                    } else {
                        before.list(k)
                    }) by {}
                    assert forall|k: int| 0 <= k < MAX_ORDER implies (#[trigger] self.list(
                        k,
                    )).no_duplicates() by {
                        assert(before.list(k).no_duplicates());
                    }
                    assert forall|k: int, j: int|
                        0 <= k < MAX_ORDER && 0 <= j < self.list(k).len() implies self@.free[k].contains(
                    #[trigger] self.list(k)[j] as nat) by {
                        assert(before.list(k).no_duplicates());
                        if k == order && j == i {
                            assert(before@.free[k].contains(before.list(k)[n - 1] as nat));
                        } else {
                            assert(before@.free[k].contains(before.list(k)[j] as nat));
                        }
                    }
                    assert forall|k: int, q: nat|
                        0 <= k < MAX_ORDER && #[trigger] self@.free[k].contains(q) implies q
                        <= u64::MAX && self.list(k).contains(q as u64) by {
                        assert(before@.free[k].contains(q));
                        let j = choose|j: int|
                            0 <= j < before.list(k).len() && before.list(k)[j] == q as u64;
                        if k == order && j == n - 1 {
                            assert(self.list(k)[i as int] == q as u64);
                        } else {
                            assert(self.list(k)[j] == q as u64);
                        }
                    }
                    assert forall|k: int, q: nat| 0 <= k < MAX_ORDER implies (
                    #[trigger] self@.used[k].contains(q) <==> q < self.owners@.len()
                        && self.owners@[q as int] == k + 1) by {
                        assert(before@.used[k].contains(q) <==> q < before.owners@.len()
                            && before.owners@[q as int] == k + 1);
                    }
                }
                true
            },
        }
    }

    /// Records that the block is allocated.
    fn mark_used(&mut self, order: u32, page: u64)
        requires
            old(self).linked(),
            old(self)@.sound(),
            order < MAX_ORDER,
            page < old(self).owners@.len(),
            old(self).owners@[page as int] == 0,
        ensures
            final(self).linked(),
            final(self)@ == old(self)@.put_used(Block { order: order as nat, page: page as nat }),
    {
        let ghost before = *self;
        let ghost b = Block { order: order as nat, page: page as nat };
        proof {
            assert(!before@.is_used(b)) by {
                if before@.is_used(b) {
                    assert(before@.used[order as int].contains(page as nat));
                }
            }
            lemma_put_used_effect(before@, b);
        }
        let count = self.owners.len();
        assert(page < count);
        self.owners[page as usize] = (order + 1) as u8;
        self.state = Ghost(before@.put_used(b));
        proof {
            assert forall|k: int| 0 <= k < MAX_ORDER implies #[trigger] self.list(k)
                == before.list(k) by {}
            assert forall|k: int| 0 <= k < MAX_ORDER implies (#[trigger] self.list(
                k,
            )).no_duplicates() by {
                assert(before.list(k).no_duplicates());
            }
            assert forall|k: int, j: int|
                0 <= k < MAX_ORDER && 0 <= j < self.list(k).len() implies self@.free[k].contains(
            #[trigger] self.list(k)[j] as nat) by {
                assert(before@.free[k].contains(before.list(k)[j] as nat));
            }
            assert forall|k: int, q: nat|
                0 <= k < MAX_ORDER && #[trigger] self@.free[k].contains(q) implies q <= u64::MAX
                && self.list(k).contains(q as u64) by {
                assert(before@.free[k].contains(q));
            }
            assert forall|k: int, q: nat| 0 <= k < MAX_ORDER implies (
            #[trigger] self@.used[k].contains(q) <==> q < self.owners@.len() && self.owners@[q as int]
                == k + 1) by {
                let x = Block { order: k as nat, page: q };
                assert(self@.is_used(x) == (before@.is_used(x) || x == b));
                assert(self@.used[k].contains(q) == self@.is_used(x));
                assert(before@.used[k].contains(q) == before@.is_used(x));
                assert(self.owners@ == before.owners@.update(page as int, (order + 1) as u8));
                assert(before@.used[k].contains(q) <==> q < before.owners@.len()
                    && before.owners@[q as int] == k + 1);
            }
        }
    }

    /// Records that the block is no longer allocated.
    fn clear_used(&mut self, order: u32, page: u64)
        requires
            old(self).linked(),
            old(self)@.sound(),
            order < MAX_ORDER,
            old(self)@.is_used(Block { order: order as nat, page: page as nat }),
        ensures
            final(self).linked(),
            final(self)@ == old(self)@.take_used(Block { order: order as nat, page: page as nat }),
    {
        let ghost before = *self;
        let ghost b = Block { order: order as nat, page: page as nat };
        proof {
            assert(before@.used[order as int].contains(page as nat));
            lemma_take_used_effect(before@, b);
        }
        let count = self.owners.len();
        assert(page < count);
        self.owners[page as usize] = 0;
        self.state = Ghost(before@.take_used(b));
        proof {
            assert forall|k: int| 0 <= k < MAX_ORDER implies #[trigger] self.list(k)
                == before.list(k) by {}
            assert forall|k: int| 0 <= k < MAX_ORDER implies (#[trigger] self.list(
                k,
            )).no_duplicates() by {
                assert(before.list(k).no_duplicates());
            }
            assert forall|k: int, j: int|
                0 <= k < MAX_ORDER && 0 <= j < self.list(k).len() implies self@.free[k].contains(
            #[trigger] self.list(k)[j] as nat) by {
                assert(before@.free[k].contains(before.list(k)[j] as nat));
            }
            assert forall|k: int, q: nat|
                0 <= k < MAX_ORDER && #[trigger] self@.free[k].contains(q) implies q <= u64::MAX
                && self.list(k).contains(q as u64) by {
                assert(before@.free[k].contains(q));
            }
            assert forall|k: int, q: nat| 0 <= k < MAX_ORDER implies (
            #[trigger] self@.used[k].contains(q) <==> q < self.owners@.len() && self.owners@[q as int]
                == k + 1) by {
                let x = Block { order: k as nat, page: q };
                assert(self@.is_used(x) == (before@.is_used(x) && x != b));
                assert(self@.used[k].contains(q) == self@.is_used(x));
                assert(before@.used[k].contains(q) == before@.is_used(x));
                assert(self.owners@ == before.owners@.update(page as int, 0u8));
                assert(before@.used[k].contains(q) <==> q < before.owners@.len()
                    && before.owners@[q as int] == k + 1);
            }
        }
    }

    /// Takes over the heap of `heap_size` bytes at `heap_start`: every zone
    /// becomes one free block of the highest order. The heap must be made of
    /// whole zones, start at a multiple of the zone size and lie inside the
    /// physical address space.
    pub fn init(heap_start: PhysAddr, heap_size: u64) -> (r: Result<Self, InitError>)
        ensures
            match r {
                Ok(a) => init_error(heap_start@, heap_size as nat) is None && a.wf() && a@
                    == AllocatorView::fresh(heap_start@, heap_size as nat / 0x20_0000),
                Err(e) => init_error(heap_start@, heap_size as nat) == Some(e),
            },
    {
        let start = heap_start.as_u64();
        if heap_size < ZONE_SIZE {
            return Err(InitError::TooSmall);
        }
        if heap_size % BASE_PAGE_SIZE != 0 {
            return Err(InitError::UnalignedSize);
        }
        if heap_size % ZONE_SIZE != 0 {
            return Err(InitError::PartialZone);
        }
        if start % ZONE_SIZE != 0 {
            return Err(InitError::UnalignedStart);
        }
        if heap_size > PHYS_LIMIT - start {
            return Err(InitError::OutOfRange);
        }
        if heap_size / BASE_PAGE_SIZE > usize::MAX as u64 {
            return Err(InitError::TooLarge);
        }
        let zones: u64 = heap_size / ZONE_SIZE;
        let pages: u64 = heap_size / BASE_PAGE_SIZE;
        let ghost fresh = AllocatorView::fresh(start as nat, zones as nat);
        proof {
            lemma_fresh(start as nat, zones as nat);
        }
        let mut top: Vec<u64> = Vec::new();
        let mut z: u64 = 0;
        while z < zones
            invariant
                z <= zones,
                zones * 512 == pages,
                top@.len() == z,
                forall|i: int| 0 <= i < z ==> #[trigger] top@[i] == i * 512,
            decreases zones - z,
        {
            top.push(z * ZONE_PAGES);
            z += 1;
        }
        let mut free_lists: Vec<Vec<u64>> = Vec::new();
        let mut k: u32 = 0;
        while k + 1 < MAX_ORDER
            invariant
                k + 1 <= MAX_ORDER,
                free_lists@.len() == k,
                forall|i: int| 0 <= i < k ==> (#[trigger] free_lists@[i])@.len() == 0,
            decreases MAX_ORDER - k,
        {
            free_lists.push(Vec::new());
            k += 1;
        }
        free_lists.push(top);
        let mut owners: Vec<u8> = Vec::new();
        let mut p: u64 = 0;
        while p < pages
            invariant
                p <= pages <= usize::MAX,
                owners@.len() == p,
                forall|i: int| 0 <= i < p ==> #[trigger] owners@[i] == 0,
            decreases pages - p,
        {
            owners.push(0);
            p += 1;
        }
        let a = FrameAllocator {
            heap_start: start,
            zones,
            free_lists,
            owners,
            free_pages: pages,
            state: Ghost(fresh),
        };
        proof {
            assert forall|j: int| 0 <= j < MAX_ORDER implies (#[trigger] a.list(j)).no_duplicates() by {
                if j == 9 {
                    assert forall|x: int, y: int|
                        0 <= x < a.list(j).len() && 0 <= y < a.list(j).len() && x != y implies a.list(
                        j,
                    )[x] != a.list(j)[y] by {}
                }
            }
            assert forall|j: int, q: nat|
                0 <= j < MAX_ORDER && #[trigger] a@.free[j].contains(q) implies q <= u64::MAX
                && a.list(j).contains(q as u64) by {
                assert(j == 9);
                let i = q as int / 512;
                assert(a.list(j)[i] == q as u64);
            }
        }
        Ok(a)
    }

    /// Address of the first byte of the heap.
    pub fn heap_start(&self) -> (r: u64)
        requires
            self.wf(),
        ensures
            r == self@.start,
    {
        self.heap_start
    }

    /// Size of the heap in bytes.
    pub fn heap_size(&self) -> (r: u64)
        requires
            self.wf(),
        ensures
            r == self@.zones * 0x20_0000,
    {
        self.zones * ZONE_SIZE
    }

    /// Number of pages in free blocks.
    pub fn free_pages(&self) -> (r: u64)
        requires
            self.wf(),
        ensures
            r == self@.free_pages(),
    {
        self.free_pages
    }

    /// Whether a block of the given order is allocated at `frame`.
    pub fn is_allocated(&self, frame: Frame, order: u32) -> (r: bool)
        requires
            self.wf(),
        ensures
            r == (order < MAX_ORDER && self@.is_allocated(order as nat, frame@)),
    {
        let addr = frame.start_address().as_u64();
        if order >= MAX_ORDER || addr < self.heap_start {
            return false;
        }
        let page = (addr - self.heap_start) / 4096;
        let ghost b = Block { order: order as nat, page: page as nat };
        proof {
            lemma_page_sizes();
            assert(addr % 4096 == 0);
            assert(self@.start % 4096 == 0);
            assert(b == self@.block_at(addr as nat, order as nat));
            assert(addr == self@.address_of(b));
            assert(self@.used[order as int].contains(page as nat) <==> page < self.owners@.len()
                && self.owners@[page as int] == order + 1);
        }
        page < self.owners.len() as u64 && self.owners[page as usize] == (order + 1) as u8
    }

    /// Whether a block of the given order is free at `frame`.
    pub fn is_free(&self, frame: Frame, order: u32) -> (r: bool)
        requires
            self.wf(),
        ensures
            r == (order < MAX_ORDER && frame@ >= self@.start && self@.is_free(
                self@.block_at(frame@, order as nat),
            )),
    {
        let addr = frame.start_address().as_u64();
        if order >= MAX_ORDER || addr < self.heap_start {
            return false;
        }
        let page = (addr - self.heap_start) / 4096;
        let at = position(&self.free_lists[order as usize], page);
        proof {
            let b = Block { order: order as nat, page: page as nat };
            assert(b == self@.block_at(addr as nat, order as nat));
            if self@.is_free(b) {
                assert(self@.free[order as int].contains(page as nat));
            }
            if at is Some {
                assert(self@.free[order as int].contains(
                    self.list(order as int)[at->Some_0 as int] as nat,
                ));
            }
        }
        at.is_some()
    }

    /// Hands out a free block of `2^order` pages. Where no block of that
    /// order is free, the lowest free block above it is halved until one is;
    /// the upper halves become free.
    pub fn allocate(&mut self, order: u32) -> (r: Result<Frame, OutOfMemory>)
        requires
            old(self).wf(),
        ensures
            final(self).wf(),
            r is Ok <==> old(self)@.can_allocate(order as nat),
            r is Ok ==> old(self)@.may_allocate(order as nat, r->Ok_0@),
            r is Ok ==> final(self)@ == old(self)@.after_allocate(order as nat, r->Ok_0@),
            r is Err ==> final(self)@ == old(self)@,
            r is Ok ==> old(self)@.start <= r->Ok_0@,
            r is Ok ==> r->Ok_0@ + pow2(order as nat) * 4096 <= old(self)@.start + old(self)@.zones
                * 0x20_0000,
            r is Ok ==> r->Ok_0@ % (pow2(order as nat) * 4096) == 0,
    {
        if order >= MAX_ORDER {
            return Err(OutOfMemory);
        }
        let ghost before = *self;
        let mut top: u32 = order;
        while top < MAX_ORDER && self.free_lists[top as usize].len() == 0
            invariant
                *self == before,
                self.wf(),
                order <= top <= MAX_ORDER,
                self@.source_order(order as nat) == self@.source_order(top as nat),
            decreases MAX_ORDER - top,
        {
            proof {
                let set = self@.free[top as int];
                if set.len() > 0 {
                    let x = set.choose();
                    assert(set.contains(x));
                    assert(self.list(top as int).contains(x as u64));
                }
            }
            top += 1;
        }
        if top >= MAX_ORDER {
            return Err(OutOfMemory);
        }
        proof {
            assert(self@.free[top as int].contains(self.list(top as int)[0] as nat));
            assert(self@.source_order(top as nat) == top);
        }
        let page = self.pop_free(top);
        let ghost source = Block { order: top as nat, page: page as nat };
        let ghost taken = before@.take_free(source);
        proof {
            lemma_take_free(before@, source);
        }
        let mut m: u32 = top;
        while m > order
            invariant
                self.linked(),
                self@.sound(),
                self@.carrying(Block { order: m as nat, page: page as nat }),
                order <= m <= top < MAX_ORDER,
                self@.start == before@.start,
                self@.zones == before@.zones,
                self@.carve(Block { order: m as nat, page: page as nat }, order as nat)
                    == taken.carve(source, order as nat),
            decreases m,
        {
            let ghost c = Block { order: m as nat, page: page as nat };
            proof {
                lemma_split_step(self@, c);
                lemma_block_halves(c, self@.total_pages());
                lemma_pow2_pos(c.lower().order);
            }
            m -= 1;
            let half = pages_of(m);
            self.push_free(m, page + half);
        }
        let ghost b = Block { order: order as nat, page: page as nat };
        proof {
            assert(self@ == taken.carve(source, order as nat));
            lemma_put_used(self@, b);
            lemma_pow2_pos(order as nat);
            if self.owners@[page as int] != 0 {
                let k = (self.owners@[page as int] - 1) as int;
                let u = Block { order: k as nat, page: page as nat };
                assert(self@.used[k].contains(page as nat));
                assert(self@.is_used(u));
                lemma_pow2_pos(k as nat);
                assert(b.overlaps(u));
            }
        }
        self.mark_used(order, page);
        proof {
            assert(page < self@.total_pages());
            assert(self@.start % 4096 == 0);
        }
        let addr = self.heap_start + page * 4096;
        proof {
            assert(addr < 0x100_0000_0000_0000);
            assert(addr % 4096 == 0);
            lemma_page_sizes();
            assert(before@.block_at(addr as nat, order as nat) == b);
            assert(before@.source_order(order as nat) == top);
            lemma_block_address(self@, b);
        }
        Ok(Frame::from_aligned(PhysAddr::new_truncate(addr)))
    }

    /// Takes back the block of `2^order` pages that starts with `frame` and
    /// merges it with its buddy, and what comes of that with its buddy, as
    /// long as the buddy is free.
    pub fn free(&mut self, frame: Frame, order: u32) -> (r: Result<(), FreeError>)
        requires
            old(self).wf(),
        ensures
            final(self).wf(),
            r is Ok <==> order < MAX_ORDER && old(self)@.is_allocated(order as nat, frame@),
            r is Ok ==> final(self)@ == old(self)@.after_free(order as nat, frame@),
            r is Err ==> final(self)@ == old(self)@ && r->Err_0 == FreeError::NotAllocated,
    {
        let addr = frame.start_address().as_u64();
        if order >= MAX_ORDER || addr < self.heap_start {
            return Err(FreeError::NotAllocated);
        }
        let page = (addr - self.heap_start) / 4096;
        let ghost before = *self;
        let ghost b = Block { order: order as nat, page: page as nat };
        proof {
            lemma_page_sizes();
            assert(addr % 4096 == 0);
            assert(self@.start % 4096 == 0);
            assert(b == self@.block_at(addr as nat, order as nat));
            assert(addr == self@.address_of(b));
        }
        if page >= self.owners.len() as u64 {
            proof {
                if self@.is_used(b) {
                    assert(self@.used[order as int].contains(page as nat));
                }
            }
            return Err(FreeError::NotAllocated);
        }
        if self.owners[page as usize] != (order + 1) as u8 {
            proof {
                if self@.is_used(b) {
                    assert(self@.used[order as int].contains(page as nat));
                }
            }
            return Err(FreeError::NotAllocated);
        }
        proof {
            assert(self@.used[order as int].contains(page as nat) <==> page < self.owners@.len()
                && self.owners@[page as int] == order + 1);
            assert(self@.is_used(b));
            lemma_take_used(self@, b);
        }
        self.clear_used(order, page);
        let ghost taken = before@.take_used(b);
        let mut m: u32 = order;
        let mut first: u64 = page;
        let mut merging = true;
        while merging && m + 1 < MAX_ORDER
            invariant
                self.linked(),
                self@.sound(),
                self@.carrying(Block { order: m as nat, page: first as nat }),
                order <= m < MAX_ORDER,
                self@.start == before@.start,
                self@.zones == before@.zones,
                self@.coalesce(Block { order: m as nat, page: first as nat }) == taken.coalesce(b),
                !merging ==> m + 1 == MAX_ORDER || !self@.is_free(
                    Block { order: m as nat, page: first as nat }.buddy(),
                ),
            decreases MAX_ORDER - m + (if merging { 1int } else { 0int }),
        {
            let ghost c = Block { order: m as nat, page: first as nat };
            let size = pages_of(m);
            proof {
                lemma_block_family(c, self@.total_pages());
            }
            let buddy = first ^ size;
            proof {
                lemma_order_sizes();
                lemma_flipped_bit(first, size);
            }
            let ghost merged = self@;
            if self.remove_free(m, buddy) {
                proof {
                    lemma_merge_step(merged, c);
                }
                first = first & !size;
                m += 1;
            } else {
                merging = false;
            }
        }
        proof {
            let c = Block { order: m as nat, page: first as nat };
            lemma_put_free(self@, c);
            lemma_order_sizes();
            lemma_pow2_pos(m as nat);
        }
        self.push_free(m, first);
        Ok(())
    }
}

} // verus!
