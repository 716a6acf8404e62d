//! x86-64 four level page tables, walked and edited through an abstract physical memory.
use vstd::prelude::*;

verus! {

/// Page properties used by 64 bit x86 paging.
pub const PAGE_PRESENT: u64 = 0x1;
pub const PAGE_WRITE: u64 = 0x2;
pub const PAGE_USER: u64 = 0x4;
pub const PAGE_PWT: u64 = 0x8;
pub const PAGE_CACHE_DISABLE: u64 = 0x10;
pub const PAGE_SIZE: u64 = 0x80;
pub const PAGE_PAT: u64 = 0x80;
pub const PAGE_NX: u64 = 0x8000_0000_0000_0000;

/// Mask of the physical frame address in a page table entry.
pub const FRAME_MASK: u64 = 0xffffffffff000;

#[derive(Copy, Clone, PartialEq, Eq, Structural, Debug)]
pub struct PhysAddr(pub u64);

#[derive(Copy, Clone, PartialEq, Eq, Structural, Debug)]
pub struct VirtAddr(pub u64);

/// `a` is canonical with four paging levels: bits 63 to 47 are all equal.
pub open spec fn spec_canonical(a: u64) -> bool {
    a < 0x0000_8000_0000_0000 || a >= 0xffff_8000_0000_0000
}

impl VirtAddr {
    /// Check if the address is canonical: with four paging levels bits 63 to 47 must all be
    /// equal. If it's not then it cannot be mapped and every access to it will cause #GP.
    pub fn is_canonical(&self) -> (r: bool)
        ensures
            r == spec_canonical(self.0),
    {
        self.0 < 0x0000_8000_0000_0000 || self.0 >= 0xffff_8000_0000_0000
    }
}

/// x86 page type. CPU may not support all these page types.
#[derive(Copy, Clone, PartialEq, Eq, Structural, Debug)]
pub enum PageType {
    Page4K,
    Page2M,
    Page1G,
}

/// Size in bytes of a page of type `t`.
pub open spec fn spec_page_size(t: PageType) -> u64 {
    match t {
        PageType::Page4K => 0x1000u64,
        PageType::Page2M => 0x20_0000u64,
        PageType::Page1G => 0x4000_0000u64,
    }
}

impl PageType {
    /// Size in bytes of a page of this type.
    pub fn size(&self) -> (r: u64)
        ensures
            r == spec_page_size(*self),
    {
        match self {
            PageType::Page4K => 4096,
            PageType::Page2M => 2 * 1024 * 1024,
            PageType::Page1G => 1024 * 1024 * 1024,
        }
    }
}

/// Internal flag that can be only present on last level entries. It signifies that the
/// backing page should be freed when destroying the page table. This bit is ignored by the
/// architecture.
pub const DEALLOCATE_FLAG: u64 = 0x200;

/// Physical addresses handed out for page tables and pages lie below this limit (52 bits,
/// the x86-64 maximum).
pub const PHYS_LIMIT: u64 = 0x0010_0000_0000_0000;

/// Trait that allows manipulation of physical memory in various environments.
///
/// Memory is seen as 64-bit words at 8-byte aligned physical addresses. Every word is either
/// in use or still free, i.e. available to the allocator.
/// `a` lies in the region of `size` bytes that an allocation answered with `r`.
pub open spec fn in_region(r: Option<PhysAddr>, size: u64, a: u64) -> bool {
    r matches Some(p) && p.0 <= a < p.0 + size
}

pub trait PhysMem {
    /// The 64-bit word at physical address `addr`.
    spec fn word(&self, addr: u64) -> u64;

    /// The word at `addr` can be reached through this memory.
    spec fn readable(&self, addr: u64) -> bool;

    /// The word at `addr` is free: the allocator may still hand it out.
    spec fn free(&self, addr: u64) -> bool;

    /// Virtual addresses whose cached translations were invalidated, oldest first.
    spec fn flushed(&self) -> Seq<u64>;

    /// Read the word at `addr`, if it can be reached.
    fn read_u64(&self, addr: PhysAddr) -> (r: Option<u64>)
        requires
            addr.0 % 8 == 0,
        ensures
            r == (if self.readable(addr.0) {
                Some(self.word(addr.0))
            } else {
                None
            }),
    ;

    /// Write `value` to the word at `addr`, if it can be reached.
    fn write_u64(&mut self, addr: PhysAddr, value: u64) -> (r: Option<()>)
        requires
            addr.0 % 8 == 0,
        ensures
            r is Some <==> old(self).readable(addr.0),
            final(self).flushed() == old(self).flushed(),
            forall|a: u64| a % 8 == 0 ==> #[trigger] final(self).readable(a) == old(self).readable(a),
            forall|a: u64| a % 8 == 0 ==> #[trigger] final(self).free(a) == old(self).free(a),
            forall|a: u64|
                a % 8 == 0 ==> #[trigger] final(self).word(a) == (if r is Some && a == addr.0 {
                    value
                } else {
                    old(self).word(a)
                }),
    ;

    /// Write the byte `value` at `addr`, if it can be reached. Only the word that holds the
    /// byte changes, and in it only that byte (words are little endian).
    fn write_u8(&mut self, addr: PhysAddr, value: u8) -> (r: Option<()>)
        ensures
            r is Some <==> old(self).readable((addr.0 - addr.0 % 8) as u64),
            r is Some ==> final(self).word((addr.0 - addr.0 % 8) as u64) == with_byte(
                old(self).word((addr.0 - addr.0 % 8) as u64),
                addr.0 % 8,
                value,
            ),
            final(self).flushed() == old(self).flushed(),
            forall|a: u64| a % 8 == 0 ==> #[trigger] final(self).readable(a) == old(self).readable(a),
            forall|a: u64| a % 8 == 0 ==> #[trigger] final(self).free(a) == old(self).free(a),
            forall|a: u64|
                a % 8 == 0 && a != addr.0 - addr.0 % 8 ==> #[trigger] final(self).word(a) == old(
                    self,
                ).word(a),
    ;

    /// Allocate a zeroed physical region of `size` bytes aligned to `align`, taken from free
    /// memory. Nothing else changes.
    fn alloc_phys_zeroed(&mut self, size: u64, align: u64) -> (r: Option<PhysAddr>)
        requires
            size > 0,
            align >= 8,
            align % 8 == 0,
        ensures
            r matches Some(p) ==> p.0 % align == 0 && p.0 + size <= PHYS_LIMIT,
            final(self).flushed() == old(self).flushed(),
            forall|a: u64|
                a % 8 == 0 ==> #[trigger] final(self).free(a) == (if in_region(r, size, a) {
                    false
                } else {
                    old(self).free(a)
                }),
            forall|a: u64|
                a % 8 == 0 ==> #[trigger] final(self).readable(a) == (if in_region(r, size, a) {
                    true
                } else {
                    old(self).readable(a)
                }),
            forall|a: u64|
                a % 8 == 0 ==> #[trigger] final(self).word(a) == (if in_region(r, size, a) {
                    0
                } else {
                    old(self).word(a)
                }),
            forall|a: u64|
                a % 8 == 0 && in_region(r, size, a) ==> #[trigger] old(self).free(a),
    ;

    /// Free a physical region of `size` bytes at `addr`. On success the region is free;
    /// nothing else changes either way.
    fn free_phys(&mut self, addr: PhysAddr, size: u64) -> (r: Option<()>)
        ensures
            final(self).flushed() == old(self).flushed(),
            forall|a: u64| a % 8 == 0 ==> #[trigger] final(self).readable(a) == old(self).readable(a),
            forall|a: u64| a % 8 == 0 ==> #[trigger] final(self).word(a) == old(self).word(a),
            forall|a: u64|
                a % 8 == 0 ==> #[trigger] final(self).free(a) == (if r is Some && addr.0 <= a
                    < addr.0 + size {
                    true
                } else {
                    old(self).free(a)
                }),
    ;

    /// The mapping of `virt_addr` changed while it may be cached in a TLB.
    fn invalidate_tlb(&mut self, virt_addr: VirtAddr)
        ensures
            final(self).flushed() == old(self).flushed().push(virt_addr.0),
            forall|a: u64| a % 8 == 0 ==> #[trigger] final(self).readable(a) == old(self).readable(a),
            forall|a: u64| a % 8 == 0 ==> #[trigger] final(self).word(a) == old(self).word(a),
            forall|a: u64| a % 8 == 0 ==> #[trigger] final(self).free(a) == old(self).free(a),
    ;
}

/// Byte `i` of the word `w`, 0 being the lowest.
pub open spec fn word_byte(w: u64, i: u64) -> u8 {
    ((w >> (i * 8)) & 0xff) as u8
}

/// The word `w` with its byte `i` replaced by `b`.
pub open spec fn with_byte(w: u64, i: u64, b: u8) -> u64 {
    (w & !(0xffu64 << (i * 8))) | ((b as u64) << (i * 8))
}

/// The byte of memory `m` at physical address `a`.
pub open spec fn mem_byte<M: PhysMem>(m: M, a: u64) -> u8 {
    word_byte(m.word((a - a % 8) as u64), a % 8)
}

/// Replacing one byte of a word changes that byte and no other.
proof fn lemma_with_byte(w: u64, i: u64, j: u64, b: u8)
    requires
        i < 8,
        j < 8,
    ensures
        word_byte(with_byte(w, i, b), j) == if i == j {
            b
        } else {
            word_byte(w, j)
        },
{
    assert(((((w & !(0xffu64 << (i * 8))) | ((b as u64) << (i * 8))) >> (j * 8)) & 0xff) as u8 == if i
        == j {
        b
    } else {
        ((w >> (j * 8)) & 0xff) as u8
    }) by (bit_vector)
        requires
            i < 8,
            j < 8,
    ;
}

/// Index into the table at `depth` (0 is the root) selected by `va`.
pub open spec fn va_index(va: u64, depth: int) -> u64 {
    if depth == 0 {
        (va >> 39u64) & 0x1ff
    } else if depth == 1 {
        (va >> 30u64) & 0x1ff
    } else if depth == 2 {
        (va >> 21u64) & 0x1ff
    } else {
        (va >> 12u64) & 0x1ff
    }
}

/// Physical address of the entry of `table` that `va` selects at `depth`.
pub open spec fn slot_addr(table: u64, va: u64, depth: int) -> u64 {
    (table + va_index(va, depth) * 8) as u64
}

/// Entry `e` is present.
pub open spec fn present(e: u64) -> bool {
    e & PAGE_PRESENT != 0
}

/// Entry `e` maps a large page.
pub open spec fn large(e: u64) -> bool {
    e & PAGE_SIZE != 0
}

/// Physical frame that entry `e` points to.
pub open spec fn frame(e: u64) -> u64 {
    e & FRAME_MASK
}

/// Walk from `table` at `depth` towards the physical address that `va` maps to.
pub open spec fn walk_from<M: PhysMem>(m: M, table: u64, va: u64, depth: nat) -> Option<u64>
    decreases 4 - depth,
{
    if depth >= 4 {
        None
    } else {
        let s = slot_addr(table, va, depth as int);
        let e = m.word(s);
        if !m.readable(s) || !present(e) {
            None
        } else if depth == 3 {
            Some((frame(e) + (va & 0xfff)) as u64)
        } else if large(e) {
            if depth == 1 {
                Some((frame(e) + (va & 0x3fff_ffff)) as u64)
            } else if depth == 2 {
                Some((frame(e) + (va & 0x1f_ffff)) as u64)
            } else {
                None
            }
        } else {
            walk_from(m, frame(e), va, depth + 1)
        }
    }
}

/// The physical address that canonical `va` maps to in memory `m` under the root table `root`.
pub open spec fn spec_translate<M: PhysMem>(m: M, root: u64, va: u64) -> Option<u64> {
    if spec_canonical(va) {
        walk_from(m, root, va, 0)
    } else {
        None
    }
}

/// Addresses in one 4 KiB page select the same entry at every level, and their offsets in
/// any page size differ by their own difference.
proof fn lemma_same_page_bits(a: u64, b: u64)
    by (bit_vector)
    requires
        a >> 12u64 == b >> 12u64,
    ensures
        (a >> 39u64) & 0x1ff == (b >> 39u64) & 0x1ff,
        (a >> 30u64) & 0x1ff == (b >> 30u64) & 0x1ff,
        (a >> 21u64) & 0x1ff == (b >> 21u64) & 0x1ff,
        (a >> 12u64) & 0x1ff == (b >> 12u64) & 0x1ff,
        (a & 0xfff) - (b & 0xfff) == a - b,
        (a & 0x1f_ffff) - (b & 0x1f_ffff) == a - b,
        (a & 0x3fff_ffff) - (b & 0x3fff_ffff) == a - b,
        a & 0xfff <= 0xfff && b & 0xfff <= 0xfff,
        a & 0x1f_ffff <= 0x1f_ffff && b & 0x1f_ffff <= 0x1f_ffff,
        a & 0x3fff_ffff <= 0x3fff_ffff && b & 0x3fff_ffff <= 0x3fff_ffff,
{
}

/// Walks of two addresses in one 4 KiB page reach the same entries: both end in a page or
/// neither does, at the same distance from the addresses.
proof fn lemma_walk_same_page<M: PhysMem>(m: M, table: u64, a: u64, b: u64, depth: nat)
    requires
        a >> 12u64 == b >> 12u64,
    ensures
        (walk_from(m, table, a, depth) is Some) == (walk_from(m, table, b, depth) is Some),
        walk_from(m, table, a, depth) is Some ==> walk_from(m, table, a, depth)->0 - a == walk_from(
            m,
            table,
            b,
            depth,
        )->0 - b,
    decreases 4 - depth,
{
    lemma_same_page_bits(a, b);
    if depth < 4 {
        let e = m.word(slot_addr(table, a, depth as int));
        assert(slot_addr(table, a, depth as int) == slot_addr(table, b, depth as int));
        lemma_frame_aligned(e);
        if m.readable(slot_addr(table, a, depth as int)) && present(e) && depth != 3 && !large(e) {
            lemma_walk_same_page(m, frame(e), a, b, depth + 1);
        }
    }
}

/// Addresses in the same 4 KiB page translate together: both are mapped or neither is, and
/// to physical addresses the same distance apart as the addresses themselves.
pub proof fn lemma_translate_same_page<M: PhysMem>(m: M, root: u64, a: u64, b: u64)
    requires
        a / 4096 == b / 4096,
    ensures
        (spec_translate(m, root, a) is Some) == (spec_translate(m, root, b) is Some),
        spec_translate(m, root, a) is Some ==> spec_translate(m, root, a)->0 - a == spec_translate(
            m,
            root,
            b,
        )->0 - b,
{
    vstd::bits::lemma_u64_shr_is_div(a, 12);
    vstd::bits::lemma_u64_shr_is_div(b, 12);
    vstd::arithmetic::power2::lemma2_to64();
    vstd::arithmetic::div_mod::lemma_fundamental_div_mod(a as int, 4096);
    vstd::arithmetic::div_mod::lemma_fundamental_div_mod(b as int, 4096);
    lemma_walk_same_page(m, root, a, b, 0);
}

/// Number of table levels that map a page of type `t`.
pub open spec fn levels(t: PageType) -> nat {
    match t {
        PageType::Page4K => 4,
        PageType::Page2M => 3,
        PageType::Page1G => 2,
    }
}

/// The table reached at `depth` when walking `va` through present, non-large entries.
pub open spec fn table_at<M: PhysMem>(m: M, root: u64, va: u64, depth: nat) -> Option<u64>
    decreases depth,
{
    if depth == 0 {
        Some(root)
    } else {
        match table_at(m, root, va, (depth - 1) as nat) {
            Some(t) => {
                let s = slot_addr(t, va, depth - 1);
                let e = m.word(s);
                if m.readable(s) && present(e) && !large(e) {
                    Some(frame(e))
                } else {
                    None
                }
            },
            None => None,
        }
    }
}

/// Address of the entry that `va` uses at `depth`, given that the walk gets there.
pub open spec fn path_slot<M: PhysMem>(m: M, root: u64, va: u64, depth: nat) -> u64 {
    slot_addr(table_at(m, root, va, depth)->0, va, depth as int)
}

/// Address of the last level entry that maps `va` with a page of type `t`.
pub open spec fn leaf_slot<M: PhysMem>(m: M, root: u64, va: u64, t: PageType) -> Option<u64> {
    let last = (levels(t) - 1) as nat;
    match table_at(m, root, va, last) {
        Some(tb) => if m.readable(slot_addr(tb, va, last as int)) {
            Some(slot_addr(tb, va, last as int))
        } else {
            None
        },
        None => None,
    }
}

/// The entries that the walk of `va` reaches in its first `n` levels are in use and no two
/// of them are the same word (the tables do not alias each other along this walk).
pub open spec fn path_sound<M: PhysMem>(m: M, root: u64, va: u64, n: nat) -> bool {
    &&& forall|i: nat|
        i < n && (#[trigger] table_at(m, root, va, i)) is Some ==> !m.free(path_slot(m, root, va, i))
    &&& forall|i: nat, j: nat|
        #![trigger path_slot(m, root, va, j), path_slot(m, root, va, i)]
        j < i < n && table_at(m, root, va, i) is Some ==> path_slot(m, root, va, j) != path_slot(
            m,
            root,
            va,
            i,
        )
}

/// Value written to the last level entry for `raw`.
pub open spec fn leaf_value(raw: u64, t: PageType, deallocate: bool) -> u64 {
    let r1 = if deallocate {
        raw | DEALLOCATE_FLAG
    } else {
        raw
    };
    if t != PageType::Page4K {
        r1 | PAGE_SIZE
    } else {
        r1
    }
}

/// Low bits of a virtual address that select a byte within a page of type `t`.
pub open spec fn page_offset_mask(t: PageType) -> u64 {
    (spec_page_size(t) - 1) as u64
}

proof fn lemma_index_bound(va: u64, depth: int)
    ensures
        va_index(va, depth) <= 0x1ff,
{
    assert((va >> 39u64) & 0x1ff <= 0x1ff && (va >> 30u64) & 0x1ff <= 0x1ff && (va >> 21u64) & 0x1ff
        <= 0x1ff && (va >> 12u64) & 0x1ff <= 0x1ff) by (bit_vector);
}

proof fn lemma_frame_aligned(e: u64)
    ensures
        frame(e) <= FRAME_MASK,
        frame(e) % 4096 == 0,
{
    assert(e & 0xffffffffff000u64 <= 0xffffffffff000u64 && (e & 0xffffffffff000u64) % 4096 == 0)
        by (bit_vector);
}

/// The last level entry that maps `va` with a page of type `t` exists and is present.
pub open spec fn leaf_present<M: PhysMem>(m: M, root: u64, va: u64, t: PageType) -> bool {
    leaf_slot(m, root, va, t) matches Some(s) && present(m.word(s))
}

/// The last level entry that maps `va` with a page of type `t` exists and holds `value`.
pub open spec fn leaf_holds<M: PhysMem>(m: M, root: u64, va: u64, t: PageType, value: u64) -> bool {
    leaf_slot(m, root, va, t) matches Some(s) && m.word(s) == value
}

/// From `old_m` to `new_m` the entry at `slot` became `value` and no other word changed.
pub open spec fn leaf_replaced<M: PhysMem>(old_m: M, new_m: M, slot: u64, value: u64) -> bool {
    &&& new_m.word(slot) == value
    &&& forall|a: u64| a % 8 == 0 && a != slot ==> #[trigger] new_m.word(a) == old_m.word(a)
}

/// Memory in use stays in use and reachable from `old_m` to `new_m`; without `update` no
/// present entry in use changes.
pub open spec fn keeps_in_use<M: PhysMem>(old_m: M, new_m: M, update: bool) -> bool {
    &&& forall|a: u64| a % 8 == 0 && !old_m.free(a) ==> !#[trigger] new_m.free(a)
    &&& forall|a: u64|
        a % 8 == 0 && !old_m.free(a) ==> #[trigger] new_m.readable(a) == old_m.readable(a)
    &&& forall|a: u64|
        a % 8 == 0 && !old_m.free(a) && !update && present(old_m.word(a)) ==> #[trigger] new_m.word(
            a,
        ) == old_m.word(a)
}

/// The outcome of mapping `va` with a page of type `t` whose last level entry gets `value`,
/// taking memory from `old_m` to `new_m` and answering `r`.
pub open spec fn map_outcome<M: PhysMem>(
    old_m: M,
    new_m: M,
    root: u64,
    va: u64,
    t: PageType,
    value: u64,
    update: bool,
    r: Option<()>,
) -> bool {
    // Addresses that are not canonical or not aligned to the page are refused untouched.
    &&& (!spec_canonical(va) || va % spec_page_size(t) != 0) ==> (r is None && new_m == old_m)
    // A present entry is only replaced on request.
    &&& (!update && leaf_present(old_m, root, va, t)) ==> (r is None && new_m == old_m)
    &&& r is Some ==> spec_canonical(va) && va % spec_page_size(t) == 0
    // On success the last level entry that maps `va` holds `value`.
    &&& (r is Some && path_sound(old_m, root, va, levels(t))) ==> leaf_holds(new_m, root, va, t, value)
    &&& keeps_in_use(old_m, new_m, update)
}

/// The log of invalidated translations after mapping `va` with a page of type `t`: `va` is
/// added exactly when a present last level entry was replaced, the table invalidates the TLB
/// and `va` can be reached in the current processor mode.
pub open spec fn flush_outcome<M: PhysMem>(
    old_m: M,
    new_m: M,
    root: u64,
    va: u64,
    t: PageType,
    update: bool,
    invalidates: bool,
    r: Option<()>,
) -> bool {
    new_m.flushed() == if r is Some && update && invalidates && leaf_present(old_m, root, va, t)
        && va <= usize::MAX {
        old_m.flushed().push(va)
    } else {
        old_m.flushed()
    }
}

/// An allocation keeps memory in use as it was.
proof fn lemma_keeps_alloc<M: PhysMem>(
    old_m: M,
    cur: M,
    next: M,
    r: Option<PhysAddr>,
    size: u64,
    update: bool,
)
    requires
        keeps_in_use(old_m, cur, update),
        forall|a: u64|
            a % 8 == 0 ==> #[trigger] next.free(a) == (if in_region(r, size, a) {
                false
            } else {
                cur.free(a)
            }),
        forall|a: u64|
            a % 8 == 0 ==> #[trigger] next.readable(a) == (if in_region(r, size, a) {
                true
            } else {
                cur.readable(a)
            }),
        forall|a: u64|
            a % 8 == 0 ==> #[trigger] next.word(a) == (if in_region(r, size, a) {
                0
            } else {
                cur.word(a)
            }),
        forall|a: u64| a % 8 == 0 && in_region(r, size, a) ==> #[trigger] cur.free(a),
    ensures
        keeps_in_use(old_m, next, update),
{
    assert forall|a: u64| a % 8 == 0 && !old_m.free(a) implies !#[trigger] next.free(a) by {
        assert(!cur.free(a));
    }
    assert forall|a: u64| a % 8 == 0 && !old_m.free(a) implies #[trigger] next.readable(a)
        == old_m.readable(a) by {
        assert(!cur.free(a));
    }
    assert forall|a: u64|
        a % 8 == 0 && !old_m.free(a) && !update && present(old_m.word(a)) implies #[trigger] next.word(
        a,
    ) == old_m.word(a) by {
        assert(!cur.free(a));
    }
}

/// A write of a word that is free, not present or open to update keeps memory in use as it
/// was.
proof fn lemma_keeps_write<M: PhysMem>(
    old_m: M,
    cur: M,
    next: M,
    slot: u64,
    value: u64,
    written: bool,
    update: bool,
)
    requires
        keeps_in_use(old_m, cur, update),
        !update && written ==> !present(cur.word(slot)),
        forall|a: u64| a % 8 == 0 ==> #[trigger] next.readable(a) == cur.readable(a),
        forall|a: u64| a % 8 == 0 ==> #[trigger] next.free(a) == cur.free(a),
        forall|a: u64|
            a % 8 == 0 ==> #[trigger] next.word(a) == (if written && a == slot {
                value
            } else {
                cur.word(a)
            }),
    ensures
        keeps_in_use(old_m, next, update),
{
    assert forall|a: u64| a % 8 == 0 && !old_m.free(a) implies !#[trigger] next.free(a) by {
        assert(!cur.free(a));
    }
    assert forall|a: u64| a % 8 == 0 && !old_m.free(a) implies #[trigger] next.readable(a)
        == old_m.readable(a) by {
        assert(!cur.free(a));
    }
    assert forall|a: u64|
        a % 8 == 0 && !old_m.free(a) && !update && present(old_m.word(a)) implies #[trigger] next.word(
        a,
    ) == old_m.word(a) by {
        assert(!cur.free(a));
    }
}

/// A step that changes no word, reachability or freedom keeps memory in use as it was.
proof fn lemma_keeps_same<M: PhysMem>(old_m: M, cur: M, next: M, update: bool)
    requires
        keeps_in_use(old_m, cur, update),
        forall|a: u64| a % 8 == 0 ==> #[trigger] next.readable(a) == cur.readable(a),
        forall|a: u64| a % 8 == 0 ==> #[trigger] next.free(a) == cur.free(a),
        forall|a: u64| a % 8 == 0 ==> #[trigger] next.word(a) == cur.word(a),
    ensures
        keeps_in_use(old_m, next, update),
{
    assert forall|a: u64| a % 8 == 0 && !old_m.free(a) implies !#[trigger] next.free(a) by {
        assert(!cur.free(a));
    }
    assert forall|a: u64| a % 8 == 0 && !old_m.free(a) implies #[trigger] next.readable(a)
        == old_m.readable(a) by {
        assert(!cur.free(a));
    }
    assert forall|a: u64|
        a % 8 == 0 && !old_m.free(a) && !update && present(old_m.word(a)) implies #[trigger] next.word(
        a,
    ) == old_m.word(a) by {
        assert(!cur.free(a));
    }
}

/// Keeping memory in use composes.
proof fn lemma_keeps_trans<M: PhysMem>(m1: M, m2: M, m3: M, update: bool)
    requires
        keeps_in_use(m1, m2, update),
        keeps_in_use(m2, m3, update),
    ensures
        keeps_in_use(m1, m3, update),
{
    assert forall|a: u64| a % 8 == 0 && !m1.free(a) implies !#[trigger] m3.free(a) by {
        assert(!m2.free(a));
    }
    assert forall|a: u64| a % 8 == 0 && !m1.free(a) implies #[trigger] m3.readable(a)
        == m1.readable(a) by {
        assert(!m2.free(a));
        assert(m2.readable(a) == m1.readable(a));
    }
    assert forall|a: u64|
        a % 8 == 0 && !m1.free(a) && !update && present(m1.word(a)) implies #[trigger] m3.word(a)
        == m1.word(a) by {
        assert(!m2.free(a));
        assert(m2.word(a) == m1.word(a));
    }
}

/// Memory keeps itself in use.
pub proof fn lemma_keeps_refl<M: PhysMem>(m: M, update: bool)
    ensures
        keeps_in_use(m, m, update),
{
}

/// Keeping memory in use composes over a sequence of steps.
pub proof fn lemma_keeps_chain<M: PhysMem>(m1: M, m2: M, m3: M, update: bool)
    requires
        keeps_in_use(m1, m2, update),
        keeps_in_use(m2, m3, update),
    ensures
        keeps_in_use(m1, m3, update),
{
    lemma_keeps_trans(m1, m2, m3, update);
}

/// A mapping that gives up after validation changed nothing it promised not to change.
proof fn lemma_refused<M: PhysMem>(
    old_m: M,
    cur: M,
    root: u64,
    va: u64,
    t: PageType,
    value: u64,
    update: bool,
)
    requires
        spec_canonical(va),
        va % spec_page_size(t) == 0,
        (!update && leaf_present(old_m, root, va, t)) ==> cur == old_m,
        keeps_in_use(old_m, cur, update),
    ensures
        map_outcome(old_m, cur, root, va, t, value, update, None),
{
    assert(!(None::<()> is Some));
}

/// A walk that reaches `depth` also reaches every level above it.
proof fn lemma_table_at_prefix<M: PhysMem>(m: M, root: u64, va: u64, depth: nat, above: nat)
    requires
        above <= depth,
        table_at(m, root, va, depth) is Some,
    ensures
        table_at(m, root, va, above) is Some,
    decreases depth,
{
    if above < depth {
        lemma_table_at_prefix(m, root, va, (depth - 1) as nat, above);
    }
}

/// Every table that the walk reaches is page aligned, so the entries it reads are word
/// aligned.
pub(crate) proof fn lemma_path_aligned<M: PhysMem>(m: M, root: u64, va: u64, depth: nat)
    requires
        root % 4096 == 0,
        root <= FRAME_MASK,
        table_at(m, root, va, depth) is Some,
    ensures
        table_at(m, root, va, depth)->0 % 4096 == 0,
        table_at(m, root, va, depth)->0 <= FRAME_MASK,
        path_slot(m, root, va, depth) % 8 == 0,
        path_slot(m, root, va, depth) == table_at(m, root, va, depth)->0 + va_index(va, depth as int) * 8,
    decreases depth,
{
    if depth > 0 {
        lemma_table_at_prefix(m, root, va, depth, (depth - 1) as nat);
        lemma_path_aligned(m, root, va, (depth - 1) as nat);
        let t = table_at(m, root, va, (depth - 1) as nat)->0;
        lemma_frame_aligned(m.word(slot_addr(t, va, depth - 1)));
    }
    lemma_index_bound(va, depth as int);
}

/// Allocating a zeroed table and pointing the entry at `depth` to it extends a sound walk
/// by one level into the new table.
proof fn lemma_alloc_step<M: PhysMem>(
    cur: M,
    cur1: M,
    cur2: M,
    root: u64,
    va: u64,
    depth: nat,
    table: u64,
    r: Option<PhysAddr>,
    nt: u64,
    next_depth: nat,
)
    requires
        r == Some(PhysAddr(nt)),
        next_depth == depth + 1,
        depth < 3,
        root % 4096 == 0,
        root <= FRAME_MASK,
        table_at(cur, root, va, depth) == Some(table),
        path_sound(cur, root, va, depth + 1),
        nt % 4096 == 0,
        nt + 4096 <= PHYS_LIMIT,
        forall|a: u64|
            a % 8 == 0 ==> #[trigger] cur1.free(a) == (if in_region(r, 4096, a) {
                false
            } else {
                cur.free(a)
            }),
        forall|a: u64|
            a % 8 == 0 ==> #[trigger] cur1.readable(a) == (if in_region(r, 4096, a) {
                true
            } else {
                cur.readable(a)
            }),
        forall|a: u64|
            a % 8 == 0 ==> #[trigger] cur1.word(a) == (if in_region(r, 4096, a) {
                0
            } else {
                cur.word(a)
            }),
        forall|a: u64| a % 8 == 0 && in_region(r, 4096, a) ==> #[trigger] cur.free(a),
        cur1.readable(slot_addr(table, va, depth as int)),
        forall|a: u64| a % 8 == 0 ==> #[trigger] cur2.readable(a) == cur1.readable(a),
        forall|a: u64| a % 8 == 0 ==> #[trigger] cur2.free(a) == cur1.free(a),
        forall|a: u64|
            a % 8 == 0 ==> #[trigger] cur2.word(a) == (if a == slot_addr(table, va, depth as int) {
                nt | 7
            } else {
                cur1.word(a)
            }),
    ensures
        table_at(cur2, root, va, next_depth) == Some(nt),
        path_sound(cur2, root, va, next_depth + 1),
        cur2.word(slot_addr(nt, va, next_depth as int)) == 0,
{
    let slot = slot_addr(table, va, depth as int);
    let next = slot_addr(nt, va, next_depth as int);
    lemma_new_entry(nt);
    lemma_index_bound(va, next_depth as int);
    lemma_path_aligned(cur, root, va, depth);
    assert(next % 8 == 0 && in_region(r, 4096, next));
    assert forall|i: nat| i < depth && (#[trigger] table_at(cur, root, va, i)) is Some implies {
        &&& cur1.readable(path_slot(cur, root, va, i)) == cur.readable(path_slot(cur, root, va, i))
        &&& cur1.word(path_slot(cur, root, va, i)) == cur.word(path_slot(cur, root, va, i))
    } by {
        lemma_path_aligned(cur, root, va, i);
        assert(!cur.free(path_slot(cur, root, va, i)));
    }
    lemma_table_at_stable(cur, cur1, root, va, depth);
    assert forall|i: nat| i < depth && (#[trigger] table_at(cur1, root, va, i)) is Some implies {
        &&& cur2.readable(path_slot(cur1, root, va, i)) == cur1.readable(path_slot(cur1, root, va, i))
        &&& cur2.word(path_slot(cur1, root, va, i)) == cur1.word(path_slot(cur1, root, va, i))
    } by {
        assert(table_at(cur1, root, va, i) == table_at(cur, root, va, i));
        assert(path_slot(cur, root, va, i) != path_slot(cur, root, va, depth));
        lemma_path_aligned(cur, root, va, i);
    }
    lemma_table_at_stable(cur1, cur2, root, va, depth);
    assert(table_at(cur2, root, va, depth) == Some(table));
    assert(!cur.free(slot));
    assert(slot % 8 == 0);
    assert(cur2.readable(slot) && cur2.word(slot) == nt | 7);
    assert(((depth + 1) as nat - 1) as nat == depth);
    assert(table_at(cur2, root, va, next_depth) == Some(nt));
    assert forall|i: nat|
        i < next_depth + 1 && (#[trigger] table_at(cur2, root, va, i)) is Some implies !cur2.free(
        path_slot(cur2, root, va, i),
    ) by {
        if i <= depth {
            assert(table_at(cur2, root, va, i) == table_at(cur, root, va, i));
            lemma_path_aligned(cur, root, va, i);
            assert(!cur.free(path_slot(cur, root, va, i)));
        } else {
            assert(path_slot(cur2, root, va, i) == next);
        }
    }
    assert forall|i: nat, j: nat|
        j < i < next_depth + 1 && table_at(cur2, root, va, i) is Some implies #[trigger] path_slot(
        cur2,
        root,
        va,
        j,
    ) != #[trigger] path_slot(cur2, root, va, i) by {
        assert(table_at(cur2, root, va, j) == table_at(cur, root, va, j));
        if i <= depth {
            assert(table_at(cur2, root, va, i) == table_at(cur, root, va, i));
        } else {
            lemma_table_at_prefix(cur, root, va, depth, j);
            lemma_path_aligned(cur, root, va, j);
            assert(!cur.free(path_slot(cur, root, va, j)));
            assert(cur.free(next));
        }
    }
    assert(next != slot);
}

/// Writing the last level entry of a sound walk leaves the walk in place, so the entry that
/// maps `va` then holds what was written.
proof fn lemma_leaf_step<M: PhysMem>(
    cur: M,
    cur2: M,
    fin: M,
    root: u64,
    va: u64,
    t: PageType,
    depth: nat,
    table: u64,
    value: u64,
)
    requires
        depth == levels(t) - 1,
        root % 4096 == 0,
        root <= FRAME_MASK,
        table_at(cur, root, va, depth) == Some(table),
        path_sound(cur, root, va, depth + 1),
        cur.readable(slot_addr(table, va, depth as int)),
        forall|a: u64| a % 8 == 0 ==> #[trigger] cur2.readable(a) == cur.readable(a),
        forall|a: u64|
            a % 8 == 0 ==> #[trigger] cur2.word(a) == (if a == slot_addr(table, va, depth as int) {
                value
            } else {
                cur.word(a)
            }),
        forall|a: u64| a % 8 == 0 ==> #[trigger] fin.readable(a) == cur2.readable(a),
        forall|a: u64| a % 8 == 0 ==> #[trigger] fin.word(a) == cur2.word(a),
    ensures
        leaf_holds(fin, root, va, t, value),
{
    let slot = slot_addr(table, va, depth as int);
    lemma_path_aligned(cur, root, va, depth);
    assert forall|i: nat| i < depth && (#[trigger] table_at(cur, root, va, i)) is Some implies {
        &&& fin.readable(path_slot(cur, root, va, i)) == cur.readable(path_slot(cur, root, va, i))
        &&& fin.word(path_slot(cur, root, va, i)) == cur.word(path_slot(cur, root, va, i))
    } by {
        assert(path_slot(cur, root, va, i) != path_slot(cur, root, va, depth));
        lemma_path_aligned(cur, root, va, i);
    }
    lemma_table_at_stable(cur, fin, root, va, depth);
    assert(table_at(fin, root, va, depth) == Some(table));
    assert(fin.readable(slot) && fin.word(slot) == value);
}

/// Soundness of a walk's first `n` levels covers its first `k <= n` levels.
proof fn lemma_path_sound_weaken<M: PhysMem>(m: M, root: u64, va: u64, n: nat, k: nat)
    requires
        k <= n,
        path_sound(m, root, va, n),
    ensures
        path_sound(m, root, va, k),
{
}

/// The walk only depends on the entries it reads.
proof fn lemma_table_at_stable<M: PhysMem>(m1: M, m2: M, root: u64, va: u64, depth: nat)
    requires
        forall|i: nat|
            i < depth && (#[trigger] table_at(m1, root, va, i)) is Some ==> {
                &&& m2.readable(path_slot(m1, root, va, i)) == m1.readable(path_slot(m1, root, va, i))
                &&& m2.word(path_slot(m1, root, va, i)) == m1.word(path_slot(m1, root, va, i))
            },
    ensures
        forall|i: nat| i <= depth ==> #[trigger] table_at(m2, root, va, i) == table_at(m1, root, va, i),
    decreases depth,
{
    if depth > 0 {
        lemma_table_at_stable(m1, m2, root, va, (depth - 1) as nat);
        assert forall|i: nat| i <= depth implies #[trigger] table_at(m2, root, va, i) == table_at(
            m1,
            root,
            va,
            i,
        ) by {
            if i == depth {
                assert(table_at(m2, root, va, (depth - 1) as nat) == table_at(m1, root, va, (depth - 1) as nat));
            }
        }
    }
}

/// Walking from the root passes through every table that the walk reaches.
proof fn lemma_walk_prefix<M: PhysMem>(m: M, root: u64, va: u64, depth: nat)
    requires
        depth < 4,
        table_at(m, root, va, depth) is Some,
    ensures
        walk_from(m, root, va, 0) == walk_from(m, table_at(m, root, va, depth)->0, va, depth),
    decreases depth,
{
    if depth > 0 {
        lemma_table_at_prefix(m, root, va, depth, (depth - 1) as nat);
        lemma_walk_prefix(m, root, va, (depth - 1) as nat);
    }
}

/// Every entry on the walk to an existing last level entry is reachable, and those above
/// the last level are present tables.
proof fn lemma_leaf_path<M: PhysMem>(m: M, root: u64, va: u64, t: PageType, depth: nat)
    requires
        leaf_slot(m, root, va, t) is Some,
        depth < levels(t),
    ensures
        table_at(m, root, va, depth) is Some,
        m.readable(path_slot(m, root, va, depth)),
        depth + 1 < levels(t) ==> table_at(m, root, va, depth + 1) is Some,
{
    let last = (levels(t) - 1) as nat;
    lemma_table_at_prefix(m, root, va, last, depth);
    if depth + 1 < levels(t) {
        lemma_table_at_prefix(m, root, va, last, depth + 1);
    }
}

/// A last level entry that holds a present entry for `raw` makes translation of `va` land in
/// the frame of `raw`, at the offset of `va` within the page.
pub proof fn lemma_map_then_translate<M: PhysMem>(
    m: M,
    root: u64,
    va: u64,
    t: PageType,
    raw: u64,
    deallocate: bool,
)
    requires
        spec_canonical(va),
        present(raw),
        leaf_holds(m, root, va, t, leaf_value(raw, t, deallocate)),
    ensures
        spec_translate(m, root, va) == Some((frame(raw) + (va & page_offset_mask(t))) as u64),
{
    let last = (levels(t) - 1) as nat;
    let tb = table_at(m, root, va, last)->0;
    lemma_walk_prefix(m, root, va, last);
    lemma_leaf_bits(raw);
}

/// The flags that a last level entry gets keep its frame and presence, and mark it large.
proof fn lemma_leaf_bits(raw: u64)
    ensures
        frame(raw | 0x200u64) == frame(raw),
        frame(raw | 0x80u64) == frame(raw),
        frame((raw | 0x200u64) | 0x80u64) == frame(raw),
        large((raw | 0x200u64) | 0x80u64),
        large(raw | 0x80u64),
        present(raw) ==> present(raw | 0x200u64) && present(raw | 0x80u64) && present(
            (raw | 0x200u64) | 0x80u64,
        ),
{
    assert(frame(raw | 0x200u64) == frame(raw) && frame(raw | 0x80u64) == frame(raw) && frame(
        (raw | 0x200u64) | 0x80u64,
    ) == frame(raw) && ((raw | 0x200u64) | 0x80u64) & 0x80 != 0 && (raw | 0x80u64) & 0x80 != 0
        && (raw & 1 != 0 ==> (raw | 0x200u64) & 1 != 0 && (raw | 0x80u64) & 1 != 0 && ((raw
        | 0x200u64) | 0x80u64) & 1 != 0)) by (bit_vector);
}

/// Every entry that the walk of `va` from `table` at `depth` reads is in use.
pub open spec fn walk_in_use<M: PhysMem>(m: M, table: u64, va: u64, depth: nat) -> bool
    decreases 4 - depth,
{
    if depth >= 4 {
        true
    } else {
        let s = slot_addr(table, va, depth as int);
        let e = m.word(s);
        &&& !m.free(s)
        &&& (m.readable(s) && present(e) && depth < 3 && !large(e)) ==> walk_in_use(
            m,
            frame(e),
            va,
            depth + 1,
        )
    }
}

proof fn lemma_walk_kept<M: PhysMem>(m1: M, m2: M, table: u64, va: u64, depth: nat)
    requires
        keeps_in_use(m1, m2, false),
        table % 4096 == 0,
        table <= FRAME_MASK,
        walk_in_use(m1, table, va, depth),
        walk_from(m1, table, va, depth) is Some,
    ensures
        walk_from(m2, table, va, depth) == walk_from(m1, table, va, depth),
    decreases 4 - depth,
{
    if depth < 4 {
        let s = slot_addr(table, va, depth as int);
        lemma_index_bound(va, depth as int);
        assert(s % 8 == 0);
        let e = m1.word(s);
        assert(m2.readable(s) == m1.readable(s));
        assert(m2.word(s) == e);
        lemma_frame_aligned(e);
        if depth < 3 && !large(e) {
            lemma_walk_kept(m1, m2, frame(e), va, depth + 1);
        }
    }
}

/// A translation whose walk reads only entries in use survives any change that keeps the
/// memory in use as it was: mapping other pages never moves a page that is mapped.
pub proof fn lemma_translation_kept<M: PhysMem>(m1: M, m2: M, root: u64, va: u64)
    requires
        keeps_in_use(m1, m2, false),
        root % 4096 == 0,
        root <= FRAME_MASK,
        walk_in_use(m1, root, va, 0),
        spec_translate(m1, root, va) is Some,
    ensures
        spec_translate(m2, root, va) == spec_translate(m1, root, va),
{
    lemma_walk_kept(m1, m2, root, va, 0);
}

/// `va1` and `va2` select the same entries in the tables of depth 0 to `depth`.
pub open spec fn same_prefix(va1: u64, va2: u64, depth: nat) -> bool {
    forall|k: int| 0 <= k <= depth ==> #[trigger] va_index(va1, k) == va_index(va2, k)
}

/// The tables reached from `root` form a tree: walks read only entries in use, and two
/// walks read the same entry only at the same depth and after selecting the same entries
/// on the way there.
pub open spec fn tables_sound<M: PhysMem>(m: M, root: u64) -> bool {
    &&& forall|va: u64, i: nat|
        i < 4 && (#[trigger] table_at(m, root, va, i)) is Some ==> !m.free(path_slot(m, root, va, i))
    &&& forall|va1: u64, va2: u64, i: nat, j: nat|
        #![trigger path_slot(m, root, va1, i), path_slot(m, root, va2, j)]
        i < 4 && j < 4 && table_at(m, root, va1, i) is Some && table_at(m, root, va2, j) is Some
            && path_slot(m, root, va1, i) == path_slot(m, root, va2, j) ==> i == j && same_prefix(
            va1,
            va2,
            i,
        )
}

/// No walk from `root` reads an entry at an address in `x`.
pub open spec fn walks_avoid<M: PhysMem>(m: M, root: u64, x: spec_fn(u64) -> bool) -> bool {
    forall|va: u64, i: nat|
        i < 4 && (#[trigger] table_at(m, root, va, i)) is Some ==> !x(path_slot(m, root, va, i))
}

/// `va` translates in `after` to a page of `size` bytes that was free in `before` and is in
/// use in `after`.
pub open spec fn maps_fresh_page<M: PhysMem>(before: M, after: M, root: u64, va: u64, size: u64) -> bool {
    &&& spec_translate(after, root, va) is Some
    &&& spec_translate(after, root, va)->0 % size == 0
    &&& forall|a: u64|
        a % 8 == 0 && spec_translate(after, root, va)->0 <= a < spec_translate(after, root, va)->0
            + size ==> #[trigger] before.free(a) && !after.free(a)
}

/// Every page of `size` bytes in the region of `len` bytes at `va` maps to a page of its own
/// that was free in `before` and is in use in `after`.
pub open spec fn maps_fresh_region<M: PhysMem>(
    before: M,
    after: M,
    root: u64,
    va: u64,
    len: u64,
    size: u64,
) -> bool {
    &&& forall|pva: u64|
        va <= pva < va + len && pva % size == 0 ==> #[trigger] maps_fresh_page(
            before,
            after,
            root,
            pva,
            size,
        )
    &&& forall|p1: u64, p2: u64|
        #![trigger maps_fresh_page(before, after, root, p1, size), maps_fresh_page(before, after, root, p2, size)]
        va <= p1 < va + len && va <= p2 < va + len && p1 % size == 0 && p2 % size == 0 && p1
            != p2 ==> spec_translate(after, root, p1) != spec_translate(after, root, p2)
}

/// Sound tables make every walk sound.
pub(crate) proof fn lemma_sound_path<M: PhysMem>(m: M, root: u64, va: u64, n: nat)
    requires
        tables_sound(m, root),
        n <= 4,
    ensures
        path_sound(m, root, va, n),
{
    assert forall|i: nat, j: nat|
        #![trigger path_slot(m, root, va, j), path_slot(m, root, va, i)]
        j < i < n && table_at(m, root, va, i) is Some implies path_slot(m, root, va, j)
        != path_slot(m, root, va, i) by {
        lemma_table_at_prefix(m, root, va, i, j);
    }
}

/// Entries that are free are read by no walk of sound tables.
proof fn lemma_free_avoided<M: PhysMem>(m: M, root: u64, x: spec_fn(u64) -> bool)
    requires
        root % 4096 == 0,
        root <= FRAME_MASK,
        tables_sound(m, root),
        forall|a: u64| a % 8 == 0 && #[trigger] x(a) ==> m.free(a),
    ensures
        walks_avoid(m, root, x),
{
    assert forall|va: u64, i: nat|
        i < 4 && (#[trigger] table_at(m, root, va, i)) is Some implies !x(
        path_slot(m, root, va, i),
    ) by {
        lemma_path_aligned(m, root, va, i);
    }
}

/// A walk that reads the same entries in two memories ends in the same place.
proof fn lemma_walk_same<M: PhysMem>(m1: M, m2: M, root: u64, va: u64, d: nat)
    requires
        d <= 4,
        table_at(m1, root, va, d) is Some,
        forall|i: nat|
            i < 4 && (#[trigger] table_at(m1, root, va, i)) is Some ==> {
                &&& m2.readable(path_slot(m1, root, va, i)) == m1.readable(path_slot(m1, root, va, i))
                &&& m2.word(path_slot(m1, root, va, i)) == m1.word(path_slot(m1, root, va, i))
            },
    ensures
        walk_from(m2, table_at(m1, root, va, d)->0, va, d) == walk_from(
            m1,
            table_at(m1, root, va, d)->0,
            va,
            d,
        ),
    decreases 4 - d,
{
    if d < 4 {
        let t = table_at(m1, root, va, d)->0;
        let s = slot_addr(t, va, d as int);
        let e = m1.word(s);
        assert(s == path_slot(m1, root, va, d));
        if m1.readable(s) && present(e) && d < 3 && !large(e) {
            assert(((d + 1) as nat - 1) as nat == d);
            assert(table_at(m1, root, va, d + 1) == Some(frame(e)));
            lemma_walk_same(m1, m2, root, va, d + 1);
        }
    }
}

/// Sound tables keep every entry that a walk reads in use.
proof fn lemma_walk_in_use<M: PhysMem>(m: M, root: u64, va: u64, d: nat)
    requires
        tables_sound(m, root),
        d <= 4,
        table_at(m, root, va, d) is Some,
    ensures
        walk_in_use(m, table_at(m, root, va, d)->0, va, d),
    decreases 4 - d,
{
    if d < 4 {
        let t = table_at(m, root, va, d)->0;
        let s = slot_addr(t, va, d as int);
        let e = m.word(s);
        assert(s == path_slot(m, root, va, d));
        if m.readable(s) && present(e) && d < 3 && !large(e) {
            assert(((d + 1) as nat - 1) as nat == d);
            assert(table_at(m, root, va, d + 1) == Some(frame(e)));
            lemma_walk_in_use(m, root, va, d + 1);
        }
    }
}

/// The walk of `va` and its translation are the same in `m1` and `m2`.
spec fn walks_same<M: PhysMem>(m1: M, m2: M, root: u64, va: u64) -> bool {
    &&& forall|i: nat| i <= 4 ==> #[trigger] table_at(m2, root, va, i) == table_at(m1, root, va, i)
    &&& spec_translate(m2, root, va) == spec_translate(m1, root, va)
}

/// Changes confined to entries that no walk reads leave every walk and translation as it
/// was.
proof fn lemma_walks_unchanged<M: PhysMem>(m1: M, m2: M, root: u64, x: spec_fn(u64) -> bool)
    requires
        root % 4096 == 0,
        root <= FRAME_MASK,
        walks_avoid(m1, root, x),
        forall|a: u64| a % 8 == 0 && !x(a) ==> #[trigger] m2.word(a) == m1.word(a),
        forall|a: u64| a % 8 == 0 && !x(a) ==> #[trigger] m2.readable(a) == m1.readable(a),
        forall|a: u64| a % 8 == 0 && !x(a) ==> #[trigger] m2.free(a) == m1.free(a),
    ensures
        forall|va: u64, i: nat| i <= 4 ==> #[trigger] table_at(m2, root, va, i) == table_at(m1, root, va, i),
        forall|va: u64| #[trigger] spec_translate(m2, root, va) == spec_translate(m1, root, va),
        walks_avoid(m2, root, x),
        tables_sound(m1, root) ==> tables_sound(m2, root),
{
    assert forall|va: u64| #[trigger] walks_same(m1, m2, root, va) by {
        assert forall|i: nat| i < 4 && (#[trigger] table_at(m1, root, va, i)) is Some implies {
            &&& m2.readable(path_slot(m1, root, va, i)) == m1.readable(path_slot(m1, root, va, i))
            &&& m2.word(path_slot(m1, root, va, i)) == m1.word(path_slot(m1, root, va, i))
        } by {
            lemma_path_aligned(m1, root, va, i);
        }
        lemma_table_at_stable(m1, m2, root, va, 4);
        lemma_walk_same(m1, m2, root, va, 0);
    }
    assert forall|va: u64, i: nat| i <= 4 implies #[trigger] table_at(m2, root, va, i) == table_at(
        m1,
        root,
        va,
        i,
    ) by {
        assert(walks_same(m1, m2, root, va));
    }
    assert forall|va: u64| #[trigger] spec_translate(m2, root, va) == spec_translate(m1, root, va) by {
        assert(walks_same(m1, m2, root, va));
    }
    assert forall|va: u64, i: nat|
        i < 4 && (#[trigger] table_at(m2, root, va, i)) is Some implies !x(
        path_slot(m2, root, va, i),
    ) by {
        assert(table_at(m2, root, va, i) == table_at(m1, root, va, i));
    }
    if tables_sound(m1, root) {
        assert forall|va: u64, i: nat|
            i < 4 && (#[trigger] table_at(m2, root, va, i)) is Some implies !m2.free(
            path_slot(m2, root, va, i),
        ) by {
            assert(table_at(m2, root, va, i) == table_at(m1, root, va, i));
            lemma_path_aligned(m1, root, va, i);
        }
        assert forall|va1: u64, va2: u64, i: nat, j: nat|
            i < 4 && j < 4 && table_at(m2, root, va1, i) is Some && table_at(m2, root, va2, j) is Some
                && #[trigger] path_slot(m2, root, va1, i) == #[trigger] path_slot(
                m2,
                root,
                va2,
                j,
            ) implies i == j by {
            assert(table_at(m2, root, va1, i) == table_at(m1, root, va1, i));
            assert(table_at(m2, root, va2, j) == table_at(m1, root, va2, j));
            assert(path_slot(m1, root, va1, i) == path_slot(m1, root, va2, j));
        }
    }
}

/// The entries of the table `nt`.
spec fn in_table(nt: u64) -> spec_fn(u64) -> bool {
    |a: u64| nt <= a < nt + 4096
}

/// Pointing the entry that the walk of `va0` reads at depth `d` to the zeroed table `nt`,
/// which no walk reads: the walk of `va` at depth `i` is where it was, or one level below
/// that entry in `nt`.
proof fn lemma_link_walk<M: PhysMem>(
    m1: M,
    m2: M,
    root: u64,
    va0: u64,
    d: nat,
    nt: u64,
    va: u64,
    i: nat,
)
    requires
        root % 4096 == 0,
        root <= FRAME_MASK,
        tables_sound(m1, root),
        d < 3,
        table_at(m1, root, va0, d) is Some,
        nt % 4096 == 0,
        nt + 4096 <= PHYS_LIMIT,
        walks_avoid(m1, root, in_table(nt)),
        forall|a: u64| a % 8 == 0 && nt <= a < nt + 4096 ==> #[trigger] m1.word(a) == 0,
        forall|a: u64| a % 8 == 0 ==> #[trigger] m2.readable(a) == m1.readable(a),
        forall|a: u64|
            a % 8 == 0 ==> #[trigger] m2.word(a) == (if a == path_slot(m1, root, va0, d) {
                nt | 7
            } else {
                m1.word(a)
            }),
        m1.readable(path_slot(m1, root, va0, d)),
        i < 4,
        table_at(m2, root, va, i) is Some,
    ensures
        table_at(m2, root, va, i) == table_at(m1, root, va, i) || (i == d + 1 && table_at(
            m2,
            root,
            va,
            i,
        ) == Some(nt) && table_at(m1, root, va, d) is Some && path_slot(m1, root, va, d)
            == path_slot(m1, root, va0, d)),
{
    let w = path_slot(m1, root, va0, d);
    lemma_path_aligned(m1, root, va0, d);
    if !(table_at(m1, root, va, d) is Some && path_slot(m1, root, va, d) == w) {
        assert forall|j: nat| j < 4 && (#[trigger] table_at(m1, root, va, j)) is Some implies {
            &&& m2.readable(path_slot(m1, root, va, j)) == m1.readable(path_slot(m1, root, va, j))
            &&& m2.word(path_slot(m1, root, va, j)) == m1.word(path_slot(m1, root, va, j))
        } by {
            lemma_path_aligned(m1, root, va, j);
            if path_slot(m1, root, va, j) == w {
                assert(j == d);
            }
        }
        lemma_table_at_stable(m1, m2, root, va, 4);
    } else {
        assert forall|j: nat| j < d && (#[trigger] table_at(m1, root, va, j)) is Some implies {
            &&& m2.readable(path_slot(m1, root, va, j)) == m1.readable(path_slot(m1, root, va, j))
            &&& m2.word(path_slot(m1, root, va, j)) == m1.word(path_slot(m1, root, va, j))
        } by {
            lemma_path_aligned(m1, root, va, j);
            if path_slot(m1, root, va, j) == w {
                assert(j == d);
            }
        }
        lemma_table_at_stable(m1, m2, root, va, d);
        lemma_new_entry(nt);
        assert(table_at(m2, root, va, d) == table_at(m1, root, va, d));
        assert(m2.readable(w) && m2.word(w) == nt | 7);
        assert(((d + 1) as nat - 1) as nat == d);
        assert(table_at(m2, root, va, d + 1) == Some(nt));
        if i > d + 1 {
            let s2 = slot_addr(nt, va, (d + 1) as int);
            lemma_index_bound(va, (d + 1) as int);
            assert(s2 % 8 == 0 && nt <= s2 < nt + 4096);
            assert(!in_table(nt)(w));
            assert(m2.word(s2) == 0);
            lemma_zero_entry();
            assert(((d + 2) as nat - 1) as nat == d + 1);
            assert(table_at(m2, root, va, d + 2) is None);
            lemma_table_at_prefix(m2, root, va, i, d + 2);
        }
    }
}

/// Linking a zeroed table in use that no walk reads below an entry keeps the tables sound.
#[verifier::spinoff_prover]
proof fn lemma_link_sound<M: PhysMem>(m1: M, m2: M, root: u64, va0: u64, d: nat, nt: u64)
    requires
        root % 4096 == 0,
        root <= FRAME_MASK,
        tables_sound(m1, root),
        d < 3,
        table_at(m1, root, va0, d) is Some,
        nt % 4096 == 0,
        nt + 4096 <= PHYS_LIMIT,
        walks_avoid(m1, root, in_table(nt)),
        forall|a: u64| a % 8 == 0 && nt <= a < nt + 4096 ==> #[trigger] m1.word(a) == 0,
        forall|a: u64| a % 8 == 0 && nt <= a < nt + 4096 ==> !#[trigger] m1.free(a),
        forall|a: u64| a % 8 == 0 ==> #[trigger] m2.readable(a) == m1.readable(a),
        forall|a: u64| a % 8 == 0 ==> #[trigger] m2.free(a) == m1.free(a),
        forall|a: u64|
            a % 8 == 0 ==> #[trigger] m2.word(a) == (if a == path_slot(m1, root, va0, d) {
                nt | 7
            } else {
                m1.word(a)
            }),
        m1.readable(path_slot(m1, root, va0, d)),
    ensures
        tables_sound(m2, root),
{
    assert forall|va: u64, i: nat|
        i < 4 && (#[trigger] table_at(m2, root, va, i)) is Some implies !m2.free(
        path_slot(m2, root, va, i),
    ) by {
        lemma_link_walk(m1, m2, root, va0, d, nt, va, i);
        if table_at(m2, root, va, i) == table_at(m1, root, va, i) {
            lemma_path_aligned(m1, root, va, i);
        } else {
            lemma_index_bound(va, i as int);
            assert(path_slot(m2, root, va, i) == slot_addr(nt, va, i as int));
        }
    }
    assert forall|va1: u64, va2: u64, i: nat, j: nat|
        i < 4 && j < 4 && table_at(m2, root, va1, i) is Some && table_at(m2, root, va2, j) is Some
            && #[trigger] path_slot(m2, root, va1, i) == #[trigger] path_slot(
            m2,
            root,
            va2,
            j,
        ) implies i == j && same_prefix(va1, va2, i) by {
        lemma_link_walk(m1, m2, root, va0, d, nt, va1, i);
        lemma_link_walk(m1, m2, root, va0, d, nt, va2, j);
        let old1 = table_at(m2, root, va1, i) == table_at(m1, root, va1, i);
        let old2 = table_at(m2, root, va2, j) == table_at(m1, root, va2, j);
        lemma_index_bound(va1, i as int);
        lemma_index_bound(va2, j as int);
        if old1 && old2 {
            assert(path_slot(m1, root, va1, i) == path_slot(m1, root, va2, j));
        } else if old1 {
            assert(!in_table(nt)(path_slot(m1, root, va1, i)));
            assert(path_slot(m2, root, va2, j) == slot_addr(nt, va2, j as int));
        } else if old2 {
            assert(!in_table(nt)(path_slot(m1, root, va2, j)));
            assert(path_slot(m2, root, va1, i) == slot_addr(nt, va1, i as int));
        } else {
            assert(same_prefix(va1, va2, d));
            assert(slot_addr(nt, va1, i as int) == slot_addr(nt, va2, j as int));
            assert(va_index(va1, (d + 1) as int) == va_index(va2, (d + 1) as int));
            assert forall|k: int| 0 <= k <= i implies #[trigger] va_index(va1, k) == va_index(va2, k) by {
                if k <= d {
                    assert(va_index(va1, k) == va_index(va2, k));
                }
            }
        }
    }
}

/// Writing `v` to the entry that the walk of `va0` reads at depth `d`, where `v` ends the
/// walk there: the walk of `va` at depth `i` is where it was.
proof fn lemma_leaf_walk<M: PhysMem>(
    m1: M,
    m2: M,
    root: u64,
    va0: u64,
    d: nat,
    v: u64,
    va: u64,
    i: nat,
)
    requires
        root % 4096 == 0,
        root <= FRAME_MASK,
        tables_sound(m1, root),
        d < 4,
        table_at(m1, root, va0, d) is Some,
        d == 3 || large(v) || !present(v),
        forall|a: u64| a % 8 == 0 ==> #[trigger] m2.readable(a) == m1.readable(a),
        forall|a: u64|
            a % 8 == 0 ==> #[trigger] m2.word(a) == (if a == path_slot(m1, root, va0, d) {
                v
            } else {
                m1.word(a)
            }),
        i < 4,
        table_at(m2, root, va, i) is Some,
    ensures
        table_at(m2, root, va, i) == table_at(m1, root, va, i),
{
    let w = path_slot(m1, root, va0, d);
    lemma_path_aligned(m1, root, va0, d);
    if !(table_at(m1, root, va, d) is Some && path_slot(m1, root, va, d) == w) {
        assert forall|j: nat| j < 4 && (#[trigger] table_at(m1, root, va, j)) is Some implies {
            &&& m2.readable(path_slot(m1, root, va, j)) == m1.readable(path_slot(m1, root, va, j))
            &&& m2.word(path_slot(m1, root, va, j)) == m1.word(path_slot(m1, root, va, j))
        } by {
            lemma_path_aligned(m1, root, va, j);
            if path_slot(m1, root, va, j) == w {
                assert(j == d);
            }
        }
        lemma_table_at_stable(m1, m2, root, va, 4);
    } else {
        assert forall|j: nat| j < d && (#[trigger] table_at(m1, root, va, j)) is Some implies {
            &&& m2.readable(path_slot(m1, root, va, j)) == m1.readable(path_slot(m1, root, va, j))
            &&& m2.word(path_slot(m1, root, va, j)) == m1.word(path_slot(m1, root, va, j))
        } by {
            lemma_path_aligned(m1, root, va, j);
            if path_slot(m1, root, va, j) == w {
                assert(j == d);
            }
        }
        lemma_table_at_stable(m1, m2, root, va, d);
        if i > d {
            assert(table_at(m2, root, va, d) == table_at(m1, root, va, d));
            assert(m2.word(w) == v);
            assert(((d + 1) as nat - 1) as nat == d);
            assert(table_at(m2, root, va, d + 1) is None);
            lemma_table_at_prefix(m2, root, va, i, d + 1);
        }
    }
}

/// Writing an entry that ends the walks through it keeps the tables sound.
proof fn lemma_leaf_sound<M: PhysMem>(m1: M, m2: M, root: u64, va0: u64, d: nat, v: u64)
    requires
        root % 4096 == 0,
        root <= FRAME_MASK,
        tables_sound(m1, root),
        d < 4,
        table_at(m1, root, va0, d) is Some,
        d == 3 || large(v) || !present(v),
        forall|a: u64| a % 8 == 0 ==> #[trigger] m2.readable(a) == m1.readable(a),
        forall|a: u64| a % 8 == 0 ==> #[trigger] m2.free(a) == m1.free(a),
        forall|a: u64|
            a % 8 == 0 ==> #[trigger] m2.word(a) == (if a == path_slot(m1, root, va0, d) {
                v
            } else {
                m1.word(a)
            }),
    ensures
        tables_sound(m2, root),
{
    assert forall|va: u64, i: nat|
        i < 4 && (#[trigger] table_at(m2, root, va, i)) is Some implies !m2.free(
        path_slot(m2, root, va, i),
    ) by {
        lemma_leaf_walk(m1, m2, root, va0, d, v, va, i);
        lemma_path_aligned(m1, root, va, i);
    }
    assert forall|va1: u64, va2: u64, i: nat, j: nat|
        i < 4 && j < 4 && table_at(m2, root, va1, i) is Some && table_at(m2, root, va2, j) is Some
            && #[trigger] path_slot(m2, root, va1, i) == #[trigger] path_slot(
            m2,
            root,
            va2,
            j,
        ) implies i == j && same_prefix(va1, va2, i) by {
        lemma_leaf_walk(m1, m2, root, va0, d, v, va1, i);
        lemma_leaf_walk(m1, m2, root, va0, d, v, va2, j);
        assert(path_slot(m1, root, va1, i) == path_slot(m1, root, va2, j));
    }
}

/// The 4K chunk at `c` is in use and no walk from `root` reads an entry in it: nothing
/// that changes the tables writes into it.
spec fn chunk_apart<M: PhysMem>(m: M, root: u64, c: u64) -> bool {
    &&& c % 4096 == 0
    &&& forall|a: u64| a % 8 == 0 && c <= a < c + 4096 ==> !#[trigger] m.free(a)
    &&& walks_avoid(m, root, in_table(c))
}

/// A chunk apart stays apart while the walks and its free words stay as they are.
proof fn lemma_chunk_stays<M: PhysMem>(m1: M, m2: M, root: u64, c: u64)
    requires
        chunk_apart(m1, root, c),
        forall|va: u64, i: nat| i <= 4 ==> #[trigger] table_at(m2, root, va, i) == table_at(m1, root, va, i),
        forall|a: u64| a % 8 == 0 && c <= a < c + 4096 ==> #[trigger] m2.free(a) == m1.free(a),
    ensures
        chunk_apart(m2, root, c),
{
    assert forall|va: u64, i: nat| i < 4 && (#[trigger] table_at(m2, root, va, i)) is Some implies !in_table(c)(
        path_slot(m2, root, va, i),
    ) by {
        assert(table_at(m2, root, va, i) == table_at(m1, root, va, i));
    }
}

/// Linking the zeroed table `nt`, which lies outside the chunk at `c`, below an entry keeps
/// the chunk apart and its words as they were.
proof fn lemma_chunk_link<M: PhysMem>(m1: M, m2: M, root: u64, va0: u64, d: nat, nt: u64, c: u64)
    requires
        root % 4096 == 0,
        root <= FRAME_MASK,
        tables_sound(m1, root),
        d < 3,
        table_at(m1, root, va0, d) is Some,
        nt % 4096 == 0,
        nt + 4096 <= PHYS_LIMIT,
        walks_avoid(m1, root, in_table(nt)),
        forall|a: u64| a % 8 == 0 && nt <= a < nt + 4096 ==> #[trigger] m1.word(a) == 0,
        forall|a: u64| a % 8 == 0 ==> #[trigger] m2.readable(a) == m1.readable(a),
        forall|a: u64| a % 8 == 0 ==> #[trigger] m2.free(a) == m1.free(a),
        forall|a: u64|
            a % 8 == 0 ==> #[trigger] m2.word(a) == (if a == path_slot(m1, root, va0, d) {
                nt | 7
            } else {
                m1.word(a)
            }),
        m1.readable(path_slot(m1, root, va0, d)),
        chunk_apart(m1, root, c),
        c + 4096 <= nt || nt + 4096 <= c,
    ensures
        chunk_apart(m2, root, c),
        forall|a: u64| a % 8 == 0 && c <= a < c + 4096 ==> #[trigger] m2.word(a) == m1.word(a),
{
    lemma_path_aligned(m1, root, va0, d);
    assert(!in_table(c)(path_slot(m1, root, va0, d)));
    assert forall|va: u64, i: nat| i < 4 && (#[trigger] table_at(m2, root, va, i)) is Some implies !in_table(c)(
        path_slot(m2, root, va, i),
    ) by {
        lemma_link_walk(m1, m2, root, va0, d, nt, va, i);
        if table_at(m2, root, va, i) != table_at(m1, root, va, i) {
            lemma_index_bound(va, i as int);
            assert(path_slot(m2, root, va, i) == slot_addr(nt, va, i as int));
        }
    }
}

/// Writing an entry that ends the walks through it keeps every chunk apart as it was.
proof fn lemma_chunk_leaf<M: PhysMem>(m1: M, m2: M, root: u64, va0: u64, d: nat, v: u64, c: u64)
    requires
        root % 4096 == 0,
        root <= FRAME_MASK,
        tables_sound(m1, root),
        d < 4,
        table_at(m1, root, va0, d) is Some,
        d == 3 || large(v) || !present(v),
        forall|a: u64| a % 8 == 0 ==> #[trigger] m2.readable(a) == m1.readable(a),
        forall|a: u64| a % 8 == 0 ==> #[trigger] m2.free(a) == m1.free(a),
        forall|a: u64|
            a % 8 == 0 ==> #[trigger] m2.word(a) == (if a == path_slot(m1, root, va0, d) {
                v
            } else {
                m1.word(a)
            }),
        chunk_apart(m1, root, c),
    ensures
        chunk_apart(m2, root, c),
        forall|a: u64| a % 8 == 0 && c <= a < c + 4096 ==> #[trigger] m2.word(a) == m1.word(a),
{
    lemma_path_aligned(m1, root, va0, d);
    assert(!in_table(c)(path_slot(m1, root, va0, d)));
    assert forall|va: u64, i: nat| i < 4 && (#[trigger] table_at(m2, root, va, i)) is Some implies !in_table(c)(
        path_slot(m2, root, va, i),
    ) by {
        lemma_leaf_walk(m1, m2, root, va0, d, v, va, i);
    }
}

/// Every chunk apart in `m1` is still apart in `m2`, with its words as they were.
#[verifier::opaque]
pub closed spec fn chunks_kept<M: PhysMem>(m1: M, m2: M, root: u64) -> bool {
    forall|c: u64| #[trigger]
        chunk_apart(m1, root, c) ==> chunk_apart(m2, root, c) && forall|a: u64|
            a % 8 == 0 && c <= a < c + 4096 ==> #[trigger] m2.word(a) == m1.word(a)
}

/// Changes that leave the walks where they were and touch only free words keep the chunks.
proof fn lemma_chunks_quiet<M: PhysMem>(m0: M, m1: M, m2: M, root: u64)
    requires
        chunks_kept(m0, m1, root),
        forall|va: u64, i: nat| i <= 4 ==> #[trigger] table_at(m2, root, va, i) == table_at(m1, root, va, i),
        forall|a: u64| a % 8 == 0 && !m1.free(a) ==> #[trigger] m2.word(a) == m1.word(a),
        forall|a: u64| a % 8 == 0 && !m1.free(a) ==> #[trigger] m2.free(a) == m1.free(a),
    ensures
        chunks_kept(m0, m2, root),
{
    reveal(chunks_kept);
    assert forall|c: u64| #[trigger] chunk_apart(m0, root, c) implies chunk_apart(m2, root, c) && forall|a: u64|
        a % 8 == 0 && c <= a < c + 4096 ==> #[trigger] m2.word(a) == m0.word(a) by {
        assert(chunk_apart(m1, root, c));
        lemma_chunk_stays(m1, m2, root, c);
        assert forall|a: u64| a % 8 == 0 && c <= a < c + 4096 implies #[trigger] m2.word(a) == m0.word(a) by {
            assert(!m1.free(a));
            assert(m1.word(a) == m0.word(a));
        }
    }
}

/// Linking a zeroed table that lies outside every chunk apart keeps the chunks.
proof fn lemma_chunks_link<M: PhysMem>(m0: M, m1: M, m2: M, root: u64, va0: u64, d: nat, nt: u64)
    requires
        chunks_kept(m0, m1, root),
        forall|c: u64| #[trigger] chunk_apart(m0, root, c) ==> c != nt,
        root % 4096 == 0,
        root <= FRAME_MASK,
        tables_sound(m1, root),
        d < 3,
        table_at(m1, root, va0, d) is Some,
        nt % 4096 == 0,
        nt + 4096 <= PHYS_LIMIT,
        walks_avoid(m1, root, in_table(nt)),
        forall|a: u64| a % 8 == 0 && nt <= a < nt + 4096 ==> #[trigger] m1.word(a) == 0,
        forall|a: u64| a % 8 == 0 ==> #[trigger] m2.readable(a) == m1.readable(a),
        forall|a: u64| a % 8 == 0 ==> #[trigger] m2.free(a) == m1.free(a),
        forall|a: u64|
            a % 8 == 0 ==> #[trigger] m2.word(a) == (if a == path_slot(m1, root, va0, d) {
                nt | 7
            } else {
                m1.word(a)
            }),
        m1.readable(path_slot(m1, root, va0, d)),
    ensures
        chunks_kept(m0, m2, root),
{
    reveal(chunks_kept);
    assert forall|c: u64| #[trigger] chunk_apart(m0, root, c) implies chunk_apart(m2, root, c) && forall|a: u64|
        a % 8 == 0 && c <= a < c + 4096 ==> #[trigger] m2.word(a) == m0.word(a) by {
        assert(chunk_apart(m1, root, c));
        assert(c != nt);
        lemma_chunk_link(m1, m2, root, va0, d, nt, c);
        assert forall|a: u64| a % 8 == 0 && c <= a < c + 4096 implies #[trigger] m2.word(a) == m0.word(a) by {
            assert(m1.word(a) == m0.word(a));
        }
    }
}

/// Writing an entry that ends the walks through it keeps the chunks.
proof fn lemma_chunks_leaf<M: PhysMem>(m0: M, m1: M, m2: M, root: u64, va0: u64, d: nat, v: u64)
    requires
        chunks_kept(m0, m1, root),
        root % 4096 == 0,
        root <= FRAME_MASK,
        tables_sound(m1, root),
        d < 4,
        table_at(m1, root, va0, d) is Some,
        d == 3 || large(v) || !present(v),
        forall|a: u64| a % 8 == 0 ==> #[trigger] m2.readable(a) == m1.readable(a),
        forall|a: u64| a % 8 == 0 ==> #[trigger] m2.free(a) == m1.free(a),
        forall|a: u64|
            a % 8 == 0 ==> #[trigger] m2.word(a) == (if a == path_slot(m1, root, va0, d) {
                v
            } else {
                m1.word(a)
            }),
    ensures
        chunks_kept(m0, m2, root),
{
    reveal(chunks_kept);
    assert forall|c: u64| #[trigger] chunk_apart(m0, root, c) implies chunk_apart(m2, root, c) && forall|a: u64|
        a % 8 == 0 && c <= a < c + 4096 ==> #[trigger] m2.word(a) == m0.word(a) by {
        assert(chunk_apart(m1, root, c));
        lemma_chunk_leaf(m1, m2, root, va0, d, v, c);
        assert forall|a: u64| a % 8 == 0 && c <= a < c + 4096 implies #[trigger] m2.word(a) == m0.word(a) by {
            assert(m1.word(a) == m0.word(a));
        }
    }
}

/// Linking a zeroed table below an entry that was not present changes no translation:
/// walks through that entry stopped there and now stop in the new table.
proof fn lemma_link_translate<M: PhysMem>(
    m1: M,
    m2: M,
    root: u64,
    va0: u64,
    d: nat,
    nt: u64,
    va: u64,
)
    requires
        root % 4096 == 0,
        root <= FRAME_MASK,
        tables_sound(m1, root),
        d < 3,
        table_at(m1, root, va0, d) is Some,
        !present(m1.word(path_slot(m1, root, va0, d))),
        nt % 4096 == 0,
        nt + 4096 <= PHYS_LIMIT,
        walks_avoid(m1, root, in_table(nt)),
        forall|a: u64| a % 8 == 0 && nt <= a < nt + 4096 ==> #[trigger] m1.word(a) == 0,
        forall|a: u64| a % 8 == 0 ==> #[trigger] m2.readable(a) == m1.readable(a),
        forall|a: u64|
            a % 8 == 0 ==> #[trigger] m2.word(a) == (if a == path_slot(m1, root, va0, d) {
                nt | 7
            } else {
                m1.word(a)
            }),
        m1.readable(path_slot(m1, root, va0, d)),
    ensures
        spec_translate(m2, root, va) == spec_translate(m1, root, va),
{
    let w = path_slot(m1, root, va0, d);
    lemma_path_aligned(m1, root, va0, d);
    assert(table_at(m1, root, va, 0) == Some(root));
    if !(table_at(m1, root, va, d) is Some && path_slot(m1, root, va, d) == w) {
        assert forall|j: nat| j < 4 && (#[trigger] table_at(m1, root, va, j)) is Some implies {
            &&& m2.readable(path_slot(m1, root, va, j)) == m1.readable(path_slot(m1, root, va, j))
            &&& m2.word(path_slot(m1, root, va, j)) == m1.word(path_slot(m1, root, va, j))
        } by {
            lemma_path_aligned(m1, root, va, j);
            if path_slot(m1, root, va, j) == w {
                assert(j == d);
            }
        }
        lemma_walk_same(m1, m2, root, va, 0);
    } else {
        assert forall|j: nat| j < d && (#[trigger] table_at(m1, root, va, j)) is Some implies {
            &&& m2.readable(path_slot(m1, root, va, j)) == m1.readable(path_slot(m1, root, va, j))
            &&& m2.word(path_slot(m1, root, va, j)) == m1.word(path_slot(m1, root, va, j))
        } by {
            lemma_path_aligned(m1, root, va, j);
            if path_slot(m1, root, va, j) == w {
                assert(j == d);
            }
        }
        lemma_table_at_stable(m1, m2, root, va, d);
        lemma_walk_prefix(m1, root, va, d);
        let t = table_at(m1, root, va, d)->0;
        assert(slot_addr(t, va, d as int) == w);
        assert(walk_from(m1, t, va, d) is None);
        lemma_new_entry(nt);
        assert(table_at(m2, root, va, d) == table_at(m1, root, va, d));
        assert(m2.readable(w) && m2.word(w) == nt | 7);
        assert(((d + 1) as nat - 1) as nat == d);
        assert(table_at(m2, root, va, d + 1) == Some(nt));
        lemma_walk_prefix(m2, root, va, d + 1);
        let s2 = slot_addr(nt, va, (d + 1) as int);
        lemma_index_bound(va, (d + 1) as int);
        assert(s2 % 8 == 0 && nt <= s2 < nt + 4096);
        assert(!in_table(nt)(w));
        assert(m2.word(s2) == 0);
        lemma_zero_entry();
        assert(walk_from(m2, nt, va, d + 1) is None);
    }
}

/// Writing the entry that the walk of `va0` reads at depth `d` changes no translation of an
/// address that selects other entries on its way down.
proof fn lemma_leaf_translate<M: PhysMem>(
    m1: M,
    m2: M,
    root: u64,
    va0: u64,
    d: nat,
    v: u64,
    va: u64,
)
    requires
        root % 4096 == 0,
        root <= FRAME_MASK,
        tables_sound(m1, root),
        d < 4,
        table_at(m1, root, va0, d) is Some,
        !same_prefix(va, va0, d),
        forall|a: u64| a % 8 == 0 ==> #[trigger] m2.readable(a) == m1.readable(a),
        forall|a: u64|
            a % 8 == 0 ==> #[trigger] m2.word(a) == (if a == path_slot(m1, root, va0, d) {
                v
            } else {
                m1.word(a)
            }),
    ensures
        spec_translate(m2, root, va) == spec_translate(m1, root, va),
{
    let w = path_slot(m1, root, va0, d);
    lemma_path_aligned(m1, root, va0, d);
    assert(table_at(m1, root, va, 0) == Some(root));
    assert forall|j: nat| j < 4 && (#[trigger] table_at(m1, root, va, j)) is Some implies {
        &&& m2.readable(path_slot(m1, root, va, j)) == m1.readable(path_slot(m1, root, va, j))
        &&& m2.word(path_slot(m1, root, va, j)) == m1.word(path_slot(m1, root, va, j))
    } by {
        lemma_path_aligned(m1, root, va, j);
        if path_slot(m1, root, va, j) == w {
            assert(j == d && same_prefix(va, va0, j));
        }
    }
    lemma_walk_same(m1, m2, root, va, 0);
}

/// Mapping `va` to the present entry `raw` over sound tables without replacing anything
/// makes `va` translate into the frame of `raw` and keeps every translation there was.
pub proof fn lemma_mapped_page<M: PhysMem>(
    m1: M,
    m2: M,
    root: u64,
    va: u64,
    t: PageType,
    raw: u64,
    deallocate: bool,
)
    requires
        root % 4096 == 0,
        root <= FRAME_MASK,
        tables_sound(m1, root),
        present(raw),
        map_outcome(m1, m2, root, va, t, leaf_value(raw, t, deallocate), false, Some(())),
    ensures
        spec_translate(m2, root, va) == Some((frame(raw) + (va & page_offset_mask(t))) as u64),
        forall|vb: u64|
            spec_translate(m1, root, vb) is Some ==> #[trigger] spec_translate(m2, root, vb)
                == spec_translate(m1, root, vb),
{
    lemma_sound_path(m1, root, va, levels(t));
    lemma_map_then_translate(m2, root, va, t, raw, deallocate);
    assert forall|vb: u64| spec_translate(m1, root, vb) is Some implies #[trigger] spec_translate(
        m2,
        root,
        vb,
    ) == spec_translate(m1, root, vb) by {
        assert(table_at(m1, root, vb, 0) == Some(root));
        lemma_walk_in_use(m1, root, vb, 0);
        lemma_translation_kept(m1, m2, root, vb);
    }
}

/// No entry that a walk from `r1` reads is read by a walk from `r2`.
pub open spec fn roots_apart<M: PhysMem>(m: M, r1: u64, r2: u64) -> bool {
    forall|va1: u64, va2: u64, i: nat, j: nat|
        #![trigger path_slot(m, r1, va1, i), path_slot(m, r2, va2, j)]
        i < 4 && j < 4 && table_at(m, r1, va1, i) is Some && table_at(m, r2, va2, j) is Some
            ==> path_slot(m, r1, va1, i) != path_slot(m, r2, va2, j)
}

/// A change from `m1` to `m2` made through the tables at `root` leaves the tables at `o`,
/// sound and apart from them, sound, apart, and translating as before.
pub open spec fn other_kept<M: PhysMem>(m1: M, m2: M, root: u64, o: u64) -> bool {
    (o % 4096 == 0 && o <= FRAME_MASK && tables_sound(m1, o) && tables_sound(m1, root)
        && roots_apart(m1, o, root)) ==> {
        &&& tables_sound(m2, o)
        &&& roots_apart(m2, o, root)
        &&& forall|va: u64| #[trigger] spec_translate(m2, o, va) == spec_translate(m1, o, va)
        &&& forall|va: u64, i: nat| i <= 4 ==> #[trigger] table_at(m2, o, va, i) == table_at(m1, o, va, i)
    }
}

/// Leaving other tables alone composes.
pub proof fn lemma_other_kept_trans<M: PhysMem>(m1: M, m2: M, m3: M, root: u64, o: u64)
    requires
        other_kept(m1, m2, root, o),
        other_kept(m2, m3, root, o),
        tables_sound(m1, root) ==> tables_sound(m2, root),
    ensures
        other_kept(m1, m3, root, o),
{
    if o % 4096 == 0 && o <= FRAME_MASK && tables_sound(m1, o) && tables_sound(m1, root)
        && roots_apart(m1, o, root) {
        assert forall|va: u64| #[trigger] spec_translate(m3, o, va) == spec_translate(m1, o, va) by {
            assert(spec_translate(m2, o, va) == spec_translate(m1, o, va));
        }
    }
}

/// Changes confined to words that were free leave every sound table alone.
proof fn lemma_other_free<M: PhysMem>(m1: M, m2: M, root: u64, o: u64, x: spec_fn(u64) -> bool)
    requires
        root % 4096 == 0,
        root <= FRAME_MASK,
        forall|a: u64| a % 8 == 0 && #[trigger] x(a) ==> m1.free(a),
        forall|a: u64| a % 8 == 0 && !x(a) ==> #[trigger] m2.word(a) == m1.word(a),
        forall|a: u64| a % 8 == 0 && !x(a) ==> #[trigger] m2.readable(a) == m1.readable(a),
        forall|a: u64| a % 8 == 0 && !x(a) ==> #[trigger] m2.free(a) == m1.free(a),
    ensures
        other_kept(m1, m2, root, o),
{
    if o % 4096 == 0 && o <= FRAME_MASK && tables_sound(m1, o) && tables_sound(m1, root)
        && roots_apart(m1, o, root) {
        lemma_free_avoided(m1, o, x);
        lemma_free_avoided(m1, root, x);
        lemma_walks_unchanged(m1, m2, o, x);
        lemma_walks_unchanged(m1, m2, root, x);
        assert forall|va1: u64, va2: u64, i: nat, j: nat|
            i < 4 && j < 4 && table_at(m2, o, va1, i) is Some && table_at(m2, root, va2, j) is Some
                implies #[trigger] path_slot(m2, o, va1, i) != #[trigger] path_slot(
            m2,
            root,
            va2,
            j,
        ) by {
            assert(table_at(m2, o, va1, i) == table_at(m1, o, va1, i));
            assert(table_at(m2, root, va2, j) == table_at(m1, root, va2, j));
            assert(path_slot(m1, o, va1, i) != path_slot(m1, root, va2, j));
        }
    }
}

/// The single word `w` as a set of addresses.
spec fn just(w: u64) -> spec_fn(u64) -> bool {
    |a: u64| a == w
}

/// Allocating the zeroed table `nt` from free memory and linking it below the entry that the
/// walk of `va0` reads at depth `d` through the tables at `root` leaves other tables alone.
proof fn lemma_other_link<M: PhysMem>(
    m0: M,
    m1: M,
    m2: M,
    root: u64,
    o: u64,
    va0: u64,
    d: nat,
    nt: u64,
)
    requires
        root % 4096 == 0,
        root <= FRAME_MASK,
        d < 3,
        nt % 4096 == 0,
        nt + 4096 <= PHYS_LIMIT,
        forall|a: u64| a % 8 == 0 && nt <= a < nt + 4096 ==> #[trigger] m0.free(a),
        forall|a: u64| a % 8 == 0 && !in_table(nt)(a) ==> #[trigger] m1.word(a) == m0.word(a),
        forall|a: u64| a % 8 == 0 && !in_table(nt)(a) ==> #[trigger] m1.readable(a) == m0.readable(a),
        forall|a: u64| a % 8 == 0 && !in_table(nt)(a) ==> #[trigger] m1.free(a) == m0.free(a),
        forall|a: u64| a % 8 == 0 && nt <= a < nt + 4096 ==> #[trigger] m1.word(a) == 0,
        table_at(m0, root, va0, d) is Some,
        m1.readable(path_slot(m0, root, va0, d)),
        forall|a: u64| a % 8 == 0 ==> #[trigger] m2.readable(a) == m1.readable(a),
        forall|a: u64| a % 8 == 0 ==> #[trigger] m2.free(a) == m1.free(a),
        forall|a: u64|
            a % 8 == 0 ==> #[trigger] m2.word(a) == (if a == path_slot(m0, root, va0, d) {
                nt | 7
            } else {
                m1.word(a)
            }),
    ensures
        other_kept(m0, m2, root, o),
{
    if o % 4096 == 0 && o <= FRAME_MASK && tables_sound(m0, o) && tables_sound(m0, root)
        && roots_apart(m0, o, root) {
        let x = in_table(nt);
        lemma_free_avoided(m0, o, x);
        lemma_free_avoided(m0, root, x);
        lemma_walks_unchanged(m0, m1, o, x);
        lemma_walks_unchanged(m0, m1, root, x);
        let w = path_slot(m0, root, va0, d);
        assert(table_at(m1, root, va0, d) == table_at(m0, root, va0, d));
        assert(path_slot(m1, root, va0, d) == w);
        lemma_path_aligned(m0, root, va0, d);
        let y = just(w);
        assert forall|va: u64, i: nat|
            i < 4 && (#[trigger] table_at(m1, o, va, i)) is Some implies !y(path_slot(m1, o, va, i)) by {
            assert(table_at(m1, o, va, i) == table_at(m0, o, va, i));
            assert(path_slot(m0, o, va, i) != path_slot(m0, root, va0, d));
        }
        lemma_walks_unchanged(m1, m2, o, y);
        assert forall|va1: u64, va2: u64, i: nat, j: nat|
            i < 4 && j < 4 && table_at(m2, o, va1, i) is Some && table_at(m2, root, va2, j) is Some
                implies #[trigger] path_slot(m2, o, va1, i) != #[trigger] path_slot(
            m2,
            root,
            va2,
            j,
        ) by {
            assert(table_at(m2, o, va1, i) == table_at(m1, o, va1, i));
            assert(table_at(m1, o, va1, i) == table_at(m0, o, va1, i));
            lemma_link_walk(m1, m2, root, va0, d, nt, va2, j);
            if table_at(m2, root, va2, j) == table_at(m1, root, va2, j) {
                assert(table_at(m1, root, va2, j) == table_at(m0, root, va2, j));
                assert(path_slot(m0, o, va1, i) != path_slot(m0, root, va2, j));
            } else {
                lemma_index_bound(va2, j as int);
                assert(path_slot(m2, root, va2, j) == slot_addr(nt, va2, j as int));
                assert(!x(path_slot(m1, o, va1, i)));
            }
        }
        assert forall|va: u64| #[trigger] spec_translate(m2, o, va) == spec_translate(m0, o, va) by {
            assert(spec_translate(m1, o, va) == spec_translate(m0, o, va));
        }
    }
}

/// Writing an entry that the tables at `root` read and that ends the walks through it leaves
/// other tables alone.
proof fn lemma_other_leaf<M: PhysMem>(m1: M, m2: M, root: u64, o: u64, va0: u64, d: nat, v: u64)
    requires
        root % 4096 == 0,
        root <= FRAME_MASK,
        d < 4,
        table_at(m1, root, va0, d) is Some,
        d == 3 || large(v) || !present(v),
        forall|a: u64| a % 8 == 0 ==> #[trigger] m2.readable(a) == m1.readable(a),
        forall|a: u64| a % 8 == 0 ==> #[trigger] m2.free(a) == m1.free(a),
        forall|a: u64|
            a % 8 == 0 ==> #[trigger] m2.word(a) == (if a == path_slot(m1, root, va0, d) {
                v
            } else {
                m1.word(a)
            }),
    ensures
        other_kept(m1, m2, root, o),
{
    if o % 4096 == 0 && o <= FRAME_MASK && tables_sound(m1, o) && tables_sound(m1, root)
        && roots_apart(m1, o, root) {
        let w = path_slot(m1, root, va0, d);
        lemma_path_aligned(m1, root, va0, d);
        let y = just(w);
        assert forall|va: u64, i: nat|
            i < 4 && (#[trigger] table_at(m1, o, va, i)) is Some implies !y(path_slot(m1, o, va, i)) by {
            assert(path_slot(m1, o, va, i) != path_slot(m1, root, va0, d));
        }
        lemma_walks_unchanged(m1, m2, o, y);
        assert forall|va1: u64, va2: u64, i: nat, j: nat|
            i < 4 && j < 4 && table_at(m2, o, va1, i) is Some && table_at(m2, root, va2, j) is Some
                implies #[trigger] path_slot(m2, o, va1, i) != #[trigger] path_slot(
            m2,
            root,
            va2,
            j,
        ) by {
            assert(table_at(m2, o, va1, i) == table_at(m1, o, va1, i));
            lemma_leaf_walk(m1, m2, root, va0, d, v, va2, j);
            assert(path_slot(m1, o, va1, i) != path_slot(m1, root, va2, j));
        }
    }
}

/// Tables apart from each other are apart either way round.
pub proof fn lemma_roots_apart_sym<M: PhysMem>(m: M, r1: u64, r2: u64)
    requires
        roots_apart(m, r1, r2),
    ensures
        roots_apart(m, r2, r1),
{
    assert forall|va1: u64, va2: u64, i: nat, j: nat|
        i < 4 && j < 4 && table_at(m, r2, va1, i) is Some && table_at(m, r1, va2, j) is Some
            implies #[trigger] path_slot(m, r2, va1, i) != #[trigger] path_slot(m, r1, va2, j) by {
        assert(path_slot(m, r1, va2, j) != path_slot(m, r2, va1, i));
    }
}

/// Over sound tables, a change that keeps memory in use as it was keeps every translation
/// there was.
pub proof fn lemma_translations_kept<M: PhysMem>(m1: M, m2: M, root: u64)
    requires
        root % 4096 == 0,
        root <= FRAME_MASK,
        tables_sound(m1, root),
        keeps_in_use(m1, m2, false),
    ensures
        forall|vb: u64|
            spec_translate(m1, root, vb) is Some ==> #[trigger] spec_translate(m2, root, vb)
                == spec_translate(m1, root, vb),
{
    assert forall|vb: u64| spec_translate(m1, root, vb) is Some implies #[trigger] spec_translate(
        m2,
        root,
        vb,
    ) == spec_translate(m1, root, vb) by {
        assert(table_at(m1, root, vb, 0) == Some(root));
        lemma_walk_in_use(m1, root, vb, 0);
        lemma_translation_kept(m1, m2, root, vb);
    }
}

/// A region mapped fresh between `m1` and `m2` stays mapped and fresh from any earlier
/// memory `before` to any later `after`, as long as memory in use stays in use and its
/// translations stay.
#[verifier::spinoff_prover]
pub proof fn lemma_fresh_widen<M: PhysMem>(
    before: M,
    m1: M,
    m2: M,
    after: M,
    root: u64,
    va: u64,
    len: u64,
    ps: u64,
)
    requires
        maps_fresh_region(m1, m2, root, va, len, ps),
        keeps_in_use(before, m1, false),
        keeps_in_use(m2, after, false),
        forall|vb: u64|
            spec_translate(m2, root, vb) is Some ==> #[trigger] spec_translate(after, root, vb)
                == spec_translate(m2, root, vb),
    ensures
        maps_fresh_region(before, after, root, va, len, ps),
{
    assert forall|pva: u64|
        va <= pva < va + len && pva % ps == 0 implies #[trigger] maps_fresh_page(
        before,
        after,
        root,
        pva,
        ps,
    ) by {
        assert(maps_fresh_page(m1, m2, root, pva, ps));
        assert(spec_translate(after, root, pva) == spec_translate(m2, root, pva));
        let p = spec_translate(m2, root, pva)->0;
        assert forall|a: u64| a % 8 == 0 && p <= a < p + ps implies #[trigger] before.free(a)
            && !after.free(a) by {
            assert(m1.free(a) && !m2.free(a));
        }
    }
    assert forall|p1: u64, p2: u64|
        va <= p1 < va + len && va <= p2 < va + len && p1 % ps == 0 && p2 % ps == 0 && p1 != p2
            implies #[trigger] spec_translate(after, root, p1) != #[trigger] spec_translate(
        after,
        root,
        p2,
    ) by {
        assert(maps_fresh_page(m1, m2, root, p1, ps));
        assert(maps_fresh_page(m1, m2, root, p2, ps));
        assert(spec_translate(after, root, p1) == spec_translate(m2, root, p1));
        assert(spec_translate(after, root, p2) == spec_translate(m2, root, p2));
    }
}

/// A root table allocated between `m1` and `m2` leaves the sound tables at `o` sound,
/// translating as before, and apart from it.
pub open spec fn new_root_kept<M: PhysMem>(m1: M, m2: M, root: u64, o: u64) -> bool {
    (o % 4096 == 0 && o <= FRAME_MASK && tables_sound(m1, o)) ==> {
        &&& tables_sound(m2, o)
        &&& roots_apart(m2, o, root)
        &&& forall|va: u64| #[trigger] spec_translate(m2, o, va) == spec_translate(m1, o, va)
    }
}

/// Allocating a zeroed root table leaves other sound tables alone.
proof fn lemma_new_root_kept<M: PhysMem>(m0: M, m: M, table: PhysAddr, o: u64)
    requires
        table.0 % 4096 == 0,
        table.0 + 4096 <= PHYS_LIMIT,
        forall|a: u64|
            a % 8 == 0 ==> #[trigger] m.free(a) == (if in_region(Some(table), 4096, a) {
                false
            } else {
                m0.free(a)
            }),
        forall|a: u64|
            a % 8 == 0 ==> #[trigger] m.readable(a) == (if in_region(Some(table), 4096, a) {
                true
            } else {
                m0.readable(a)
            }),
        forall|a: u64|
            a % 8 == 0 ==> #[trigger] m.word(a) == (if in_region(Some(table), 4096, a) {
                0
            } else {
                m0.word(a)
            }),
        forall|a: u64| a % 8 == 0 && in_region(Some(table), 4096, a) ==> #[trigger] m0.free(a),
    ensures
        new_root_kept(m0, m, table.0, o),
{
    let root = table.0;
    if o % 4096 == 0 && o <= FRAME_MASK && tables_sound(m0, o) {
        let x = in_table(root);
        assert forall|a: u64| a % 8 == 0 && #[trigger] x(a) implies m0.free(a) by {
            assert(in_region(Some(table), 4096, a));
        }
        assert forall|a: u64| a % 8 == 0 && !x(a) implies #[trigger] m.word(a) == m0.word(a) by {
            assert(!in_region(Some(table), 4096, a));
        }
        assert forall|a: u64| a % 8 == 0 && !x(a) implies #[trigger] m.readable(a) == m0.readable(a) by {
            assert(!in_region(Some(table), 4096, a));
        }
        assert forall|a: u64| a % 8 == 0 && !x(a) implies #[trigger] m.free(a) == m0.free(a) by {
            assert(!in_region(Some(table), 4096, a));
        }
        lemma_free_avoided(m0, o, x);
        lemma_walks_unchanged(m0, m, o, x);
        assert forall|va1: u64, va2: u64, i: nat, j: nat|
            i < 4 && j < 4 && table_at(m, o, va1, i) is Some && table_at(m, root, va2, j) is Some
                implies #[trigger] path_slot(m, o, va1, i) != #[trigger] path_slot(m, root, va2, j) by {
            assert(table_at(m, o, va1, i) == table_at(m0, o, va1, i));
            let s = slot_addr(root, va2, 0);
            lemma_index_bound(va2, 0);
            assert(s % 8 == 0 && in_region(Some(table), 4096, s));
            lemma_zero_entry();
            assert(m.word(s) == 0);
            assert(table_at(m, root, va2, 0) == Some(root));
            assert(((1 as nat) - 1) as nat == 0);
            assert(table_at(m, root, va2, 1) is None);
            if j > 0 {
                lemma_table_at_prefix(m, root, va2, j, 1);
            }
            assert(j == 0);
            assert(path_slot(m, root, va2, j) == s);
            assert(!x(path_slot(m, o, va1, i)));
        }
    }
}

/// Going from `m1` to `m2` only cleared words: each word is as it was or zero.
#[verifier::opaque]
pub open spec fn only_zeroed<M: PhysMem>(m1: M, m2: M) -> bool {
    forall|a: u64| a % 8 == 0 ==> #[trigger] m2.word(a) == m1.word(a) || m2.word(a) == 0
}

/// The first `n` entries of `table` are not present.
#[verifier::opaque]
pub open spec fn cleared<M: PhysMem>(m: M, table: u64, n: nat) -> bool {
    forall|k: nat| k < n ==> !present(#[trigger] m.word((table + k * 8) as u64))
}

proof fn lemma_only_zeroed_same<M: PhysMem>(m1: M, m2: M)
    requires
        forall|a: u64| a % 8 == 0 ==> #[trigger] m2.word(a) == m1.word(a),
    ensures
        only_zeroed(m1, m2),
{
    reveal(only_zeroed);
}

proof fn lemma_only_zeroed_trans<M: PhysMem>(m1: M, m2: M, m3: M)
    requires
        only_zeroed(m1, m2),
        only_zeroed(m2, m3),
    ensures
        only_zeroed(m1, m3),
{
    reveal(only_zeroed);
    assert forall|a: u64| a % 8 == 0 implies #[trigger] m3.word(a) == m1.word(a) || m3.word(a)
        == 0 by {
        assert(m2.word(a) == m1.word(a) || m2.word(a) == 0);
    }
}

proof fn lemma_only_zeroed_write<M: PhysMem>(m1: M, m2: M, w: u64)
    requires
        forall|a: u64| a % 8 == 0 ==> #[trigger] m2.word(a) == m1.word(a) || (a == w && m2.word(a) == 0),
    ensures
        only_zeroed(m1, m2),
{
    reveal(only_zeroed);
}

/// A table whose words did not change stays cleared.
proof fn lemma_cleared_same<M: PhysMem>(m1: M, m2: M, table: u64)
    requires
        cleared(m1, table, 512),
        forall|a: u64| a % 8 == 0 ==> #[trigger] m2.word(a) == m1.word(a),
        table % 4096 == 0,
        table <= FRAME_MASK,
    ensures
        cleared(m2, table, 512),
{
    reveal(cleared);
    assert forall|k: nat| k < 512 implies !present(#[trigger] m2.word((table + k * 8) as u64)) by {
        let a = (table + k * 8) as u64;
        assert(a == table + k * 8);
        assert(a % 8 == 0);
        assert(!present(m1.word(a)));
    }
}

/// Clearing the entry at index `n` of `table`, or finding it not present, while other words
/// are only cleared, clears one more entry.
proof fn lemma_cleared_step<M: PhysMem>(m1: M, m2: M, table: u64, n: nat)
    requires
        table % 4096 == 0,
        table <= FRAME_MASK,
        n < 512,
        cleared(m1, table, n),
        only_zeroed(m1, m2),
        !present(m2.word((table + n * 8) as u64)),
    ensures
        cleared(m2, table, n + 1),
{
    reveal(cleared);
    reveal(only_zeroed);
    lemma_zero_entry();
    assert forall|k: nat| k < n + 1 implies !present(#[trigger] m2.word((table + k * 8) as u64)) by {
        if k < n {
            let a = (table + k * 8) as u64;
            assert(a == table + k * 8);
            assert(a % 8 == 0);
            assert(!present(m1.word(a)));
        }
    }
}

/// Writing the entry that the walk of `va0` reads at depth `d` over sound tables leaves every
/// walk in place down to depth `d`.
proof fn lemma_leaf_keeps_upper<M: PhysMem>(m1: M, m2: M, root: u64, va0: u64, d: nat, v: u64, va: u64)
    requires
        root % 4096 == 0,
        root <= FRAME_MASK,
        tables_sound(m1, root),
        d < 4,
        table_at(m1, root, va0, d) is Some,
        forall|a: u64| a % 8 == 0 ==> #[trigger] m2.readable(a) == m1.readable(a),
        forall|a: u64|
            a % 8 == 0 ==> #[trigger] m2.word(a) == (if a == path_slot(m1, root, va0, d) {
                v
            } else {
                m1.word(a)
            }),
    ensures
        forall|i: nat| i <= d ==> #[trigger] table_at(m2, root, va, i) == table_at(m1, root, va, i),
{
    let w = path_slot(m1, root, va0, d);
    assert forall|j: nat| j < d && (#[trigger] table_at(m1, root, va, j)) is Some implies {
        &&& m2.readable(path_slot(m1, root, va, j)) == m1.readable(path_slot(m1, root, va, j))
        &&& m2.word(path_slot(m1, root, va, j)) == m1.word(path_slot(m1, root, va, j))
    } by {
        lemma_path_aligned(m1, root, va, j);
        if path_slot(m1, root, va, j) == w {
            assert(j == d);
        }
    }
    lemma_table_at_stable(m1, m2, root, va, d);
}

/// Entries built from a page aligned address and low flag bits (and NX) leave the
/// deallocation flag clear.
pub(crate) proof fn lemma_flags_below_dealloc(p: u64)
    by (bit_vector)
    ensures
        p % 4096 == 0 ==> (p | 2u64 | 1u64) & 0x200u64 == 0,
        p % 0x20_0000 == 0 ==> (p | 1u64 | 2u64 | 0x80u64) & 0x200u64 == 0,
        p % 0x20_0000 == 0 ==> (p | 1u64 | 2u64 | 0x8000_0000_0000_0000u64 | 0x80u64) & 0x200u64
            == 0,
        p % 0x20_0000 == 0 && p < 0x10_0000_0000_0000u64 ==> (p | 1u64 | 2u64
            | 0x8000_0000_0000_0000u64 | 0x80u64) & 0xffffffffff000u64 == p && (p | 1u64 | 2u64
            | 0x8000_0000_0000_0000u64 | 0x80u64) & 1u64 != 0,
        p % 4096 == 0 && p < 0x10_0000_0000_0000u64 ==> (p | 2u64 | 1u64) & 0xffffffffff000u64
            == p && (p | 2u64 | 1u64) & 1u64 != 0,
        p % 0x20_0000 == 0 && p < 0x10_0000_0000_0000u64 ==> (p | 1u64 | 2u64 | 0x80u64)
            & 0xffffffffff000u64 == p && (p | 1u64 | 2u64 | 0x80u64) & 1u64 != 0,
{
}

/// Two addresses of the upper half that are aligned to a large page and select the same
/// entries down to the level that maps it are the same.
pub(crate) proof fn lemma_same_large_page(a: u64, b: u64)
    by (bit_vector)
    ensures
        (a >= 0xffff_0000_0000_0000u64 && b >= 0xffff_0000_0000_0000u64 && a & 0x3fff_ffffu64 == 0
            && b & 0x3fff_ffffu64 == 0 && (a >> 39u64) & 0x1ff == (b >> 39u64) & 0x1ff && (a
            >> 30u64) & 0x1ff == (b >> 30u64) & 0x1ff) ==> a == b,
        (a >= 0xffff_0000_0000_0000u64 && b >= 0xffff_0000_0000_0000u64 && a & 0x1f_ffffu64 == 0
            && b & 0x1f_ffffu64 == 0 && (a >> 39u64) & 0x1ff == (b >> 39u64) & 0x1ff && (a
            >> 30u64) & 0x1ff == (b >> 30u64) & 0x1ff && (a >> 21u64) & 0x1ff == (b >> 21u64)
            & 0x1ff) ==> a == b,
{
}

/// Offsets within an aligned page select the entries of the page's start: every address of
/// the page walks them, lands at its offset in the frame and is canonical with the start,
/// and the next page walks another entry.
proof fn lemma_page_bits(va: u64, o: u64, t: PageType)
    requires
        va % spec_page_size(t) == 0,
        o < spec_page_size(t),
    ensures
        same_prefix(va, (va + o) as u64, (levels(t) - 1) as nat),
        ((va + o) as u64) & page_offset_mask(t) == o,
        va + o <= u64::MAX,
        spec_canonical(va) ==> spec_canonical((va + o) as u64),
        va + spec_page_size(t) <= u64::MAX ==> !same_prefix(
            va,
            (va + spec_page_size(t)) as u64,
            (levels(t) - 1) as nat,
        ),
{
    lemma_page_mask(va, t);
    assert(((va & 0xfffu64 == 0 && o < 0x1000u64) ==> (((((va + o) as u64) >> 39u64) & 0x1ffu64) == ((va >> 39u64) & 0x1ffu64) && ((((va + o) as u64) >> 30u64) & 0x1ffu64) == ((va >> 30u64) & 0x1ffu64) && ((((va + o) as u64) >> 21u64) & 0x1ffu64) == ((va >> 21u64) & 0x1ffu64) && ((((va + o) as u64) >> 12u64) & 0x1ffu64) == ((va >> 12u64) & 0x1ffu64) && ((va + o) as u64) & 0xfffu64 == o && va + o <= 0xffff_ffff_ffff_ffffu64
            && (va < 0x0000_8000_0000_0000u64 ==> ((va + o) as u64) < 0x0000_8000_0000_0000u64)
            && (va >= 0xffff_8000_0000_0000u64 ==> ((va + o) as u64) >= 0xffff_8000_0000_0000u64)
            && (va <= 0xfffffffffffff000u64 ==> (((((va + 0x1000u64) as u64) >> 39u64) & 0x1ffu64) != ((va >> 39u64) & 0x1ffu64) || ((((va + 0x1000u64) as u64) >> 30u64) & 0x1ffu64) != ((va >> 30u64) & 0x1ffu64) || ((((va + 0x1000u64) as u64) >> 21u64) & 0x1ffu64) != ((va >> 21u64) & 0x1ffu64) || ((((va + 0x1000u64) as u64) >> 12u64) & 0x1ffu64) != ((va >> 12u64) & 0x1ffu64)))))
        && ((va & 0x1f_ffffu64 == 0 && o < 0x20_0000u64) ==> (((((va + o) as u64) >> 39u64) & 0x1ffu64) == ((va >> 39u64) & 0x1ffu64) && ((((va + o) as u64) >> 30u64) & 0x1ffu64) == ((va >> 30u64) & 0x1ffu64) && ((((va + o) as u64) >> 21u64) & 0x1ffu64) == ((va >> 21u64) & 0x1ffu64) && ((va + o) as u64) & 0x1f_ffffu64 == o && va + o <= 0xffff_ffff_ffff_ffffu64
            && (va < 0x0000_8000_0000_0000u64 ==> ((va + o) as u64) < 0x0000_8000_0000_0000u64)
            && (va >= 0xffff_8000_0000_0000u64 ==> ((va + o) as u64) >= 0xffff_8000_0000_0000u64)
            && (va <= 0xffffffffffe00000u64 ==> (((((va + 0x20_0000u64) as u64) >> 39u64) & 0x1ffu64) != ((va >> 39u64) & 0x1ffu64) || ((((va + 0x20_0000u64) as u64) >> 30u64) & 0x1ffu64) != ((va >> 30u64) & 0x1ffu64) || ((((va + 0x20_0000u64) as u64) >> 21u64) & 0x1ffu64) != ((va >> 21u64) & 0x1ffu64)))))
        && ((va & 0x3fff_ffffu64 == 0 && o < 0x4000_0000u64) ==> (((((va + o) as u64) >> 39u64) & 0x1ffu64) == ((va >> 39u64) & 0x1ffu64) && ((((va + o) as u64) >> 30u64) & 0x1ffu64) == ((va >> 30u64) & 0x1ffu64) && ((va + o) as u64) & 0x3fff_ffffu64 == o && va + o <= 0xffff_ffff_ffff_ffffu64
            && (va < 0x0000_8000_0000_0000u64 ==> ((va + o) as u64) < 0x0000_8000_0000_0000u64)
            && (va >= 0xffff_8000_0000_0000u64 ==> ((va + o) as u64) >= 0xffff_8000_0000_0000u64)
            && (va <= 0xffffffffc0000000u64 ==> (((((va + 0x4000_0000u64) as u64) >> 39u64) & 0x1ffu64) != ((va >> 39u64) & 0x1ffu64) || ((((va + 0x4000_0000u64) as u64) >> 30u64) & 0x1ffu64) != ((va >> 30u64) & 0x1ffu64)))))) by (bit_vector);
    let b = (va + o) as u64;
    let d = (levels(t) - 1) as nat;
    assert forall|k: int| 0 <= k <= d implies #[trigger] va_index(va, k) == va_index(b, k) by {}
    if va + spec_page_size(t) <= u64::MAX {
        let n = (va + spec_page_size(t)) as u64;
        if t == PageType::Page4K {
            if va_index(n, 0) == va_index(va, 0) && va_index(n, 1) == va_index(va, 1) && va_index(n, 2) == va_index(va, 2) {
                assert(va_index(n, 3) != va_index(va, 3));
            }
        } else if t == PageType::Page2M {
            if va_index(n, 0) == va_index(va, 0) && va_index(n, 1) == va_index(va, 1) {
                assert(va_index(n, 2) != va_index(va, 2));
            }
        } else {
            if va_index(n, 0) == va_index(va, 0) {
                assert(va_index(n, 1) != va_index(va, 1));
            }
        }
    }
}

/// Addresses that select the same entries down to `d` walk the same tables to depth `d + 1`.
proof fn lemma_prefix_tables<M: PhysMem>(m: M, root: u64, va1: u64, va2: u64, d: nat, i: nat)
    requires
        same_prefix(va1, va2, d),
        i <= d + 1,
    ensures
        table_at(m, root, va1, i) == table_at(m, root, va2, i),
    decreases i,
{
    if i > 0 {
        lemma_prefix_tables(m, root, va1, va2, d, (i - 1) as nat);
        assert(va_index(va1, i - 1) == va_index(va2, i - 1));
    }
}

/// A zero entry is not present.
proof fn lemma_zero_entry()
    ensures
        !present(0),
        0u64 & 1 == 0,
{
    lemma_page_mask(0, PageType::Page4K);
}

pub(crate) proof fn lemma_page_mask(va: u64, t: PageType)
    ensures
        (va & page_offset_mask(t) == 0) == (va % spec_page_size(t) == 0),
        0u64 & 1 == 0,
{
    assert((va & 0xfffu64 == 0) == (va % 0x1000 == 0) && (va & 0x1f_ffffu64 == 0) == (va
        % 0x20_0000 == 0) && (va & 0x3fff_ffffu64 == 0) == (va % 0x4000_0000 == 0) && 0u64 & 1u64
        == 0) by (bit_vector);
}

proof fn lemma_new_entry(n: u64)
    requires
        n % 4096 == 0,
        n < PHYS_LIMIT,
    ensures
        present(n | 7),
        !large(n | 7),
        frame(n | 7) == n,
{
    assert((n % 4096 == 0 && n < 0x0010_0000_0000_0000u64) ==> ((n | 7u64) & 1 != 0 && (n
        | 7u64) & 0x80 == 0 && (n | 7u64) & 0xffffffffff000u64 == n)) by (bit_vector);
}

/// Index into the table at `depth` selected by `va`.
fn index_at(va: u64, depth: usize) -> (r: u64)
    requires
        depth < 4,
    ensures
        r == va_index(va, depth as int),
        r <= 0x1ff,
{
    proof {
        lemma_index_bound(va, depth as int);
    }
    if depth == 0 {
        (va >> 39) & 0x1ff
    } else if depth == 1 {
        (va >> 30) & 0x1ff
    } else if depth == 2 {
        (va >> 21) & 0x1ff
    } else {
        (va >> 12) & 0x1ff
    }
}

/// Wrapper that allows manipulating x86 page tables. It doesn't own any page tables so
/// they won't get freed when it is dropped.
pub struct PageTable {
    /// Physical address of a root table (PML4), must be always valid.
    table: PhysAddr,
    /// Set to true if modifications to page table require TLB invalidation.
    invalidate_tlb: bool,
}

impl PageTable {
    #[verifier::type_invariant]
    pub(crate) closed spec fn inv(&self) -> bool {
        self.table.0 <= FRAME_MASK && self.table.0 % 4096 == 0
    }

    /// The root table of a page table is page aligned and can be pointed to by an entry.
    pub(crate) proof fn lemma_root(&self)
        requires
            self.inv(),
        ensures
            self.root() % 4096 == 0,
            self.root() <= FRAME_MASK,
    {
    }

    /// Physical address of the root table.
    pub closed spec fn root(&self) -> u64 {
        self.table.0
    }

    /// Modifications of present entries must invalidate the TLB.
    pub closed spec fn invalidates_tlb(&self) -> bool {
        self.invalidate_tlb
    }

    /// Create a page table from PML4 physical address (eg. CR3), masking off the PCID and
    /// flag bits.
    pub fn from_table(table: PhysAddr, invalidate_tlb: bool) -> (r: Self)
        ensures
            r.root() == table.0 & FRAME_MASK,
            r.invalidates_tlb() == invalidate_tlb,
    {
        proof {
            lemma_frame_aligned(table.0);
        }
        Self { table: PhysAddr(table.0 & FRAME_MASK), invalidate_tlb }
    }

    /// Get the physical address of a root table (PML4).
    pub fn table(&mut self) -> (r: PhysAddr)
        ensures
            r.0 == old(self).root(),
            *final(self) == *old(self),
    {
        self.table
    }

    /// Translate `virt_addr` to the physical address it maps to, following 4K, 2M and 1G
    /// pages. `None` if the address is not canonical, not mapped, or a table cannot be read.
    pub fn virt_to_phys<M: PhysMem>(&self, phys_mem: &mut M, virt_addr: VirtAddr) -> (r: Option<
        PhysAddr,
    >)
        ensures
            *final(phys_mem) == *old(phys_mem),
            r matches Some(p) ==> spec_translate(*old(phys_mem), self.root(), virt_addr.0) == Some(
                p.0,
            ),
            r is None ==> spec_translate(*old(phys_mem), self.root(), virt_addr.0) is None,
    {
        proof {
            use_type_invariant(self);
        }
        if !virt_addr.is_canonical() {
            return None;
        }
        let va = virt_addr.0;
        let mut table = self.table.0;
        let mut depth: usize = 0;
        while depth < 4
            invariant
                depth <= 4,
                table <= FRAME_MASK,
                table % 4096 == 0,
                spec_canonical(va),
                va == virt_addr.0,
                spec_translate(*phys_mem, self.root(), va) == walk_from(
                    *phys_mem,
                    table,
                    va,
                    depth as nat,
                ),
            decreases 4 - depth,
        {
            let index = index_at(va, depth);
            let entry = match phys_mem.read_u64(PhysAddr(table + index * 8)) {
                Some(e) => e,
                None => return None,
            };

            // Given `virt_addr` is not mapped in.
            if entry & PAGE_PRESENT == 0 {
                return None;
            }
            proof {
                lemma_frame_aligned(entry);
                assert(va & 0xfffu64 <= 0xfff && va & 0x3fff_ffffu64 <= 0x3fff_ffff && va
                    & 0x1f_ffffu64 <= 0x1f_ffff) by (bit_vector);
            }
            if depth == 3 {
                return Some(PhysAddr((entry & FRAME_MASK) + (va & 0xfff)));
            } else if entry & PAGE_SIZE != 0 {
                if depth == 1 {
                    return Some(PhysAddr((entry & FRAME_MASK) + (va & 0x3fff_ffff)));
                } else if depth == 2 {
                    return Some(PhysAddr((entry & FRAME_MASK) + (va & 0x1f_ffff)));
                } else {
                    // Invalid page table entry.
                    return None;
                }
            }

            // Go to the next level in paging hierarchy.
            table = entry & FRAME_MASK;
            depth += 1;
        }
        None
    }

    /// Set the last level entry that describes `virt_addr` to `raw`, creating missing tables
    /// when `add` is set and replacing a present entry only when `update` is set. With
    /// `deallocate` the backing page is freed when the page table is destroyed.
    fn map_raw_internal<M: PhysMem>(
        &mut self,
        phys_mem: &mut M,
        virt_addr: VirtAddr,
        page_type: PageType,
        raw: u64,
        add: bool,
        update: bool,
        deallocate: bool,
    ) -> (r: Option<()>)
        requires
            raw & DEALLOCATE_FLAG == 0,
        ensures
            *final(self) == *old(self),
            map_outcome(
                *old(phys_mem),
                *final(phys_mem),
                old(self).root(),
                virt_addr.0,
                page_type,
                leaf_value(raw, page_type, deallocate),
                update,
                r,
            ),
            tables_sound(*old(phys_mem), old(self).root()) ==> tables_sound(
                *final(phys_mem),
                old(self).root(),
            ),
            tables_sound(*old(phys_mem), old(self).root()) ==> forall|va2: u64|
                !same_prefix(va2, virt_addr.0, (levels(page_type) - 1) as nat)
                    ==> #[trigger] spec_translate(*final(phys_mem), old(self).root(), va2)
                    == spec_translate(*old(phys_mem), old(self).root(), va2),
            forall|o: u64| #[trigger] other_kept(*old(phys_mem), *final(phys_mem), old(self).root(), o),
            (leaf_slot(*old(phys_mem), old(self).root(), virt_addr.0, page_type) is Some
                && spec_canonical(virt_addr.0) && virt_addr.0 % spec_page_size(page_type) == 0 && (
            update || !leaf_present(*old(phys_mem), old(self).root(), virt_addr.0, page_type)))
                ==> r is Some,
            (!add && r is Some) ==> leaf_slot(
                *old(phys_mem),
                old(self).root(),
                virt_addr.0,
                page_type,
            ) is Some,
            !add ==> forall|a: u64|
                a % 8 == 0 ==> #[trigger] final(phys_mem).readable(a) == old(phys_mem).readable(a),
            (leaf_slot(*old(phys_mem), old(self).root(), virt_addr.0, page_type) is Some && r is Some)
                ==> leaf_replaced(
                *old(phys_mem),
                *final(phys_mem),
                leaf_slot(*old(phys_mem), old(self).root(), virt_addr.0, page_type)->0,
                leaf_value(raw, page_type, deallocate),
            ),
            (!add && tables_sound(*old(phys_mem), old(self).root())) ==> forall|va2: u64, i: nat|
                i < levels(page_type) ==> #[trigger] table_at(*final(phys_mem), old(self).root(), va2, i)
                    == table_at(*old(phys_mem), old(self).root(), va2, i),
            (leaf_slot(*old(phys_mem), old(self).root(), virt_addr.0, page_type) is Some
                || path_sound(*old(phys_mem), old(self).root(), virt_addr.0, levels(page_type)))
                ==> flush_outcome(
                *old(phys_mem),
                *final(phys_mem),
                old(self).root(),
                virt_addr.0,
                page_type,
                update,
                old(self).invalidates_tlb(),
                r,
            ),
            final(phys_mem).flushed() == old(phys_mem).flushed() || (r is Some
                && old(self).invalidates_tlb() && final(phys_mem).flushed() == old(
                phys_mem,
            ).flushed().push(virt_addr.0)),
            tables_sound(*old(phys_mem), old(self).root()) ==> chunks_kept(
                *old(phys_mem),
                *final(phys_mem),
                old(self).root(),
            ),
    {
        proof {
            use_type_invariant(&*self);
        }
        let ghost old_mem = *phys_mem;
        let ghost root = self.table.0;
        let ghost value = leaf_value(raw, page_type, deallocate);
        assert(chunks_kept(old_mem, old_mem, root)) by {
            reveal(chunks_kept);
        }
        let mut leaf = raw;
        if deallocate {
            leaf = leaf | DEALLOCATE_FLAG;
        }

        // If we are using large pages we need to set `PAGE_SIZE` bit in the page table entry.
        if page_type != PageType::Page4K {
            leaf = leaf | PAGE_SIZE;
        }
        if !virt_addr.is_canonical() {
            return None;
        }
        let page_size = page_type.size();
        let page_mask = page_size - 1;

        // Make sure that the `virt_addr` is properly aligned.
        proof {
            lemma_page_mask(virt_addr.0, page_type);
        }
        if virt_addr.0 & page_mask != 0 {
            return None;
        }
        let n_levels: usize = match page_type {
            PageType::Page4K => 4,
            PageType::Page2M => 3,
            PageType::Page1G => 2,
        };
        let va = virt_addr.0;
        let mut table = self.table.0;
        let mut depth: usize = 0;
        let ghost mut fresh = false;
        let ghost sound = path_sound(old_mem, root, va, levels(page_type));
        let ghost leaf_exists = leaf_slot(old_mem, root, va, page_type) is Some;
        let ghost ts = tables_sound(old_mem, root);
        proof {
            if ts {
                lemma_sound_path(old_mem, root, va, levels(page_type));
            }
        }

        loop
            invariant
                depth < n_levels,
                n_levels == levels(page_type),
                va == virt_addr.0,
                root == self.root(),
                root % 4096 == 0,
                root <= FRAME_MASK,
                *self == *old(self),
                spec_canonical(va),
                va % spec_page_size(page_type) == 0,
                leaf == value,
                value == leaf_value(raw, page_type, deallocate),
                old_mem == *old(phys_mem),
                table <= FRAME_MASK,
                table % 4096 == 0,
                sound == path_sound(old_mem, root, va, levels(page_type)),
                leaf_exists == (leaf_slot(old_mem, root, va, page_type) is Some),
                !fresh ==> *phys_mem == old_mem,
                (!fresh || sound) ==> table_at(*phys_mem, root, va, depth as nat) == Some(table),
                sound ==> path_sound(*phys_mem, root, va, (depth + 1) as nat),
                (sound && fresh) ==> phys_mem.word(slot_addr(table, va, depth as int)) == 0,
                leaf_exists ==> !fresh,
                keeps_in_use(old_mem, *phys_mem, update),
                ts == tables_sound(old_mem, root),
                ts ==> sound && tables_sound(*phys_mem, root),
                ts ==> forall|va2: u64|
                    !same_prefix(va2, va, (n_levels - 1) as nat) ==> #[trigger] spec_translate(
                        *phys_mem,
                        root,
                        va2,
                    ) == spec_translate(old_mem, root, va2),
                forall|o: u64| #[trigger] other_kept(old_mem, *phys_mem, root, o),
                !add ==> !fresh,
                ts ==> chunks_kept(old_mem, *phys_mem, root),
                phys_mem.flushed() == old_mem.flushed(),
            decreases n_levels - depth,
        {
            let index = index_at(va, depth);
            let slot = table + index * 8;
            let ghost cur = *phys_mem;
            assert(slot == slot_addr(table, va, depth as int));
            proof {
                if leaf_exists {
                    lemma_leaf_path(old_mem, root, va, page_type, depth as nat);
                    assert(path_slot(old_mem, root, va, depth as nat) == slot);
                    assert(old_mem.readable(slot));
                    if depth + 1 < n_levels {
                        assert(table_at(old_mem, root, va, (depth + 1) as nat) is Some);
                        assert(present(old_mem.word(slot)) && !large(old_mem.word(slot)));
                    }
                }
            }
            let entry = match phys_mem.read_u64(PhysAddr(slot)) {
                Some(e) => e,
                None => {
                    proof {
                        lemma_refused(old_mem, *phys_mem, root, va, page_type, value, update);
                    }
                    return None;
                },
            };
            if depth != n_levels - 1 {
                let mut current = entry;
                if entry & PAGE_PRESENT == 0 {
                    // If it's not the the last level entry and it's non-present then we can
                    // allocate it and continue traversing, if we are allowed to create new
                    // entries.
                    if !add {
                        proof {
                            lemma_refused(old_mem, *phys_mem, root, va, page_type, value, update);
                        }
                        return None;
                    }
                    let new_table = match phys_mem.alloc_phys_zeroed(4096, 4096) {
                        Some(p) => p,
                        None => {
                    proof {
                        lemma_keeps_alloc(old_mem, cur, *phys_mem, None, 4096, update);
                        lemma_refused(old_mem, *phys_mem, root, va, page_type, value, update);
                        if ts {
                            lemma_walks_unchanged(cur, *phys_mem, root, |a: u64| false);
                            let now = *phys_mem;
                            lemma_chunks_quiet(old_mem, cur, now, root);
                            assert forall|o: u64| #[trigger] other_kept(old_mem, now, root, o) by {
                                lemma_other_free(cur, now, root, o, |a: u64| false);
                                lemma_other_kept_trans(old_mem, cur, now, root, o);
                            }
                        }
                    }
                    return None;
                },
                    };
                    let ghost cur1 = *phys_mem;
                    proof {
                        lemma_new_entry(new_table.0);
                        lemma_keeps_alloc(old_mem, cur, cur1, Some(new_table), 4096, update);
                        assert(entry == cur.word(slot));
                        if ts {
                            let x = in_table(new_table.0);
                            assert forall|a: u64| a % 8 == 0 && #[trigger] x(a) implies cur.free(a) by {
                                assert(in_region(Some(new_table), 4096, a));
                            }
                            lemma_free_avoided(cur, root, x);
                            assert forall|a: u64| a % 8 == 0 && !x(a) implies #[trigger] cur1.word(a)
                                == cur.word(a) by {
                                assert(!in_region(Some(new_table), 4096, a));
                            }
                            assert forall|a: u64| a % 8 == 0 && !x(a) implies #[trigger] cur1.readable(a)
                                == cur.readable(a) by {
                                assert(!in_region(Some(new_table), 4096, a));
                            }
                            assert forall|a: u64| a % 8 == 0 && !x(a) implies #[trigger] cur1.free(a)
                                == cur.free(a) by {
                                assert(!in_region(Some(new_table), 4096, a));
                            }
                            lemma_walks_unchanged(cur, cur1, root, x);
                            lemma_chunks_quiet(old_mem, cur, cur1, root);
                        }
                    }

                    // Create new entry with max permissions and mark it as present.
                    let nt = new_table.0;
                    let new_entry = nt | PAGE_PRESENT | PAGE_USER | PAGE_WRITE;
                    assert(new_entry == nt | 7) by (bit_vector)
                        requires
                            new_entry == nt | 1u64 | 4u64 | 2u64,
                    ;
                    match phys_mem.write_u64(PhysAddr(slot), new_entry) {
                        Some(_) => {},
                        None => {
                    proof {
                        lemma_keeps_write(old_mem, cur1, *phys_mem, slot, new_entry, false, update);
                        lemma_refused(old_mem, *phys_mem, root, va, page_type, value, update);
                        if ts {
                            lemma_walks_unchanged(cur1, *phys_mem, root, |a: u64| false);
                            let now = *phys_mem;
                            lemma_chunks_quiet(old_mem, cur1, now, root);
                            let x = in_table(new_table.0);
                            assert forall|a: u64| a % 8 == 0 && #[trigger] x(a) implies cur.free(a) by {
                                assert(in_region(Some(new_table), 4096, a));
                            }
                            assert forall|a: u64| a % 8 == 0 && !x(a) implies #[trigger] now.word(a)
                                == cur.word(a) by {
                                assert(!in_region(Some(new_table), 4096, a));
                            }
                            assert forall|a: u64| a % 8 == 0 && !x(a) implies #[trigger] now.readable(a)
                                == cur.readable(a) by {
                                assert(!in_region(Some(new_table), 4096, a));
                            }
                            assert forall|a: u64| a % 8 == 0 && !x(a) implies #[trigger] now.free(a)
                                == cur.free(a) by {
                                assert(!in_region(Some(new_table), 4096, a));
                            }
                            assert forall|o: u64| #[trigger] other_kept(old_mem, now, root, o) by {
                                lemma_other_free(cur, now, root, o, x);
                                lemma_other_kept_trans(old_mem, cur, now, root, o);
                            }
                        }
                    }
                    return None;
                },
                    }
                    current = new_entry;
                    proof {
                        fresh = true;
                        let cur2 = *phys_mem;
                        assert(cur1.word(slot) == 0 || cur1.word(slot) == entry);
                        lemma_zero_entry();
                        lemma_keeps_write(old_mem, cur1, cur2, slot, new_entry, true, update);
                        if sound {
                            lemma_alloc_step(cur, cur1, cur2, root, va, depth as nat, table, Some(new_table), nt, (depth + 1) as nat);
                        }
                        if ts {
                            assert(table_at(cur1, root, va, depth as nat) == table_at(cur, root, va, depth as nat));
                            assert(path_slot(cur1, root, va, depth as nat) == slot);
                            assert forall|a: u64| a % 8 == 0 && nt <= a < nt + 4096 implies #[trigger] cur1.word(a) == 0 by {
                                assert(in_region(Some(new_table), 4096, a));
                            }
                            assert forall|a: u64| a % 8 == 0 && nt <= a < nt + 4096 implies !#[trigger] cur1.free(a) by {
                                assert(in_region(Some(new_table), 4096, a));
                            }
                            lemma_link_sound(cur1, cur2, root, va, depth as nat, nt);
                            assert forall|c: u64| #[trigger] chunk_apart(old_mem, root, c) implies c != nt by {
                                reveal(chunks_kept);
                                assert(chunk_apart(cur, root, c));
                                assert(in_region(Some(new_table), 4096, nt));
                                assert(cur.free(nt));
                            }
                            lemma_chunks_link(old_mem, cur1, cur2, root, va, depth as nat, nt);
                            lemma_zero_entry();
                            assert(!present(cur1.word(slot)));
                            assert forall|va2: u64|
                                !same_prefix(va2, va, (n_levels - 1) as nat) implies #[trigger] spec_translate(
                                cur2,
                                root,
                                va2,
                            ) == spec_translate(old_mem, root, va2) by {
                                lemma_link_translate(cur1, cur2, root, va, depth as nat, nt, va2);
                                assert(spec_translate(cur1, root, va2) == spec_translate(cur, root, va2));
                            }
                            assert forall|a: u64| a % 8 == 0 && !in_table(nt)(a) implies #[trigger] cur1.word(a)
                                == cur.word(a) by {
                                assert(!in_region(Some(new_table), 4096, a));
                            }
                            assert forall|a: u64| a % 8 == 0 && !in_table(nt)(a) implies #[trigger] cur1.readable(a)
                                == cur.readable(a) by {
                                assert(!in_region(Some(new_table), 4096, a));
                            }
                            assert forall|a: u64| a % 8 == 0 && !in_table(nt)(a) implies #[trigger] cur1.free(a)
                                == cur.free(a) by {
                                assert(!in_region(Some(new_table), 4096, a));
                            }
                            assert forall|a: u64| a % 8 == 0 && nt <= a < nt + 4096 implies #[trigger] cur.free(a) by {
                                assert(in_region(Some(new_table), 4096, a));
                            }
                            assert(path_slot(cur, root, va, depth as nat) == slot);
                            assert forall|o: u64| #[trigger] other_kept(old_mem, cur2, root, o) by {
                                lemma_other_link(cur, cur1, cur2, root, o, va, depth as nat, nt);
                                lemma_other_kept_trans(old_mem, cur, cur2, root, o);
                            }
                        }
                    }
                } else if entry & PAGE_SIZE != 0 {
                    // Mapped page type is different than what was specified in `page_type`.
                    proof {
                        lemma_refused(old_mem, *phys_mem, root, va, page_type, value, update);
                    }
                    return None;
                }
                proof {
                    lemma_frame_aligned(current);
                    if entry & PAGE_PRESENT != 0 && sound {
                        if fresh {
                            assert(entry == 0);
                            lemma_zero_entry();
                        } else {
                            lemma_path_sound_weaken(old_mem, root, va, n_levels as nat, (depth + 2) as nat);
                        }
                    }
                }

                // Go to the next level in paging hierarchy.
                table = current & FRAME_MASK;
                depth += 1;
            } else {
                // We are at the final level of page table.
                // `update` needs to be set if we are going to change already present entry.
                if entry & PAGE_PRESENT == 0 || update {
                    match phys_mem.write_u64(PhysAddr(slot), leaf) {
                        Some(_) => {},
                        None => {
                    proof {
                        lemma_keeps_write(old_mem, cur, *phys_mem, slot, leaf, false, update);
                        lemma_refused(old_mem, *phys_mem, root, va, page_type, value, update);
                        if ts {
                            lemma_walks_unchanged(cur, *phys_mem, root, |a: u64| false);
                            let now = *phys_mem;
                            lemma_chunks_quiet(old_mem, cur, now, root);
                            assert forall|o: u64| #[trigger] other_kept(old_mem, now, root, o) by {
                                lemma_other_free(cur, now, root, o, |a: u64| false);
                                lemma_other_kept_trans(old_mem, cur, now, root, o);
                            }
                        }
                    }
                    return None;
                },
                    }
                    let ghost cur2 = *phys_mem;
                    if self.invalidate_tlb {
                        // Check if we can access this virtual address in current processor mode.
                        let accessible = va <= usize::MAX as u64;

                        // If the entry was already present and virtual address is accessible then
                        // we need to flush TLB.
                        if entry & PAGE_PRESENT != 0 && accessible {
                            phys_mem.invalidate_tlb(virt_addr);
                        }
                    }
                    proof {
                        if !fresh {
                            assert(table_at(old_mem, root, va, depth as nat) == Some(table));
                            assert(leaf_slot(old_mem, root, va, page_type) == Some(slot));
                        } else if sound {
                            lemma_zero_entry();
                        }
                    }
                    proof {
                        let fin = *phys_mem;
                        assert(entry == cur.word(slot));
                        lemma_keeps_write(old_mem, cur, cur2, slot, leaf, true, update);
                        lemma_keeps_same(old_mem, cur2, fin, update);
                        if sound {
                            lemma_leaf_step(cur, cur2, fin, root, va, page_type, depth as nat, table, leaf);
                        }
                        if ts && !add {
                            assert(path_slot(cur, root, va, depth as nat) == slot);
                            assert forall|va2: u64, i: nat| i < levels(page_type) implies #[trigger] table_at(fin, root, va2, i)
                                == table_at(old_mem, root, va2, i) by {
                                lemma_leaf_keeps_upper(cur, cur2, root, va, depth as nat, leaf, va2);
                                lemma_leaf_bits(raw);
                                lemma_leaf_sound(cur, cur2, root, va, depth as nat, leaf);
                                lemma_walks_unchanged(cur2, fin, root, |a: u64| false);
                            }
                        }
                        if ts {
                            lemma_leaf_bits(raw);
                            assert(path_slot(cur, root, va, depth as nat) == slot);
                            lemma_leaf_sound(cur, cur2, root, va, depth as nat, leaf);
                            lemma_walks_unchanged(cur2, fin, root, |a: u64| false);
                            lemma_chunks_leaf(old_mem, cur, cur2, root, va, depth as nat, leaf);
                            lemma_chunks_quiet(old_mem, cur2, fin, root);
                            assert forall|va2: u64|
                                !same_prefix(va2, va, (n_levels - 1) as nat) implies #[trigger] spec_translate(
                                fin,
                                root,
                                va2,
                            ) == spec_translate(old_mem, root, va2) by {
                                lemma_leaf_translate(cur, cur2, root, va, depth as nat, leaf, va2);
                                assert(spec_translate(fin, root, va2) == spec_translate(cur2, root, va2));
                            }
                            assert forall|o: u64| #[trigger] other_kept(old_mem, fin, root, o) by {
                                lemma_other_leaf(cur, cur2, root, o, va, depth as nat, leaf);
                                lemma_other_free(cur2, fin, root, o, |a: u64| false);
                                lemma_other_kept_trans(cur, cur2, fin, root, o);
                                lemma_other_kept_trans(old_mem, cur, fin, root, o);
                            }
                        }
                    }
                    return Some(());
                } else {
                    proof {
                        lemma_refused(old_mem, *phys_mem, root, va, page_type, value, update);
                    }
                    return None;
                }
            }
        }
    }
}


/// What creating a page table that invalidates TLB entries as `invalidate_tlb` says does to
/// memory: on success the root table was taken from free memory, is zeroed, maps nothing and
/// leaves every other table alone; on failure no memory was taken.
pub open spec fn new_table_outcome<M: PhysMem>(
    before: M,
    after: M,
    r: Option<PageTable>,
    invalidate_tlb: bool,
) -> bool {
    &&& keeps_in_use(before, after, false)
    &&& r is None ==> forall|a: u64| a % 8 == 0 ==> #[trigger] after.free(a) == before.free(a)
    &&& r matches Some(pt) ==> {
        &&& pt.invalidates_tlb() == invalidate_tlb
        &&& pt.root() % 4096 == 0
        &&& forall|a: u64|
            a % 8 == 0 && pt.root() <= a < pt.root() + 4096 ==> #[trigger] before.free(a)
                && !after.free(a)
        &&& forall|a: u64| a % 8 == 0 && pt.root() <= a < pt.root() + 4096 ==> #[trigger] after.word(a) == 0
        &&& forall|va: u64| #[trigger] spec_translate(after, pt.root(), va) is None
        &&& forall|va: u64, n: nat| #[trigger] path_sound(after, pt.root(), va, n)
        &&& tables_sound(after, pt.root())
        &&& forall|o: u64| #[trigger] new_root_kept(before, after, pt.root(), o)
    }
}

impl PageTable {
    /// Create a new, empty page table without any mapped memory, taking its root table from
    /// free memory.
    #[verifier::rlimit(50)]
    #[verifier::spinoff_prover]
    pub fn new_advanced<M: PhysMem>(phys_mem: &mut M, invalidate_tlb: bool) -> (r: Option<Self>)
        ensures
            new_table_outcome(*old(phys_mem), *final(phys_mem), r, invalidate_tlb),
    {
        let ghost old_mem = *phys_mem;
        // Allocate empty root table (PML4).
        let table = match phys_mem.alloc_phys_zeroed(4096, 4096) {
            Some(t) => t,
            None => {
                proof {
                    lemma_keeps_alloc(old_mem, old_mem, *phys_mem, None, 4096, false);
                }
                return None;
            },
        };
        proof {
            let m = *phys_mem;
            lemma_keeps_alloc(old_mem, old_mem, m, Some(table), 4096, false);
            let root = table.0;
            assert forall|va: u64| #[trigger] spec_translate(m, root, va) is None by {
                let s = slot_addr(root, va, 0);
                lemma_index_bound(va, 0);
                assert(s % 8 == 0 && in_region(Some(table), 4096, s));
                lemma_zero_entry();
            }
            assert forall|va: u64, n: nat| #[trigger] path_sound(m, root, va, n) by {
                let s = slot_addr(root, va, 0);
                lemma_index_bound(va, 0);
                assert(s % 8 == 0 && in_region(Some(table), 4096, s));
                lemma_zero_entry();
                assert(m.word(s) == 0);
                assert(table_at(m, root, va, 0) == Some(root));
                assert(((1 as nat) - 1) as nat == 0);
                assert(table_at(m, root, va, 1) is None);
                assert forall|i: nat| i < n && (#[trigger] table_at(m, root, va, i)) is Some implies !m.free(
                    path_slot(m, root, va, i),
                ) by {
                    if i > 0 {
                        lemma_table_at_prefix(m, root, va, i, 1);
                    }
                }
                assert forall|i: nat, j: nat|
                    j < i < n && table_at(m, root, va, i) is Some implies #[trigger] path_slot(m, root, va, j)
                    != #[trigger] path_slot(m, root, va, i) by {
                    lemma_table_at_prefix(m, root, va, i, 1);
                }
            }
            lemma_new_entry(root);
            assert forall|o: u64| #[trigger] new_root_kept(old_mem, m, root, o) by {
                lemma_new_root_kept(old_mem, m, table, o);
            }
            assert forall|va: u64, i: nat| i > 0 implies #[trigger] table_at(m, root, va, i) is None by {
                let s = slot_addr(root, va, 0);
                lemma_index_bound(va, 0);
                assert(s % 8 == 0 && in_region(Some(table), 4096, s));
                lemma_zero_entry();
                assert(m.word(s) == 0);
                assert(table_at(m, root, va, 0) == Some(root));
                assert(((1 as nat) - 1) as nat == 0);
                assert(table_at(m, root, va, 1) is None);
                if table_at(m, root, va, i) is Some {
                    lemma_table_at_prefix(m, root, va, i, 1);
                }
            }
            assert forall|va: u64, i: nat|
                i < 4 && (#[trigger] table_at(m, root, va, i)) is Some implies !m.free(
                path_slot(m, root, va, i),
            ) by {
                let s = slot_addr(root, va, 0);
                lemma_index_bound(va, 0);
                assert(s % 8 == 0 && in_region(Some(table), 4096, s));
            }
            assert forall|va1: u64, va2: u64, i: nat, j: nat|
                i < 4 && j < 4 && table_at(m, root, va1, i) is Some && table_at(m, root, va2, j) is Some
                    && #[trigger] path_slot(m, root, va1, i) == #[trigger] path_slot(m, root, va2, j)
                    implies i == j && same_prefix(va1, va2, i) by {
                assert(i == 0 && j == 0);
                lemma_index_bound(va1, 0);
                lemma_index_bound(va2, 0);
                assert(table_at(m, root, va1, 0) == Some(root));
                assert(table_at(m, root, va2, 0) == Some(root));
                assert(va_index(va1, 0) == va_index(va2, 0));
            }
        }
        Some(Self { table, invalidate_tlb })
    }

    /// Create a new, empty page table without any mapped memory, whose modifications
    /// invalidate the TLB.
    pub fn new<M: PhysMem>(phys_mem: &mut M) -> (r: Option<Self>)
        ensures
            new_table_outcome(*old(phys_mem), *final(phys_mem), r, true),
    {
        Self::new_advanced(phys_mem, true)
    }

    /// Set the last level entry that describes `virt_addr` to `raw`, creating missing tables
    /// when `add` is set and replacing a present entry only when `update` is set.
    pub fn map_raw<M: PhysMem>(
        &mut self,
        phys_mem: &mut M,
        virt_addr: VirtAddr,
        page_type: PageType,
        raw: u64,
        add: bool,
        update: bool,
    ) -> (r: Option<()>)
        requires
            raw & DEALLOCATE_FLAG == 0,
        ensures
            *final(self) == *old(self),
            map_outcome(
                *old(phys_mem),
                *final(phys_mem),
                old(self).root(),
                virt_addr.0,
                page_type,
                leaf_value(raw, page_type, false),
                update,
                r,
            ),
            tables_sound(*old(phys_mem), old(self).root()) ==> tables_sound(
                *final(phys_mem),
                old(self).root(),
            ),
            tables_sound(*old(phys_mem), old(self).root()) ==> forall|va2: u64|
                !same_prefix(va2, virt_addr.0, (levels(page_type) - 1) as nat)
                    ==> #[trigger] spec_translate(*final(phys_mem), old(self).root(), va2)
                    == spec_translate(*old(phys_mem), old(self).root(), va2),
            forall|o: u64| #[trigger] other_kept(*old(phys_mem), *final(phys_mem), old(self).root(), o),
            (leaf_slot(*old(phys_mem), old(self).root(), virt_addr.0, page_type) is Some
                && spec_canonical(virt_addr.0) && virt_addr.0 % spec_page_size(page_type) == 0 && (
            update || !leaf_present(*old(phys_mem), old(self).root(), virt_addr.0, page_type)))
                ==> r is Some,
            (!add && r is Some) ==> leaf_slot(
                *old(phys_mem),
                old(self).root(),
                virt_addr.0,
                page_type,
            ) is Some,
            !add ==> forall|a: u64|
                a % 8 == 0 ==> #[trigger] final(phys_mem).readable(a) == old(phys_mem).readable(a),
            (!add && tables_sound(*old(phys_mem), old(self).root())) ==> forall|va2: u64, i: nat|
                i < levels(page_type) ==> #[trigger] table_at(*final(phys_mem), old(self).root(), va2, i)
                    == table_at(*old(phys_mem), old(self).root(), va2, i),
            (leaf_slot(*old(phys_mem), old(self).root(), virt_addr.0, page_type) is Some && r is Some)
                ==> leaf_replaced(
                *old(phys_mem),
                *final(phys_mem),
                leaf_slot(*old(phys_mem), old(self).root(), virt_addr.0, page_type)->0,
                leaf_value(raw, page_type, false),
            ),
            (leaf_slot(*old(phys_mem), old(self).root(), virt_addr.0, page_type) is Some
                || path_sound(*old(phys_mem), old(self).root(), virt_addr.0, levels(page_type)))
                ==> flush_outcome(
                *old(phys_mem),
                *final(phys_mem),
                old(self).root(),
                virt_addr.0,
                page_type,
                update,
                old(self).invalidates_tlb(),
                r,
            ),
            final(phys_mem).flushed() == old(phys_mem).flushed() || (r is Some
                && old(self).invalidates_tlb() && final(phys_mem).flushed() == old(
                phys_mem,
            ).flushed().push(virt_addr.0)),
            (r is Some && present(raw) && tables_sound(*old(phys_mem), old(self).root())) ==> forall|
                o: u64,
            |
                o < spec_page_size(page_type) ==> #[trigger] spec_translate(
                    *final(phys_mem),
                    old(self).root(),
                    (virt_addr.0 + o) as u64,
                ) == Some((frame(raw) + o) as u64),
            tables_sound(*old(phys_mem), old(self).root()) ==> chunks_kept(
                *old(phys_mem),
                *final(phys_mem),
                old(self).root(),
            ),
            (tables_sound(*old(phys_mem), old(self).root()) && virt_addr.0 % spec_page_size(page_type)
                == 0 && virt_addr.0 + spec_page_size(page_type) <= u64::MAX) ==> spec_translate(
                *final(phys_mem),
                old(self).root(),
                (virt_addr.0 + spec_page_size(page_type)) as u64,
            ) == spec_translate(
                *old(phys_mem),
                old(self).root(),
                (virt_addr.0 + spec_page_size(page_type)) as u64,
            ),
            page_lookup(*old(phys_mem), *final(phys_mem), old(self).root(), virt_addr.0, page_type, raw, r),
    {
        let ghost old_mem = *phys_mem;
        let ghost root = self.root();
        let r = self.map_raw_internal(phys_mem, virt_addr, page_type, raw, add, update, false);
        proof {
            let va = virt_addr.0;
            let d = (levels(page_type) - 1) as nat;
            if tables_sound(old_mem, root) {
                lemma_sound_path(old_mem, root, va, levels(page_type));
                if va % spec_page_size(page_type) == 0 && va + spec_page_size(page_type) <= u64::MAX {
                    lemma_page_bits(va, 0, page_type);
                }
                if r is Some && present(raw) {
                    let m = *phys_mem;
                    assert forall|o: u64| o < spec_page_size(page_type) implies #[trigger] spec_translate(
                        m,
                        root,
                        (va + o) as u64,
                    ) == Some((frame(raw) + o) as u64) by {
                        let b = (va + o) as u64;
                        lemma_page_bits(va, o, page_type);
                        lemma_prefix_tables(m, root, va, b, d, d);
                        assert(va_index(va, d as int) == va_index(b, d as int));
                        assert(leaf_slot(m, root, b, page_type) == leaf_slot(m, root, va, page_type));
                        lemma_map_then_translate(m, root, b, page_type, raw, false);
                    }
                }
            }
        }
        r
    }
}


/// What mapping the page of type `t` at `va` to the entry `raw` gives for lookups over sound
/// tables: on success with a present entry, every address of the page translates to the same
/// offset in the frame of `raw`; the next page translates as it did.
pub open spec fn page_lookup<M: PhysMem>(
    before: M,
    after: M,
    root: u64,
    va: u64,
    t: PageType,
    raw: u64,
    r: Option<()>,
) -> bool {
    &&& (r is Some && present(raw) && tables_sound(before, root)) ==> forall|o: u64|
        o < spec_page_size(t) ==> #[trigger] spec_translate(after, root, (va + o) as u64) == Some(
            (frame(raw) + o) as u64,
        )
    &&& (tables_sound(before, root) && va % spec_page_size(t) == 0 && va + spec_page_size(t)
        <= u64::MAX) ==> spec_translate(after, root, (va + spec_page_size(t)) as u64)
        == spec_translate(before, root, (va + spec_page_size(t)) as u64)
}

/// After `map_raw` maps a page of an empty table to a present entry, looking up any address
/// of the page gives the same offset in the entry's frame, and the next page is still not
/// mapped.
pub proof fn lemma_lookup_after_map<M: PhysMem>(
    m0: M,
    m1: M,
    root: u64,
    va: u64,
    t: PageType,
    raw: u64,
)
    requires
        tables_sound(m0, root),
        forall|x: u64| #[trigger] spec_translate(m0, root, x) is None,
        present(raw),
        va % spec_page_size(t) == 0,
        va + spec_page_size(t) <= u64::MAX,
        page_lookup(m0, m1, root, va, t, raw, Some(())),
    ensures
        forall|o: u64|
            o < spec_page_size(t) ==> #[trigger] spec_translate(m1, root, (va + o) as u64) == Some(
                (frame(raw) + o) as u64,
            ),
        spec_translate(m1, root, (va + spec_page_size(t)) as u64) is None,
{
    assert(spec_translate(m0, root, (va + spec_page_size(t)) as u64) is None);
}

/// A table made by `new` invalidates: when `map_raw` later replaces a present entry at an
/// address the processor can reach, that address is added to the invalidation log.
pub proof fn lemma_new_table_flushes<M: PhysMem>(
    m0: M,
    m1: M,
    pt: PageTable,
    m2: M,
    m3: M,
    va: u64,
    t: PageType,
)
    requires
        new_table_outcome(m0, m1, Some(pt), true),
        flush_outcome(m2, m3, pt.root(), va, t, true, pt.invalidates_tlb(), Some(())),
        leaf_present(m2, pt.root(), va, t),
        va <= usize::MAX,
    ensures
        m3.flushed() == m2.flushed().push(va),
{
}

/// A page table keeps its root: over a run of calls that each leave the table as it was (as
/// every mapping, lookup and `table` call does), the root is the one it was made with.
pub proof fn lemma_root_fixed(tables: Seq<PageTable>)
    requires
        tables.len() > 0,
        forall|i: int| 1 <= i < tables.len() ==> #[trigger] tables[i] == tables[i - 1],
    ensures
        forall|i: int| 0 <= i < tables.len() ==> #[trigger] tables[i].root() == tables[0].root(),
    decreases tables.len(),
{
    if tables.len() > 1 {
        let d = tables.drop_last();
        assert forall|i: int| 1 <= i < d.len() implies #[trigger] d[i] == d[i - 1] by {
            assert(tables[i] == tables[i - 1]);
        }
        lemma_root_fixed(d);
        assert forall|i: int| 0 <= i < tables.len() implies #[trigger] tables[i].root() == tables[0].root() by {
            if i < tables.len() - 1 {
                assert(d[i] == tables[i]);
            } else {
                assert(tables[i] == tables[i - 1]);
                assert(d[i - 1] == tables[i - 1]);
            }
        }
    }
}

/// A region at `va` of `size` bytes that cannot be mapped with pages of type `t`: empty, not
/// a whole number of pages, not page aligned, or running past the end of the address space.
pub open spec fn region_refused(va: u64, t: PageType, size: u64) -> bool {
    size == 0 || size % spec_page_size(t) != 0 || va % spec_page_size(t) != 0 || va + size - 1
        > u64::MAX
}

/// Writing a byte into a word that was free keeps memory in use as it was.
proof fn lemma_keeps_byte<M: PhysMem>(old_m: M, cur: M, next: M, w: u64)
    requires
        keeps_in_use(old_m, cur, false),
        old_m.free(w),
        forall|a: u64| a % 8 == 0 ==> #[trigger] next.readable(a) == cur.readable(a),
        forall|a: u64| a % 8 == 0 ==> #[trigger] next.free(a) == cur.free(a),
        forall|a: u64| a % 8 == 0 && a != w ==> #[trigger] next.word(a) == cur.word(a),
    ensures
        keeps_in_use(old_m, next, false),
{
    assert forall|a: u64| a % 8 == 0 && !old_m.free(a) implies !#[trigger] next.free(a) by {
        assert(!cur.free(a));
    }
    assert forall|a: u64| a % 8 == 0 && !old_m.free(a) implies #[trigger] next.readable(a)
        == old_m.readable(a) by {
        assert(!cur.free(a));
    }
    assert forall|a: u64|
        a % 8 == 0 && !old_m.free(a) && present(old_m.word(a)) implies #[trigger] next.word(a)
        == old_m.word(a) by {
        assert(!cur.free(a));
    }
}

proof fn lemma_leaf_flags(page: u64, w: u64, x: u64, u: u64, l: u64)
    requires
        page % 4096 == 0,
        w == 0 || w == 2,
        x == 0 || x == 0x8000_0000_0000_0000,
        u == 0 || u == 4,
        l == 0 || l == 0x80,
        page < PHYS_LIMIT,
    ensures
        (page | 1 | w | x | u | l) & DEALLOCATE_FLAG == 0,
        frame(page | 1 | w | x | u | l) == page,
        present(page | 1 | w | x | u | l),
{
    assert((page % 4096 == 0 && page < 0x0010_0000_0000_0000u64 && (w == 0 || w == 2) && (x == 0
        || x == 0x8000_0000_0000_0000) && (u == 0 || u == 4) && (l == 0 || l == 0x80)) ==> ((page
        | 1 | w | x | u | l) & 0x200 == 0 && (page | 1 | w | x | u | l) & 0xffffffffff000u64
        == page && (page | 1 | w | x | u | l) & 1 != 0)) by (bit_vector);
}

/// Last level entry that maps a page of type `t` at physical `page` with the given access
/// rights; the page belongs to the table and is freed with it.
pub open spec fn region_entry(page: u64, write: bool, exec: bool, user: bool, t: PageType) -> u64 {
    leaf_value(
        page | PAGE_PRESENT | (if write {
            PAGE_WRITE
        } else {
            0
        }) | (if exec {
            0
        } else {
            PAGE_NX
        }) | (if user {
            PAGE_USER
        } else {
            0
        }) | (if t != PageType::Page4K {
            PAGE_SIZE
        } else {
            0
        }),
        t,
        true,
    )
}

/// The last level entry that maps `va` with a page of type `t` points to its page with the
/// given access rights.
pub open spec fn page_entry_is<M: PhysMem>(
    m: M,
    root: u64,
    va: u64,
    t: PageType,
    write: bool,
    exec: bool,
    user: bool,
) -> bool {
    leaf_slot(m, root, va, t) matches Some(s) && m.word(s) == region_entry(
        frame(m.word(s)),
        write,
        exec,
        user,
        t,
    )
}

/// The access bits of a last level entry built from the frame of `e` and the flag values
/// `w`, `x`, `u`, `l`, with the deallocation flag and, for a large page, the size flag `s`.
proof fn lemma_entry_access_bits(e: u64, w: u64, x: u64, u: u64, l: u64, s: u64)
    by (bit_vector)
    requires
        w == 0 || w == 2,
        x == 0 || x == 0x8000_0000_0000_0000,
        u == 0 || u == 4,
        l == 0 || l == 0x80,
        s == 0x80,
    ensures
        ((((e & 0xffffffffff000u64) | 1 | w | x | u | l) | 0x200u64) & 0x8000_0000_0000_0000u64
            == 0) == (x == 0),
        ((((e & 0xffffffffff000u64) | 1 | w | x | u | l) | 0x200u64) & 2 != 0) == (w == 2),
        ((((e & 0xffffffffff000u64) | 1 | w | x | u | l) | 0x200u64) & 4 != 0) == (u == 4),
        (((e & 0xffffffffff000u64) | 1 | w | x | u | l) | 0x200u64) & 1 != 0,
        (((((e & 0xffffffffff000u64) | 1 | w | x | u | l) | 0x200u64) | s) & 0x8000_0000_0000_0000u64
            == 0) == (x == 0),
        (((((e & 0xffffffffff000u64) | 1 | w | x | u | l) | 0x200u64) | s) & 2 != 0) == (w == 2),
        (((((e & 0xffffffffff000u64) | 1 | w | x | u | l) | 0x200u64) | s) & 4 != 0) == (u == 4),
        ((((e & 0xffffffffff000u64) | 1 | w | x | u | l) | 0x200u64) | s) & 1 != 0,
{
}

/// Every last level entry that `map` or `map_init` leaves for a page of the region is
/// present, lets code run from the page (its NX bit, bit 63, clear) exactly when the region
/// was mapped executable, lets the page be written (bit 1) exactly when it was mapped
/// writable, and lets user mode reach it (bit 2) exactly when it was mapped for users.
pub proof fn lemma_mapped_access<M: PhysMem>(
    m: M,
    root: u64,
    va: u64,
    len: u64,
    t: PageType,
    write: bool,
    exec: bool,
    user: bool,
    pva: u64,
)
    requires
        region_entries(m, root, va, len, t, write, exec, user),
        va <= pva < va + len,
        pva % spec_page_size(t) == 0,
    ensures
        leaf_slot(m, root, pva, t) is Some,
        (m.word(leaf_slot(m, root, pva, t)->0) & 0x8000_0000_0000_0000u64 == 0) == exec,
        (m.word(leaf_slot(m, root, pva, t)->0) & 0x2u64 != 0) == write,
        (m.word(leaf_slot(m, root, pva, t)->0) & 0x4u64 != 0) == user,
        m.word(leaf_slot(m, root, pva, t)->0) & 0x1u64 != 0,
{
    assert(page_entry_is(m, root, pva, t, write, exec, user));
    let e = m.word(leaf_slot(m, root, pva, t)->0);
    let w: u64 = if write { PAGE_WRITE } else { 0 };
    let x: u64 = if exec { 0 } else { PAGE_NX };
    let u: u64 = if user { PAGE_USER } else { 0 };
    let l: u64 = if t != PageType::Page4K { PAGE_SIZE } else { 0 };
    lemma_entry_access_bits(e, w, x, u, l, PAGE_SIZE);
}

/// Every page of `size` bytes in the region of `len` bytes at `va` is mapped by a last level
/// entry with the given access rights.
pub open spec fn region_entries<M: PhysMem>(
    m: M,
    root: u64,
    va: u64,
    len: u64,
    t: PageType,
    write: bool,
    exec: bool,
    user: bool,
) -> bool {
    forall|pva: u64|
        va <= pva < va + len && pva % spec_page_size(t) == 0 ==> #[trigger] page_entry_is(
            m,
            root,
            pva,
            t,
            write,
            exec,
            user,
        )
}

/// A present last level entry on a walk whose entries are in use survives any change that
/// keeps memory in use as it was.
proof fn lemma_leaf_kept<M: PhysMem>(m1: M, m2: M, root: u64, va: u64, t: PageType, v: u64)
    requires
        keeps_in_use(m1, m2, false),
        root % 4096 == 0,
        root <= FRAME_MASK,
        path_sound(m1, root, va, levels(t)),
        leaf_holds(m1, root, va, t, v),
        present(v),
    ensures
        leaf_holds(m2, root, va, t, v),
{
    let last = (levels(t) - 1) as nat;
    assert forall|i: nat| i < last && (#[trigger] table_at(m1, root, va, i)) is Some implies {
        &&& m2.readable(path_slot(m1, root, va, i)) == m1.readable(path_slot(m1, root, va, i))
        &&& m2.word(path_slot(m1, root, va, i)) == m1.word(path_slot(m1, root, va, i))
    } by {
        lemma_path_aligned(m1, root, va, i);
        lemma_table_at_prefix(m1, root, va, last, i + 1);
        assert(table_at(m1, root, va, i + 1) is Some);
    }
    lemma_table_at_stable(m1, m2, root, va, last);
    lemma_path_aligned(m1, root, va, last);
    assert(table_at(m2, root, va, last) == table_at(m1, root, va, last));
}

/// The entries of a mapped region survive any change that keeps memory in use as it was.
pub(crate) proof fn lemma_entries_kept<M: PhysMem>(
    m1: M,
    m2: M,
    root: u64,
    va: u64,
    len: u64,
    t: PageType,
    write: bool,
    exec: bool,
    user: bool,
)
    requires
        keeps_in_use(m1, m2, false),
        root % 4096 == 0,
        root <= FRAME_MASK,
        tables_sound(m1, root),
        region_entries(m1, root, va, len, t, write, exec, user),
    ensures
        region_entries(m2, root, va, len, t, write, exec, user),
{
    assert forall|pva: u64| va <= pva < va + len && pva % spec_page_size(t) == 0 implies #[trigger] page_entry_is(
        m2,
        root,
        pva,
        t,
        write,
        exec,
        user,
    ) by {
        assert(page_entry_is(m1, root, pva, t, write, exec, user));
        let vv = m1.word(leaf_slot(m1, root, pva, t)->0);
        let f = frame(vv);
        lemma_frame_aligned(vv);
        let w: u64 = if write { PAGE_WRITE } else { 0 };
        let x: u64 = if exec { 0 } else { PAGE_NX };
        let u: u64 = if user { PAGE_USER } else { 0 };
        let l: u64 = if t != PageType::Page4K { PAGE_SIZE } else { 0 };
        lemma_leaf_flags(f, w, x, u, l);
        lemma_leaf_bits(f | 1 | w | x | u | l);
        lemma_sound_path(m1, root, pva, levels(t));
        lemma_leaf_kept(m1, m2, root, pva, t, vv);
    }
}

/// Every page of `size` bytes in the region of `len` bytes at `va` translates to memory
/// whose words are all zero.
pub open spec fn region_zeroed<M: PhysMem>(m: M, root: u64, va: u64, len: u64, size: u64) -> bool {
    forall|pva: u64, a: u64|
        #![trigger spec_translate(m, root, pva), m.word(a)]
        va <= pva < va + len && pva % size == 0 && a % 8 == 0 && spec_translate(m, root, pva)->0
            <= a < spec_translate(m, root, pva)->0 + size ==> m.word(a) == 0
}

/// The page of `size` bytes at `p` is made of chunks apart, and its words are all zero.
spec fn page_apart<M: PhysMem>(m: M, root: u64, p: u64, size: u64) -> bool {
    &&& forall|c: u64| p <= c < p + size && c % 4096 == 0 ==> #[trigger] chunk_apart(m, root, c)
    &&& forall|a: u64| a % 8 == 0 && p <= a < p + size ==> #[trigger] m.word(a) == 0
}

pub(crate) proof fn lemma_chunks_refl<M: PhysMem>(m: M, root: u64)
    ensures
        chunks_kept(m, m, root),
{
    reveal(chunks_kept);
}

pub(crate) proof fn lemma_chunks_trans<M: PhysMem>(m0: M, m1: M, m2: M, root: u64)
    requires
        chunks_kept(m0, m1, root),
        chunks_kept(m1, m2, root),
    ensures
        chunks_kept(m0, m2, root),
{
    reveal(chunks_kept);
    assert forall|c: u64| #[trigger] chunk_apart(m0, root, c) implies chunk_apart(m2, root, c) && forall|a: u64|
        a % 8 == 0 && c <= a < c + 4096 ==> #[trigger] m2.word(a) == m0.word(a) by {
        assert(chunk_apart(m1, root, c));
        assert forall|a: u64| a % 8 == 0 && c <= a < c + 4096 implies #[trigger] m2.word(a) == m0.word(a) by {
            assert(m1.word(a) == m0.word(a));
        }
    }
}

/// A page apart stays apart, and zero, while the chunks are kept.
proof fn lemma_page_kept<M: PhysMem>(m0: M, m1: M, root: u64, p: u64, size: u64)
    requires
        chunks_kept(m0, m1, root),
        page_apart(m0, root, p, size),
        p % 4096 == 0,
    ensures
        page_apart(m1, root, p, size),
{
    reveal(chunks_kept);
    assert forall|c: u64| p <= c < p + size && c % 4096 == 0 implies #[trigger] chunk_apart(m1, root, c) by {
        assert(chunk_apart(m0, root, c));
    }
    assert forall|a: u64| a % 8 == 0 && p <= a < p + size implies #[trigger] m1.word(a) == 0 by {
        let c = (a - a % 4096) as u64;
        assert(c % 4096 == 0 && p <= c <= a < c + 4096);
        assert(chunk_apart(m0, root, c));
        assert(m1.word(a) == m0.word(a));
    }
}

/// A zeroed page in use that no walk reads is a page apart.
proof fn lemma_page_apart_new<M: PhysMem>(m: M, root: u64, p: u64, size: u64, x: spec_fn(u64) -> bool)
    requires
        p % 4096 == 0,
        size % 4096 == 0,
        forall|a: u64| #[trigger] x(a) == (p <= a < p + size),
        walks_avoid(m, root, x),
        forall|a: u64| a % 8 == 0 && p <= a < p + size ==> !#[trigger] m.free(a),
        forall|a: u64| a % 8 == 0 && p <= a < p + size ==> #[trigger] m.word(a) == 0,
    ensures
        page_apart(m, root, p, size),
{
    assert forall|c: u64| p <= c < p + size && c % 4096 == 0 implies #[trigger] chunk_apart(m, root, c) by {
        assert(c + 4096 <= p + size) by {
            assert((p + size) % 4096 == 0);
        }
        assert forall|va: u64, i: nat| i < 4 && (#[trigger] table_at(m, root, va, i)) is Some implies !in_table(c)(
            path_slot(m, root, va, i),
        ) by {
            assert(!x(path_slot(m, root, va, i)));
        }
    }
}

/// The byte at offset `k` of the page that `pva` maps to holds what `init` gives for its
/// offset in the region at `va`.
pub open spec fn byte_filled<M: PhysMem, F: Fn(u64) -> u8>(
    m: M,
    root: u64,
    va: u64,
    pva: u64,
    k: u64,
    init: F,
) -> bool {
    call_ensures(
        init,
        ((pva - va + k) as u64,),
        mem_byte(m, (spec_translate(m, root, pva)->0 + k) as u64),
    )
}

/// Every byte of the pages of `size` bytes in the region of `len` bytes at `va` holds what
/// `init` gives for its offset in the region.
pub open spec fn region_filled<M: PhysMem, F: Fn(u64) -> u8>(
    m: M,
    root: u64,
    va: u64,
    len: u64,
    size: u64,
    init: F,
) -> bool {
    forall|pva: u64, k: u64|
        va <= pva < va + len && pva % size == 0 && k < size ==> #[trigger] byte_filled(
            m,
            root,
            va,
            pva,
            k,
            init,
        )
}

/// The byte at offset `k` of the page at `p` holds what `init` gives for offset `off + k`.
spec fn init_byte<M: PhysMem, F: Fn(u64) -> u8>(m: M, p: u64, off: u64, k: u64, init: F) -> bool {
    call_ensures(init, ((off + k) as u64,), mem_byte(m, (p + k) as u64))
}

/// The page of `size` bytes at `p` is made of chunks apart.
spec fn page_chunks<M: PhysMem>(m: M, root: u64, p: u64, size: u64) -> bool {
    forall|c: u64| p <= c < p + size && c % 4096 == 0 ==> #[trigger] chunk_apart(m, root, c)
}

/// Changes that leave the walks where they were and touch only words that were free in
/// `m0` keep the chunks of `m0`.
proof fn lemma_chunks_quiet_from<M: PhysMem>(m0: M, m1: M, m2: M, root: u64)
    requires
        chunks_kept(m0, m1, root),
        forall|va: u64, i: nat| i <= 4 ==> #[trigger] table_at(m2, root, va, i) == table_at(m1, root, va, i),
        forall|a: u64| a % 8 == 0 && !m0.free(a) ==> #[trigger] m2.word(a) == m1.word(a),
        forall|a: u64| a % 8 == 0 && !m0.free(a) ==> #[trigger] m2.free(a) == m1.free(a),
    ensures
        chunks_kept(m0, m2, root),
{
    reveal(chunks_kept);
    assert forall|c: u64| #[trigger] chunk_apart(m0, root, c) implies chunk_apart(m2, root, c) && forall|a: u64|
        a % 8 == 0 && c <= a < c + 4096 ==> #[trigger] m2.word(a) == m0.word(a) by {
        assert(chunk_apart(m1, root, c));
        lemma_chunk_stays(m1, m2, root, c);
        assert forall|a: u64| a % 8 == 0 && c <= a < c + 4096 implies #[trigger] m2.word(a) == m0.word(a) by {
            assert(!m0.free(a));
            assert(m1.word(a) == m0.word(a));
        }
    }
}

/// The chunks of a page apart stay apart, and its bytes as they were, while the chunks are
/// kept.
#[verifier::spinoff_prover]
proof fn lemma_page_chunks_kept<M: PhysMem>(m0: M, m1: M, root: u64, p: u64, size: u64)
    requires
        chunks_kept(m0, m1, root),
        page_chunks(m0, root, p, size),
        p % 4096 == 0,
        p % 8 == 0,
    ensures
        page_chunks(m1, root, p, size),
        forall|a: u64| p <= a < p + size ==> #[trigger] mem_byte(m1, a) == mem_byte(m0, a),
{
    reveal(chunks_kept);
    assert forall|c: u64| p <= c < p + size && c % 4096 == 0 implies #[trigger] chunk_apart(m1, root, c) by {
        assert(chunk_apart(m0, root, c));
    }
    assert forall|a: u64| p <= a < p + size implies #[trigger] mem_byte(m1, a) == mem_byte(m0, a) by {
        let wd = (a - a % 8) as u64;
        let c = (wd - wd % 4096) as u64;
        assert(c % 4096 == 0 && p <= c <= wd < c + 4096 && wd % 8 == 0);
        assert(chunk_apart(m0, root, c));
        assert(m1.word(wd) == m0.word(wd));
    }
}

/// A page in use that no walk reads is made of chunks apart.
proof fn lemma_page_chunks_new<M: PhysMem>(m: M, root: u64, p: u64, size: u64, x: spec_fn(u64) -> bool)
    requires
        p % 4096 == 0,
        size % 4096 == 0,
        forall|a: u64| #[trigger] x(a) == (p <= a < p + size),
        walks_avoid(m, root, x),
        forall|a: u64| a % 8 == 0 && p <= a < p + size ==> !#[trigger] m.free(a),
    ensures
        page_chunks(m, root, p, size),
{
    assert forall|c: u64| p <= c < p + size && c % 4096 == 0 implies #[trigger] chunk_apart(m, root, c) by {
        assert(c + 4096 <= p + size) by {
            assert((p + size) % 4096 == 0);
        }
        assert forall|va: u64, i: nat| i < 4 && (#[trigger] table_at(m, root, va, i)) is Some implies !in_table(c)(
            path_slot(m, root, va, i),
        ) by {
            assert(!x(path_slot(m, root, va, i)));
        }
    }
}

/// The pages of `size` bytes that `root` maps for the region of `len` bytes at `va` are in
/// use, and no walk from `o` reads an entry in them.
pub closed spec fn region_apart_from<M: PhysMem>(
    m: M,
    root: u64,
    o: u64,
    va: u64,
    len: u64,
    size: u64,
) -> bool {
    forall|pva: u64|
        va <= pva < va + len && pva % size == 0 ==> #[trigger] page_chunks(
            m,
            o,
            spec_translate(m, root, pva)->0,
            size,
        )
}

/// Pages that were free in `before` are apart from any sound table whose walks stayed
/// where they were.
pub(crate) proof fn lemma_fresh_apart_from<M: PhysMem>(
    before: M,
    after: M,
    root: u64,
    o: u64,
    va: u64,
    len: u64,
    t: PageType,
)
    requires
        o % 4096 == 0,
        o <= FRAME_MASK,
        tables_sound(before, o),
        forall|v: u64, i: nat| i <= 4 ==> #[trigger] table_at(after, o, v, i) == table_at(before, o, v, i),
        maps_fresh_region(before, after, root, va, len, spec_page_size(t)),
    ensures
        region_apart_from(after, root, o, va, len, spec_page_size(t)),
{
    let size = spec_page_size(t);
    assert forall|pva: u64| va <= pva < va + len && pva % size == 0 implies #[trigger] page_chunks(
        after,
        o,
        spec_translate(after, root, pva)->0,
        size,
    ) by {
        assert(maps_fresh_page(before, after, root, pva, size));
        let p = spec_translate(after, root, pva)->0;
        lemma_page_aligned(p, t);
        let x = |a: u64| p <= a < p + size;
        assert forall|a: u64| a % 8 == 0 && p <= a < p + size implies !#[trigger] after.free(a) by {
            assert(before.free(a));
        }
        lemma_free_avoided(before, o, x);
        assert forall|v: u64, i: nat| i < 4 && (#[trigger] table_at(after, o, v, i)) is Some implies !x(
            path_slot(after, o, v, i),
        ) by {
            assert(table_at(after, o, v, i) == table_at(before, o, v, i));
        }
        assert(size % 4096 == 0);
        lemma_page_chunks_new(after, o, p, size, x);
    }
}

/// Pages apart from the walks of `r` and `o` stay apart from `o`, with their bytes as they
/// were, across a change that keeps the chunks apart from `r`, leaves the walks of `o` (if
/// it is another table) and the translations of `root` alone.
pub(crate) proof fn lemma_region_kept<M: PhysMem>(
    m0: M,
    m1: M,
    root: u64,
    r: u64,
    o: u64,
    va: u64,
    len: u64,
    t: PageType,
)
    requires
        chunks_kept(m0, m1, r),
        region_apart_from(m0, root, r, va, len, spec_page_size(t)),
        region_apart_from(m0, root, o, va, len, spec_page_size(t)),
        o != r ==> forall|v: u64, i: nat| i <= 4 ==> #[trigger] table_at(m1, o, v, i) == table_at(m0, o, v, i),
        forall|pva: u64|
            va <= pva < va + len && pva % spec_page_size(t) == 0 ==> #[trigger] spec_translate(m1, root, pva)
                == spec_translate(m0, root, pva),
        forall|pva: u64|
            va <= pva < va + len && pva % spec_page_size(t) == 0 ==> (#[trigger] spec_translate(m0, root, pva)->0)
                % spec_page_size(t) == 0,
    ensures
        region_apart_from(m1, root, o, va, len, spec_page_size(t)),
        forall|pva: u64, k: u64|
            va <= pva < va + len && pva % spec_page_size(t) == 0 && k < spec_page_size(t) ==> #[trigger] mem_byte(
                m1,
                (spec_translate(m1, root, pva)->0 + k) as u64,
            ) == mem_byte(m0, (spec_translate(m0, root, pva)->0 + k) as u64),
{
    let size = spec_page_size(t);
    assert forall|pva: u64| va <= pva < va + len && pva % size == 0 implies #[trigger] page_chunks(
        m1,
        o,
        spec_translate(m1, root, pva)->0,
        size,
    ) by {
        let p = spec_translate(m0, root, pva)->0;
        assert(spec_translate(m1, root, pva) == spec_translate(m0, root, pva));
        assert(page_chunks(m0, r, p, size));
        assert(page_chunks(m0, o, p, size));
        lemma_page_aligned(p, t);
        lemma_page_chunks_kept(m0, m1, r, p, size);
        if o != r {
            reveal(chunks_kept);
            assert forall|c: u64| p <= c < p + size && c % 4096 == 0 implies #[trigger] chunk_apart(m1, o, c) by {
                assert(chunk_apart(m0, o, c));
                assert(chunk_apart(m0, r, c));
                assert(chunk_apart(m1, r, c));
                lemma_chunk_stays(m0, m1, o, c);
            }
        }
    }
    assert forall|pva: u64, k: u64|
        va <= pva < va + len && pva % size == 0 && k < size implies #[trigger] mem_byte(
        m1,
        (spec_translate(m1, root, pva)->0 + k) as u64,
    ) == mem_byte(m0, (spec_translate(m0, root, pva)->0 + k) as u64) by {
        let p = spec_translate(m0, root, pva)->0;
        assert(spec_translate(m1, root, pva) == spec_translate(m0, root, pva));
        assert(page_chunks(m0, r, p, size));
        lemma_page_aligned(p, t);
        lemma_page_chunks_kept(m0, m1, r, p, size);
        assert(p <= ((p + k) as u64) && ((p + k) as u64) < p + size);
    }
}

/// A multiple of `ps` is the only one in the `ps` bytes from it.
pub(crate) proof fn lemma_aligned_step(a: u64, b: u64, ps: u64)
    requires
        ps > 0,
        a % ps == 0,
        b % ps == 0,
        a <= b,
        b < a + ps,
    ensures
        b == a,
{
    let qa = a / ps;
    let qb = b / ps;
    assert(a == qa * ps && b == qb * ps) by (nonlinear_arith)
        requires
            ps > 0,
            a % ps == 0,
            b % ps == 0,
            qa == a / ps,
            qb == b / ps,
    ;
    assert(qb == qa) by (nonlinear_arith)
        requires
            ps > 0,
            a == qa * ps,
            b == qb * ps,
            a <= b,
            b < a + ps,
            qa >= 0,
            qb >= 0,
    ;
}

/// The sum of two multiples of `ps` is one.
pub(crate) proof fn lemma_add_aligned(a: u64, b: u64, ps: u64)
    requires
        ps > 0,
        a % ps == 0,
        (b as int) % (ps as int) == 0,
        a + b <= u64::MAX,
    ensures
        (a + b) as u64 % ps == 0,
{
    let qa = a / ps;
    let qb = b / ps;
    assert(a == qa * ps && b == qb * ps) by (nonlinear_arith)
        requires
            ps > 0,
            a % ps == 0,
            b % ps == 0,
            qa == a / ps,
            qb == b / ps,
    ;
    assert((a + b) % (ps as int) == 0) by (nonlinear_arith)
        requires
            ps > 0,
            a == qa * ps,
            b == qb * ps,
    {
        assert(a + b == (qa + qb) * ps);
    }
}

/// Steps that keep every translation and keep memory in use keep the pages of a region
/// mapped and fresh.
proof fn lemma_fresh_kept<M: PhysMem>(
    before: M,
    m1: M,
    m2: M,
    root: u64,
    va: u64,
    len: u64,
    ps: u64,
)
    requires
        maps_fresh_region(before, m1, root, va, len, ps),
        forall|pva: u64| #[trigger] spec_translate(m2, root, pva) == spec_translate(m1, root, pva),
        forall|a: u64| a % 8 == 0 && !m1.free(a) ==> !#[trigger] m2.free(a),
    ensures
        maps_fresh_region(before, m2, root, va, len, ps),
{
    assert forall|pva: u64|
        va <= pva < va + len && pva % ps == 0 implies #[trigger] maps_fresh_page(
        before,
        m2,
        root,
        pva,
        ps,
    ) by {
        assert(maps_fresh_page(before, m1, root, pva, ps));
        assert(spec_translate(m2, root, pva) == spec_translate(m1, root, pva));
    }
    assert forall|p1: u64, p2: u64|
        va <= p1 < va + len && va <= p2 < va + len && p1 % ps == 0 && p2 % ps == 0 && p1 != p2
            implies #[trigger] spec_translate(m2, root, p1) != #[trigger] spec_translate(
        m2,
        root,
        p2,
    ) by {
        assert(maps_fresh_page(before, m1, root, p1, ps));
        assert(maps_fresh_page(before, m1, root, p2, ps));
    }
}

/// Mapping another page keeps the pages of a region mapped by sound tables mapped and fresh.
proof fn lemma_fresh_kept_map<M: PhysMem>(
    before: M,
    m1: M,
    m2: M,
    root: u64,
    va: u64,
    len: u64,
    ps: u64,
)
    requires
        root % 4096 == 0,
        root <= FRAME_MASK,
        tables_sound(m1, root),
        keeps_in_use(m1, m2, false),
        maps_fresh_region(before, m1, root, va, len, ps),
    ensures
        maps_fresh_region(before, m2, root, va, len, ps),
        forall|pva: u64|
            va <= pva < va + len && pva % ps == 0 ==> #[trigger] spec_translate(m2, root, pva)
                == spec_translate(m1, root, pva),
{
    assert forall|pva: u64|
        va <= pva < va + len && pva % ps == 0 implies #[trigger] spec_translate(m2, root, pva)
        == spec_translate(m1, root, pva) by {
        assert(maps_fresh_page(before, m1, root, pva, ps));
        assert(table_at(m1, root, pva, 0) == Some(root));
        lemma_walk_in_use(m1, root, pva, 0);
        lemma_translation_kept(m1, m2, root, pva);
    }
    assert forall|pva: u64|
        va <= pva < va + len && pva % ps == 0 implies #[trigger] maps_fresh_page(
        before,
        m2,
        root,
        pva,
        ps,
    ) by {
        assert(maps_fresh_page(before, m1, root, pva, ps));
        assert(spec_translate(m2, root, pva) == spec_translate(m1, root, pva));
    }
    assert forall|p1: u64, p2: u64|
        va <= p1 < va + len && va <= p2 < va + len && p1 % ps == 0 && p2 % ps == 0 && p1 != p2
            implies #[trigger] spec_translate(m2, root, p1) != #[trigger] spec_translate(
        m2,
        root,
        p2,
    ) by {
        assert(spec_translate(m2, root, p1) == spec_translate(m1, root, p1));
        assert(spec_translate(m2, root, p2) == spec_translate(m1, root, p2));
        assert(maps_fresh_page(before, m1, root, p1, ps));
        assert(maps_fresh_page(before, m1, root, p2, ps));
    }
}

/// A fresh page at the end of a region whose translation differs from every page before it
/// extends the region by one page.
proof fn lemma_fresh_extend<M: PhysMem>(
    before: M,
    m: M,
    root: u64,
    va: u64,
    len: u64,
    ps: u64,
)
    requires
        ps > 0,
        va % ps == 0,
        (len as int) % (ps as int) == 0,
        va + len + ps <= u64::MAX + 1,
        maps_fresh_region(before, m, root, va, len, ps),
        maps_fresh_page(before, m, root, (va + len) as u64, ps),
        forall|pva: u64|
            va <= pva < va + len && pva % ps == 0 ==> #[trigger] spec_translate(m, root, pva)
                != spec_translate(m, root, (va + len) as u64),
    ensures
        maps_fresh_region(before, m, root, va, (len + ps) as u64, ps),
{
    let cur = (va + len) as u64;
    lemma_add_aligned(va, len, ps);
    assert forall|pva: u64|
        va <= pva < va + (len + ps) && pva % ps == 0 implies #[trigger] maps_fresh_page(
        before,
        m,
        root,
        pva,
        ps,
    ) by {
        if pva >= va + len {
            lemma_aligned_step(cur, pva, ps);
        }
    }
    assert forall|p1: u64, p2: u64|
        va <= p1 < va + (len + ps) && va <= p2 < va + (len + ps) && p1 % ps == 0 && p2 % ps
            == 0 && p1 != p2 implies #[trigger] spec_translate(m, root, p1)
        != #[trigger] spec_translate(m, root, p2) by {
        if p1 >= va + len {
            lemma_aligned_step(cur, p1, ps);
        }
        if p2 >= va + len {
            lemma_aligned_step(cur, p2, ps);
        }
        if p1 < va + len && p2 < va + len {
            assert(maps_fresh_page(before, m, root, p1, ps));
            assert(maps_fresh_page(before, m, root, p2, ps));
        }
    }
}

proof fn lemma_next_page(offset: u64, size: u64, ps: u64)
    requires
        ps > 0,
        (offset as int) % (ps as int) == 0,
        (size as int) % (ps as int) == 0,
        offset < size,
    ensures
        offset + ps <= size,
        (offset + ps) % (ps as int) == 0,
{
    let q1 = offset as int / ps as int;
    let q2 = size as int / ps as int;
    assert(offset == q1 * ps && size == q2 * ps) by (nonlinear_arith)
        requires
            ps > 0,
            (offset as int) % (ps as int) == 0,
            (size as int) % (ps as int) == 0,
            q1 == offset as int / ps as int,
            q2 == size as int / ps as int,
    ;
    assert(offset + ps <= size) by (nonlinear_arith)
        requires
            ps > 0,
            offset == q1 * ps,
            size == q2 * ps,
            offset < size,
    ;
    assert((offset + ps) % (ps as int) == 0) by (nonlinear_arith)
        requires
            ps > 0,
            offset == q1 * ps,
    {
        assert(offset + ps == (q1 + 1) * ps);
    }
}

pub(crate) proof fn lemma_page_aligned(p: u64, t: PageType)
    requires
        p % spec_page_size(t) == 0,
    ensures
        p % 8 == 0,
        p % 4096 == 0,
{
    assert(p % 0x1000 == 0 ==> p % 8 == 0) by (nonlinear_arith);
    assert(p % 0x20_0000 == 0 ==> p % 8 == 0 && p % 4096 == 0) by (nonlinear_arith);
    assert(p % 0x4000_0000 == 0 ==> p % 8 == 0 && p % 4096 == 0) by (nonlinear_arith);
}

impl PageTable {
    /// Map the region at `virt_addr` of `size` bytes with fresh pages, filling each page from
    /// `init` (given the offset in the region) when `use_init` is set. Every page is marked
    /// to be freed when the page table is destroyed.
    #[verifier::rlimit(80)]
    #[verifier::spinoff_prover]
    fn map_region<M: PhysMem, F: Fn(u64) -> u8>(
        &mut self,
        phys_mem: &mut M,
        virt_addr: VirtAddr,
        page_type: PageType,
        size: u64,
        write: bool,
        exec: bool,
        user: bool,
        init: &F,
        use_init: bool,
    ) -> (r: Option<()>)
        requires
            use_init ==> forall|x: u64| init.requires((x,)),
        ensures
            *final(self) == *old(self),
            region_refused(virt_addr.0, page_type, size) ==> (r is None && *final(phys_mem) == *old(
                phys_mem,
            )),
            keeps_in_use(*old(phys_mem), *final(phys_mem), false),
            tables_sound(*old(phys_mem), old(self).root()) ==> tables_sound(
                *final(phys_mem),
                old(self).root(),
            ),
            (r is Some && tables_sound(*old(phys_mem), old(self).root())) ==> maps_fresh_region(
                *old(phys_mem),
                *final(phys_mem),
                old(self).root(),
                virt_addr.0,
                size,
                spec_page_size(page_type),
            ),
            forall|o: u64| #[trigger] other_kept(*old(phys_mem), *final(phys_mem), old(self).root(), o),
            (r is Some && tables_sound(*old(phys_mem), old(self).root())) ==> region_entries(
                *final(phys_mem),
                old(self).root(),
                virt_addr.0,
                size,
                page_type,
                write,
                exec,
                user,
            ),            (r is Some && tables_sound(*old(phys_mem), old(self).root())) ==> chunks_kept(
                *old(phys_mem),
                *final(phys_mem),
                old(self).root(),
            ),
            (r is Some && tables_sound(*old(phys_mem), old(self).root())) ==> region_apart_from(
                *final(phys_mem),
                old(self).root(),
                old(self).root(),
                virt_addr.0,
                size,
                spec_page_size(page_type),
            ),
            (r is Some && tables_sound(*old(phys_mem), old(self).root()) && use_init)
                ==> region_filled(
                *final(phys_mem),
                old(self).root(),
                virt_addr.0,
                size,
                spec_page_size(page_type),
                *init,
            ),
            (r is Some && tables_sound(*old(phys_mem), old(self).root()) && !use_init)
                ==> region_zeroed(
                *final(phys_mem),
                old(self).root(),
                virt_addr.0,
                size,
                spec_page_size(page_type),
            ),
    {
        proof {
            use_type_invariant(&*self);
        }
        let ghost old_mem = *phys_mem;
        let ghost root = self.root();
        let ghost ts = tables_sound(old_mem, root);
        proof {
            lemma_chunks_refl(old_mem, root);
        }
        let page_size = page_type.size();
        let page_mask = page_size - 1;
        proof {
            lemma_page_mask(size, page_type);
            lemma_page_mask(virt_addr.0, page_type);
            lemma_keeps_same(old_mem, old_mem, old_mem, false);
        }

        // Make sure both virtual address and size are correctly aligned.
        if size == 0 || size & page_mask != 0 || virt_addr.0 & page_mask != 0 {
            return None;
        }

        // If page size is not standard 4K we will need to use PAGE_SIZE bit.
        let large = page_type != PageType::Page4K;

        // Make sure that the end of the virtual region doesn't overflow.
        if virt_addr.0 > u64::MAX - (size - 1) {
            return None;
        }
        let mut offset: u64 = 0;
        while offset < size
            invariant
                *self == *old(self),
                root == self.root(),
                root % 4096 == 0,
                root <= FRAME_MASK,
                page_size == spec_page_size(page_type),
                page_size >= 4096,
                page_size % 4096 == 0,
                (size as int) % (page_size as int) == 0,
                (offset as int) % (page_size as int) == 0,
                virt_addr.0 % page_size == 0,
                offset <= size,
                old_mem == *old(phys_mem),
                !region_refused(virt_addr.0, page_type, size),
                virt_addr.0 + size - 1 <= u64::MAX,
                large == (page_type != PageType::Page4K),
                use_init ==> forall|x: u64| init.requires((x,)),
                keeps_in_use(old_mem, *phys_mem, false),
                ts == tables_sound(old_mem, root),
                ts ==> tables_sound(*phys_mem, root),
                ts ==> maps_fresh_region(old_mem, *phys_mem, root, virt_addr.0, offset, page_size),
                ts ==> region_entries(*phys_mem, root, virt_addr.0, offset, page_type, write, exec, user),
                (ts && use_init) ==> forall|pva: u64|
                    virt_addr.0 <= pva < virt_addr.0 + offset && pva % page_size == 0 ==> #[trigger] page_chunks(
                        *phys_mem,
                        root,
                        spec_translate(*phys_mem, root, pva)->0,
                        page_size,
                    ),
                (ts && use_init) ==> region_filled(*phys_mem, root, virt_addr.0, offset, page_size, *init),
                ts ==> chunks_kept(old_mem, *phys_mem, root),
                (ts && !use_init) ==> forall|pva: u64|
                    virt_addr.0 <= pva < virt_addr.0 + offset && pva % page_size == 0 ==> #[trigger] page_apart(
                        *phys_mem,
                        root,
                        spec_translate(*phys_mem, root, pva)->0,
                        page_size,
                    ),
                forall|o: u64| #[trigger] other_kept(old_mem, *phys_mem, root, o),
            decreases size - offset,
        {
            proof {
                lemma_next_page(offset, size, page_size);
                lemma_add_aligned(virt_addr.0, offset, page_size);
            }
            let current = virt_addr.0 + offset;
            let ghost before = *phys_mem;

            // Allocate backing physical page.
            let page = match phys_mem.alloc_phys_zeroed(page_size, page_size) {
                Some(p) => p,
                None => {
                    proof {
                        lemma_keeps_alloc(before, before, *phys_mem, None, page_size, false);
                        lemma_keeps_trans(old_mem, before, *phys_mem, false);
                        if ts {
                            lemma_walks_unchanged(before, *phys_mem, root, |a: u64| false);
                            let now = *phys_mem;
                            assert forall|o: u64| #[trigger] other_kept(old_mem, now, root, o) by {
                                lemma_other_free(before, now, root, o, |a: u64| false);
                                lemma_other_kept_trans(old_mem, before, now, root, o);
                            }
                        }
                    }
                    return None;
                },
            };
            let ghost in_page = |a: u64| page.0 <= a < page.0 + page_size;
            proof {
                let m = *phys_mem;
                lemma_keeps_alloc(before, before, m, Some(page), page_size, false);
                lemma_keeps_trans(old_mem, before, m, false);
                assert forall|a: u64| a % 8 == 0 && page.0 <= a < page.0 + page_size implies #[trigger] old_mem.free(a) by {
                    assert(in_region(Some(page), page_size, a));
                    assert(before.free(a));
                }
                if ts {
                    assert forall|a: u64| a % 8 == 0 && #[trigger] in_page(a) implies before.free(a) by {
                        assert(in_region(Some(page), page_size, a));
                    }
                    lemma_free_avoided(before, root, in_page);
                    assert forall|a: u64| a % 8 == 0 && !in_page(a) implies #[trigger] m.word(a)
                        == before.word(a) by {
                        assert(!in_region(Some(page), page_size, a));
                    }
                    assert forall|a: u64| a % 8 == 0 && !in_page(a) implies #[trigger] m.readable(a)
                        == before.readable(a) by {
                        assert(!in_region(Some(page), page_size, a));
                    }
                    assert forall|a: u64| a % 8 == 0 && !in_page(a) implies #[trigger] m.free(a)
                        == before.free(a) by {
                        assert(!in_region(Some(page), page_size, a));
                    }
                    lemma_walks_unchanged(before, m, root, in_page);
                    assert forall|a: u64| a % 8 == 0 && !before.free(a) implies !#[trigger] m.free(a) by {
                        assert(!in_region(Some(page), page_size, a));
                    }
                    lemma_chunks_refl(before, root);
                    assert forall|a: u64| a % 8 == 0 && !before.free(a) implies #[trigger] m.word(a)
                        == before.word(a) by {
                        assert(!in_region(Some(page), page_size, a));
                    }
                    assert forall|a: u64| a % 8 == 0 && !before.free(a) implies #[trigger] m.free(a)
                        == before.free(a) by {
                        assert(!in_region(Some(page), page_size, a));
                    }
                    lemma_chunks_quiet(before, before, m, root);
                    lemma_page_aligned(page.0, page_type);
                    assert forall|a: u64| a % 8 == 0 && page.0 <= a < page.0 + page_size implies !#[trigger] m.free(a) by {
                        assert(in_region(Some(page), page_size, a));
                    }
                    assert forall|a: u64| a % 8 == 0 && page.0 <= a < page.0 + page_size implies #[trigger] m.word(a) == 0 by {
                        assert(in_region(Some(page), page_size, a));
                    }
                    lemma_page_apart_new(m, root, page.0, page_size, in_page);
                    lemma_fresh_kept(old_mem, before, m, root, virt_addr.0, offset, page_size);
                    // The new page is none of the pages mapped so far: those are in use.
                    lemma_page_aligned(page.0, page_type);
                    assert(in_region(Some(page), page_size, page.0));
                    assert forall|pva: u64|
                        virt_addr.0 <= pva < virt_addr.0 + offset && pva % page_size == 0 implies #[trigger] spec_translate(
                        m,
                        root,
                        pva,
                    )->0 != page.0 by {
                        assert(maps_fresh_page(old_mem, before, root, pva, page_size));
                        let q = spec_translate(before, root, pva)->0;
                        lemma_page_aligned(q, page_type);
                        assert(!before.free(q));
                    }
                }
            }

            // Calculate value of raw page table entry.
            let w: u64 = if write { PAGE_WRITE } else { 0 };
            let x: u64 = if exec { 0 } else { PAGE_NX };
            let u: u64 = if user { PAGE_USER } else { 0 };
            let l: u64 = if large { PAGE_SIZE } else { 0 };
            let raw = page.0 | PAGE_PRESENT | w | x | u | l;
            proof {
                lemma_page_aligned(page.0, page_type);
                lemma_leaf_flags(page.0, w, x, u, l);
            }
            if use_init {
                // Ask `init` routine to initialize this region.
                let mut byte_offset: u64 = 0;
                while byte_offset < page_size
                    invariant
                        *self == *old(self),
                        root == self.root(),
                        root % 4096 == 0,
                        root <= FRAME_MASK,
                        page_size == spec_page_size(page_type),
                        page_size >= 4096,
                        page.0 % 8 == 0,
                        page.0 + page_size <= PHYS_LIMIT,
                        old_mem == *old(phys_mem),
                        !region_refused(virt_addr.0, page_type, size),
                        offset + page_size <= size,
                        byte_offset <= page_size,
                        forall|x: u64| init.requires((x,)),
                        forall|a: u64|
                            a % 8 == 0 && page.0 <= a < page.0 + page_size ==> #[trigger] old_mem.free(
                                a,
                            ),
                        forall|a: u64|
                            a % 8 == 0 && page.0 <= a < page.0 + page_size ==> !#[trigger] phys_mem.free(
                                a,
                            ),
                        keeps_in_use(old_mem, *phys_mem, false),
                        in_page == (|a: u64| page.0 <= a < page.0 + page_size),
                        ts == tables_sound(old_mem, root),
                        ts ==> tables_sound(*phys_mem, root),
                        ts ==> walks_avoid(*phys_mem, root, in_page),
                        ts ==> maps_fresh_region(old_mem, *phys_mem, root, virt_addr.0, offset, page_size),
                        ts ==> forall|pva: u64|
                            virt_addr.0 <= pva < virt_addr.0 + offset && pva % page_size == 0 ==> #[trigger] spec_translate(
                                *phys_mem,
                                root,
                                pva,
                            )->0 != page.0,
                        forall|a: u64| a % 8 == 0 && #[trigger] in_page(a) ==> before.free(a),
                        forall|a: u64| a % 8 == 0 && !in_page(a) ==> #[trigger] phys_mem.word(a) == before.word(a),
                        forall|a: u64| a % 8 == 0 && !in_page(a) ==> #[trigger] phys_mem.readable(a) == before.readable(a),
                        forall|a: u64| a % 8 == 0 && !in_page(a) ==> #[trigger] phys_mem.free(a) == before.free(a),
                        ts ==> tables_sound(before, root),
                        ts ==> forall|o: u64| #[trigger] other_kept(old_mem, before, root, o),
                        keeps_in_use(before, *phys_mem, false),
                        ts ==> chunks_kept(before, *phys_mem, root),
                        forall|k: u64| k < byte_offset ==> #[trigger] init_byte(*phys_mem, page.0, offset, k, *init),
                    decreases page_size - byte_offset,
                {
                    let value = init(offset + byte_offset);
                    let ghost cur = *phys_mem;
                    let addr = page.0 + byte_offset;
                    let wr = phys_mem.write_u8(PhysAddr(addr), value);
                    proof {
                        let wd = (addr - addr % 8) as u64;
                        assert(wd % 8 == 0 && page.0 <= wd < page.0 + page_size);
                        lemma_keeps_byte(old_mem, cur, *phys_mem, wd);
                        assert(in_page(wd));
                        lemma_keeps_byte(before, cur, *phys_mem, wd);
                        let m = *phys_mem;
                        assert forall|a: u64| a % 8 == 0 && !in_page(a) implies #[trigger] m.word(a)
                            == before.word(a) by {
                            assert(a != wd);
                        }
                        if ts {
                            assert forall|a: u64| a % 8 == 0 && !in_page(a) implies #[trigger] m.word(a)
                                == cur.word(a) by {
                                assert(a != wd);
                            }
                            lemma_walks_unchanged(cur, m, root, in_page);
                            lemma_fresh_kept(old_mem, cur, m, root, virt_addr.0, offset, page_size);
                        }
                    }
                    match wr {
                        Some(_) => {},
                        None => {
                            proof {
                                if ts {
                                    let now = *phys_mem;
                                    assert forall|o: u64| #[trigger] other_kept(old_mem, now, root, o) by {
                                        lemma_other_free(before, now, root, o, in_page);
                                        lemma_free_avoided(before, root, in_page);
                                        lemma_walks_unchanged(before, now, root, in_page);
                                        lemma_other_kept_trans(old_mem, before, now, root, o);
                                    }
                                }
                            }
                            return None;
                        },
                    }
                    proof {
                        let m = *phys_mem;
                        let wd = (addr - addr % 8) as u64;
                        assert forall|k: u64| k < byte_offset + 1 implies #[trigger] init_byte(m, page.0, offset, k, *init) by {
                            let a = (page.0 + k) as u64;
                            let wa = (a - a % 8) as u64;
                            if k < byte_offset {
                                assert(init_byte(cur, page.0, offset, k, *init));
                                if wa == wd {
                                    lemma_with_byte(cur.word(wd), addr % 8, a % 8, value);
                                } else {
                                    assert(m.word(wa) == cur.word(wa));
                                }
                            } else {
                                lemma_with_byte(cur.word(wd), addr % 8, addr % 8, value);
                            }
                        }
                        if ts {
                            assert forall|a: u64| a % 8 == 0 && !before.free(a) implies #[trigger] m.word(a) == cur.word(a) by {
                                assert(!in_page(a));
                            }
                            lemma_chunks_quiet_from(before, cur, m, root);
                        }
                    }
                    byte_offset += 1;
                }
            }
            let ghost mapped_from = *phys_mem;
            proof {
                if ts {
                    assert forall|o: u64| #[trigger] other_kept(old_mem, mapped_from, root, o) by {
                        lemma_other_free(before, mapped_from, root, o, in_page);
                        lemma_walks_unchanged(before, mapped_from, root, in_page);
                        lemma_other_kept_trans(old_mem, before, mapped_from, root, o);
                    }
                }
            }

            // Map current page. Fail it it was already used. Set `deallocate` flag so
            // the memory will be freed when destroying page table.
            match self.map_raw_internal(phys_mem, VirtAddr(current), page_type, raw, true, false, true) {
                Some(_) => {},
                None => {
                    proof {
                        lemma_keeps_trans(old_mem, mapped_from, *phys_mem, false);
                        let now = *phys_mem;
                        assert forall|o: u64| #[trigger] other_kept(old_mem, now, root, o) by {
                            if ts {
                                lemma_other_kept_trans(old_mem, mapped_from, now, root, o);
                            }
                        }
                    }
                    return None;
                },
            }
            proof {
                lemma_keeps_trans(old_mem, mapped_from, *phys_mem, false);
                let m = *phys_mem;
                assert forall|o: u64| #[trigger] other_kept(old_mem, m, root, o) by {
                    if ts {
                        lemma_other_kept_trans(old_mem, mapped_from, m, root, o);
                    }
                }
                if ts {
                    lemma_fresh_kept_map(old_mem, mapped_from, m, root, virt_addr.0, offset, page_size);
                    lemma_sound_path(mapped_from, root, current, levels(page_type));
                    lemma_map_then_translate(m, root, current, page_type, raw, true);
                    lemma_page_mask(current, page_type);
                    assert(spec_translate(m, root, current) == Some(page.0));
                    assert forall|pva: u64|
                        virt_addr.0 <= pva < virt_addr.0 + offset && pva % page_size == 0 implies #[trigger] spec_translate(
                        m,
                        root,
                        pva,
                    ) != spec_translate(m, root, current) by {
                        assert(maps_fresh_page(old_mem, mapped_from, root, pva, page_size));
                        assert(maps_fresh_page(old_mem, m, root, pva, page_size));
                        assert(spec_translate(m, root, pva) == spec_translate(mapped_from, root, pva));
                    }
                    assert forall|a: u64| a % 8 == 0 && page.0 <= a < page.0 + page_size implies #[trigger] old_mem.free(a)
                        && !m.free(a) by {
                        assert(!mapped_from.free(a));
                    }
                    assert(maps_fresh_page(old_mem, m, root, current, page_size));
                    lemma_fresh_extend(old_mem, m, root, virt_addr.0, offset, page_size);
                    lemma_keeps_trans(before, mapped_from, m, false);
                    let v = leaf_value(raw, page_type, true);
                    lemma_leaf_bits(raw);
                    assert(frame(v) == page.0);
                    assert(v == region_entry(page.0, write, exec, user, page_type));
                    assert forall|pva: u64|
                        virt_addr.0 <= pva < virt_addr.0 + offset + page_size && pva % page_size == 0 implies #[trigger] page_entry_is(
                        m,
                        root,
                        pva,
                        page_type,
                        write,
                        exec,
                        user,
                    ) by {
                        if pva < virt_addr.0 + offset {
                            assert(page_entry_is(before, root, pva, page_type, write, exec, user));
                            let vv = before.word(leaf_slot(before, root, pva, page_type)->0);
                            let f = frame(vv);
                            lemma_frame_aligned(vv);
                            lemma_leaf_flags(f, w, x, u, l);
                            lemma_leaf_bits(f | 1 | w | x | u | l);
                            lemma_sound_path(before, root, pva, levels(page_type));
                            lemma_leaf_kept(before, m, root, pva, page_type, vv);
                        } else {
                            lemma_aligned_step(current, pva, page_size);
                        }
                    }
                    if use_init {
                        lemma_free_avoided(before, root, in_page);
                        lemma_walks_unchanged(before, mapped_from, root, in_page);
                        lemma_page_chunks_new(mapped_from, root, page.0, page_size, in_page);
                        lemma_chunks_trans(before, mapped_from, m, root);
                        lemma_page_chunks_kept(mapped_from, m, root, page.0, page_size);
                        assert forall|pva: u64|
                            virt_addr.0 <= pva < virt_addr.0 + offset + page_size && pva % page_size == 0 implies #[trigger] page_chunks(
                            m,
                            root,
                            spec_translate(m, root, pva)->0,
                            page_size,
                        ) by {
                            if pva < virt_addr.0 + offset {
                                let q = spec_translate(before, root, pva)->0;
                                assert(page_chunks(before, root, q, page_size));
                                assert(maps_fresh_page(old_mem, before, root, pva, page_size));
                                lemma_page_aligned(q, page_type);
                                lemma_page_chunks_kept(before, m, root, q, page_size);
                                assert(spec_translate(m, root, pva) == spec_translate(mapped_from, root, pva));
                                assert(spec_translate(mapped_from, root, pva) == spec_translate(before, root, pva));
                            } else {
                                lemma_aligned_step(current, pva, page_size);
                                assert(page_chunks(mapped_from, root, page.0, page_size));
                                assert(page_chunks(m, root, page.0, page_size));
                                assert(spec_translate(m, root, current) == Some(page.0));
                            }
                        }
                        assert forall|pva: u64, k: u64|
                            virt_addr.0 <= pva < virt_addr.0 + offset + page_size && pva % page_size == 0
                                && k < page_size implies #[trigger] byte_filled(m, root, virt_addr.0, pva, k, *init) by {
                            if pva < virt_addr.0 + offset {
                                let q = spec_translate(before, root, pva)->0;
                                assert(byte_filled(before, root, virt_addr.0, pva, k, *init));
                                assert(page_chunks(before, root, q, page_size));
                                assert(maps_fresh_page(old_mem, before, root, pva, page_size));
                                lemma_page_aligned(q, page_type);
                                lemma_page_chunks_kept(before, m, root, q, page_size);
                                assert(spec_translate(m, root, pva) == spec_translate(mapped_from, root, pva));
                                assert(mem_byte(m, (q + k) as u64) == mem_byte(before, (q + k) as u64));
                            } else {
                                lemma_aligned_step(current, pva, page_size);
                                assert(init_byte(mapped_from, page.0, offset, k, *init));
                                assert(mem_byte(m, (page.0 + k) as u64) == mem_byte(mapped_from, (page.0 + k) as u64));
                            }
                        }
                    }
                    lemma_chunks_trans(before, mapped_from, m, root);
                    lemma_chunks_trans(old_mem, before, m, root);
                    if !use_init {
                        lemma_chunks_trans(before, mapped_from, m, root);
                        lemma_page_kept(mapped_from, m, root, page.0, page_size);
                        assert forall|pva: u64|
                            virt_addr.0 <= pva < virt_addr.0 + offset + page_size && pva % page_size == 0 implies #[trigger] page_apart(
                            m,
                            root,
                            spec_translate(m, root, pva)->0,
                            page_size,
                        ) by {
                            if pva < virt_addr.0 + offset {
                                let q = spec_translate(before, root, pva)->0;
                                assert(page_apart(before, root, q, page_size));
                                assert(maps_fresh_page(old_mem, before, root, pva, page_size));
                                lemma_page_aligned(q, page_type);
                                lemma_page_kept(before, m, root, q, page_size);
                                assert(spec_translate(m, root, pva) == spec_translate(mapped_from, root, pva));
                            } else {
                                lemma_aligned_step(current, pva, page_size);
                            }
                        }
                    }
                }
            }
            offset = offset + page_size;
        }
        proof {
            if ts {
                let m = *phys_mem;
                assert forall|pva: u64| virt_addr.0 <= pva < virt_addr.0 + size && pva % page_size == 0 implies #[trigger] page_chunks(
                    m,
                    root,
                    spec_translate(m, root, pva)->0,
                    page_size,
                ) by {
                    if !use_init {
                        assert(page_apart(m, root, spec_translate(m, root, pva)->0, page_size));
                    }
                }
                assert(region_apart_from(m, root, root, virt_addr.0, size, page_size));
            }
            if ts && !use_init {
                let m = *phys_mem;
                assert forall|pva: u64, a: u64|
                    #![trigger spec_translate(m, root, pva), m.word(a)]
                    virt_addr.0 <= pva < virt_addr.0 + size && pva % page_size == 0 && a % 8 == 0
                        && spec_translate(m, root, pva)->0 <= a < spec_translate(m, root, pva)->0
                        + page_size implies m.word(a) == 0 by {
                    assert(page_apart(m, root, spec_translate(m, root, pva)->0, page_size));
                }
            }
        }
        Some(())
    }

    /// Map region at `virt_addr` with size `size`. `init` function is used to initialize
    /// memory contents of the new region; it gets the offset of each byte in the region.
    /// On success over sound tables, each page of the region translates to a page of its
    /// own taken from free memory, with the requested access rights, holding what `init`
    /// gives (zeroes without `init`), and the tables stay sound.
    pub fn map_init<M: PhysMem, F: Fn(u64) -> u8>(
        &mut self,
        phys_mem: &mut M,
        virt_addr: VirtAddr,
        page_type: PageType,
        size: u64,
        write: bool,
        exec: bool,
        user: bool,
        init: Option<F>,
    ) -> (r: Option<()>)
        requires
            init matches Some(f) ==> forall|x: u64| f.requires((x,)),
        ensures
            *final(self) == *old(self),
            region_refused(virt_addr.0, page_type, size) ==> (r is None && *final(phys_mem) == *old(
                phys_mem,
            )),
            keeps_in_use(*old(phys_mem), *final(phys_mem), false),
            tables_sound(*old(phys_mem), old(self).root()) ==> tables_sound(
                *final(phys_mem),
                old(self).root(),
            ),
            (r is Some && tables_sound(*old(phys_mem), old(self).root())) ==> maps_fresh_region(
                *old(phys_mem),
                *final(phys_mem),
                old(self).root(),
                virt_addr.0,
                size,
                spec_page_size(page_type),
            ),
            forall|o: u64| #[trigger] other_kept(*old(phys_mem), *final(phys_mem), old(self).root(), o),
            (r is Some && tables_sound(*old(phys_mem), old(self).root())) ==> region_entries(
                *final(phys_mem),
                old(self).root(),
                virt_addr.0,
                size,
                page_type,
                write,
                exec,
                user,
            ),
            (r is Some && tables_sound(*old(phys_mem), old(self).root()) && init is None)
                ==> region_zeroed(
                *final(phys_mem),
                old(self).root(),
                virt_addr.0,
                size,
                spec_page_size(page_type),
            ),
            (r is Some && tables_sound(*old(phys_mem), old(self).root())) ==> (init matches Some(f)
                ==> region_filled(
                *final(phys_mem),
                old(self).root(),
                virt_addr.0,
                size,
                spec_page_size(page_type),
                f,
            )),
            (r is Some && tables_sound(*old(phys_mem), old(self).root())) ==> chunks_kept(
                *old(phys_mem),
                *final(phys_mem),
                old(self).root(),
            ),
            (r is Some && tables_sound(*old(phys_mem), old(self).root())) ==> region_apart_from(
                *final(phys_mem),
                old(self).root(),
                old(self).root(),
                virt_addr.0,
                size,
                spec_page_size(page_type),
            ),
    {
        match init {
            Some(f) => self.map_region(phys_mem, virt_addr, page_type, size, write, exec, user, &f, true),
            None => {
                let zero = |offset: u64| -> (b: u8) { 0u8 };
                self.map_region(phys_mem, virt_addr, page_type, size, write, exec, user, &zero, false)
            },
        }
    }

    /// Map region at `virt_addr` with size `size`. Mapped region will be zeroed.
    /// On success over sound tables, each page of the region translates to a page of its
    /// own taken from free memory, with the requested access rights, and the tables stay
    /// sound.
    pub fn map<M: PhysMem>(
        &mut self,
        phys_mem: &mut M,
        virt_addr: VirtAddr,
        page_type: PageType,
        size: u64,
        write: bool,
        exec: bool,
        user: bool,
    ) -> (r: Option<()>)
        ensures
            *final(self) == *old(self),
            region_refused(virt_addr.0, page_type, size) ==> (r is None && *final(phys_mem) == *old(
                phys_mem,
            )),
            keeps_in_use(*old(phys_mem), *final(phys_mem), false),
            tables_sound(*old(phys_mem), old(self).root()) ==> tables_sound(
                *final(phys_mem),
                old(self).root(),
            ),
            (r is Some && tables_sound(*old(phys_mem), old(self).root())) ==> maps_fresh_region(
                *old(phys_mem),
                *final(phys_mem),
                old(self).root(),
                virt_addr.0,
                size,
                spec_page_size(page_type),
            ),
            forall|o: u64| #[trigger] other_kept(*old(phys_mem), *final(phys_mem), old(self).root(), o),
            (r is Some && tables_sound(*old(phys_mem), old(self).root())) ==> region_entries(
                *final(phys_mem),
                old(self).root(),
                virt_addr.0,
                size,
                page_type,
                write,
                exec,
                user,
            ),
            (r is Some && tables_sound(*old(phys_mem), old(self).root())) ==> region_zeroed(
                *final(phys_mem),
                old(self).root(),
                virt_addr.0,
                size,
                spec_page_size(page_type),
            ),
    {
        let zero = |offset: u64| -> (b: u8) { 0u8 };
        self.map_region(phys_mem, virt_addr, page_type, size, write, exec, user, &zero, false)
    }
}


impl PageTable {
    /// Free the table at `table` on level `depth`, the tables below it, and the pages mapped
    /// by entries marked to be freed. Entries are cleared as they are released.
    fn destroy_level<M: PhysMem>(phys_mem: &mut M, depth: usize, table: u64) -> (r: Option<()>)
        requires
            depth <= 3,
            table <= FRAME_MASK,
            table % 4096 == 0,
        ensures
            forall|a: u64|
                a % 8 == 0 ==> #[trigger] final(phys_mem).readable(a) == old(phys_mem).readable(a),
            only_zeroed(*old(phys_mem), *final(phys_mem)),
            r is Some ==> forall|a: u64|
                a % 8 == 0 && table <= a < table + 4096 ==> #[trigger] final(phys_mem).free(a),
            r is Some ==> cleared(*final(phys_mem), table, 512),
        decreases 3 - depth,
    {
        let ghost old_mem = *phys_mem;
        proof {
            lemma_only_zeroed_same(old_mem, old_mem);
            reveal(cleared);
            lemma_zero_entry();
        }
        let mut index: u64 = 0;
        while index < 512
            invariant
                depth <= 3,
                table <= FRAME_MASK,
                table % 4096 == 0,
                index <= 512,
                old_mem == *old(phys_mem),
                forall|a: u64| a % 8 == 0 ==> #[trigger] phys_mem.readable(a) == old_mem.readable(a),
                only_zeroed(old_mem, *phys_mem),
                cleared(*phys_mem, table, index as nat),
            decreases 512 - index,
        {
            let entry_addr = table + index * 8;
            let ghost before = *phys_mem;
            let entry = match phys_mem.read_u64(PhysAddr(entry_addr)) {
                Some(e) => e,
                None => return None,
            };
            if entry & PAGE_PRESENT != 0 {
                let backing = entry & FRAME_MASK;
                proof {
                    lemma_frame_aligned(entry);
                }
                if depth == 3 || entry & PAGE_SIZE != 0 {
                    let page_size: u64 = if depth == 3 {
                        4096
                    } else if depth == 1 {
                        1024 * 1024 * 1024
                    } else if depth == 2 {
                        2 * 1024 * 1024
                    } else {
                        // Invalid page table entry.
                        return None;
                    };
                    if entry & DEALLOCATE_FLAG != 0 {
                        let freed = phys_mem.free_phys(PhysAddr(backing), page_size);
                        proof {
                            lemma_only_zeroed_same(before, *phys_mem);
                            lemma_only_zeroed_trans(old_mem, before, *phys_mem);
                        }
                        match freed {
                            Some(_) => {},
                            None => return None,
                        }
                    } else {
                        proof {
                            lemma_only_zeroed_same(before, before);
                        }
                    }
                } else {
                    let destroyed = Self::destroy_level(phys_mem, depth + 1, backing);
                    proof {
                        lemma_only_zeroed_trans(old_mem, before, *phys_mem);
                    }
                    match destroyed {
                        Some(_) => {},
                        None => return None,
                    }
                }
                let ghost mid = *phys_mem;
                let written = phys_mem.write_u64(PhysAddr(entry_addr), 0);
                proof {
                    lemma_only_zeroed_write(mid, *phys_mem, entry_addr);
                    lemma_only_zeroed_trans(old_mem, mid, *phys_mem);
                }
                match written {
                    Some(_) => {},
                    None => return None,
                }
                proof {
                    lemma_only_zeroed_trans(before, mid, *phys_mem);
                    lemma_zero_entry();
                    assert(phys_mem.word(entry_addr) == 0);
                    lemma_cleared_step(before, *phys_mem, table, index as nat);
                }
            } else {
                proof {
                    lemma_only_zeroed_same(before, before);
                    lemma_cleared_step(before, before, table, index as nat);
                }
            }
            index += 1;
        }
        let ghost last = *phys_mem;
        let r = phys_mem.free_phys(PhysAddr(table), 4096);
        proof {
            lemma_only_zeroed_same(last, *phys_mem);
            lemma_only_zeroed_trans(old_mem, last, *phys_mem);
            lemma_cleared_same(last, *phys_mem, table);
        }
        match r {
            Some(_) => Some(()),
            None => None,
        }
    }

    /// Free the whole page table: every table, and every page that was mapped to be freed
    /// with it.
    pub fn destroy<M: PhysMem>(&mut self, phys_mem: &mut M) -> (r: Option<()>)
        ensures
            *final(self) == *old(self),
            forall|a: u64|
                a % 8 == 0 ==> #[trigger] final(phys_mem).readable(a) == old(phys_mem).readable(a),
            only_zeroed(*old(phys_mem), *final(phys_mem)),
            r is Some ==> forall|a: u64|
                a % 8 == 0 && old(self).root() <= a < old(self).root() + 4096
                    ==> #[trigger] final(phys_mem).free(a),
            r is Some ==> cleared(*final(phys_mem), old(self).root(), 512),
    {
        proof {
            use_type_invariant(&*self);
            let t = self.table.0;
            assert(t & 0xfffu64 == 0 && t & 0xffffffffff000u64 == t) by (bit_vector)
                requires
                    t % 4096 == 0,
                    t <= 0xffffffffff000u64,
            ;
        }
        Self::destroy_level(phys_mem, 0, self.table.0 & FRAME_MASK)
    }
}

} // verus!
