//! Kernel memory management decisions: reaching physical memory through the linear
//! physical region, taking physical pages from the free memory set, reserving heap address
//! space, mapping MMIO, choosing page attribute memory types, and the layout of free lists.
use vstd::prelude::*;
use crate::boot_block::{BootBlock, KERNEL_HEAP_PADDING, KERNEL_PHYSICAL_REGION_BASE, KERNEL_PHYSICAL_REGION_SIZE};
use crate::page_table::{
    PageTable, PageType, PhysAddr, PhysMem, VirtAddr, DEALLOCATE_FLAG, PAGE_CACHE_DISABLE,
    PAGE_NX, PAGE_PAT, PAGE_PRESENT, PAGE_PWT, PAGE_SIZE, PAGE_WRITE, keeps_in_use, levels,
    same_prefix, spec_page_size, spec_translate, tables_sound, va_index, lemma_add_aligned,
    lemma_aligned_step, lemma_map_then_translate, lemma_page_mask, lemma_same_large_page,
    lemma_sound_path, spec_canonical, frame, lemma_mapped_page, leaf_slot, table_at,
};
use crate::rangeset::{Range, RangeSet, allocate_result, touches, MAX_RANGES};

verus! {

pub const MAX_ACCESSIBLE_PHYSICAL_ADDRESS: u64 = KERNEL_PHYSICAL_REGION_SIZE - 1;

pub const PAGE_WB: u64 = 0;

pub const PAGE_UNCACHEABLE: u64 = PAGE_CACHE_DISABLE;

pub const PAGE_WC: u64 = PAGE_PAT | PAGE_PWT;

/// Virtual address at which the kernel reaches `size` bytes of physical memory at
/// `phys_addr`, if all of them lie in the linear physical region.
pub fn translate(phys_addr: PhysAddr, size: u64) -> (r: Option<VirtAddr>)
    ensures
        r == (if size == 0 || phys_addr.0 + size - 1 > MAX_ACCESSIBLE_PHYSICAL_ADDRESS {
            None
        } else {
            Some(VirtAddr((KERNEL_PHYSICAL_REGION_BASE + phys_addr.0) as u64))
        }),
{
    // Calculate end of region and make sure it doesn't overflow.
    if size == 0 {
        return None;
    }
    let end = match (size - 1).checked_add(phys_addr.0) {
        Some(e) => e,
        None => return None,
    };

    // Make sure that we can access this physical region.
    if end >= KERNEL_PHYSICAL_REGION_SIZE {
        return None;
    }
    Some(VirtAddr(KERNEL_PHYSICAL_REGION_BASE + phys_addr.0))
}

/// Take `size` bytes aligned to `align` from the free memory, below the end of the linear
/// physical region.
pub fn alloc_phys(free_memory: &mut RangeSet, size: u64, align: u64) -> (r: Option<PhysAddr>)
    requires
        old(free_memory).wf(),
    ensures
        final(free_memory).wf(),
        allocate_result(
            old(free_memory).entry_seq(),
            final(free_memory).entry_seq(),
            size,
            align,
            Some(MAX_ACCESSIBLE_PHYSICAL_ADDRESS),
            match r {
                Some(p) => Some(p.0 as usize),
                None => None,
            },
        ),
{
    match free_memory.allocate_limited(size, align, Some(MAX_ACCESSIBLE_PHYSICAL_ADDRESS)) {
        Some(addr) => Some(PhysAddr(addr as u64)),
        None => None,
    }
}

/// Give `size` bytes at `phys_addr` back to the free memory.
pub fn free_phys(free_memory: &mut RangeSet, phys_addr: PhysAddr, size: u64)
    requires
        old(free_memory).wf(),
        size > 0,
        phys_addr.0 + size - 1 <= u64::MAX,
        old(free_memory).entry_seq().len() < MAX_RANGES || exists|i: int|
            0 <= i < old(free_memory).entry_seq().len() && touches(
                Range { start: phys_addr.0, end: (phys_addr.0 + size - 1) as u64 },
                #[trigger] old(free_memory).entry_seq()[i],
            ),
    ensures
        final(free_memory).wf(),
        final(free_memory)@ == old(free_memory)@.union(
            Range { start: phys_addr.0, end: (phys_addr.0 + size - 1) as u64 }.addrs(),
        ),
{
    free_memory.insert(Range { start: phys_addr.0, end: phys_addr.0 + (size - 1) });
}

/// Reserve `size` bytes of kernel heap address space, followed by a guard gap, at the next
/// free heap address `next_heap_address`. The heap region ends where the linear physical
/// region begins, and a reservation never runs past it.
pub fn reserve_virt_addr(next_heap_address: &mut u64, size: usize) -> (r: VirtAddr)
    requires
        size > 0,
        size % 4096 == 0,
        *old(next_heap_address) + KERNEL_HEAP_PADDING + size <= KERNEL_PHYSICAL_REGION_BASE,
    ensures
        r.0 == *old(next_heap_address),
        *final(next_heap_address) == *old(next_heap_address) + KERNEL_HEAP_PADDING + size,
{
    // Calculate actual size for the region we are reserving.
    let reserve = KERNEL_HEAP_PADDING + size as u64;

    // Reserve the region.
    let address = *next_heap_address;
    *next_heap_address = address + reserve;
    VirtAddr(address)
}

/// Page table entry that maps the MMIO page at `page` with memory type `flags`: present,
/// writable and not executable.
pub open spec fn mmio_entry(page: u64, flags: u64) -> u64 {
    PAGE_PRESENT | PAGE_WRITE | PAGE_NX | page | flags
}

/// Map `size` bytes of MMIO at `phys_addr` to `virt_addr` with 4K pages of memory type
/// `flags`, without replacing existing mappings. Over sound tables, on success each page
/// of the region translates into the frame of its MMIO entry.
pub fn map_mmio<M: PhysMem>(
    page_table: &mut PageTable,
    phys_mem: &mut M,
    virt_addr: VirtAddr,
    phys_addr: PhysAddr,
    size: u64,
    flags: u64,
) -> (r: Option<()>)
    requires
        phys_addr.0 & 0xfff == 0,
        size & 0xfff == 0,
        phys_addr.0 + size <= u64::MAX,
        virt_addr.0 + size <= u64::MAX,
        flags & DEALLOCATE_FLAG == 0,
    ensures
        *final(page_table) == *old(page_table),
        keeps_in_use(*old(phys_mem), *final(phys_mem), false),
        size == 0 ==> r is Some && *final(phys_mem) == *old(phys_mem),
        (size > 0 && (!spec_canonical(virt_addr.0) || virt_addr.0 % 4096 != 0)) ==> r is None
            && *final(phys_mem) == *old(phys_mem),
        tables_sound(*old(phys_mem), old(page_table).root()) ==> tables_sound(
            *final(phys_mem),
            old(page_table).root(),
        ),
        (r is Some && tables_sound(*old(phys_mem), old(page_table).root())) ==> forall|off: u64|
            off < size && off % 4096 == 0 ==> #[trigger] spec_translate(
                *final(phys_mem),
                old(page_table).root(),
                (virt_addr.0 + off) as u64,
            ) == Some(frame(mmio_entry((phys_addr.0 + off) as u64, flags))),
{
    let ghost old_mem = *phys_mem;
    let ghost root = page_table.root();
    let ghost ts = tables_sound(old_mem, root);
    proof {
        crate::page_table::lemma_keeps_refl(old_mem, false);
        use_type_invariant(&*page_table);
        page_table.lemma_root();
    }
    let mut offset: u64 = 0;
    proof {
        crate::hpet::lemma_no_shift(0);
    }
    while offset < size
        invariant
            *page_table == *old(page_table),
            old_mem == *old(phys_mem),
            phys_addr.0 & 0xfff == 0,
            size & 0xfff == 0,
            offset & 0xfff == 0,
            offset <= size,
            phys_addr.0 + size <= u64::MAX,
            virt_addr.0 + size <= u64::MAX,
            flags & DEALLOCATE_FLAG == 0,
            keeps_in_use(old_mem, *phys_mem, false),
            offset > 0 ==> spec_canonical(virt_addr.0) && virt_addr.0 % 4096 == 0,
            offset == 0 ==> *phys_mem == old_mem,
            root == page_table.root(),
            root % 4096 == 0,
            root <= crate::page_table::FRAME_MASK,
            ts == tables_sound(old_mem, root),
            ts ==> tables_sound(*phys_mem, root),
            ts ==> forall|off: u64|
                off < offset && off % 4096 == 0 ==> #[trigger] spec_translate(
                    *phys_mem,
                    root,
                    (virt_addr.0 + off) as u64,
                ) == Some(frame(mmio_entry((phys_addr.0 + off) as u64, flags))),
        decreases size - offset,
    {
        let page = phys_addr.0 + offset;
        let virt = VirtAddr(virt_addr.0 + offset);
        let backing = PAGE_PRESENT | PAGE_WRITE | PAGE_NX | page | flags;
        proof {
            let base = phys_addr.0;
            assert(offset + 4096 <= size && page & 0xfffu64 == 0 && (1u64 | 2u64
                | 0x8000_0000_0000_0000u64 | page | flags) & 0x200u64 == 0 && (offset + 4096) as u64
                & 0xfffu64 == 0 && (1u64 | 2u64 | 0x8000_0000_0000_0000u64 | page | flags) & 1u64
                != 0) by (bit_vector)
                requires
                    offset < size,
                    size & 0xfffu64 == 0,
                    base & 0xfffu64 == 0,
                    offset & 0xfffu64 == 0,
                    page == base + offset,
                    flags & 0x200u64 == 0,
            ;
        }
        let ghost before = *phys_mem;
        match page_table.map_raw(phys_mem, virt, PageType::Page4K, backing, true, false) {
            Some(_) => {},
            None => {
                proof {
                    crate::page_table::lemma_keeps_chain(old_mem, before, *phys_mem, false);
                }
                return None;
            },
        }
        proof {
            crate::page_table::lemma_keeps_chain(old_mem, before, *phys_mem, false);
            lemma_page_mask(offset, PageType::Page4K);
            lemma_page_mask((offset + 4096) as u64, PageType::Page4K);
            if offset == 0 {
                lemma_page_mask(virt_addr.0, PageType::Page4K);
            }
            if ts {
                let m = *phys_mem;
                lemma_page_mask(virt_addr.0, PageType::Page4K);
                lemma_add_aligned(virt_addr.0, offset, 4096);
                lemma_page_mask(virt.0, PageType::Page4K);
                lemma_mapped_page(before, m, root, virt.0, PageType::Page4K, backing, false);
                assert forall|off: u64|
                    off < offset + 4096 && off % 4096 == 0 implies #[trigger] spec_translate(
                    m,
                    root,
                    (virt_addr.0 + off) as u64,
                ) == Some(frame(mmio_entry((phys_addr.0 + off) as u64, flags))) by {
                    if off < offset {
                        assert(spec_translate(before, root, (virt_addr.0 + off) as u64) is Some);
                    } else {
                        lemma_aligned_step(offset, off, 4096);
                    }
                }
            }
        }
        offset = offset + 4096;
    }
    Some(())
}

/// Why the linear physical region cannot be mapped again.
#[derive(Copy, Clone, PartialEq, Eq, Structural, Debug)]
pub enum RemapError {
    /// The region is mapped with pages of neither 2M nor 1G.
    InvalidPageSize,
    /// A page of the region could not be mapped.
    MapFailed,
}

/// Page type of the pages of `page_size` bytes that the linear physical region is mapped with.
pub open spec fn region_page_type(page_size: u64) -> PageType {
    if page_size == 0x20_0000 {
        PageType::Page2M
    } else {
        PageType::Page1G
    }
}

/// The tables at `root` hold an entry for every page of `page_size` bytes of the linear
/// physical region.
pub open spec fn region_entries_exist<M: PhysMem>(m: M, root: u64, page_size: u64) -> bool {
    forall|pa: u64|
        pa < KERNEL_PHYSICAL_REGION_SIZE && pa % page_size == 0 ==> #[trigger] leaf_slot(
            m,
            root,
            (pa + KERNEL_PHYSICAL_REGION_BASE) as u64,
            region_page_type(page_size),
        ) is Some
}

/// Map the linear physical region again, with pages of `page_size` bytes (2M or 1G) that
/// are writable and, unlike in the bootloader, not executable. Existing mappings are
/// replaced; no page table is created. Over sound tables, on success each page of the
/// region translates to the physical page at its offset.
pub fn remap_physical_region<M: PhysMem>(
    page_table: &mut PageTable,
    phys_mem: &mut M,
    page_size: u64,
) -> (r: Result<(), RemapError>)
    ensures
        *final(page_table) == *old(page_table),
        (page_size != 0x20_0000 && page_size != 0x4000_0000) ==> (r == Err::<(), RemapError>(
            RemapError::InvalidPageSize,
        ) && *final(phys_mem) == *old(phys_mem)),
        (page_size == 0x20_0000 || page_size == 0x4000_0000) ==> r != Err::<(), RemapError>(
            RemapError::InvalidPageSize,
        ),
        keeps_in_use(*old(phys_mem), *final(phys_mem), true),
        tables_sound(*old(phys_mem), old(page_table).root()) ==> tables_sound(
            *final(phys_mem),
            old(page_table).root(),
        ),
        (r is Ok && tables_sound(*old(phys_mem), old(page_table).root())) ==> forall|pa: u64|
            pa < KERNEL_PHYSICAL_REGION_SIZE && pa % page_size == 0 ==> #[trigger] spec_translate(
                *final(phys_mem),
                old(page_table).root(),
                (pa + KERNEL_PHYSICAL_REGION_BASE) as u64,
            ) == Some(pa),
        ((page_size == 0x20_0000 || page_size == 0x4000_0000) && tables_sound(
            *old(phys_mem),
            old(page_table).root(),
        ) && region_entries_exist(*old(phys_mem), old(page_table).root(), page_size)) ==> r is Ok,
{
    let ghost old_mem = *phys_mem;
    let ghost root = page_table.root();
    let ghost ts = tables_sound(old_mem, root);
    proof {
        crate::page_table::lemma_keeps_refl(old_mem, true);
        use_type_invariant(&*page_table);
        page_table.lemma_root();
    }
    let page_type = if page_size == 0x20_0000 {
        PageType::Page2M
    } else if page_size == 0x4000_0000 {
        PageType::Page1G
    } else {
        return Err(RemapError::InvalidPageSize);
    };
    let mut phys_addr: u64 = 0;
    while phys_addr < KERNEL_PHYSICAL_REGION_SIZE
        invariant
            *page_table == *old(page_table),
            old_mem == *old(phys_mem),
            page_size == 0x20_0000 || page_size == 0x4000_0000,
            phys_addr % 0x20_0000 == 0,
            phys_addr % page_size == 0,
            phys_addr <= KERNEL_PHYSICAL_REGION_SIZE,
            keeps_in_use(old_mem, *phys_mem, true),
            root == page_table.root(),
            page_size == spec_page_size(page_type),
            ts == tables_sound(old_mem, root),
            ts ==> tables_sound(*phys_mem, root),
            ts ==> forall|pa: u64|
                pa < phys_addr && pa % page_size == 0 ==> #[trigger] spec_translate(
                    *phys_mem,
                    root,
                    (pa + KERNEL_PHYSICAL_REGION_BASE) as u64,
                ) == Some(pa),
            page_type == region_page_type(page_size),
            root % 4096 == 0,
            root <= crate::page_table::FRAME_MASK,
            (ts && region_entries_exist(old_mem, root, page_size)) ==> forall|pa: u64|
                phys_addr <= pa < KERNEL_PHYSICAL_REGION_SIZE && pa % page_size == 0 ==> #[trigger] leaf_slot(
                    *phys_mem,
                    root,
                    (pa + KERNEL_PHYSICAL_REGION_BASE) as u64,
                    page_type,
                ) is Some,
        decreases KERNEL_PHYSICAL_REGION_SIZE - phys_addr,
    {
        let virt_addr = VirtAddr(phys_addr + KERNEL_PHYSICAL_REGION_BASE);

        // Writable and not executable, with the page size bit for the large page.
        let raw = phys_addr | PAGE_PRESENT | PAGE_WRITE | PAGE_NX | PAGE_SIZE;
        proof {
            crate::page_table::lemma_flags_below_dealloc(phys_addr);
        }

        // Allow updating existing mappings, disallow creating new tables.
        let ghost before = *phys_mem;
        proof {
            lemma_add_aligned(KERNEL_PHYSICAL_REGION_BASE, phys_addr, page_size);
            assert(spec_canonical(virt_addr.0));
        }
        match page_table.map_raw(phys_mem, virt_addr, page_type, raw, false, true) {
            Some(_) => {},
            None => {
                proof {
                    crate::page_table::lemma_keeps_chain(old_mem, before, *phys_mem, true);
                }
                return Err(RemapError::MapFailed);
            },
        }
        proof {
            crate::page_table::lemma_keeps_chain(old_mem, before, *phys_mem, true);
            assert((phys_addr + page_size) % 0x20_0000 == 0 && (phys_addr + page_size) % (
            page_size as int) == 0) by (nonlinear_arith)
                requires
                    phys_addr % 0x20_0000 == 0,
                    phys_addr % page_size == 0,
                    page_size == 0x20_0000 || page_size == 0x4000_0000,
            ;
            assert(phys_addr + page_size <= 0x100_0000_0000) by (nonlinear_arith)
                requires
                    phys_addr % page_size == 0,
                    phys_addr < 0x100_0000_0000,
                    page_size == 0x20_0000 || page_size == 0x4000_0000,
            ;
            if ts {
                let m = *phys_mem;
                let va = virt_addr.0;
                let last = (levels(page_type) - 1) as nat;
                lemma_sound_path(before, root, va, levels(page_type));
                lemma_add_aligned(KERNEL_PHYSICAL_REGION_BASE, phys_addr, page_size);
                lemma_page_mask(va, page_type);
                lemma_map_then_translate(m, root, va, page_type, raw, false);
                assert(spec_translate(m, root, va) == Some(phys_addr));
                assert forall|pa: u64|
                    pa < phys_addr + page_size && pa % page_size == 0 implies #[trigger] spec_translate(
                    m,
                    root,
                    (pa + KERNEL_PHYSICAL_REGION_BASE) as u64,
                ) == Some(pa) by {
                    if pa < phys_addr {
                        let vb = (pa + KERNEL_PHYSICAL_REGION_BASE) as u64;
                        if same_prefix(vb, va, last) {
                            lemma_add_aligned(KERNEL_PHYSICAL_REGION_BASE, pa, page_size);
                            lemma_page_mask(vb, page_type);
                            assert(va_index(vb, 0) == va_index(va, 0));
                            assert(va_index(vb, 1) == va_index(va, 1));
                            if page_type == PageType::Page2M {
                                assert(va_index(vb, 2) == va_index(va, 2));
                            }
                            lemma_same_large_page(vb, va);
                        }
                        assert(spec_translate(m, root, vb) == spec_translate(before, root, vb));
                    } else {
                        lemma_aligned_step(phys_addr, pa, page_size);
                    }
                }
                if region_entries_exist(old_mem, root, page_size) {
                    let last = (levels(page_type) - 1) as nat;
                    assert forall|pa: u64|
                        phys_addr + page_size <= pa < KERNEL_PHYSICAL_REGION_SIZE && pa % page_size
                            == 0 implies #[trigger] leaf_slot(
                        m,
                        root,
                        (pa + KERNEL_PHYSICAL_REGION_BASE) as u64,
                        page_type,
                    ) is Some by {
                        let vb = (pa + KERNEL_PHYSICAL_REGION_BASE) as u64;
                        assert(leaf_slot(before, root, vb, page_type) is Some);
                        assert(table_at(m, root, vb, last) == table_at(before, root, vb, last));
                        crate::page_table::lemma_path_aligned(before, root, vb, last);
                        let sl = crate::page_table::path_slot(before, root, vb, last);
                        assert(m.readable(sl) == before.readable(sl));
                    }
                }
            }
        }
        phys_addr = phys_addr + page_size;
    }
    Ok(())
}

/// Bytes covered by the inclusive ranges of `s`.
pub open spec fn total_size(s: Seq<Range>) -> int
    decreases s.len(),
{
    if s.len() == 0 {
        0
    } else {
        total_size(s.drop_last()) + (s.last().end - s.last().start + 1)
    }
}

/// Bytes of `r` from the last accessible physical address `max` on: counted from `max`
/// itself when `r` starts below it.
pub open spec fn inaccessible_size(r: Range, max: u64) -> int {
    if r.end > max {
        r.end - (if r.start > max {
            r.start
        } else {
            max
        }) + 1
    } else {
        0
    }
}

/// Bytes of the ranges of `s` from the last accessible physical address `max` on.
pub open spec fn total_inaccessible(s: Seq<Range>, max: u64) -> int
    decreases s.len(),
{
    if s.len() == 0 {
        0
    } else {
        total_inaccessible(s.drop_last(), max) + inaccessible_size(s.last(), max)
    }
}

/// Sizes of the ranges of `s` and of their inaccessible parts: the free memory the kernel
/// reports, and how much of it lies beyond the linear physical region.
pub fn memory_totals(ranges: &[Range]) -> (r: (u128, u128))
    requires
        forall|i: int| 0 <= i < ranges@.len() ==> #[trigger] ranges@[i].start <= ranges@[i].end,
        ranges@.len() <= MAX_RANGES,
    ensures
        r.0 == total_size(ranges@),
        r.1 == total_inaccessible(ranges@, MAX_ACCESSIBLE_PHYSICAL_ADDRESS),
{
    let mut total_free: u128 = 0;
    let mut total_inaccessible_bytes: u128 = 0;
    let mut i: usize = 0;
    while i < ranges.len()
        invariant
            i <= ranges@.len(),
            ranges@.len() <= MAX_RANGES,
            forall|j: int| 0 <= j < ranges@.len() ==> #[trigger] ranges@[j].start <= ranges@[j].end,
            total_free == total_size(ranges@.take(i as int)),
            total_inaccessible_bytes == total_inaccessible(
                ranges@.take(i as int),
                MAX_ACCESSIBLE_PHYSICAL_ADDRESS,
            ),
            total_free <= i * 0x1_0000_0000_0000_0000,
            total_inaccessible_bytes <= i * 0x1_0000_0000_0000_0000,
        decreases ranges@.len() - i,
    {
        let entry = ranges[i];
        assert(ranges@.take(i + 1).drop_last() =~= ranges@.take(i as int));
        assert(ranges@.take(i + 1).last() == entry);
        total_free = total_free + ((entry.end - entry.start) as u128 + 1);

        // Check for memory that we cannot access.
        if entry.end > MAX_ACCESSIBLE_PHYSICAL_ADDRESS {
            let inaccessible_start = if entry.start > MAX_ACCESSIBLE_PHYSICAL_ADDRESS {
                entry.start
            } else {
                MAX_ACCESSIBLE_PHYSICAL_ADDRESS
            };
            total_inaccessible_bytes = total_inaccessible_bytes + ((entry.end
                - inaccessible_start) as u128 + 1);
        }
        i += 1;
    }
    assert(ranges@.take(ranges@.len() as int) =~= ranges@);
    (total_free, total_inaccessible_bytes)
}

/// Give every range of `boot_memory` back to `free_memory`, and count the bytes given back.
pub fn reclaim_memory(free_memory: &mut RangeSet, boot_memory: &RangeSet) -> (reclaimed: u128)
    requires
        old(free_memory).wf(),
        boot_memory.wf(),
        old(free_memory).entry_seq().len() + boot_memory.entry_seq().len() <= MAX_RANGES,
    ensures
        final(free_memory).wf(),
        final(free_memory)@ == old(free_memory)@.union(boot_memory@),
        reclaimed == total_size(boot_memory.entry_seq()),
{
    let entries = boot_memory.entries();
    let ghost boot = entries@;
    let ghost start = free_memory@;
    let mut reclaimed: u128 = 0;
    let mut i: usize = 0;
    while i < entries.len()
        invariant
            boot == entries@,
            boot == boot_memory.entry_seq(),
            crate::rangeset::canonical(boot),
            boot.len() <= MAX_RANGES,
            i <= boot.len(),
            free_memory.wf(),
            free_memory.entry_seq().len() + boot.len() <= MAX_RANGES + i,
            free_memory@ == start.union(crate::rangeset::seq_addrs(boot.take(i as int))),
            reclaimed == total_size(boot.take(i as int)),
            reclaimed <= i * 0x1_0000_0000_0000_0000,
        decreases boot.len() - i,
    {
        let entry = entries[i];
        assert(boot.take(i + 1).drop_last() =~= boot.take(i as int));
        assert(boot.take(i + 1).last() == entry);
        assert(entry.start <= entry.end);
        let ghost before = free_memory@;
        free_memory.insert(entry);
        proof {
            let s0 = boot.take(i as int);
            let s1 = boot.take(i + 1);
            assert forall|a: u64| #[trigger] crate::rangeset::covers(s1, a) == (crate::rangeset::covers(s0, a) || entry.has(a)) by {
                if crate::rangeset::covers(s0, a) {
                    let k = choose|k: int| 0 <= k < s0.len() && #[trigger] s0[k].has(a);
                    assert(s1[k] == s0[k]);
                }
                if entry.has(a) {
                    assert(s1[i as int].has(a));
                }
                if crate::rangeset::covers(s1, a) {
                    let k = choose|k: int| 0 <= k < s1.len() && #[trigger] s1[k].has(a);
                    if k < i {
                        assert(s0[k] == s1[k]);
                    }
                }
            }
            assert(free_memory@ =~= start.union(crate::rangeset::seq_addrs(s1)));
        }
        reclaimed = reclaimed + ((entry.end - entry.start) as u128 + 1);
        i += 1;
    }
    assert(boot.take(boot.len() as int) =~= boot);
    assert(free_memory@ =~= start.union(boot_memory@));
    reclaimed
}

/// What cleaning up after the bootloader found.
#[derive(Copy, Clone, PartialEq, Eq, Structural, Debug)]
pub struct MemoryReport {
    /// Bytes of boot memory given back to free memory.
    pub reclaimed: u128,
    /// Bytes of free memory.
    pub free: u128,
    /// Bytes of free memory that the linear physical region does not reach.
    pub inaccessible: u128,
}

/// Why the bootloader's leftovers cannot be cleaned up.
#[derive(Copy, Clone, PartialEq, Eq, Structural, Debug)]
pub enum CleanupError {
    /// The bootloader didn't record the page size of the physical region.
    MissingPageSize,
    /// The boot block holds no page table.
    MissingPageTable,
    /// The physical region could not be mapped again.
    Remap(RemapError),
}

/// Clean up after the bootloader once the kernel is running: forget the AP entrypoint, map
/// the physical region again without execute permission (each page to the physical page at
/// the same offset, over sound tables), give the boot memory back to the free memory, and
/// report the totals.
pub fn cleanup_bootloader<M: PhysMem>(boot_block: &mut BootBlock, phys_mem: &mut M) -> (r: Result<
    MemoryReport,
    CleanupError,
>)
    requires
        old(boot_block).free_memory.value().wf(),
        old(boot_block).boot_memory.value().wf(),
        old(boot_block).free_memory.value().entry_seq().len() + old(
            boot_block,
        ).boot_memory.value().entry_seq().len() <= MAX_RANGES,
    ensures
        final(boot_block).ap_entrypoint.value() is None,
        final(boot_block).free_memory.value().wf(),
        keeps_in_use(*old(phys_mem), *final(phys_mem), true),
        old(boot_block).physical_map_page_size.value() is None ==> r == Err::<
            MemoryReport,
            CleanupError,
        >(CleanupError::MissingPageSize),
        old(boot_block).physical_map_page_size.value() matches Some(s) && s != 0x20_0000 && s
            != 0x4000_0000 ==> r == Err::<MemoryReport, CleanupError>(
            CleanupError::Remap(RemapError::InvalidPageSize),
        ),
        old(boot_block).physical_map_page_size.value() matches Some(s) && (s == 0x20_0000 || s
            == 0x4000_0000) && old(boot_block).page_table.value() is None ==> r == Err::<
            MemoryReport,
            CleanupError,
        >(CleanupError::MissingPageTable),
        r is Err ==> final(boot_block).free_memory.value() == old(boot_block).free_memory.value(),
        (old(boot_block).physical_map_page_size.value() is Some && old(
            boot_block,
        ).page_table.value() is Some && {
            let s = old(boot_block).physical_map_page_size.value()->0;
            let root = old(boot_block).page_table.value()->0.root();
            &&& s == 0x20_0000 || s == 0x4000_0000
            &&& tables_sound(*old(phys_mem), root)
            &&& region_entries_exist(*old(phys_mem), root, s)
        }) ==> r is Ok,
        r matches Ok(report) ==> {
            &&& old(boot_block).page_table.value() is Some
            &&& final(boot_block).page_table.value() == old(boot_block).page_table.value()
            &&& tables_sound(*old(phys_mem), old(boot_block).page_table.value()->0.root())
                ==> forall|pa: u64|
                pa < KERNEL_PHYSICAL_REGION_SIZE && pa % old(
                    boot_block,
                ).physical_map_page_size.value()->0 == 0 ==> #[trigger] spec_translate(
                    *final(phys_mem),
                    old(boot_block).page_table.value()->0.root(),
                    (pa + KERNEL_PHYSICAL_REGION_BASE) as u64,
                ) == Some(pa)
            &&& final(boot_block).free_memory.value()@ == old(
                boot_block,
            ).free_memory.value()@.union(old(boot_block).boot_memory.value()@)
            &&& final(boot_block).boot_memory.value()@ == Set::<u64>::empty()
            &&& report.reclaimed == total_size(old(boot_block).boot_memory.value().entry_seq())
            &&& report.free == total_size(final(boot_block).free_memory.value().entry_seq())
            &&& report.inaccessible == total_inaccessible(
                final(boot_block).free_memory.value().entry_seq(),
                MAX_ACCESSIBLE_PHYSICAL_ADDRESS,
            )
        },
{
    let ghost old_mem = *phys_mem;
    proof {
        crate::page_table::lemma_keeps_refl(old_mem, true);
    }

    // `AP entrypoint` will become invalid, clear it.
    *boot_block.ap_entrypoint.get_mut() = None;

    // Make kernel physical memory map non-executable.
    let page_size = match *boot_block.physical_map_page_size.get_mut() {
        Some(s) => s,
        None => return Err(CleanupError::MissingPageSize),
    };
    if page_size != 0x20_0000 && page_size != 0x4000_0000 {
        return Err(CleanupError::Remap(RemapError::InvalidPageSize));
    }
    match boot_block.page_table.get_mut() {
        Some(page_table) => {
            match remap_physical_region(page_table, phys_mem, page_size) {
                Ok(()) => {},
                Err(e) => return Err(CleanupError::Remap(e)),
            }
        },
        None => return Err(CleanupError::MissingPageTable),
    }

    // Reclaim boot memory.
    let mut boot_memory = RangeSet::new();
    std::mem::swap(&mut boot_memory, boot_block.boot_memory.get_mut());
    let reclaimed = reclaim_memory(boot_block.free_memory.get_mut(), &boot_memory);

    // Sum up all free memory.
    let (free, inaccessible) = memory_totals(boot_block.free_memory.get_mut().entries());
    Ok(MemoryReport { reclaimed, free, inaccessible })
}

/// Bits of a page table entry that select its PAT entry: PWT, PCD and PAT.
pub open spec fn pat_index(flags: u64) -> u64 {
    (4 * ((flags >> 7u64) & 1) + 2 * ((flags >> 4u64) & 1) + ((flags >> 3u64) & 1)) as u64
}

/// PAT MSR value `pat` with the memory type of entries with caching bits `flags` set to
/// `typ`.
pub fn set_memory_type(pat: u64, flags: u64, typ: u8) -> (r: u64)
    requires
        flags & !(PAGE_CACHE_DISABLE | PAGE_PAT | PAGE_PWT) == 0,
    ensures
        pat_index(flags) < 8,
        r == (pat & !(0xffu64 << (pat_index(flags) * 8) as u64)) | ((typ as u64) << (pat_index(
            flags,
        ) * 8) as u64),
{
    let pwt_flag = (flags >> 3) & 1;
    let pcd_flag = (flags >> 4) & 1;
    let pat_flag = (flags >> 7) & 1;
    proof {
        assert(pwt_flag <= 1 && pcd_flag <= 1 && pat_flag <= 1) by (bit_vector)
            requires
                pwt_flag == (flags >> 3u64) & 1,
                pcd_flag == (flags >> 4u64) & 1,
                pat_flag == (flags >> 7u64) & 1,
        ;
    }
    let index = 4 * pat_flag + 2 * pcd_flag + pwt_flag;
    let pat = pat & !(0xffu64 << (index * 8));
    pat | ((typ as u64) << (index * 8))
}

/// PAT MSR value that keeps `pat` but gives write-back to `PAGE_WB` entries, uncacheable to
/// `PAGE_UNCACHEABLE` entries and write-combining to `PAGE_WC` entries.
pub fn kernel_pat(pat: u64) -> (r: u64)
    ensures
        r == (((pat & !0xffu64) & !(0xffu64 << 16u64)) & !(0xffu64 << 40u64)) | 0x06 | (0x01u64
            << 40u64),
{
    proof {
        assert(0u64 & !(0x10u64 | 0x80u64 | 0x8u64) == 0 && 0x10u64 & !(0x10u64 | 0x80u64 | 0x8u64)
            == 0 && (0x80u64 | 0x8u64) & !(0x10u64 | 0x80u64 | 0x8u64) == 0 && pat_index(0) == 0
            && pat_index(0x10) == 2 && pat_index(0x88) == 5 && 0x80u64 | 0x8u64 == 0x88u64)
            by (bit_vector);
    }
    let p1 = set_memory_type(pat, PAGE_WB, 0x06);
    let p2 = set_memory_type(p1, PAGE_UNCACHEABLE, 0x00);
    let p3 = set_memory_type(p2, PAGE_WC, 0x01);
    assert(p3 == (((pat & !0xffu64) & !(0xffu64 << 16u64)) & !(0xffu64 << 40u64)) | 0x06 | (0x01u64
        << 40u64)) by (bit_vector)
        requires
            p1 == (pat & !(0xffu64 << 0u64)) | (6u64 << 0u64),
            p2 == (p1 & !(0xffu64 << 16u64)) | (0u64 << 16u64),
            p3 == (p2 & !(0xffu64 << 40u64)) | (1u64 << 40u64),
    ;
    p3
}

/// Amount of memory used by the stack metadata of a free list node: the next node and the
/// number of free slots.
pub const STACK_HEADER_SIZE: usize = 16;

/// Free list of allocations of one power of two size.
pub struct FreeList {
    /// Address of the first node, 0 if this free list is empty.
    head: usize,
    /// Allocation size for this free list, a power of two of at least 8.
    size: usize,
}

impl FreeList {
    pub closed spec fn size_spec(&self) -> usize {
        self.size
    }

    pub closed spec fn head_spec(&self) -> usize {
        self.head
    }

    /// An empty free list of allocations of `size` bytes.
    pub fn new(size: usize) -> (r: Self)
        requires
            crate::rangeset::popcount(size as u64) == 1,
            size >= 8,
        ensures
            r.size_spec() == size,
            r.head_spec() == 0,
    {
        Self { head: 0, size }
    }

    /// Nodes keep a stack of free addresses after their header; allocations no larger than
    /// the header are kept in a plain linked list.
    pub fn use_stack(&self) -> (r: bool)
        ensures
            r == (self.size_spec() > STACK_HEADER_SIZE),
    {
        self.size > STACK_HEADER_SIZE
    }

    /// Number of address slots after the header of a node.
    pub fn max_slots(&self) -> (r: usize)
        requires
            self.size_spec() > STACK_HEADER_SIZE,
        ensures
            r == (self.size_spec() - STACK_HEADER_SIZE) / 8,
    {
        (self.size - STACK_HEADER_SIZE) / 8
    }

    /// Offset of address slot `slot` from the start of its node.
    pub fn slot_ptr(&self, slot: usize) -> (r: usize)
        requires
            self.size_spec() > STACK_HEADER_SIZE,
            slot < (self.size_spec() - STACK_HEADER_SIZE) / 8,
        ensures
            r == STACK_HEADER_SIZE + slot * 8,
            r + 8 <= self.size_spec(),
    {
        STACK_HEADER_SIZE + slot * 8
    }
    /// Every word of the node at `node`, whose size is the allocation size, can be reached
    /// in `m`.
    pub open spec fn node_reachable<M: PhysMem>(&self, m: M, node: u64) -> bool {
        &&& node % 8 == 0
        &&& node != 0
        &&& node + self.size_spec() <= usize::MAX
        &&& forall|a: u64| node <= a < node + self.size_spec() && a % 8 == 0 ==> #[trigger] m.readable(a)
    }

    /// The first node of the list, if any, can be reached in `m` and counts no more free
    /// slots than a node has.
    pub open spec fn head_ok<M: PhysMem>(&self, m: M) -> bool {
        &&& self.size_spec() >= 8
        &&& self.head_spec() != 0 ==> self.node_reachable(m, self.head_spec() as u64)
        &&& (self.head_spec() != 0 && self.size_spec() > STACK_HEADER_SIZE) ==> m.word(
            (self.head_spec() + 8) as u64,
        ) <= (self.size_spec() - STACK_HEADER_SIZE) / 8
    }

    /// The free slot of the head node that a push fills, when it fills one: slots below the
    /// node's free count hold no address.
    pub open spec fn push_slot<M: PhysMem>(self, m: M) -> Option<u64> {
        if self.size_spec() > STACK_HEADER_SIZE && self.head_spec() != 0 && m.word(
            (self.head_spec() + 8) as u64,
        ) != 0 {
            Some(
                (self.head_spec() + STACK_HEADER_SIZE + (m.word((self.head_spec() + 8) as u64) - 1)
                    * 8) as u64,
            )
        } else {
            None
        }
    }

    /// What pushing `virt_addr` does to the list and to the memory its nodes live in.
    pub open spec fn push_outcome<M: PhysMem>(self, m0: M, virt_addr: u64, after: Self, m1: M) -> bool {
        &&& after.size_spec() == self.size_spec()
        &&& if self.size_spec() > STACK_HEADER_SIZE && self.head_spec() != 0 && m0.word(
            (self.head_spec() + 8) as u64,
        ) != 0 {
                let h = self.head_spec() as u64;
                let s = (m0.word((h + 8) as u64) - 1) as u64;
                &&& after.head_spec() == self.head_spec()
                &&& forall|a: u64|
                    a % 8 == 0 ==> #[trigger] m1.word(a) == if a == h + 8 {
                        s
                    } else if a == h + STACK_HEADER_SIZE + s * 8 {
                        virt_addr
                    } else {
                        m0.word(a)
                    }
            } else {
                &&& after.head_spec() == virt_addr
                &&& forall|a: u64|
                    a % 8 == 0 ==> #[trigger] m1.word(a) == if a == virt_addr {
                        self.head_spec() as u64
                    } else if a == virt_addr + 8 && self.size_spec() > STACK_HEADER_SIZE {
                        ((self.size_spec() - STACK_HEADER_SIZE) / 8) as u64
                    } else {
                        m0.word(a)
                    }
            }
    }

    /// What popping `r` does to the list and to the memory its nodes live in.
    pub open spec fn pop_outcome<M: PhysMem>(self, m0: M, r: Option<u64>, after: Self, m1: M) -> bool {
        &&& after.size_spec() == self.size_spec()
        &&& self.head_spec() == 0 ==> r is None && after == self && m1 == m0
        &&& self.head_spec() != 0 ==> if self.size_spec() > STACK_HEADER_SIZE && m0.word(
            (self.head_spec() + 8) as u64,
        ) != ((self.size_spec() - STACK_HEADER_SIZE) / 8) as u64 {
            let h = self.head_spec() as u64;
            let s = m0.word((h + 8) as u64);
            &&& r == Some(m0.word((h + STACK_HEADER_SIZE + s * 8) as u64))
            &&& after.head_spec() == self.head_spec()
            &&& forall|a: u64|
                a % 8 == 0 ==> #[trigger] m1.word(a) == if a == h + 8 {
                    (s + 1) as u64
                } else {
                    m0.word(a)
                }
        } else {
            &&& r == Some(self.head_spec() as u64)
            &&& after.head_spec() == m0.word(self.head_spec() as u64) as usize
            &&& m1 == m0
        }
    }

    /// Put the allocation at `virt_addr` back on the list, whose nodes live in `mem`. With
    /// node stacks, a full (or missing) head node makes the allocation the new head node
    /// with all its slots free; otherwise the address goes into the head node's next slot.
    /// Without stacks the allocation becomes the new head node.
    pub fn push<M: PhysMem>(&mut self, mem: &mut M, virt_addr: u64)
        requires
            old(self).head_ok(*old(mem)),
            old(self).node_reachable(*old(mem), virt_addr),
        ensures
            final(self).size_spec() == old(self).size_spec(),
            forall|a: u64| a % 8 == 0 ==> #[trigger] final(mem).readable(a) == old(mem).readable(a),
            forall|a: u64| a % 8 == 0 ==> #[trigger] final(mem).free(a) == old(mem).free(a),
            old(self).push_outcome(*old(mem), virt_addr, *final(self), *final(mem)),
            final(self).head_ok(*final(mem)),
    {
        if self.use_stack() {
            let head = self.head as u64;
            let free_slots = if head == 0 {
                0
            } else {
                match mem.read_u64(PhysAddr(head + 8)) {
                    Some(v) => v,
                    None => 0,
                }
            };
            if head == 0 || free_slots == 0 {
                // A new node, with all of its slots free, goes in front of the list.
                let slots = self.max_slots() as u64;
                let _ = mem.write_u64(PhysAddr(virt_addr + 8), slots);
                let _ = mem.write_u64(PhysAddr(virt_addr), head);
                self.head = virt_addr as usize;
            } else {
                // Take the next slot of the head node for the address.
                let slot = free_slots - 1;
                let _ = mem.write_u64(PhysAddr(head + 8), slot);
                let _ = mem.write_u64(PhysAddr(head + STACK_HEADER_SIZE as u64 + slot * 8), virt_addr);
            }
        } else {
            // The allocation becomes the head of a plain linked list.
            let _ = mem.write_u64(PhysAddr(virt_addr), self.head as u64);
            self.head = virt_addr as usize;
        }
    }

    /// Take an allocation from the list, whose nodes live in `mem`; `None` when the list is
    /// empty and has to be refilled. With node stacks, a head node without addresses is
    /// itself handed out; otherwise the address in its last used slot is.
    pub fn pop<M: PhysMem>(&mut self, mem: &mut M) -> (r: Option<u64>)
        requires
            old(self).head_ok(*old(mem)),
        ensures
            final(self).size_spec() == old(self).size_spec(),
            forall|a: u64| a % 8 == 0 ==> #[trigger] final(mem).readable(a) == old(mem).readable(a),
            forall|a: u64| a % 8 == 0 ==> #[trigger] final(mem).free(a) == old(mem).free(a),
            old(self).pop_outcome(*old(mem), r, *final(self), *final(mem)),
    {
        if self.head == 0 {
            return None;
        }
        let head = self.head as u64;
        if self.use_stack() {
            let free_slots = match mem.read_u64(PhysAddr(head + 8)) {
                Some(v) => v,
                None => 0,
            };
            if free_slots == self.max_slots() as u64 {
                // The address stack is empty: hand out the node itself.
                let next = match mem.read_u64(PhysAddr(head)) {
                    Some(v) => v,
                    None => 0,
                };
                self.head = next as usize;
                Some(head)
            } else {
                // Take the address in the last used slot.
                let addr = match mem.read_u64(PhysAddr(head + STACK_HEADER_SIZE as u64 + free_slots * 8)) {
                    Some(v) => v,
                    None => 0,
                };
                let _ = mem.write_u64(PhysAddr(head + 8), free_slots + 1);
                Some(addr)
            }
        } else {
            let next = match mem.read_u64(PhysAddr(head)) {
                Some(v) => v,
                None => 0,
            };
            self.head = next as usize;
            Some(head)
        }
    }
}

/// Popping right after a push hands back the pushed allocation and leaves the list as it was
/// before the push: the same head, and every word of memory as it was, but the pushed block
/// and the free slot that held its address for a while.
pub proof fn lemma_push_then_pop<M: PhysMem>(
    l0: FreeList,
    m0: M,
    virt_addr: u64,
    l1: FreeList,
    m1: M,
    r: Option<u64>,
    l2: FreeList,
    m2: M,
)
    requires
        l0.head_ok(m0),
        l0.node_reachable(m0, virt_addr),
        l0.push_outcome(m0, virt_addr, l1, m1),
        l1.pop_outcome(m1, r, l2, m2),
    ensures
        r == Some(virt_addr),
        l2.head_spec() == l0.head_spec(),
        forall|a: u64|
            a % 8 == 0 && a != virt_addr && a != virt_addr + 8 && Some(a) != l0.push_slot(m0)
                ==> #[trigger] m2.word(a) == m0.word(a),
{
}

/// A page of physical memory that the kernel reaches at a virtual address.
pub struct PhysicalPage {
    phys_addr: PhysAddr,
    virt_addr: VirtAddr,
}

impl PhysicalPage {
    pub closed spec fn phys_spec(&self) -> u64 {
        self.phys_addr.0
    }

    pub closed spec fn virt_spec(&self) -> u64 {
        self.virt_addr.0
    }

    /// The 4K aligned physical page `phys_addr` reached at `virt_addr`.
    pub fn new(phys_addr: PhysAddr, virt_addr: VirtAddr) -> (r: Self)
        requires
            phys_addr.0 & 0xfff == 0,
        ensures
            r.phys_spec() == phys_addr.0,
            r.virt_spec() == virt_addr.0,
    {
        Self { phys_addr, virt_addr }
    }

    pub fn phys_addr(&self) -> (r: PhysAddr)
        ensures
            r.0 == self.phys_spec(),
    {
        self.phys_addr
    }

    /// Virtual address of the page's contents.
    pub fn pointer(&mut self) -> (r: VirtAddr)
        ensures
            r.0 == old(self).virt_spec(),
            final(self).phys_spec() == old(self).phys_spec(),
            final(self).virt_spec() == old(self).virt_spec(),
    {
        self.virt_addr
    }
}

} // verus!
