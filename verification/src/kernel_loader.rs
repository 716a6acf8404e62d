//! Setting up the kernel in the bootloader: checking the kernel image read from the boot
//! disk, mapping its loadable segments into a fresh kernel page table, building the
//! trampoline page table used for the switch to the kernel, and mapping the linear physical
//! region. Reading the disk and creating the stack are left to the caller.
use vstd::prelude::*;
use crate::bdd::{checksum, fnv1a, BootDiskDescriptor, SIGNATURE};
use crate::boot_block::{KERNEL_PHYSICAL_REGION_BASE, KERNEL_PHYSICAL_REGION_SIZE};
use crate::elf::{
    header_spec, parse_ok, segment_fields_spec, slice_spec, Bitness, Elf, Machine, Segment,
    SegmentFields, SegmentType,
};
use crate::page_table::{
    keeps_in_use, maps_fresh_region, new_root_kept, other_kept, spec_page_size, spec_translate,
    tables_sound, PageTable, PageType, PhysMem, VirtAddr, PAGE_PRESENT, PAGE_SIZE, PAGE_WRITE,
    lemma_add_aligned, lemma_fresh_widen, lemma_keeps_refl, lemma_mapped_page,
    lemma_other_kept_trans, lemma_page_mask, lemma_roots_apart_sym, lemma_translations_kept,
    region_entries, lemma_entries_kept, chunks_kept, region_apart_from, mem_byte,
    lemma_chunks_refl, lemma_chunks_trans, lemma_fresh_apart_from, lemma_region_kept,
    maps_fresh_page, table_at, path_slot, leaf_slot, lemma_mapped_access,
};

verus! {

/// Addresses the bootloader needs to enter the kernel.
#[derive(Copy, Clone, PartialEq, Eq, Structural, Debug)]
pub struct KernelEntryData {
    pub entrypoint: u64,
    pub kernel_cr3: u32,
    pub trampoline_cr3: u32,
}

/// Why the kernel cannot be set up.
#[derive(Copy, Clone, PartialEq, Eq, Structural, Debug)]
pub enum LoadError {
    InvalidDescriptor,
    Checksum,
    Parse,
    Not64Bit,
    NotAmd64,
    PageTable,
    MapSegment,
    MapTrampoline,
    NoLargePages,
    MapPhysicalRegion,
    TableAboveFourGigabytes,
}

impl LoadError {
    /// Description of the error.
    pub fn message(&self) -> (r: &'static str)
        ensures
            r@ == (match *self {
                LoadError::InvalidDescriptor => "BDD has invalid signature."@,
                LoadError::Checksum => "Loaded kernel has invalid checksum."@,
                LoadError::Parse => "Failed to parse kernel ELF file."@,
                LoadError::Not64Bit => "Loaded kernel is not 64 bit."@,
                LoadError::NotAmd64 => "Loaded kernel is AMD64 binary."@,
                LoadError::PageTable => "Failed to allocate kernel page table."@,
                LoadError::MapSegment => "Failed to map kernel segment."@,
                LoadError::MapTrampoline => "Failed to map physical region in the trampoline page table."@,
                LoadError::NoLargePages => "CPU needs to support at least 2M pages."@,
                LoadError::MapPhysicalRegion => "Failed to map physical region in the kernel page table."@,
                LoadError::TableAboveFourGigabytes => "Page table does not fit in 32 bits."@,
            }),
    {
        match self {
            LoadError::InvalidDescriptor => "BDD has invalid signature.",
            LoadError::Checksum => "Loaded kernel has invalid checksum.",
            LoadError::Parse => "Failed to parse kernel ELF file.",
            LoadError::Not64Bit => "Loaded kernel is not 64 bit.",
            LoadError::NotAmd64 => "Loaded kernel is AMD64 binary.",
            LoadError::PageTable => "Failed to allocate kernel page table.",
            LoadError::MapSegment => "Failed to map kernel segment.",
            LoadError::MapTrampoline => "Failed to map physical region in the trampoline page table.",
            LoadError::NoLargePages => "CPU needs to support at least 2M pages.",
            LoadError::MapPhysicalRegion => "Failed to map physical region in the kernel page table.",
            LoadError::TableAboveFourGigabytes => "Page table does not fit in 32 bits.",
        }
    }
}

/// Only memory below 1MB runs through the trampoline page table.
pub const TRAMPOLINE_PHYSICAL_REGION_SIZE: u64 = 1024 * 1024;

/// The descriptor read from the boot disk carries the signature of a valid one.
pub fn check_descriptor(descriptor: &BootDiskDescriptor) -> (r: Result<(), LoadError>)
    ensures
        r is Ok <==> descriptor.signature == SIGNATURE,
        r is Err ==> r == Err::<(), LoadError>(LoadError::InvalidDescriptor),
{
    if descriptor.signature == SIGNATURE {
        Ok(())
    } else {
        Err(LoadError::InvalidDescriptor)
    }
}

/// Byte `offset` of a segment mapped from `front_padding` bytes before its start: zero in
/// the padding and past the file contents `bytes`.
pub open spec fn spec_segment_byte(bytes: Seq<u8>, front_padding: u64, offset: u64) -> u8 {
    if offset < front_padding || offset - front_padding >= bytes.len() {
        0
    } else {
        bytes[offset - front_padding]
    }
}

pub fn segment_byte(bytes: &[u8], front_padding: u64, offset: u64) -> (r: u8)
    ensures
        r == spec_segment_byte(bytes@, front_padding, offset),
{
    if offset < front_padding {
        return 0;
    }
    let offset = offset - front_padding;
    let len = bytes.len();
    if offset < len as u64 {
        bytes[offset as usize]
    } else {
        0
    }
}

/// Page aligned start, front padding and page aligned size of the region that holds a
/// segment of `virt_size` bytes at `virt_addr`, if its end fits in 64 bits.
pub open spec fn segment_region(virt_addr: u64, virt_size: u64) -> Option<(u64, u64, u64)> {
    let start = virt_addr - virt_addr % 4096;
    let padding = virt_addr % 4096;
    if virt_size + padding + 0xfff > u64::MAX {
        None
    } else {
        Some((start as u64, padding as u64, ((virt_size + padding + 0xfff) / 4096 * 4096) as u64))
    }
}

/// The region of a segment starts on the page boundary at or below the segment, its padding
/// is the distance from there to the segment, and it ends on the first page boundary at or
/// past the segment's end; there is a region whenever that boundary fits in 64 bits.
pub proof fn lemma_segment_region(virt_addr: u64, virt_size: u64)
    ensures
        segment_region(virt_addr, virt_size) is None ==> virt_addr + virt_size + 0xfff
            > u64::MAX,
        segment_region(virt_addr, virt_size) matches Some((start, padding, size)) ==> {
            &&& start % 4096 == 0
            &&& size % 4096 == 0
            &&& start <= virt_addr < start + 4096
            &&& padding == virt_addr - start
            &&& virt_addr + virt_size <= start + size < virt_addr + virt_size + 4096
        },
{
    let padding = virt_addr % 4096;
    let n = virt_size + padding;
    if n + 0xfff <= u64::MAX {
        let size = (n + 0xfff) / 4096 * 4096;
        assert(n <= size < n + 4096 && size % 4096 == 0) by (nonlinear_arith)
            requires
                size == (n + 0xfff) / 4096 * 4096,
                n >= 0,
        ;
    }
}

/// After a load that maps a segment and fills it, every byte of the segment in memory, from
/// its virtual address to the end of its memory size, lies on a mapped page and holds the
/// segment's file byte at that offset, or zero past the file bytes.
pub proof fn lemma_segment_bytes<M: PhysMem>(
    before: M,
    m: M,
    root: u64,
    f: SegmentFields,
    bytes: Seq<u8>,
    va: u64,
)
    requires
        segment_mapped(before, m, root, f),
        segment_loaded(m, root, f, bytes),
        f.virt_addr <= va < f.virt_addr + f.virt_size,
    ensures
        spec_translate(m, root, (va - va % 4096) as u64) is Some,
        mem_byte(m, (spec_translate(m, root, (va - va % 4096) as u64)->0 + va % 4096) as u64) == (
        if va - f.virt_addr < bytes.len() {
            bytes[va - f.virt_addr]
        } else {
            0u8
        }),
{
    lemma_segment_region(f.virt_addr, f.virt_size);
    let reg = segment_region(f.virt_addr, f.virt_size)->0;
    let page = (va - va % 4096) as u64;
    let k = (va % 4096) as u64;
    vstd::arithmetic::div_mod::lemma_fundamental_div_mod(va as int, 4096);
    vstd::arithmetic::div_mod::lemma_fundamental_div_mod(f.virt_addr as int, 4096);
    vstd::arithmetic::div_mod::lemma_div_is_ordered(f.virt_addr as int, va as int, 4096);
    assert(reg.0 <= page) by (nonlinear_arith)
        requires
            reg.0 == f.virt_addr - f.virt_addr % 4096,
            f.virt_addr == 4096 * (f.virt_addr / 4096) + f.virt_addr % 4096,
            va == 4096 * (va / 4096) + va % 4096,
            page == va - va % 4096,
            f.virt_addr / 4096 <= va / 4096,
    ;
    assert(page % 4096 == 0) by (nonlinear_arith)
        requires
            page == va - va % 4096,
            va == 4096 * (va / 4096) + va % 4096,
    ;
    assert(maps_fresh_page(before, m, root, page, 4096));
    assert(mem_byte(m, (spec_translate(m, root, page)->0 + k) as u64) == spec_segment_byte(
        bytes,
        reg.1,
        (page - reg.0 + k) as u64,
    ));
}

/// Every page of a mapped loadable segment is present, executable (NX, bit 63, clear)
/// exactly when the segment's flags hold PF_X (bit 0), writable (bit 1) exactly when they
/// hold PF_W (bit 1), and never reachable from user mode (bit 2 clear).
pub proof fn lemma_segment_access<M: PhysMem>(before: M, m: M, root: u64, f: SegmentFields, va: u64)
    requires
        segment_mapped(before, m, root, f),
        f.virt_addr <= va < f.virt_addr + f.virt_size,
    ensures
        leaf_slot(m, root, (va - va % 4096) as u64, PageType::Page4K) is Some,
        ({
            let e = m.word(leaf_slot(m, root, (va - va % 4096) as u64, PageType::Page4K)->0);
            &&& e & 1 != 0
            &&& (e & 0x8000_0000_0000_0000u64 == 0) == (f.flags & 1 != 0)
            &&& (e & 2 != 0) == (f.flags & 2 != 0)
            &&& e & 4 == 0
        }),
{
    lemma_segment_region(f.virt_addr, f.virt_size);
    let reg = segment_region(f.virt_addr, f.virt_size)->0;
    let page = (va - va % 4096) as u64;
    lemma_page_in_region(f.virt_addr, va, reg.0);
    lemma_mapped_access(
        m,
        root,
        reg.0,
        reg.2,
        PageType::Page4K,
        f.flags & 2 != 0,
        f.flags & 1 != 0,
        false,
        page,
    );
}

/// The page of an address at or above `virt_addr` starts at or above the page of
/// `virt_addr`, and on a page boundary.
proof fn lemma_page_in_region(virt_addr: u64, va: u64, start: u64)
    requires
        virt_addr <= va,
        start == virt_addr - virt_addr % 4096,
    ensures
        start <= va - va % 4096,
        (va - va % 4096) % 4096 == 0,
{
    vstd::arithmetic::div_mod::lemma_fundamental_div_mod(va as int, 4096);
    vstd::arithmetic::div_mod::lemma_fundamental_div_mod(virt_addr as int, 4096);
    vstd::arithmetic::div_mod::lemma_div_is_ordered(virt_addr as int, va as int, 4096);
    assert(start <= va - va % 4096) by (nonlinear_arith)
        requires
            start == virt_addr - virt_addr % 4096,
            virt_addr == 4096 * (virt_addr / 4096) + virt_addr % 4096,
            va == 4096 * (va / 4096) + va % 4096,
            virt_addr / 4096 <= va / 4096,
    ;
    assert((va - va % 4096) % 4096 == 0) by (nonlinear_arith)
        requires
            va == 4096 * (va / 4096) + va % 4096,
    ;
}

fn region_of(virt_addr: u64, virt_size: u64) -> (r: Option<(u64, u64, u64)>)
    ensures
        r == segment_region(virt_addr, virt_size),
{
    let padding = virt_addr % 4096;
    let start = virt_addr - padding;
    if virt_size > u64::MAX - padding - 0xfff {
        return None;
    }
    Some((start, padding, (virt_size + padding + 0xfff) / 4096 * 4096))
}

/// Map the loadable segment `segment` into `page_table` with its permissions, page aligned,
/// filled from its file contents and zero elsewhere.
fn map_segment<M: PhysMem>(page_table: &mut PageTable, phys_mem: &mut M, segment: &Segment) -> (r:
    Result<(), LoadError>)
    ensures
        *final(page_table) == *old(page_table),
        keeps_in_use(*old(phys_mem), *final(phys_mem), false),
        segment.seg_type != SegmentType::Load ==> (r is Ok && *final(phys_mem) == *old(phys_mem)),
        r is Err ==> r == Err::<(), LoadError>(LoadError::MapSegment),
        tables_sound(*old(phys_mem), old(page_table).root()) ==> tables_sound(
            *final(phys_mem),
            old(page_table).root(),
        ),
        (r is Ok && segment.seg_type == SegmentType::Load) ==> segment_region(
            segment.virt_addr,
            segment.virt_size,
        ) is Some,
        (r is Ok && segment.seg_type == SegmentType::Load && tables_sound(
            *old(phys_mem),
            old(page_table).root(),
        )) ==> maps_fresh_region(
            *old(phys_mem),
            *final(phys_mem),
            old(page_table).root(),
            (segment_region(segment.virt_addr, segment.virt_size)->0).0,
            (segment_region(segment.virt_addr, segment.virt_size)->0).2,
            4096,
        ),
        (r is Ok && segment.seg_type == SegmentType::Load && tables_sound(
            *old(phys_mem),
            old(page_table).root(),
        )) ==> region_entries(
            *final(phys_mem),
            old(page_table).root(),
            (segment_region(segment.virt_addr, segment.virt_size)->0).0,
            (segment_region(segment.virt_addr, segment.virt_size)->0).2,
            PageType::Page4K,
            segment.write,
            segment.execute,
            false,
        ),
        forall|o: u64| #[trigger] other_kept(*old(phys_mem), *final(phys_mem), old(page_table).root(), o),
        (r is Ok && tables_sound(*old(phys_mem), old(page_table).root())) ==> chunks_kept(
            *old(phys_mem),
            *final(phys_mem),
            old(page_table).root(),
        ),
        (r is Ok && segment.seg_type == SegmentType::Load && tables_sound(
            *old(phys_mem),
            old(page_table).root(),
        )) ==> region_apart_from(
            *final(phys_mem),
            old(page_table).root(),
            old(page_table).root(),
            (segment_region(segment.virt_addr, segment.virt_size)->0).0,
            (segment_region(segment.virt_addr, segment.virt_size)->0).2,
            4096,
        ),
        (r is Ok && segment.seg_type == SegmentType::Load && tables_sound(
            *old(phys_mem),
            old(page_table).root(),
        )) ==> forall|pva: u64, k: u64|
            (segment_region(segment.virt_addr, segment.virt_size)->0).0 <= pva < (segment_region(
                segment.virt_addr,
                segment.virt_size,
            )->0).0 + (segment_region(segment.virt_addr, segment.virt_size)->0).2 && pva % 4096 == 0
                && k < 4096 ==> #[trigger] mem_byte(
                *final(phys_mem),
                (spec_translate(*final(phys_mem), old(page_table).root(), pva)->0 + k) as u64,
            ) == spec_segment_byte(
                segment.bytes@,
                (segment_region(segment.virt_addr, segment.virt_size)->0).1,
                (pva - (segment_region(segment.virt_addr, segment.virt_size)->0).0 + k) as u64,
            ),
{
    let ghost old_mem = *phys_mem;
    proof {
        crate::page_table::lemma_keeps_refl(old_mem, false);
        lemma_chunks_refl(old_mem, page_table.root());
    }
    if segment.seg_type != SegmentType::Load {
        return Ok(());
    }
    let (start, padding, size) = match region_of(segment.virt_addr, segment.virt_size) {
        Some(region) => region,
        None => return Err(LoadError::MapSegment),
    };
    let bytes = segment.bytes;
    let init = move |offset: u64| -> (b: u8)
        ensures
            b == spec_segment_byte(bytes@, padding, offset),
        { segment_byte(bytes, padding, offset) };
    let ghost root = page_table.root();
    let mapped = page_table.map_init(
        phys_mem,
        VirtAddr(start),
        PageType::Page4K,
        size,
        segment.write,
        segment.execute,
        false,
        Some(init),
    );
    proof {
        if mapped is Some && tables_sound(old_mem, root) {
            let m = *phys_mem;
            assert forall|pva: u64, k: u64|
                start <= pva < start + size && pva % 4096 == 0 && k < 4096 implies #[trigger] mem_byte(
                m,
                (spec_translate(m, root, pva)->0 + k) as u64,
            ) == spec_segment_byte(bytes@, padding, (pva - start + k) as u64) by {
                assert(crate::page_table::byte_filled(m, root, start, pva, k, init));
            }
        }
    }
    match mapped {
        Some(()) => Ok(()),
        None => Err(LoadError::MapSegment),
    }
}

/// Map the first 1MB of physical memory at its own address and in the linear physical
/// region, writable and executable, in the trampoline page table.
fn map_trampoline<M: PhysMem>(page_table: &mut PageTable, phys_mem: &mut M) -> (r: Result<
    (),
    LoadError,
>)
    ensures
        *final(page_table) == *old(page_table),
        keeps_in_use(*old(phys_mem), *final(phys_mem), false),
        r is Err ==> r == Err::<(), LoadError>(LoadError::MapTrampoline),
        tables_sound(*old(phys_mem), old(page_table).root()) ==> tables_sound(
            *final(phys_mem),
            old(page_table).root(),
        ),
        (r is Ok && tables_sound(*old(phys_mem), old(page_table).root())) ==> forall|pa: u64|
            pa < TRAMPOLINE_PHYSICAL_REGION_SIZE && pa % 4096 == 0 ==> #[trigger] spec_translate(
                *final(phys_mem),
                old(page_table).root(),
                pa,
            ) == Some(pa),
        (r is Ok && tables_sound(*old(phys_mem), old(page_table).root())) ==> forall|pa: u64|
            pa < TRAMPOLINE_PHYSICAL_REGION_SIZE && pa % 4096 == 0 ==> #[trigger] spec_translate(
                *final(phys_mem),
                old(page_table).root(),
                (pa + KERNEL_PHYSICAL_REGION_BASE) as u64,
            ) == Some(pa),
        forall|o: u64| #[trigger] other_kept(*old(phys_mem), *final(phys_mem), old(page_table).root(), o),
        (r is Ok && tables_sound(*old(phys_mem), old(page_table).root())) ==> chunks_kept(
            *old(phys_mem),
            *final(phys_mem),
            old(page_table).root(),
        ),
{
    let ghost old_mem = *phys_mem;
    let ghost root = page_table.root();
    let ghost ts = tables_sound(old_mem, root);
    proof {
        crate::page_table::lemma_keeps_refl(old_mem, false);
        lemma_chunks_refl(old_mem, page_table.root());
        use_type_invariant(&*page_table);
        page_table.lemma_root();
    }
    let mut phys_addr: u64 = 0;
    while phys_addr < TRAMPOLINE_PHYSICAL_REGION_SIZE
        invariant
            *page_table == *old(page_table),
            old_mem == *old(phys_mem),
            phys_addr % 4096 == 0,
            phys_addr <= TRAMPOLINE_PHYSICAL_REGION_SIZE,
            keeps_in_use(old_mem, *phys_mem, false),
            root == page_table.root(),
            root % 4096 == 0,
            root <= crate::page_table::FRAME_MASK,
            ts == tables_sound(old_mem, root),
            ts ==> tables_sound(*phys_mem, root),
            ts ==> forall|pa: u64|
                pa < phys_addr && pa % 4096 == 0 ==> #[trigger] spec_translate(*phys_mem, root, pa)
                    == Some(pa),
            ts ==> forall|pa: u64|
                pa < phys_addr && pa % 4096 == 0 ==> #[trigger] spec_translate(
                    *phys_mem,
                    root,
                    (pa + KERNEL_PHYSICAL_REGION_BASE) as u64,
                ) == Some(pa),
            forall|o: u64| #[trigger] other_kept(old_mem, *phys_mem, root, o),
            ts ==> chunks_kept(old_mem, *phys_mem, root),
        decreases TRAMPOLINE_PHYSICAL_REGION_SIZE - phys_addr,
    {
        let raw = phys_addr | PAGE_WRITE | PAGE_PRESENT;
        proof {
            crate::page_table::lemma_flags_below_dealloc(phys_addr);
        }
        let ghost before = *phys_mem;
        match page_table.map_raw(phys_mem, VirtAddr(phys_addr), PageType::Page4K, raw, true, false) {
            Some(_) => {},
            None => {
                proof {
                    crate::page_table::lemma_keeps_chain(old_mem, before, *phys_mem, false);
                    let now = *phys_mem;
                    assert forall|o: u64| #[trigger] other_kept(old_mem, now, root, o) by {
                        if ts {
                            lemma_other_kept_trans(old_mem, before, now, root, o);
                        }
                    }
                }
                return Err(LoadError::MapTrampoline);
            },
        }
        proof {
            crate::page_table::lemma_keeps_chain(old_mem, before, *phys_mem, false);
            if ts {
                lemma_chunks_trans(old_mem, before, *phys_mem, root);
            }
            let now = *phys_mem;
            assert forall|o: u64| #[trigger] other_kept(old_mem, now, root, o) by {
                if ts {
                    lemma_other_kept_trans(old_mem, before, now, root, o);
                }
            }
        }
        let ghost middle = *phys_mem;
        let virt_addr = VirtAddr(phys_addr + KERNEL_PHYSICAL_REGION_BASE);
        match page_table.map_raw(phys_mem, virt_addr, PageType::Page4K, raw, true, false) {
            Some(_) => {},
            None => {
                proof {
                    crate::page_table::lemma_keeps_chain(old_mem, middle, *phys_mem, false);
                    let now = *phys_mem;
                    assert forall|o: u64| #[trigger] other_kept(old_mem, now, root, o) by {
                        if ts {
                            lemma_other_kept_trans(old_mem, middle, now, root, o);
                        }
                    }
                }
                return Err(LoadError::MapTrampoline);
            },
        }
        proof {
            crate::page_table::lemma_keeps_chain(old_mem, middle, *phys_mem, false);
            if ts {
                lemma_chunks_trans(old_mem, middle, *phys_mem, root);
            }
            let now = *phys_mem;
            assert forall|o: u64| #[trigger] other_kept(old_mem, now, root, o) by {
                if ts {
                    lemma_other_kept_trans(old_mem, middle, now, root, o);
                }
            }
            if ts {
                let m = *phys_mem;
                lemma_page_mask(phys_addr, PageType::Page4K);
                lemma_mapped_page(before, middle, root, phys_addr, PageType::Page4K, raw, false);
                lemma_add_aligned(KERNEL_PHYSICAL_REGION_BASE, phys_addr, 4096);
                lemma_page_mask(virt_addr.0, PageType::Page4K);
                lemma_mapped_page(middle, m, root, virt_addr.0, PageType::Page4K, raw, false);
                assert forall|pa: u64|
                    pa < phys_addr + 4096 && pa % 4096 == 0 implies #[trigger] spec_translate(m, root, pa)
                    == Some(pa) by {
                    if pa < phys_addr {
                        assert(spec_translate(before, root, pa) == Some(pa));
                    } else {
                        crate::page_table::lemma_aligned_step(phys_addr, pa, 4096);
                    }
                }
                assert forall|pa: u64|
                    pa < phys_addr + 4096 && pa % 4096 == 0 implies #[trigger] spec_translate(
                    m,
                    root,
                    (pa + KERNEL_PHYSICAL_REGION_BASE) as u64,
                ) == Some(pa) by {
                    if pa < phys_addr {
                        assert(spec_translate(before, root, (pa + KERNEL_PHYSICAL_REGION_BASE) as u64)
                            == Some(pa));
                    } else {
                        crate::page_table::lemma_aligned_step(phys_addr, pa, 4096);
                    }
                }
            }
        }
        phys_addr = phys_addr + 4096;
    }
    Ok(())
}

/// Map the linear physical region of the kernel with writable, executable pages of
/// `page_size` bytes (2M or 1G), adding tables as needed.
fn map_physical_region<M: PhysMem>(
    page_table: &mut PageTable,
    phys_mem: &mut M,
    page_type: PageType,
) -> (r: Result<(), LoadError>)
    requires
        page_type != PageType::Page4K,
    ensures
        *final(page_table) == *old(page_table),
        keeps_in_use(*old(phys_mem), *final(phys_mem), false),
        r is Err ==> r == Err::<(), LoadError>(LoadError::MapPhysicalRegion),
        tables_sound(*old(phys_mem), old(page_table).root()) ==> tables_sound(
            *final(phys_mem),
            old(page_table).root(),
        ),
        (r is Ok && tables_sound(*old(phys_mem), old(page_table).root())) ==> forall|pa: u64|
            pa < KERNEL_PHYSICAL_REGION_SIZE && pa % spec_page_size(page_type) == 0
                ==> #[trigger] spec_translate(
                *final(phys_mem),
                old(page_table).root(),
                (pa + KERNEL_PHYSICAL_REGION_BASE) as u64,
            ) == Some(pa),
        forall|o: u64| #[trigger] other_kept(*old(phys_mem), *final(phys_mem), old(page_table).root(), o),
        (r is Ok && tables_sound(*old(phys_mem), old(page_table).root())) ==> chunks_kept(
            *old(phys_mem),
            *final(phys_mem),
            old(page_table).root(),
        ),
{
    let ghost old_mem = *phys_mem;
    let ghost root = page_table.root();
    let ghost ts = tables_sound(old_mem, root);
    proof {
        crate::page_table::lemma_keeps_refl(old_mem, false);
        lemma_chunks_refl(old_mem, page_table.root());
        use_type_invariant(&*page_table);
        page_table.lemma_root();
    }
    let page_size = page_type.size();
    let mut phys_addr: u64 = 0;
    while phys_addr < KERNEL_PHYSICAL_REGION_SIZE
        invariant
            *page_table == *old(page_table),
            old_mem == *old(phys_mem),
            page_size == 0x20_0000 || page_size == 0x4000_0000,
            page_type != PageType::Page4K,
            phys_addr % 0x20_0000 == 0,
            phys_addr % page_size == 0,
            phys_addr <= KERNEL_PHYSICAL_REGION_SIZE,
            keeps_in_use(old_mem, *phys_mem, false),
            page_size == spec_page_size(page_type),
            root == page_table.root(),
            root % 4096 == 0,
            root <= crate::page_table::FRAME_MASK,
            ts == tables_sound(old_mem, root),
            ts ==> tables_sound(*phys_mem, root),
            ts ==> forall|pa: u64|
                pa < phys_addr && pa % page_size == 0 ==> #[trigger] spec_translate(
                    *phys_mem,
                    root,
                    (pa + KERNEL_PHYSICAL_REGION_BASE) as u64,
                ) == Some(pa),
            forall|o: u64| #[trigger] other_kept(old_mem, *phys_mem, root, o),
            ts ==> chunks_kept(old_mem, *phys_mem, root),
        decreases KERNEL_PHYSICAL_REGION_SIZE - phys_addr,
    {
        let virt_addr = VirtAddr(phys_addr + KERNEL_PHYSICAL_REGION_BASE);
        let raw = phys_addr | PAGE_PRESENT | PAGE_WRITE | PAGE_SIZE;
        proof {
            crate::page_table::lemma_flags_below_dealloc(phys_addr);
        }
        let ghost before = *phys_mem;
        match page_table.map_raw(phys_mem, virt_addr, page_type, raw, true, false) {
            Some(_) => {},
            None => {
                proof {
                    crate::page_table::lemma_keeps_chain(old_mem, before, *phys_mem, false);
                    let now = *phys_mem;
                    assert forall|o: u64| #[trigger] other_kept(old_mem, now, root, o) by {
                        if ts {
                            lemma_other_kept_trans(old_mem, before, now, root, o);
                        }
                    }
                }
                return Err(LoadError::MapPhysicalRegion);
            },
        }
        proof {
            crate::page_table::lemma_keeps_chain(old_mem, before, *phys_mem, false);
            if ts {
                lemma_chunks_trans(old_mem, before, *phys_mem, root);
            }
            let now = *phys_mem;
            assert forall|o: u64| #[trigger] other_kept(old_mem, now, root, o) by {
                if ts {
                    lemma_other_kept_trans(old_mem, before, now, root, o);
                }
            }
            assert((phys_addr + page_size) % 0x20_0000 == 0 && (phys_addr + page_size) % (
            page_size as int) == 0) by (nonlinear_arith)
                requires
                    phys_addr % 0x20_0000 == 0,
                    phys_addr % page_size == 0,
                    page_size == 0x20_0000 || page_size == 0x4000_0000,
            ;
            assert(phys_addr + page_size <= 0x100_0000_0000) by (nonlinear_arith)
                requires
                    phys_addr % page_size == 0,
                    phys_addr < 0x100_0000_0000,
                    page_size == 0x20_0000 || page_size == 0x4000_0000,
            ;
            if ts {
                let m = *phys_mem;
                lemma_add_aligned(KERNEL_PHYSICAL_REGION_BASE, phys_addr, page_size);
                lemma_page_mask(virt_addr.0, page_type);
                lemma_mapped_page(before, m, root, virt_addr.0, page_type, raw, false);
                assert forall|pa: u64|
                    pa < phys_addr + page_size && pa % page_size == 0 implies #[trigger] spec_translate(
                    m,
                    root,
                    (pa + KERNEL_PHYSICAL_REGION_BASE) as u64,
                ) == Some(pa) by {
                    if pa < phys_addr {
                        assert(spec_translate(before, root, (pa + KERNEL_PHYSICAL_REGION_BASE) as u64)
                            == Some(pa));
                    } else {
                        crate::page_table::lemma_aligned_step(phys_addr, pa, page_size);
                    }
                }
            }
        }
        phys_addr = phys_addr + page_size;
    }
    Ok(())
}

/// The physical address of the root table of `page_table`, if it fits in 32 bits.
fn cr3_of(page_table: &mut PageTable) -> (r: Result<u32, LoadError>)
    ensures
        *final(page_table) == *old(page_table),
        match r {
            Ok(v) => v == old(page_table).root(),
            Err(e) => e == LoadError::TableAboveFourGigabytes && old(page_table).root() > u32::MAX,
        },
{
    let table = page_table.table().0;
    if table > u32::MAX as u64 {
        Err(LoadError::TableAboveFourGigabytes)
    } else {
        Ok(table as u32)
    }
}

/// Every byte of the pages that `root` maps for the page aligned region of the segment with
/// the fields `f` holds the segment's byte at that offset: its file bytes `bytes` after the
/// padding in front, zero past them.
pub open spec fn segment_loaded<M: PhysMem>(m: M, root: u64, f: SegmentFields, bytes: Seq<u8>) -> bool {
    segment_region(f.virt_addr, f.virt_size) matches Some(reg) && forall|pva: u64, k: u64|
        reg.0 <= pva < reg.0 + reg.2 && pva % 4096 == 0 && k < 4096 ==> #[trigger] mem_byte(
            m,
            (spec_translate(m, root, pva)->0 + k) as u64,
        ) == spec_segment_byte(bytes, reg.1, (pva - reg.0 + k) as u64)
}

/// The loadable segment with the fields `f` is mapped in `after` by the tables at `root`:
/// each page of its page aligned region to a page of its own that was free in `before`,
/// writable and executable as the segment's flags say, and not user accessible.
pub open spec fn segment_mapped<M: PhysMem>(before: M, after: M, root: u64, f: SegmentFields) -> bool {
    segment_region(f.virt_addr, f.virt_size) matches Some(reg) && maps_fresh_region(
        before,
        after,
        root,
        reg.0,
        reg.2,
        4096,
    ) && region_entries(
        after,
        root,
        reg.0,
        reg.2,
        PageType::Page4K,
        f.flags & 2 != 0,
        f.flags & 1 != 0,
        false,
    )
}

/// The file bytes of the segment with the fields `f` in the image `b`.
pub open spec fn segment_file_bytes(b: Seq<u8>, f: SegmentFields) -> Seq<u8> {
    slice_spec(b, f.raw_offset as int, f.raw_size as int)->0
}

/// The pages of a loadable segment stay apart from the walks of both the kernel table `kr`
/// and the trampoline table `tr`, and hold the segment's bytes.
spec fn segment_kept<M: PhysMem>(m: M, kr: u64, tr: u64, f: SegmentFields, bytes: Seq<u8>) -> bool {
    segment_region(f.virt_addr, f.virt_size) matches Some(reg) && region_apart_from(
        m,
        kr,
        kr,
        reg.0,
        reg.2,
        4096,
    ) && region_apart_from(m, kr, tr, reg.0, reg.2, 4096) && segment_loaded(m, kr, f, bytes)
}

/// A change that keeps the chunks apart from the table `r` it works on, leaves the walks of
/// the other table and the kernel table's translations alone keeps a loaded segment.
proof fn lemma_segment_kept<M: PhysMem>(
    before: M,
    m0: M,
    m1: M,
    kr: u64,
    tr: u64,
    r: u64,
    f: SegmentFields,
    bytes: Seq<u8>,
)
    requires
        segment_kept(m0, kr, tr, f, bytes),
        segment_mapped(before, m0, kr, f),
        chunks_kept(m0, m1, r),
        r == kr || r == tr,
        kr != tr,
        r == kr ==> forall|v: u64, i: nat| i <= 4 ==> #[trigger] table_at(m1, tr, v, i) == table_at(m0, tr, v, i),
        r == tr ==> forall|v: u64, i: nat| i <= 4 ==> #[trigger] table_at(m1, kr, v, i) == table_at(m0, kr, v, i),
        forall|vb: u64|
            spec_translate(m0, kr, vb) is Some ==> #[trigger] spec_translate(m1, kr, vb) == spec_translate(
                m0,
                kr,
                vb,
            ),
    ensures
        segment_kept(m1, kr, tr, f, bytes),
{
    let reg = segment_region(f.virt_addr, f.virt_size)->0;
    assert forall|pva: u64| reg.0 <= pva < reg.0 + reg.2 && pva % 4096 == 0 implies #[trigger] spec_translate(
        m1,
        kr,
        pva,
    ) == spec_translate(m0, kr, pva) by {
        assert(maps_fresh_page(before, m0, kr, pva, 4096));
    }
    assert forall|pva: u64| reg.0 <= pva < reg.0 + reg.2 && pva % 4096 == 0 implies (#[trigger] spec_translate(
        m0,
        kr,
        pva,
    )->0) % 4096 == 0 by {
        assert(maps_fresh_page(before, m0, kr, pva, 4096));
    }
    assert(spec_page_size(PageType::Page4K) == 4096);
    lemma_region_kept(m0, m1, kr, r, kr, reg.0, reg.2, PageType::Page4K);
    lemma_region_kept(m0, m1, kr, r, tr, reg.0, reg.2, PageType::Page4K);
    assert forall|pva: u64, k: u64|
        reg.0 <= pva < reg.0 + reg.2 && pva % 4096 == 0 && k < 4096 implies #[trigger] mem_byte(
        m1,
        (spec_translate(m1, kr, pva)->0 + k) as u64,
    ) == spec_segment_byte(bytes, reg.1, (pva - reg.0 + k) as u64) by {
        assert(mem_byte(m0, (spec_translate(m0, kr, pva)->0 + k) as u64) == spec_segment_byte(
            bytes,
            reg.1,
            (pva - reg.0 + k) as u64,
        ));
    }
}

/// The kernel as set up for entry: where to enter it, its page table and the size of the
/// pages of its linear physical region.
pub struct LoadedKernel {
    pub entry: KernelEntryData,
    pub page_table: PageTable,
    pub physical_map_page_size: u64,
}

/// Set up the kernel image `kernel` read from the boot disk, whose checksum the boot disk
/// descriptor gives as `kernel_checksum`: check it, map its loadable segments in a new
/// kernel page table, build the trampoline page table, and map the linear physical region
/// with 1G pages if the CPU has them (`page1g`), else with 2M pages (`page2m`).
pub fn load_kernel<M: PhysMem>(
    phys_mem: &mut M,
    kernel: &[u8],
    kernel_checksum: u32,
    page1g: bool,
    page2m: bool,
) -> (r: Result<LoadedKernel, LoadError>)
    ensures
        keeps_in_use(*old(phys_mem), *final(phys_mem), false),
        fnv1a(kernel@) != kernel_checksum ==> r is Err && r->Err_0 == LoadError::Checksum
            && *final(phys_mem) == *old(phys_mem),
        fnv1a(kernel@) == kernel_checksum && !parse_ok(kernel@) ==> r is Err && r->Err_0
            == LoadError::Parse && *final(phys_mem) == *old(phys_mem),
        fnv1a(kernel@) == kernel_checksum && parse_ok(kernel@) && header_spec(kernel@)->0.bitness
            != Bitness::Bits64 ==> r is Err && r->Err_0 == LoadError::Not64Bit
            && *final(phys_mem) == *old(phys_mem),
        fnv1a(kernel@) == kernel_checksum && parse_ok(kernel@) && header_spec(kernel@)->0.bitness
            == Bitness::Bits64 && header_spec(kernel@)->0.machine != Machine::Amd64 ==> r is Err
            && r->Err_0 == LoadError::NotAmd64 && *final(phys_mem) == *old(phys_mem),
        !page1g && !page2m ==> r is Err,
        r matches Err(e) && e == LoadError::NoLargePages ==> !page1g && !page2m,
        r matches Ok(k) ==> {
            &&& fnv1a(kernel@) == kernel_checksum
            &&& parse_ok(kernel@)
            &&& header_spec(kernel@)->0.bitness == Bitness::Bits64
            &&& header_spec(kernel@)->0.machine == Machine::Amd64
            &&& k.entry.entrypoint == header_spec(kernel@)->0.entrypoint
            &&& k.entry.kernel_cr3 == k.page_table.root()
            &&& k.physical_map_page_size == (if page1g {
                0x4000_0000u64
            } else {
                0x20_0000u64
            })
            // The kernel page table maps every loadable segment to fresh pages, and the
            // linear physical region linearly.
            &&& tables_sound(*final(phys_mem), k.page_table.root())
            &&& forall|i: u64|
                i < header_spec(kernel@)->0.segment_count && (#[trigger] segment_fields_spec(
                    kernel@,
                    header_spec(kernel@)->0,
                    i,
                )).unwrap().seg_type == SegmentType::Load ==> segment_mapped(
                    *old(phys_mem),
                    *final(phys_mem),
                    k.page_table.root(),
                    segment_fields_spec(kernel@, header_spec(kernel@)->0, i).unwrap(),
                )
            // Their pages hold the segments' bytes.
            &&& forall|i: u64|
                i < header_spec(kernel@)->0.segment_count && (#[trigger] segment_fields_spec(
                    kernel@,
                    header_spec(kernel@)->0,
                    i,
                )).unwrap().seg_type == SegmentType::Load ==> segment_loaded(
                    *final(phys_mem),
                    k.page_table.root(),
                    segment_fields_spec(kernel@, header_spec(kernel@)->0, i).unwrap(),
                    segment_file_bytes(kernel@, segment_fields_spec(kernel@, header_spec(kernel@)->0, i).unwrap()),
                )
            &&& forall|pa: u64|
                pa < KERNEL_PHYSICAL_REGION_SIZE && pa % k.physical_map_page_size == 0
                    ==> #[trigger] spec_translate(
                    *final(phys_mem),
                    k.page_table.root(),
                    (pa + KERNEL_PHYSICAL_REGION_BASE) as u64,
                ) == Some(pa)
            // The trampoline page table maps the low memory both at its own address and in
            // the linear physical region.
            &&& tables_sound(*final(phys_mem), k.entry.trampoline_cr3 as u64)
            &&& forall|pa: u64|
                pa < TRAMPOLINE_PHYSICAL_REGION_SIZE && pa % 4096 == 0 ==> #[trigger] spec_translate(
                    *final(phys_mem),
                    k.entry.trampoline_cr3 as u64,
                    pa,
                ) == Some(pa)
            &&& forall|pa: u64|
                pa < TRAMPOLINE_PHYSICAL_REGION_SIZE && pa % 4096 == 0 ==> #[trigger] spec_translate(
                    *final(phys_mem),
                    k.entry.trampoline_cr3 as u64,
                    (pa + KERNEL_PHYSICAL_REGION_BASE) as u64,
                ) == Some(pa)
        },
{
    let ghost old_mem = *phys_mem;
    proof {
        crate::page_table::lemma_keeps_refl(old_mem, false);
    }

    // Make sure that loaded kernel matches our expectations.
    if checksum(kernel) != kernel_checksum {
        return Err(LoadError::Checksum);
    }

    // Parse the kernel ELF file and make sure that it is 64 bit.
    let elf = match Elf::parse(kernel) {
        Some(elf) => elf,
        None => return Err(LoadError::Parse),
    };
    if elf.bitness() != Bitness::Bits64 {
        return Err(LoadError::Not64Bit);
    }
    if elf.machine() != Machine::Amd64 {
        return Err(LoadError::NotAmd64);
    }
    let entrypoint = elf.entrypoint();

    // Allocate a page table that will be used by the kernel, and one that will be used when
    // transitioning to the kernel.
    let mut kernel_page_table = match PageTable::new(phys_mem) {
        Some(pt) => pt,
        None => return Err(LoadError::PageTable),
    };
    let ghost after_kernel_table = *phys_mem;
    let mut trampoline_page_table = match PageTable::new(phys_mem) {
        Some(pt) => pt,
        None => {
            proof {
                crate::page_table::lemma_keeps_chain(old_mem, after_kernel_table, *phys_mem, false);
            }
            return Err(LoadError::PageTable);
        },
    };
    let ghost kr = kernel_page_table.root();
    let ghost tr = trampoline_page_table.root();
    proof {
        crate::page_table::lemma_keeps_chain(old_mem, after_kernel_table, *phys_mem, false);
        use_type_invariant(&kernel_page_table);
        kernel_page_table.lemma_root();
        use_type_invariant(&trampoline_page_table);
        trampoline_page_table.lemma_root();
        assert(new_root_kept(after_kernel_table, *phys_mem, tr, kr));
        lemma_roots_apart_sym(*phys_mem, kr, tr);
        assert(path_slot(*phys_mem, tr, 0u64, 0nat) != path_slot(*phys_mem, kr, 0u64, 0nat));
        assert(kr != tr);
    }

    // Map kernel to the virtual memory.
    let (segments, all_decoded) = elf.segments();
    if all_decoded.is_none() {
        return Err(LoadError::Parse);
    }
    let mut i: usize = 0;
    while i < segments.len()
        invariant
            old_mem == *old(phys_mem),
            keeps_in_use(old_mem, *phys_mem, false),
            fnv1a(kernel@) == kernel_checksum,
            parse_ok(kernel@),
            header_spec(kernel@)->0.bitness == Bitness::Bits64,
            header_spec(kernel@)->0.machine == Machine::Amd64,
            elf.image() == kernel@,
            header_spec(kernel@) == Some(elf.header()),
            segments@.len() == elf.header().segment_count,
            forall|j: int| 0 <= j < segments@.len() ==> crate::elf::segment_from(
                #[trigger] segments@[j],
                segment_fields_spec(elf.image(), elf.header(), j as u64).unwrap(),
                elf.image(),
            ),
            kr == kernel_page_table.root(),
            tr == trampoline_page_table.root(),
            kr % 4096 == 0,
            kr <= crate::page_table::FRAME_MASK,
            tr % 4096 == 0,
            tr <= crate::page_table::FRAME_MASK,
            tables_sound(*phys_mem, kr),
            tables_sound(*phys_mem, tr),
            crate::page_table::roots_apart(*phys_mem, tr, kr),
            i <= segments@.len(),
            forall|j: u64|
                j < i && (#[trigger] segment_fields_spec(kernel@, header_spec(kernel@)->0, j)).unwrap().seg_type
                    == SegmentType::Load ==> segment_mapped(
                    old_mem,
                    *phys_mem,
                    kr,
                    segment_fields_spec(kernel@, header_spec(kernel@)->0, j).unwrap(),
                ),
            kr != tr,
            forall|j: u64|
                j < i && (#[trigger] segment_fields_spec(kernel@, header_spec(kernel@)->0, j)).unwrap().seg_type
                    == SegmentType::Load ==> segment_kept(
                    *phys_mem,
                    kr,
                    tr,
                    segment_fields_spec(kernel@, header_spec(kernel@)->0, j).unwrap(),
                    segment_file_bytes(kernel@, segment_fields_spec(kernel@, header_spec(kernel@)->0, j).unwrap()),
                ),
        decreases segments@.len() - i,
    {
        let ghost before = *phys_mem;
        let mapped = map_segment(&mut kernel_page_table, phys_mem, &segments[i]);
        proof {
            crate::page_table::lemma_keeps_chain(old_mem, before, *phys_mem, false);
        }
        match mapped {
            Ok(()) => {},
            Err(e) => return Err(e),
        }
        proof {
            let m = *phys_mem;
            assert(other_kept(before, m, kr, tr));
            lemma_translations_kept(before, m, kr);
            lemma_keeps_refl(old_mem, false);
            lemma_keeps_refl(m, false);
            assert forall|j: u64|
                j < i + 1 && (#[trigger] segment_fields_spec(kernel@, header_spec(kernel@)->0, j)).unwrap().seg_type
                    == SegmentType::Load implies segment_mapped(
                old_mem,
                m,
                kr,
                segment_fields_spec(kernel@, header_spec(kernel@)->0, j).unwrap(),
            ) by {
                let f = segment_fields_spec(kernel@, header_spec(kernel@)->0, j).unwrap();
                let reg = segment_region(f.virt_addr, f.virt_size)->0;
                if j < i {
                    lemma_fresh_widen(old_mem, old_mem, before, m, kr, reg.0, reg.2, 4096);
                    lemma_entries_kept(before, m, kr, reg.0, reg.2, PageType::Page4K, f.flags & 2 != 0, f.flags & 1 != 0, false);
                } else {
                    assert(segments@[j as int].seg_type == f.seg_type);
                    lemma_fresh_widen(old_mem, before, m, m, kr, reg.0, reg.2, 4096);
                }
            }
            assert forall|j: u64|
                j < i + 1 && (#[trigger] segment_fields_spec(kernel@, header_spec(kernel@)->0, j)).unwrap().seg_type
                    == SegmentType::Load implies segment_kept(
                m,
                kr,
                tr,
                segment_fields_spec(kernel@, header_spec(kernel@)->0, j).unwrap(),
                segment_file_bytes(kernel@, segment_fields_spec(kernel@, header_spec(kernel@)->0, j).unwrap()),
            ) by {
                let f = segment_fields_spec(kernel@, header_spec(kernel@)->0, j).unwrap();
                let reg = segment_region(f.virt_addr, f.virt_size)->0;
                if j < i {
                    assert(segment_mapped(old_mem, before, kr, f));
                    lemma_segment_kept(old_mem, before, m, kr, tr, kr, f, segment_file_bytes(kernel@, f));
                } else {
                    assert(segments@[j as int].seg_type == f.seg_type);
                    assert(spec_page_size(PageType::Page4K) == 4096);
                    lemma_fresh_apart_from(before, m, kr, tr, reg.0, reg.2, PageType::Page4K);
                    assert(segments@[j as int].bytes@ == segment_file_bytes(kernel@, f));
                }
            }
        }
        i += 1;
    }

    // Bootloader uses identity physical memory map, but kernel will use linear physical
    // memory map that starts at `KERNEL_PHYSICAL_REGION_BASE`. The trampoline page table
    // maps the bootloader's memory both ways.
    let ghost before_trampoline = *phys_mem;
    let trampoline = map_trampoline(&mut trampoline_page_table, phys_mem);
    proof {
        crate::page_table::lemma_keeps_chain(old_mem, before_trampoline, *phys_mem, false);
    }
    match trampoline {
        Ok(()) => {},
        Err(e) => return Err(e),
    }
    let ghost after_trampoline = *phys_mem;
    proof {
        let m = after_trampoline;
        lemma_roots_apart_sym(before_trampoline, tr, kr);
        assert(other_kept(before_trampoline, m, tr, kr));
        lemma_roots_apart_sym(m, kr, tr);
        lemma_keeps_refl(old_mem, false);
        assert forall|j: u64|
            j < segments@.len() && (#[trigger] segment_fields_spec(kernel@, header_spec(kernel@)->0, j)).unwrap().seg_type
                == SegmentType::Load implies segment_mapped(
            old_mem,
            m,
            kr,
            segment_fields_spec(kernel@, header_spec(kernel@)->0, j).unwrap(),
        ) by {
            let f = segment_fields_spec(kernel@, header_spec(kernel@)->0, j).unwrap();
            let reg = segment_region(f.virt_addr, f.virt_size)->0;
            lemma_fresh_widen(old_mem, old_mem, before_trampoline, m, kr, reg.0, reg.2, 4096);
            lemma_entries_kept(before_trampoline, m, kr, reg.0, reg.2, PageType::Page4K, f.flags & 2 != 0, f.flags & 1 != 0, false);
        }
        assert forall|j: u64|
            j < segments@.len() && (#[trigger] segment_fields_spec(kernel@, header_spec(kernel@)->0, j)).unwrap().seg_type
                == SegmentType::Load implies segment_kept(
            m,
            kr,
            tr,
            segment_fields_spec(kernel@, header_spec(kernel@)->0, j).unwrap(),
            segment_file_bytes(kernel@, segment_fields_spec(kernel@, header_spec(kernel@)->0, j).unwrap()),
        ) by {
            let f = segment_fields_spec(kernel@, header_spec(kernel@)->0, j).unwrap();
            assert(segment_mapped(old_mem, before_trampoline, kr, f));
            lemma_segment_kept(old_mem, before_trampoline, m, kr, tr, tr, f, segment_file_bytes(kernel@, f));
        }
    }

    // We will map a lot of memory so use the largest possible page type.
    let page_type = if page1g {
        PageType::Page1G
    } else if page2m {
        PageType::Page2M
    } else {
        // Mapping using 4K pages would take too long and would waste too much memory.
        return Err(LoadError::NoLargePages);
    };
    let page_size = page_type.size();

    let ghost before_region = *phys_mem;
    let region = map_physical_region(&mut kernel_page_table, phys_mem, page_type);
    proof {
        crate::page_table::lemma_keeps_chain(old_mem, before_region, *phys_mem, false);
    }
    match region {
        Ok(()) => {},
        Err(e) => return Err(e),
    }
    proof {
        let m = *phys_mem;
        assert(other_kept(before_region, m, kr, tr));
        lemma_translations_kept(before_region, m, kr);
        lemma_keeps_refl(old_mem, false);
        assert forall|j: u64|
            j < segments@.len() && (#[trigger] segment_fields_spec(kernel@, header_spec(kernel@)->0, j)).unwrap().seg_type
                == SegmentType::Load implies segment_mapped(
            old_mem,
            m,
            kr,
            segment_fields_spec(kernel@, header_spec(kernel@)->0, j).unwrap(),
        ) by {
            let f = segment_fields_spec(kernel@, header_spec(kernel@)->0, j).unwrap();
            let reg = segment_region(f.virt_addr, f.virt_size)->0;
            lemma_fresh_widen(old_mem, old_mem, before_region, m, kr, reg.0, reg.2, 4096);
            lemma_entries_kept(before_region, m, kr, reg.0, reg.2, PageType::Page4K, f.flags & 2 != 0, f.flags & 1 != 0, false);
        }
        assert forall|j: u64|
            j < segments@.len() && (#[trigger] segment_fields_spec(kernel@, header_spec(kernel@)->0, j)).unwrap().seg_type
                == SegmentType::Load implies segment_kept(
            m,
            kr,
            tr,
            segment_fields_spec(kernel@, header_spec(kernel@)->0, j).unwrap(),
            segment_file_bytes(kernel@, segment_fields_spec(kernel@, header_spec(kernel@)->0, j).unwrap()),
        ) by {
            let f = segment_fields_spec(kernel@, header_spec(kernel@)->0, j).unwrap();
            assert(segment_mapped(old_mem, before_region, kr, f));
            lemma_segment_kept(old_mem, before_region, m, kr, tr, kr, f, segment_file_bytes(kernel@, f));
        }
        assert forall|pa: u64|
            pa < TRAMPOLINE_PHYSICAL_REGION_SIZE && pa % 4096 == 0 implies #[trigger] spec_translate(
            m,
            tr,
            pa,
        ) == Some(pa) by {
            assert(spec_translate(after_trampoline, tr, pa) == Some(pa));
        }
        assert forall|pa: u64|
            pa < TRAMPOLINE_PHYSICAL_REGION_SIZE && pa % 4096 == 0 implies #[trigger] spec_translate(
            m,
            tr,
            (pa + KERNEL_PHYSICAL_REGION_BASE) as u64,
        ) == Some(pa) by {
            assert(spec_translate(after_trampoline, tr, (pa + KERNEL_PHYSICAL_REGION_BASE) as u64)
                == Some(pa));
        }
    }

    // Get physical addresses of page tables and make sure they fit in 32 bit integer.
    let kernel_cr3 = match cr3_of(&mut kernel_page_table) {
        Ok(v) => v,
        Err(e) => return Err(e),
    };
    let trampoline_cr3 = match cr3_of(&mut trampoline_page_table) {
        Ok(v) => v,
        Err(e) => return Err(e),
    };

    Ok(LoadedKernel {
        entry: KernelEntryData { entrypoint, kernel_cr3, trampoline_cr3 },
        page_table: kernel_page_table,
        physical_map_page_size: page_size,
    })
}

} // verus!
