use flugzeug::bdd::{checksum, BootDiskDescriptor};
use flugzeug::kernel_loader::{check_descriptor, load_kernel, LoadError};
use flugzeug::boot_block::BootBlock;
use flugzeug::mm::{map_mmio, PAGE_UNCACHEABLE, cleanup_bootloader, remap_physical_region, CleanupError, MemoryReport, RemapError};
use flugzeug::rangeset::Range;
use flugzeug::svm::npt::Npt;
use flugzeug::vkernel::{guest_alloc_phys, guest_translate};
use flugzeug::page_table::{
    PageTable, PageType, PhysAddr, PhysMem, VirtAddr, PAGE_NX, PAGE_PRESENT, PAGE_SIZE,
    PAGE_USER, PAGE_WRITE,
};

const MEM_SIZE: u64 = 16 * 1024 * 1024;

/// Physical memory backed by a vector, with a bump allocator over it.
struct TestMem {
    words: Vec<u64>,
    next: u64,
    freed: Vec<(u64, u64)>,
    flushes: Vec<u64>,
}

impl TestMem {
    fn new() -> Self {
        TestMem {
            words: vec![0xdead_beef_dead_beef; (MEM_SIZE / 8) as usize],
            next: 0x1000,
            freed: Vec::new(),
            flushes: Vec::new(),
        }
    }

    fn byte(&self, addr: u64) -> u8 {
        (self.words[(addr / 8) as usize] >> ((addr % 8) * 8)) as u8
    }
}

impl PhysMem for TestMem {
    fn word(&self, addr: u64) -> u64 {
        self.words[(addr / 8) as usize]
    }

    fn readable(&self, addr: u64) -> bool {
        addr + 8 <= MEM_SIZE
    }

    fn free(&self, addr: u64) -> bool {
        addr >= self.next
    }

    fn flushed(&self) -> vstd::seq::Seq<u64> {
        unreachable!()
    }

    fn read_u64(&self, addr: PhysAddr) -> Option<u64> {
        if addr.0 + 8 <= MEM_SIZE {
            Some(self.words[(addr.0 / 8) as usize])
        } else {
            None
        }
    }

    fn write_u64(&mut self, addr: PhysAddr, value: u64) -> Option<()> {
        if addr.0 + 8 <= MEM_SIZE {
            self.words[(addr.0 / 8) as usize] = value;
            Some(())
        } else {
            None
        }
    }

    fn write_u8(&mut self, addr: PhysAddr, value: u8) -> Option<()> {
        if addr.0 < MEM_SIZE {
            let word = &mut self.words[(addr.0 / 8) as usize];
            let shift = (addr.0 % 8) * 8;
            *word = (*word & !(0xffu64 << shift)) | ((value as u64) << shift);
            Some(())
        } else {
            None
        }
    }

    fn alloc_phys_zeroed(&mut self, size: u64, align: u64) -> Option<PhysAddr> {
        let start = (self.next + align - 1) / align * align;
        if start + size > MEM_SIZE {
            return None;
        }
        for w in (start / 8)..((start + size) / 8) {
            self.words[w as usize] = 0;
        }
        self.next = start + size;
        Some(PhysAddr(start))
    }

    fn free_phys(&mut self, addr: PhysAddr, size: u64) -> Option<()> {
        self.freed.push((addr.0, size));
        Some(())
    }

    fn invalidate_tlb(&mut self, virt_addr: VirtAddr) {
        self.flushes.push(virt_addr.0);
    }
}

#[test]
fn new_table_maps_nothing() {
    let mut mem = TestMem::new();
    let mut pt = PageTable::new(&mut mem).expect("root table");
    let root = pt.table();
    assert_eq!(root.0 % 4096, 0);
    for va in [0u64, 0x1000, 0x4000_0000, 0x7fff_ffff_f000, 0xffff_8000_0000_0000] {
        assert_eq!(pt.virt_to_phys(&mut mem, VirtAddr(va)), None);
    }
}

#[test]
fn map_raw_then_translate_4k() {
    let mut mem = TestMem::new();
    let mut pt = PageTable::new(&mut mem).unwrap();
    let raw = 0x55_5000 | PAGE_PRESENT | PAGE_WRITE;
    assert_eq!(
        pt.map_raw(&mut mem, VirtAddr(0x1234_5000), PageType::Page4K, raw, true, false),
        Some(())
    );
    assert_eq!(
        pt.virt_to_phys(&mut mem, VirtAddr(0x1234_5abc)),
        Some(PhysAddr(0x55_5abc))
    );
    // Neighbouring pages stay unmapped.
    assert_eq!(pt.virt_to_phys(&mut mem, VirtAddr(0x1234_6000)), None);
    assert_eq!(pt.virt_to_phys(&mut mem, VirtAddr(0x1234_4fff)), None);
}

#[test]
fn later_mappings_keep_earlier_translations() {
    let mut mem = TestMem::new();
    let mut pt = PageTable::new(&mut mem).unwrap();
    let first = 0x66_6000 | PAGE_PRESENT;
    assert_eq!(
        pt.map_raw(&mut mem, VirtAddr(0x7000_0000), PageType::Page4K, first, true, false),
        Some(())
    );
    // Same page directory, another page; then another top-level slot.
    for (va, pa) in [(0x7000_1000u64, 0x77_7000u64), (0x8000_0000_0000 - 0x1000, 0x88_8000)] {
        assert_eq!(
            pt.map_raw(&mut mem, VirtAddr(va), PageType::Page4K, pa | PAGE_PRESENT, true, false),
            Some(())
        );
        assert_eq!(pt.virt_to_phys(&mut mem, VirtAddr(va + 0x10)), Some(PhysAddr(pa + 0x10)));
    }
    assert_eq!(pt.virt_to_phys(&mut mem, VirtAddr(0x7000_0123)), Some(PhysAddr(0x66_6123)));
}

#[test]
fn map_raw_refuses_present_entry_without_update() {
    let mut mem = TestMem::new();
    let mut pt = PageTable::new(&mut mem).unwrap();
    let va = VirtAddr(0x40_0000);
    let first = 0x20_0000 | PAGE_PRESENT;
    let second = 0x30_0000 | PAGE_PRESENT;
    assert_eq!(pt.map_raw(&mut mem, va, PageType::Page4K, first, true, false), Some(()));
    assert_eq!(pt.map_raw(&mut mem, va, PageType::Page4K, second, true, false), None);
    assert_eq!(pt.virt_to_phys(&mut mem, va), Some(PhysAddr(0x20_0000)));
    assert_eq!(pt.map_raw(&mut mem, va, PageType::Page4K, second, true, true), Some(()));
    assert_eq!(pt.virt_to_phys(&mut mem, va), Some(PhysAddr(0x30_0000)));
}

#[test]
fn replacing_present_entry_invalidates_tlb() {
    let mut mem = TestMem::new();
    let mut pt = PageTable::new(&mut mem).unwrap();
    let va = VirtAddr(0x40_0000);
    let first = 0x20_0000 | PAGE_PRESENT;
    let second = 0x30_0000 | PAGE_PRESENT;
    assert_eq!(pt.map_raw(&mut mem, va, PageType::Page4K, first, true, false), Some(()));
    assert!(mem.flushes.is_empty());
    assert_eq!(pt.map_raw(&mut mem, va, PageType::Page4K, second, true, false), None);
    assert!(mem.flushes.is_empty());
    assert_eq!(pt.map_raw(&mut mem, va, PageType::Page4K, second, true, true), Some(()));
    assert_eq!(mem.flushes, vec![0x40_0000]);

    // A table built without invalidation never flushes.
    let mut quiet = PageTable::new_advanced(&mut mem, false).unwrap();
    assert_eq!(quiet.map_raw(&mut mem, va, PageType::Page4K, first, true, false), Some(()));
    assert_eq!(quiet.map_raw(&mut mem, va, PageType::Page4K, second, true, true), Some(()));
    assert_eq!(mem.flushes, vec![0x40_0000]);
}

#[test]
fn map_raw_without_add_needs_tables() {
    let mut mem = TestMem::new();
    let mut pt = PageTable::new(&mut mem).unwrap();
    let raw = 0x20_0000 | PAGE_PRESENT;
    assert_eq!(
        pt.map_raw(&mut mem, VirtAddr(0x1000), PageType::Page4K, raw, false, false),
        None
    );
    assert_eq!(pt.virt_to_phys(&mut mem, VirtAddr(0x1000)), None);
}

#[test]
fn map_raw_large_pages() {
    let mut mem = TestMem::new();
    let mut pt = PageTable::new(&mut mem).unwrap();
    let raw2m = 0x60_0000 | PAGE_PRESENT | PAGE_WRITE;
    assert_eq!(
        pt.map_raw(&mut mem, VirtAddr(0x8000_0000), PageType::Page2M, raw2m, true, false),
        Some(())
    );
    assert_eq!(
        pt.virt_to_phys(&mut mem, VirtAddr(0x8012_3456)),
        Some(PhysAddr(0x72_3456))
    );
    let raw1g = 0x4000_0000 | PAGE_PRESENT;
    assert_eq!(
        pt.map_raw(&mut mem, VirtAddr(0x80_0000_0000), PageType::Page1G, raw1g, true, false),
        Some(())
    );
    assert_eq!(
        pt.virt_to_phys(&mut mem, VirtAddr(0x80_1234_5678)),
        Some(PhysAddr(0x5234_5678))
    );
}

#[test]
fn non_canonical_address_is_refused() {
    let mut mem = TestMem::new();
    let mut pt = PageTable::new(&mut mem).unwrap();
    assert!(!VirtAddr(0x0008_0000_0000_0000).is_canonical());
    assert!(!VirtAddr(0x0000_8000_0000_0000).is_canonical());
    assert!(!VirtAddr(0xffff_7fff_ffff_f000).is_canonical());
    assert!(VirtAddr(0xffff_8000_0000_0000).is_canonical());
    assert!(VirtAddr(0x0000_7fff_ffff_ffff).is_canonical());
    assert_eq!(
        pt.map_raw(&mut mem, VirtAddr(0x0008_0000_0000_0000), PageType::Page4K, PAGE_PRESENT, true, false),
        None
    );
    assert_eq!(pt.virt_to_phys(&mut mem, VirtAddr(0x0008_0000_0000_0000)), None);
}

#[test]
fn map_region_allocates_zeroed_pages() {
    let mut mem = TestMem::new();
    let mut pt = PageTable::new(&mut mem).unwrap();
    assert_eq!(
        pt.map(&mut mem, VirtAddr(0x10_0000), PageType::Page4K, 0x3000, true, false, false),
        Some(())
    );
    for page in 0..3u64 {
        let va = 0x10_0000 + page * 0x1000;
        let pa = pt.virt_to_phys(&mut mem, VirtAddr(va)).expect("mapped page");
        assert_eq!(pa.0 % 4096, 0);
        for off in (0..4096).step_by(512) {
            assert_eq!(mem.byte(pa.0 + off), 0);
        }
    }
    assert_eq!(pt.virt_to_phys(&mut mem, VirtAddr(0x10_3000)), None);
}

#[test]
fn map_region_rejects_misaligned_input() {
    let mut mem = TestMem::new();
    let mut pt = PageTable::new(&mut mem).unwrap();
    let before = mem.next;
    assert_eq!(
        pt.map(&mut mem, VirtAddr(0x10_0800), PageType::Page4K, 0x1000, true, false, false),
        None
    );
    assert_eq!(
        pt.map(&mut mem, VirtAddr(0x10_0000), PageType::Page4K, 0x1800, true, false, false),
        None
    );
    assert_eq!(
        pt.map(&mut mem, VirtAddr(0x10_0000), PageType::Page4K, 0, true, false, false),
        None
    );
    assert_eq!(mem.next, before);
}

#[test]
fn map_init_fills_pages() {
    let mut mem = TestMem::new();
    let mut pt = PageTable::new(&mut mem).unwrap();
    let init = |offset: u64| (offset % 251) as u8;
    assert_eq!(
        pt.map_init(
            &mut mem,
            VirtAddr(0x20_0000),
            PageType::Page4K,
            0x2000,
            false,
            true,
            true,
            Some(init)
        ),
        Some(())
    );
    for offset in [0u64, 1, 250, 251, 4095, 4096, 5000, 8191] {
        let pa = pt.virt_to_phys(&mut mem, VirtAddr(0x20_0000 + offset)).unwrap();
        assert_eq!(mem.byte(pa.0), (offset % 251) as u8);
    }
}

#[test]
fn mapped_entry_flags() {
    let mut mem = TestMem::new();
    let mut pt = PageTable::new(&mut mem).unwrap();
    assert_eq!(
        pt.map(&mut mem, VirtAddr(0x30_0000), PageType::Page4K, 0x1000, true, false, true),
        Some(())
    );
    // Walk the tables by hand to find the last level entry.
    let mut table = pt.table().0;
    let va = 0x30_0000u64;
    let mut entry = 0;
    for shift in [39u64, 30, 21, 12] {
        let index = (va >> shift) & 0x1ff;
        entry = mem.read_u64(PhysAddr(table + index * 8)).unwrap();
        assert_ne!(entry & PAGE_PRESENT, 0);
        table = entry & 0xffffffffff000;
    }
    assert_ne!(entry & PAGE_WRITE, 0);
    assert_ne!(entry & PAGE_USER, 0);
    assert_ne!(entry & PAGE_NX, 0);
    assert_eq!(entry & PAGE_SIZE, 0);
}

#[test]
fn destroy_frees_tables_and_owned_pages() {
    let mut mem = TestMem::new();
    let mut pt = PageTable::new(&mut mem).unwrap();
    let root = pt.table().0;
    assert_eq!(
        pt.map(&mut mem, VirtAddr(0x10_0000), PageType::Page4K, 0x2000, true, false, false),
        Some(())
    );
    let raw = 0x80_0000 | PAGE_PRESENT;
    assert_eq!(
        pt.map_raw(&mut mem, VirtAddr(0x40_0000), PageType::Page4K, raw, true, false),
        Some(())
    );
    let owned: Vec<u64> = [0x10_0000u64, 0x10_1000]
        .iter()
        .map(|va| pt.virt_to_phys(&mut mem, VirtAddr(*va)).unwrap().0)
        .collect();
    assert_eq!(pt.destroy(&mut mem), Some(()));
    assert!(mem.freed.contains(&(root, 4096)));
    for page in owned {
        assert!(mem.freed.contains(&(page, 4096)));
    }
    // The page mapped by a raw entry is not owned by the table.
    assert!(!mem.freed.iter().any(|(addr, _)| *addr == 0x80_0000));    // Every entry of the root table is cleared.
    for i in 0..512u64 {
        assert_eq!(mem.read_u64(PhysAddr(root + i * 8)).unwrap() & PAGE_PRESENT, 0);
    }
}

#[test]
fn map_raw_without_add_uses_existing_tables() {
    let mut mem = TestMem::new();
    let mut pt = PageTable::new(&mut mem).unwrap();
    let raw = 0x80_0000 | PAGE_PRESENT;
    assert_eq!(
        pt.map_raw(&mut mem, VirtAddr(0x40_0000), PageType::Page4K, raw, true, false),
        Some(())
    );
    // The tables for the neighbouring page exist, so no table has to be added.
    assert_eq!(
        pt.map_raw(&mut mem, VirtAddr(0x40_1000), PageType::Page4K, 0x81_0000 | PAGE_PRESENT, false, false),
        Some(())
    );
    assert_eq!(pt.virt_to_phys(&mut mem, VirtAddr(0x40_1234)), Some(PhysAddr(0x81_0234)));
    // A present entry is replaced only on request.
    assert_eq!(
        pt.map_raw(&mut mem, VirtAddr(0x40_1000), PageType::Page4K, 0x82_0000 | PAGE_PRESENT, false, false),
        None
    );
    assert_eq!(
        pt.map_raw(&mut mem, VirtAddr(0x40_1000), PageType::Page4K, 0x82_0000 | PAGE_PRESENT, false, true),
        Some(())
    );
    assert_eq!(pt.virt_to_phys(&mut mem, VirtAddr(0x40_1000)), Some(PhysAddr(0x82_0000)));
}

#[test]
fn from_table_masks_flags() {
    let mut pt = PageTable::from_table(PhysAddr(0x1234_5fff), false);
    assert_eq!(pt.table(), PhysAddr(0x1234_5000));
}

#[test]
fn page_sizes() {
    assert_eq!(PageType::Page4K.size(), 4096);
    assert_eq!(PageType::Page2M.size(), 2 * 1024 * 1024);
    assert_eq!(PageType::Page1G.size(), 1024 * 1024 * 1024);
}

#[test]
fn physical_region_remap() {
    let mut mem = TestMem::new();
    let mut pt = PageTable::new(&mut mem).unwrap();
    assert_eq!(
        remap_physical_region(&mut pt, &mut mem, 4096),
        Err(RemapError::InvalidPageSize)
    );
    // Without the tables of the region nothing can be remapped.
    assert_eq!(
        remap_physical_region(&mut pt, &mut mem, 0x4000_0000),
        Err(RemapError::MapFailed)
    );
    // Map the region executable first, as the bootloader does.
    let base = 0xffff_f000_0000_0000u64;
    for i in 0..1024u64 {
        let raw = (i << 30) | PAGE_PRESENT | PAGE_WRITE | PAGE_SIZE;
        assert_eq!(
            pt.map_raw(&mut mem, VirtAddr(base + (i << 30)), PageType::Page1G, raw, true, false),
            Some(())
        );
    }
    assert_eq!(remap_physical_region(&mut pt, &mut mem, 0x4000_0000), Ok(()));
    assert_eq!(
        pt.virt_to_phys(&mut mem, VirtAddr(base + 0x12_3456_789a)),
        Some(PhysAddr(0x12_3456_789a))
    );
    // The entries are now not executable.
    let va = base + (5u64 << 30);
    let pml4 = pt.table().0;
    let pml4e = mem.read_u64(PhysAddr(pml4 + ((va >> 39) & 0x1ff) * 8)).unwrap();
    let pdpte = mem.read_u64(PhysAddr((pml4e & 0xffffffffff000) + ((va >> 30) & 0x1ff) * 8)).unwrap();
    assert_ne!(pdpte & PAGE_NX, 0);
    assert_eq!(pdpte & 0xffffffffff000, 5u64 << 30);
}

#[test]
fn bootloader_cleanup() {
    let mut mem = TestMem::new();
    let mut bb = BootBlock::new();
    assert_eq!(bb.size, core::mem::size_of::<BootBlock>() as u64);
    *bb.ap_entrypoint.get_mut() = Some(0x8000);
    assert_eq!(cleanup_bootloader(&mut bb, &mut mem), Err(CleanupError::MissingPageSize));
    assert_eq!(*bb.ap_entrypoint.get_mut(), None);
    *bb.physical_map_page_size.get_mut() = Some(0x1000);
    assert_eq!(
        cleanup_bootloader(&mut bb, &mut mem),
        Err(CleanupError::Remap(RemapError::InvalidPageSize))
    );
    *bb.physical_map_page_size.get_mut() = Some(0x4000_0000);
    assert_eq!(cleanup_bootloader(&mut bb, &mut mem), Err(CleanupError::MissingPageTable));

    let mut pt = PageTable::new(&mut mem).unwrap();
    let base = 0xffff_f000_0000_0000u64;
    for i in 0..1024u64 {
        let raw = (i << 30) | PAGE_PRESENT | PAGE_WRITE | PAGE_SIZE;
        assert_eq!(
            pt.map_raw(&mut mem, VirtAddr(base + (i << 30)), PageType::Page1G, raw, true, false),
            Some(())
        );
    }
    let root = pt.table();
    *bb.page_table.get_mut() = Some(pt);
    bb.free_memory.get_mut().insert(Range { start: 0x100_0000, end: 0x1ff_ffff });
    bb.free_memory.get_mut().insert(Range { start: 0x100_0000_0000, end: 0x100_0000_0fff });
    bb.boot_memory.get_mut().insert(Range { start: 0x7000, end: 0x9fff });
    assert_eq!(
        cleanup_bootloader(&mut bb, &mut mem),
        Ok(MemoryReport { reclaimed: 0x3000, free: 0x100_0000 + 0x1000 + 0x3000, inaccessible: 0x1000 })
    );
    assert_eq!(bb.boot_memory.get_mut().entries().len(), 0);
    assert_eq!(bb.free_memory.get_mut().entries().len(), 3);
    // The physical region is mapped again, not executable.
    let va = base + (3u64 << 30);
    let pml4e = mem.read_u64(PhysAddr(root.0 + ((va >> 39) & 0x1ff) * 8)).unwrap();
    let pdpte = mem.read_u64(PhysAddr((pml4e & 0xffffffffff000) + ((va >> 30) & 0x1ff) * 8)).unwrap();
    assert_ne!(pdpte & PAGE_NX, 0);
}

/// A 64 bit x86-64 image with one loadable, writable segment of 8 bytes at `vaddr`, which
/// takes 0x20 bytes in memory.
fn kernel_image(vaddr: u64) -> Vec<u8> {
    let mut b = vec![0u8; 0x108];
    b[..7].copy_from_slice(&[0x7f, b'E', b'L', b'F', 2, 1, 1]);
    b[0x12..0x14].copy_from_slice(&0x3eu16.to_le_bytes());
    b[0x18..0x20].copy_from_slice(&(vaddr + 4).to_le_bytes());
    b[0x20..0x28].copy_from_slice(&0x40u64.to_le_bytes());
    b[0x36..0x38].copy_from_slice(&56u16.to_le_bytes());
    b[0x38..0x3a].copy_from_slice(&1u16.to_le_bytes());
    b[0x40..0x44].copy_from_slice(&1u32.to_le_bytes());
    b[0x44..0x48].copy_from_slice(&6u32.to_le_bytes());
    b[0x48..0x50].copy_from_slice(&0x100u64.to_le_bytes());
    b[0x50..0x58].copy_from_slice(&vaddr.to_le_bytes());
    b[0x60..0x68].copy_from_slice(&8u64.to_le_bytes());
    b[0x68..0x70].copy_from_slice(&0x20u64.to_le_bytes());
    b[0x100..0x108].copy_from_slice(b"KERNEL!!");
    b
}

#[test]
fn kernel_setup() {
    let mut mem = TestMem::new();
    let vaddr = 0xffff_ffff_8000_1010u64;
    let image = kernel_image(vaddr);
    let sum = checksum(&image);
    let mut loaded = load_kernel(&mut mem, &image, sum, true, true).ok().unwrap();
    assert_eq!(loaded.entry.entrypoint, vaddr + 4);
    assert_eq!(loaded.physical_map_page_size, 0x4000_0000);
    assert_eq!(loaded.entry.kernel_cr3 as u64, loaded.page_table.table().0);
    // The segment sits at its address with its contents; the rest of its page is zero.
    let pa = loaded.page_table.virt_to_phys(&mut mem, VirtAddr(vaddr)).unwrap().0;
    let bytes: Vec<u8> = (0..8).map(|i| mem.byte(pa + i)).collect();
    assert_eq!(&bytes, b"KERNEL!!");
    assert_eq!(mem.byte(pa + 8), 0);
    assert_eq!(mem.byte(pa - 0x10), 0);
    // The linear physical region maps physical memory.
    assert_eq!(
        loaded.page_table.virt_to_phys(&mut mem, VirtAddr(0xffff_f000_0012_3456)),
        Some(PhysAddr(0x12_3456))
    );
    // The trampoline maps low memory at its own address and in the linear region.
    let mut trampoline = PageTable::from_table(PhysAddr(loaded.entry.trampoline_cr3 as u64), false);
    assert_eq!(trampoline.virt_to_phys(&mut mem, VirtAddr(0x7c00)), Some(PhysAddr(0x7c00)));
    assert_eq!(
        trampoline.virt_to_phys(&mut mem, VirtAddr(0xffff_f000_0000_7c00)),
        Some(PhysAddr(0x7c00))
    );
    assert_eq!(trampoline.virt_to_phys(&mut mem, VirtAddr(0x10_0000)), None);
}

#[test]
fn kernel_setup_errors() {
    let image = kernel_image(0xffff_ffff_8000_0000);
    let sum = checksum(&image);
    let mut mem = TestMem::new();
    assert_eq!(load_kernel(&mut mem, &image, sum ^ 1, true, true).err(), Some(LoadError::Checksum));
    assert_eq!(load_kernel(&mut mem, &image, sum, false, false).err(), Some(LoadError::NoLargePages));
    let mut not_elf = image.clone();
    not_elf[0] = 0;
    let sum2 = checksum(&not_elf);
    assert_eq!(load_kernel(&mut mem, &not_elf, sum2, true, true).err(), Some(LoadError::Parse));
    let descriptor = BootDiskDescriptor {
        signature: 0,
        bootloader_lba: 0,
        bootloader_sectors: 0,
        bootloader_checksum: 0,
        kernel_lba: 0,
        kernel_sectors: 0,
        kernel_checksum: 0,
    };
    assert_eq!(check_descriptor(&descriptor), Err(LoadError::InvalidDescriptor));
}

#[test]
fn mmio_mapping() {
    let mut mem = TestMem::new();
    let mut pt = PageTable::new(&mut mem).unwrap();
    let virt = VirtAddr(0xffff_c000_0000_0000);
    assert_eq!(map_mmio(&mut pt, &mut mem, virt, PhysAddr(0xfee0_0000), 0x2000, PAGE_UNCACHEABLE), Some(()));
    assert_eq!(pt.virt_to_phys(&mut mem, VirtAddr(virt.0 + 0x1020)), Some(PhysAddr(0xfee0_1020)));
    assert_eq!(pt.virt_to_phys(&mut mem, VirtAddr(virt.0 + 0x2000)), None);
    // Misaligned or non-canonical addresses are refused.
    assert_eq!(map_mmio(&mut pt, &mut mem, VirtAddr(0x1234), PhysAddr(0x1000), 0x1000, 0), None);
    assert_eq!(map_mmio(&mut pt, &mut mem, VirtAddr(0x0008_0000_0000_0000), PhysAddr(0x1000), 0x1000, 0), None);
    // Nothing to map always succeeds.
    assert_eq!(map_mmio(&mut pt, &mut mem, VirtAddr(0x1234), PhysAddr(0x1000), 0, 0), Some(()));
}

#[test]
fn guest_memory_allocations() {
    let mut mem = TestMem::new();
    let mut npt = Npt::new(PageTable::new(&mut mem).unwrap());
    let mut next = 0x10_0000u64;
    assert_eq!(guest_alloc_phys(&mut npt, &mut mem, &mut next, 0x2000, 0x2000), None);
    assert_eq!(next, 0x10_0000);
    assert_eq!(guest_alloc_phys(&mut npt, &mut mem, &mut next, 0x2000, 0x1000), Some(PhysAddr(0x10_0000)));
    assert_eq!(next, 0x10_2000);
    let host = npt.guest_to_host(&mut mem, flugzeug::svm::GuestAddr(0x10_1008)).unwrap();
    assert_eq!(host.0 % 0x1000, 8);

    // Regions crossing a page cannot be reached at once.
    assert_eq!(guest_translate(&npt, &mut mem, PhysAddr(0x10_0ff8), 0x10), None);
    assert_eq!(
        guest_translate(&npt, &mut mem, PhysAddr(0x10_1008), 0x10),
        Some(VirtAddr(0xffff_f000_0000_0000 + host.0))
    );
    // Memory that is not mapped in the guest is not reached.
    assert_eq!(guest_translate(&npt, &mut mem, PhysAddr(0x20_0000), 8), None);
}
