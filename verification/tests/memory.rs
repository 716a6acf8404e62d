use flugzeug::e820::{apply_e820_entry, e820_done, reserve_low_memory, E820Entry, E820_FREE};
use flugzeug::mm::{
    alloc_phys, free_phys, kernel_pat, reserve_virt_addr, set_memory_type, translate, FreeList,
    PhysicalPage, PAGE_UNCACHEABLE, PAGE_WB, PAGE_WC,
    memory_totals, reclaim_memory,
};
use flugzeug::page_table::{PhysAddr, PhysMem, VirtAddr};
use flugzeug::rangeset::{Range, RangeSet};

fn ranges(rs: &RangeSet) -> Vec<(u64, u64)> {
    let mut v: Vec<(u64, u64)> = rs.entries().iter().map(|r| (r.start, r.end)).collect();
    v.sort();
    v
}

fn entry(base: u64, size: u64, typ: u32) -> E820Entry {
    E820Entry { base, size, typ, acpi: 1 }
}

#[test]
fn e820_two_passes() {
    let map = [
        entry(0, 0x9_f000, E820_FREE),
        entry(0x10_0000, 0x100_0000, E820_FREE),
        entry(0x80_0000, 0x1000, 2),
        E820Entry { base: 0x200_0000, size: 0x1000, typ: E820_FREE, acpi: 0 },
        entry(0x300_0000, 0, E820_FREE),
    ];
    let mut memory = RangeSet::new();
    for e in map {
        apply_e820_entry(&mut memory, e, false);
    }
    assert_eq!(ranges(&memory), vec![(0, 0x9_efff), (0x10_0000, 0x10f_ffff)]);
    for e in map {
        apply_e820_entry(&mut memory, e, true);
    }
    assert_eq!(
        ranges(&memory),
        vec![(0, 0x9_efff), (0x10_0000, 0x7f_ffff), (0x80_1000, 0x10f_ffff)]
    );
    reserve_low_memory(&mut memory);
    assert_eq!(ranges(&memory), vec![(0x10_0000, 0x7f_ffff), (0x80_1000, 0x10f_ffff)]);
}

#[test]
fn e820_end_of_map() {
    assert!(e820_done(1, 5));
    assert!(e820_done(0, 0));
    assert!(!e820_done(0, 5));
    assert!(!e820_done(2, 5));
}

#[test]
fn translate_through_physical_region() {
    assert_eq!(translate(PhysAddr(0x1000), 8), Some(VirtAddr(0xffff_f000_0000_1000)));
    assert_eq!(translate(PhysAddr(0x1000), 0), None);
    let limit = 1024u64 * 1024 * 1024 * 1024;
    assert_eq!(translate(PhysAddr(limit - 8), 8), Some(VirtAddr(0xffff_f000_0000_0000 + limit - 8)));
    assert_eq!(translate(PhysAddr(limit - 8), 9), None);
    assert_eq!(translate(PhysAddr(u64::MAX), 2), None);
}

#[test]
fn physical_allocation_and_free() {
    let mut memory = RangeSet::new();
    memory.insert(Range { start: 0x1000, end: 0x4fff });
    let page = alloc_phys(&mut memory, 0x1000, 0x2000).unwrap();
    assert_eq!(page, PhysAddr(0x2000));
    // The alignment padding in front of the allocation is taken out too.
    assert_eq!(ranges(&memory), vec![(0x3000, 0x4fff)]);
    assert_eq!(alloc_phys(&mut memory, 0x10_0000, 0x1000), None);
    free_phys(&mut memory, page, 0x1000);
    assert_eq!(ranges(&memory), vec![(0x2000, 0x4fff)]);
}

#[test]
fn heap_address_reservation() {
    let mut next = 0xffff_a000_0000_0000u64;
    let a = reserve_virt_addr(&mut next, 0x2000);
    assert_eq!(a, VirtAddr(0xffff_a000_0000_0000));
    assert_eq!(next, 0xffff_a000_0000_3000);
    let b = reserve_virt_addr(&mut next, 0x1000);
    assert_eq!(b, VirtAddr(0xffff_a000_0000_3000));
    assert_eq!(next, 0xffff_a000_0000_5000);
}

#[test]
fn page_attribute_table() {
    // Entry 0 is PWT=0 PCD=0 PAT=0, entry 2 is PCD, entry 5 is PAT|PWT.
    assert_eq!(set_memory_type(0, PAGE_WB, 6), 6);
    assert_eq!(set_memory_type(0xffff_ffff_ffff_ffff, PAGE_UNCACHEABLE, 0), 0xffff_ffff_ff00_ffff);
    assert_eq!(set_memory_type(0, PAGE_WC, 1), 0x0000_0100_0000_0000);
    let default_pat = 0x0007_0406_0007_0406u64;
    assert_eq!(kernel_pat(default_pat), 0x0007_0106_0000_0406);
}

#[test]
fn free_list_layout() {
    let small = FreeList::new(16);
    assert!(!small.use_stack());
    let big = FreeList::new(4096);
    assert!(big.use_stack());
    assert_eq!(big.max_slots(), (4096 - 16) / 8);
    assert_eq!(big.slot_ptr(0), 16);
    assert_eq!(big.slot_ptr(big.max_slots() - 1), 4088);
}

#[test]
fn physical_page() {
    let mut page = PhysicalPage::new(PhysAddr(0x5000), VirtAddr(0xffff_f000_0000_5000));
    assert_eq!(page.phys_addr(), PhysAddr(0x5000));
    assert_eq!(page.pointer(), VirtAddr(0xffff_f000_0000_5000));
}

#[test]
fn boot_memory_reclaimed() {
    let mut free = RangeSet::new();
    free.insert(Range { start: 0x10_0000, end: 0x1f_ffff });
    let mut boot = RangeSet::new();
    boot.insert(Range { start: 0x20_0000, end: 0x20_0fff });
    boot.insert(Range { start: 0x8000, end: 0x8fff });
    assert_eq!(reclaim_memory(&mut free, &boot), 0x2000);
    // The adjacent boot range merges with the free one.
    assert_eq!(ranges(&free), vec![(0x8000, 0x8fff), (0x10_0000, 0x20_0fff)]);
}

#[test]
fn free_memory_totals() {
    let max = 1024u64 * 1024 * 1024 * 1024 - 1;
    let rs = [
        Range { start: 0x1000, end: 0x1fff },
        Range { start: max - 0xfff, end: max + 0x1000 },
        Range { start: max + 0x10_0000, end: max + 0x10_0fff },
    ];
    let (free, inaccessible) = memory_totals(&rs);
    assert_eq!(free, 0x1000 + 0x2000 + 0x1000);
    // Counted from the last accessible address on, as the kernel reports it.
    assert_eq!(inaccessible, 0x1001 + 0x1000);
    assert_eq!(memory_totals(&[]), (0, 0));
    let whole = [Range { start: 0, end: u64::MAX }];
    assert_eq!(memory_totals(&whole), (1u128 << 64, (1u128 << 64) - (1u128 << 40) + 1));
}

/// Heap memory from `HEAP_BASE`, word by word.
struct HeapMem {
    words: Vec<u64>,
}

const HEAP_BASE: u64 = 0x10000;

impl PhysMem for HeapMem {
    fn word(&self, addr: u64) -> u64 {
        self.words[((addr - HEAP_BASE) / 8) as usize]
    }

    fn readable(&self, addr: u64) -> bool {
        addr >= HEAP_BASE && addr + 8 <= HEAP_BASE + 8 * self.words.len() as u64
    }

    fn free(&self, _addr: u64) -> bool {
        false
    }

    fn flushed(&self) -> vstd::seq::Seq<u64> {
        unreachable!()
    }

    fn read_u64(&self, addr: PhysAddr) -> Option<u64> {
        if self.readable(addr.0) {
            Some(self.words[((addr.0 - HEAP_BASE) / 8) as usize])
        } else {
            None
        }
    }

    fn write_u64(&mut self, addr: PhysAddr, value: u64) -> Option<()> {
        if self.readable(addr.0) {
            self.words[((addr.0 - HEAP_BASE) / 8) as usize] = value;
            Some(())
        } else {
            None
        }
    }

    fn write_u8(&mut self, _addr: PhysAddr, _value: u8) -> Option<()> {
        None
    }

    fn alloc_phys_zeroed(&mut self, _size: u64, _align: u64) -> Option<PhysAddr> {
        None
    }

    fn free_phys(&mut self, _addr: PhysAddr, _size: u64) -> Option<()> {
        None
    }

    fn invalidate_tlb(&mut self, _virt_addr: VirtAddr) {}
}

#[test]
fn free_list_stack_push_pop() {
    let mut mem = HeapMem { words: vec![0; 0x4000] };
    let mut list = FreeList::new(4096);
    let a = HEAP_BASE;
    let b = HEAP_BASE + 0x1000;
    let c = HEAP_BASE + 0x2000;
    assert_eq!(list.pop(&mut mem), None);
    list.push(&mut mem, a);
    // The first allocation becomes a node with every slot free.
    assert_eq!(mem.word(a + 8), 510);
    list.push(&mut mem, b);
    list.push(&mut mem, c);
    assert_eq!(mem.word(a + 8), 508);
    assert_eq!(mem.word(a + 16 + 509 * 8), b);
    assert_eq!(list.pop(&mut mem), Some(c));
    assert_eq!(list.pop(&mut mem), Some(b));
    assert_eq!(list.pop(&mut mem), Some(a));
    assert_eq!(list.pop(&mut mem), None);
}

#[test]
fn free_list_linked_push_pop() {
    let mut mem = HeapMem { words: vec![0; 0x100] };
    let mut list = FreeList::new(16);
    let a = HEAP_BASE;
    let b = HEAP_BASE + 0x10;
    list.push(&mut mem, a);
    list.push(&mut mem, b);
    assert_eq!(mem.word(b), a);
    assert_eq!(list.pop(&mut mem), Some(b));
    assert_eq!(list.pop(&mut mem), Some(a));
    assert_eq!(list.pop(&mut mem), None);
}
