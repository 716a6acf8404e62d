//! Nested page tables of a guest.
use vstd::prelude::*;
use crate::page_table::{
    PageTable, PageType, PhysAddr, PhysMem, VirtAddr, DEALLOCATE_FLAG, PAGE_NX, PAGE_PRESENT,
    PAGE_USER, PAGE_WRITE, keeps_in_use, leaf_present, leaf_slot, leaf_value, map_outcome,
    maps_fresh_region, region_refused, spec_canonical, spec_page_size, spec_translate,
    tables_sound, only_zeroed, cleared, leaf_replaced, flush_outcome, path_sound, levels, region_entries, region_zeroed,
};
use super::GuestAddr;

verus! {

pub const NPT_PRESENT: u64 = PAGE_PRESENT;

pub const NPT_WRITE: u64 = PAGE_WRITE;

pub const NPT_NX: u64 = PAGE_NX;

/// Nested page table of a guest: maps guest physical addresses to host physical ones.
///
/// The physical memory handed to its methods is told through `PhysMem::invalidate_tlb` when
/// a present entry changes, so that the guest TLB can be flushed before the next run.
pub struct Npt {
    page_table: PageTable,
}

impl Npt {
    /// Physical address of the root table.
    pub closed spec fn root(&self) -> u64 {
        self.page_table.root()
    }

    /// A present entry that is replaced is reported through `PhysMem::invalidate_tlb`.
    pub closed spec fn invalidates_tlb(&self) -> bool {
        self.page_table.invalidates_tlb()
    }

    /// Wrap a freshly created page table.
    pub fn new(page_table: PageTable) -> (r: Self)
        ensures
            r.root() == page_table.root(),
            r.invalidates_tlb() == page_table.invalidates_tlb(),
    {
        Self { page_table }
    }

    /// Physical address of the root table.
    pub fn table(&mut self) -> (r: PhysAddr)
        ensures
            r.0 == old(self).root(),
            final(self).root() == old(self).root(),
    {
        self.page_table.table()
    }

    /// Set the entry that maps `guest_addr` to `raw`. A page is considered user in the guest
    /// only if it is marked as user at the guest level, so the nested entry always allows user
    /// accesses.
    pub fn map_raw<M: PhysMem>(
        &mut self,
        phys_mem: &mut M,
        guest_addr: GuestAddr,
        page_type: PageType,
        raw: u64,
        add: bool,
        update: bool,
    ) -> (r: Option<()>)
        requires
            raw & DEALLOCATE_FLAG == 0,
        ensures
            final(self).root() == old(self).root(),
            map_outcome(
                *old(phys_mem),
                *final(phys_mem),
                old(self).root(),
                guest_addr.0,
                page_type,
                leaf_value(raw | PAGE_USER, page_type, false),
                update,
                r,
            ),
            (leaf_slot(*old(phys_mem), old(self).root(), guest_addr.0, page_type) is Some
                && spec_canonical(guest_addr.0) && guest_addr.0 % spec_page_size(page_type) == 0
                && (update || !leaf_present(*old(phys_mem), old(self).root(), guest_addr.0, page_type)))
                ==> r is Some,
            (!add && r is Some) ==> leaf_slot(
                *old(phys_mem),
                old(self).root(),
                guest_addr.0,
                page_type,
            ) is Some,
            (leaf_slot(*old(phys_mem), old(self).root(), guest_addr.0, page_type) is Some && r is Some)
                ==> leaf_replaced(
                *old(phys_mem),
                *final(phys_mem),
                leaf_slot(*old(phys_mem), old(self).root(), guest_addr.0, page_type)->0,
                leaf_value(raw | PAGE_USER, page_type, false),
            ),
            tables_sound(*old(phys_mem), old(self).root()) ==> tables_sound(
                *final(phys_mem),
                old(self).root(),
            ),
            final(self).invalidates_tlb() == old(self).invalidates_tlb(),
            (leaf_slot(*old(phys_mem), old(self).root(), guest_addr.0, page_type) is Some
                || path_sound(*old(phys_mem), old(self).root(), guest_addr.0, levels(page_type)))
                ==> flush_outcome(
                *old(phys_mem),
                *final(phys_mem),
                old(self).root(),
                guest_addr.0,
                page_type,
                update,
                old(self).invalidates_tlb(),
                r,
            ),
    {
        let user_raw = raw | PAGE_USER;
        assert(user_raw & 0x200 == 0) by (bit_vector)
            requires
                user_raw == raw | 4u64,
                raw & 0x200u64 == 0,
        ;
        self.page_table.map_raw(phys_mem, VirtAddr(guest_addr.0), page_type, user_raw, add, update)
    }

    /// Map `size` bytes of fresh zeroed memory at `guest_addr`.
    pub fn map<M: PhysMem>(
        &mut self,
        phys_mem: &mut M,
        guest_addr: GuestAddr,
        page_type: PageType,
        size: u64,
        write: bool,
        exec: bool,
    ) -> (r: Option<()>)
        ensures
            final(self).root() == old(self).root(),
            region_refused(guest_addr.0, page_type, size) ==> (r is None && *final(phys_mem)
                == *old(phys_mem)),
            keeps_in_use(*old(phys_mem), *final(phys_mem), false),
            tables_sound(*old(phys_mem), old(self).root()) ==> tables_sound(
                *final(phys_mem),
                old(self).root(),
            ),
            (r is Some && tables_sound(*old(phys_mem), old(self).root())) ==> maps_fresh_region(
                *old(phys_mem),
                *final(phys_mem),
                old(self).root(),
                guest_addr.0,
                size,
                spec_page_size(page_type),
            ),
            (r is Some && tables_sound(*old(phys_mem), old(self).root())) ==> region_entries(
                *final(phys_mem),
                old(self).root(),
                guest_addr.0,
                size,
                page_type,
                write,
                exec,
                true,
            ),
            (r is Some && tables_sound(*old(phys_mem), old(self).root())) ==> region_zeroed(
                *final(phys_mem),
                old(self).root(),
                guest_addr.0,
                size,
                spec_page_size(page_type),
            ),
    {
        self.page_table.map(phys_mem, VirtAddr(guest_addr.0), page_type, size, write, exec, true)
    }

    /// Host physical address that `guest_addr` maps to.
    pub fn guest_to_host<M: PhysMem>(&self, phys_mem: &mut M, guest_addr: GuestAddr) -> (r:
        Option<PhysAddr>)
        ensures
            *final(phys_mem) == *old(phys_mem),
            r matches Some(p) ==> spec_translate(*old(phys_mem), self.root(), guest_addr.0)
                == Some(p.0),
            r is None ==> spec_translate(*old(phys_mem), self.root(), guest_addr.0) is None,
    {
        self.page_table.virt_to_phys(phys_mem, VirtAddr(guest_addr.0))
    }

    /// Free the nested page table with every page it mapped.
    pub fn destroy<M: PhysMem>(&mut self, phys_mem: &mut M) -> (r: Option<()>)
        ensures
            final(self).root() == old(self).root(),
            r is Some ==> forall|a: u64|
                a % 8 == 0 && old(self).root() <= a < old(self).root() + 4096
                    ==> #[trigger] final(phys_mem).free(a),
            forall|a: u64|
                a % 8 == 0 ==> #[trigger] final(phys_mem).readable(a) == old(phys_mem).readable(a),
            only_zeroed(*old(phys_mem), *final(phys_mem)),
            r is Some ==> cleared(*final(phys_mem), old(self).root(), 512),
    {
        self.page_table.destroy(phys_mem)
    }
}

} // verus!
