//! Building the set of free physical memory from the BIOS E820 memory map.
//!
//! The map is read in two passes: the first adds every free region, the second removes
//! every region that is not free, so that regions reported both ways end up unused.
use vstd::prelude::*;
use crate::rangeset::{Range, RangeSet, splits, touches, MAX_RANGES};

verus! {

/// One entry of the E820 memory map.
#[derive(Copy, Clone, Debug)]
pub struct E820Entry {
    pub base: u64,
    pub size: u64,
    pub typ: u32,
    pub acpi: u32,
}

/// Type of E820 entries that describe free memory.
pub const E820_FREE: u32 = 1;

/// The entry counts: its ACPI valid bit is set and it is not empty.
pub open spec fn entry_valid(e: E820Entry) -> bool {
    e.acpi & 1 != 0 && e.size > 0
}

/// Inclusive range covered by a valid entry.
pub open spec fn entry_range(e: E820Entry) -> Range {
    Range { start: e.base, end: (e.base + e.size - 1) as u64 }
}

/// Apply `entry` to the free memory `memory`: free entries are added in the first pass,
/// other entries are removed in the cleanup pass.
pub fn apply_e820_entry(memory: &mut RangeSet, entry: E820Entry, cleanup_pass: bool)
    requires
        old(memory).wf(),
        entry_valid(entry) ==> entry.base + entry.size - 1 <= u64::MAX,
        (entry_valid(entry) && entry.typ == E820_FREE && !cleanup_pass) ==> (
        old(memory).entry_seq().len() < MAX_RANGES || exists|i: int|
            0 <= i < old(memory).entry_seq().len() && touches(
                entry_range(entry),
                #[trigger] old(memory).entry_seq()[i],
            )),
        (entry_valid(entry) && entry.typ != E820_FREE && cleanup_pass) ==> (
        old(memory).entry_seq().len() < MAX_RANGES || forall|i: int|
            0 <= i < old(memory).entry_seq().len() ==> !splits(
                entry_range(entry),
                #[trigger] old(memory).entry_seq()[i],
            )),
    ensures
        final(memory).wf(),
        final(memory)@ == (if !entry_valid(entry) {
            old(memory)@
        } else if entry.typ == E820_FREE && !cleanup_pass {
            old(memory)@.union(entry_range(entry).addrs())
        } else if entry.typ != E820_FREE && cleanup_pass {
            old(memory)@.difference(entry_range(entry).addrs())
        } else {
            old(memory)@
        }),
{
    // Consider this entry valid only if ACPI bit 0 is set and range is not empty.
    if entry.acpi & 1 != 0 && entry.size > 0 {
        // Create inclusive range required by `RangeSet`.
        let range = Range { start: entry.base, end: entry.base + (entry.size - 1) };
        let free = entry.typ == E820_FREE;
        if free && !cleanup_pass {
            memory.insert(range);
        } else if !free && cleanup_pass {
            memory.remove(range);
        }
    }
}

/// The memory map ends after an entry when the BIOS sets the carry flag or hands back
/// continuation value 0.
pub fn e820_done(eflags: u32, sequence: u32) -> (r: bool)
    ensures
        r == (eflags & 1 != 0 || sequence == 0),
{
    eflags & 1 != 0 || sequence == 0
}

/// Take the first 1MB out of the free memory; the bootloader keeps its data there.
pub fn reserve_low_memory(memory: &mut RangeSet)
    requires
        old(memory).wf(),
        old(memory).entry_seq().len() < MAX_RANGES || forall|i: int|
            0 <= i < old(memory).entry_seq().len() ==> !splits(
                Range { start: 0, end: 0xfffff },
                #[trigger] old(memory).entry_seq()[i],
            ),
    ensures
        final(memory).wf(),
        final(memory)@ == old(memory)@.difference(Range { start: 0, end: 0xfffff }.addrs()),
{
    memory.remove(Range { start: 0, end: 1024 * 1024 - 1 });
}

} // verus!
