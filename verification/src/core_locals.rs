//! Per-core kernel state: interrupt nesting, the cached APIC ID, the choice of free list
//! for an allocation, and the sizing decisions made when a core starts.
use vstd::prelude::*;
use crate::apic::{Apic, ApicMode};
use crate::cpu::{CpuFeatures, Cpuid};
use crate::page_table::PageType;

verus! {

/// A nesting depth.
pub struct DepthCounter {
    depth: u32,
}

impl DepthCounter {
    /// Current nesting depth.
    pub closed spec fn value(&self) -> u32 {
        self.depth
    }

    pub fn new(initial: u32) -> (r: Self)
        ensures
            r.value() == initial,
    {
        Self { depth: initial }
    }

    /// Go one level deeper; `true` when this is the outermost level.
    pub fn enter(&mut self) -> (r: bool)
        requires
            old(self).value() < u32::MAX,
        ensures
            final(self).value() == old(self).value() + 1,
            r == (old(self).value() == 0),
    {
        let previous = self.depth;
        self.depth = previous + 1;
        previous == 0
    }

    /// Leave one level; `true` when no level is left.
    pub fn exit(&mut self) -> (r: bool)
        requires
            old(self).value() > 0,
        ensures
            final(self).value() == old(self).value() - 1,
            r == (old(self).value() == 1),
    {
        let previous = self.depth;
        self.depth = previous - 1;
        previous == 1
    }

    pub fn depth(&self) -> (r: u32)
        ensures
            r == self.value(),
    {
        self.depth
    }
}

/// Entering and then leaving one level leaves the depth as it was.
pub proof fn lemma_enter_exit(before: u32, entered: u32, after: u32)
    requires
        before < u32::MAX,
        entered == before + 1,
        after == entered - 1,
    ensures
        after == before,
{
}

/// APIC ID value that marks the ID as not cached yet.
pub const NO_APIC_ID: u32 = 0xffff_ffff;

/// Number of free lists: one for each power of two size from 8 bytes up.
pub const FREE_LISTS: usize = 61;

/// State of one core.
pub struct CoreLocals {
    /// Required size of the XSAVE area, 0 until computed.
    xsave_size: usize,
    interrupts_disable: DepthCounter,
    in_interrupt: DepthCounter,
    in_exception: DepthCounter,
    /// Unique identifier for this CPU. 0 is BSP.
    pub id: u64,
    /// TSC when this core entered bootloader.
    pub boot_tsc: u64,
    /// Local APIC for this core, once initialized.
    pub apic: Option<Apic>,
    /// APIC ID for this core, `NO_APIC_ID` if not cached yet.
    apic_id: u32,
    /// Largest page type that this core can map.
    pub max_page_type: PageType,
}

/// The largest page type that a processor with `features` can map: 1G pages, else 2M
/// pages; `None` when it supports neither.
pub fn max_page_type(features: &CpuFeatures) -> (r: Option<PageType>)
    ensures
        r == (if features.page1g {
            Some(PageType::Page1G)
        } else if features.page2m {
            Some(PageType::Page2M)
        } else {
            None
        }),
{
    if features.page1g {
        Some(PageType::Page1G)
    } else if features.page2m {
        Some(PageType::Page2M)
    } else {
        None
    }
}

/// Size of the legacy XSAVE area followed by the XSAVE header.
pub const XSAVE_LEGACY_SIZE: u64 = 576;

/// State component `i` is enabled in the XCR0 value `xcr0`.
pub open spec fn component_enabled(xcr0: u64, i: int) -> bool {
    xcr0 & (1u64 << (i as u64)) != 0
}

/// Where state component `i` ends in the XSAVE area, by its CPUID leaf 0xd sub-leaf `c`:
/// its offset (EBX) plus its size (EAX).
pub open spec fn component_end(c: Cpuid) -> int {
    c.ebx + c.eax
}

/// Bytes that the XSAVE area takes with the state components enabled in `xcr0`, where
/// `components[i]` is CPUID leaf 0xd sub-leaf `i`: the legacy area and header, or the end
/// of the enabled component from 2 up that ends last, whichever is larger.
pub fn xsave_area_size(xcr0: u64, components: &[Cpuid]) -> (r: u64)
    requires
        components.len() == 64,
    ensures
        r >= XSAVE_LEGACY_SIZE,
        forall|i: int|
            2 <= i < 64 && component_enabled(xcr0, i) ==> r >= component_end(#[trigger] components@[i]),
        r == XSAVE_LEGACY_SIZE || exists|i: int|
            2 <= i < 64 && component_enabled(xcr0, i) && r == component_end(#[trigger] components@[i]),
{
    // We start with legacy area size and XSAVE header size.
    let mut xsave_size: u64 = XSAVE_LEGACY_SIZE;
    let mut component: u64 = 2;
    while component < 64
        invariant
            2 <= component <= 64,
            components.len() == 64,
            xsave_size >= XSAVE_LEGACY_SIZE,
            forall|i: int|
                2 <= i < component && component_enabled(xcr0, i) ==> xsave_size >= component_end(
                    #[trigger] components@[i],
                ),
            xsave_size == XSAVE_LEGACY_SIZE || exists|i: int|
                2 <= i < component && component_enabled(xcr0, i) && xsave_size == component_end(
                    #[trigger] components@[i],
                ),
        decreases 64 - component,
    {
        if xcr0 & (1u64 << component) != 0 {
            let c = components[component as usize];
            let end = c.ebx as u64 + c.eax as u64;
            assert(component_enabled(xcr0, component as int));
            if end > xsave_size {
                xsave_size = end;
            }
        }
        component += 1;
    }
    xsave_size
}

/// Log2 of `size` rounded up to a power of two of at least 8 bytes: the bit width of the
/// largest offset into it.
pub open spec fn size_class(size: u64) -> int {
    64 - vstd::std_specs::bits::u64_leading_zeros(
        ((if size < 8 {
            8
        } else {
            size
        }) - 1) as u64,
    )
}

/// Alignment that the free list of size class `class` provides: natural up to 4096 bytes.
pub open spec fn class_align(class: int) -> u64 {
    if class < 12 {
        1u64 << (class as u64)
    } else {
        4096
    }
}

impl CoreLocals {
    pub closed spec fn core_id(&self) -> u64 {
        self.id
    }

    pub closed spec fn page_type_limit(&self) -> PageType {
        self.max_page_type
    }

    pub closed spec fn boot_tsc_spec(&self) -> u64 {
        self.boot_tsc
    }

    pub closed spec fn apic_spec(&self) -> Option<Apic> {
        self.apic
    }

    pub closed spec fn interrupt_depth(&self) -> u32 {
        self.in_interrupt.value()
    }

    pub closed spec fn exception_depth(&self) -> u32 {
        self.in_exception.value()
    }

    pub closed spec fn disable_depth(&self) -> u32 {
        self.interrupts_disable.value()
    }

    pub closed spec fn cached_apic_id(&self) -> u32 {
        self.apic_id
    }

    pub closed spec fn xsave_size_spec(&self) -> usize {
        self.xsave_size
    }

    /// State of core `id` entered at `boot_tsc` that maps at most `max_page_type` pages:
    /// interrupts disabled once, not in an interrupt or exception, nothing cached yet.
    pub fn new(id: u64, boot_tsc: u64, max_page_type: PageType) -> (r: Self)
        ensures
            r.page_type_limit() == max_page_type,
            r.core_id() == id,
            r.boot_tsc_spec() == boot_tsc,
            r.apic_spec() is None,
            r.interrupt_depth() == 0,
            r.exception_depth() == 0,
            r.disable_depth() == 1,
            r.cached_apic_id() == NO_APIC_ID,
            r.xsave_size_spec() == 0,
    {
        Self {
            xsave_size: 0,
            interrupts_disable: DepthCounter::new(1),
            in_interrupt: DepthCounter::new(0),
            in_exception: DepthCounter::new(0),
            id,
            boot_tsc,
            apic: None,
            apic_id: NO_APIC_ID,
            max_page_type,
        }
    }

    pub fn enter_interrupt(&mut self)
        requires
            old(self).interrupt_depth() < u32::MAX,
        ensures
            final(self).interrupt_depth() == old(self).interrupt_depth() + 1,
            final(self).exception_depth() == old(self).exception_depth(),
            final(self).disable_depth() == old(self).disable_depth(),
    {
        self.in_interrupt.enter();
    }

    pub fn exit_interrupt(&mut self)
        requires
            old(self).interrupt_depth() > 0,
        ensures
            final(self).interrupt_depth() == old(self).interrupt_depth() - 1,
            final(self).exception_depth() == old(self).exception_depth(),
            final(self).disable_depth() == old(self).disable_depth(),
    {
        self.in_interrupt.exit();
    }

    pub fn enter_exception(&mut self)
        requires
            old(self).exception_depth() < u32::MAX,
        ensures
            final(self).exception_depth() == old(self).exception_depth() + 1,
            final(self).interrupt_depth() == old(self).interrupt_depth(),
            final(self).disable_depth() == old(self).disable_depth(),
    {
        self.in_exception.enter();
    }

    pub fn exit_exception(&mut self)
        requires
            old(self).exception_depth() > 0,
        ensures
            final(self).exception_depth() == old(self).exception_depth() - 1,
            final(self).interrupt_depth() == old(self).interrupt_depth(),
            final(self).disable_depth() == old(self).disable_depth(),
    {
        self.in_exception.exit();
    }

    pub fn in_interrupt(&self) -> (r: bool)
        ensures
            r == (self.interrupt_depth() > 0),
    {
        self.in_interrupt.depth() > 0
    }

    pub fn in_exception(&self) -> (r: bool)
        ensures
            r == (self.exception_depth() > 0),
    {
        self.in_exception.depth() > 0
    }

    /// Count one more reason to keep interrupts disabled; the caller disables them
    /// unconditionally.
    pub fn disable_interrupts(&mut self)
        requires
            old(self).disable_depth() < u32::MAX,
        ensures
            final(self).disable_depth() == old(self).disable_depth() + 1,
            final(self).interrupt_depth() == old(self).interrupt_depth(),
            final(self).exception_depth() == old(self).exception_depth(),
    {
        self.interrupts_disable.enter();
    }

    /// Drop one reason to keep interrupts disabled. `true` when the caller must enable
    /// them: no reason is left and the core is not handling an interrupt or exception (whose
    /// return restores the flag).
    pub fn enable_interrupts(&mut self) -> (r: bool)
        requires
            old(self).disable_depth() > 0,
        ensures
            final(self).disable_depth() == old(self).disable_depth() - 1,
            final(self).interrupt_depth() == old(self).interrupt_depth(),
            final(self).exception_depth() == old(self).exception_depth(),
            r == (old(self).disable_depth() == 1 && old(self).interrupt_depth() == 0
                && old(self).exception_depth() == 0),
    {
        if self.interrupts_disable.exit() {
            !self.in_interrupt() && !self.in_exception()
        } else {
            false
        }
    }

    /// Expected state of the interrupt flag.
    pub fn interrupts_enabled(&self) -> (r: bool)
        ensures
            r == (self.interrupt_depth() == 0 && self.exception_depth() == 0
                && self.disable_depth() == 0),
    {
        !self.in_interrupt() && !self.in_exception() && self.interrupts_disable.depth() == 0
    }

    /// Index of the free list serving allocations of `size` bytes aligned to `align`. Free
    /// lists are naturally aligned up to 4096 bytes and 4096 byte aligned above; `None` when
    /// that cannot satisfy `align`.
    pub fn free_list(&self, size: u64, align: u64) -> (r: Option<usize>)
        requires
            size <= 0x1000_0000_0000_0000,
        ensures
            3 <= size_class(size) <= 60,
            r == (if align <= class_align(size_class(size)) {
                Some((size_class(size) - 3) as usize)
            } else {
                None
            }),
    {
        // Free lists start at 8 bytes, round it up if needed.
        let size = if size < 8 {
            8
        } else {
            size
        };
        let x = size - 1;
        proof {
            vstd::std_specs::bits::axiom_u64_leading_zeros(x);
            let lz = vstd::std_specs::bits::u64_leading_zeros(x);
            assert((x >= 7 ==> (x >> 2u64 != 0 && x >> 1u64 != 0 && x >> 0u64 != 0)) && (x
                < 0x1000_0000_0000_0000 ==> ((x >> 63u64) & 1 == 0 && (x >> 62u64) & 1 == 0 && (x
                >> 61u64) & 1 == 0 && (x >> 60u64) & 1 == 0))) by (bit_vector);
            if lz >= 62 {
                assert(64 - lz == 0 || 64 - lz == 1 || 64 - lz == 2);
            }
            if lz <= 3 {
                assert(63 - lz == 63 || 63 - lz == 62 || 63 - lz == 61 || 63 - lz == 60);
            }
        }

        // Round up size to the nearest power of two and get the log2 of it.
        let index = 64 - x.leading_zeros();

        // Compute the alignment of the free list associated with this memory.
        let free_list_align: u64 = if index < 12 {
            1u64 << index
        } else {
            4096
        };
        if free_list_align < align {
            return None;
        }
        Some((index - 3) as usize)
    }

    pub fn set_apic_id(&mut self, apic_id: u32)
        ensures
            final(self).cached_apic_id() == apic_id,
            final(self).interrupt_depth() == old(self).interrupt_depth(),
            final(self).exception_depth() == old(self).exception_depth(),
            final(self).disable_depth() == old(self).disable_depth(),
    {
        self.apic_id = apic_id;
    }

    /// The cached APIC ID, `None` if it isn't cached yet.
    pub fn apic_id(&self) -> (r: Option<u32>)
        ensures
            r == (if self.cached_apic_id() == NO_APIC_ID {
                None
            } else {
                Some(self.cached_apic_id())
            }),
    {
        if self.apic_id == NO_APIC_ID {
            None
        } else {
            Some(self.apic_id)
        }
    }

    pub fn apic_mode(&self) -> (r: ApicMode)
        requires
            self.apic_spec() is Some,
        ensures
            r == (match self.apic_spec()->0 {
                Apic::XApic => ApicMode::XApic,
                Apic::X2Apic => ApicMode::X2Apic,
            }),
    {
        match &self.apic {
            Some(apic) => apic.mode(),
            None => ApicMode::XApic,
        }
    }

    pub fn set_xsave_size(&mut self, size: usize)
        ensures
            final(self).xsave_size_spec() == size,
            final(self).interrupt_depth() == old(self).interrupt_depth(),
            final(self).exception_depth() == old(self).exception_depth(),
            final(self).disable_depth() == old(self).disable_depth(),
    {
        self.xsave_size = size;
    }

    /// Required size of the XSAVE area, once computed.
    pub fn xsave_size(&self) -> (r: usize)
        requires
            self.xsave_size_spec() > 0,
        ensures
            r == self.xsave_size_spec(),
    {
        self.xsave_size
    }
}

} // verus!
