//! Running the kernel itself in a VM: its segments are loaded from the host GDT, and each
//! VM exit is answered by mapping the page that the guest touched, stepping over a
//! `vmmcall`, resuming after a host interrupt, or stopping.
use vstd::prelude::*;
use super::{Event, Intercept, Interrupt, Segment, SegmentRegister, Vm, VmExit, spec_descriptor};
use super::npt::{NPT_PRESENT, NPT_WRITE};

verus! {

/// Why a segment register cannot be loaded from the host's descriptor tables.
#[derive(Copy, Clone, PartialEq, Eq, Structural, Debug)]
pub enum SegmentError {
    /// The selector points into the LDT.
    InLdt,
    /// The selector points past the end of the GDT.
    OutsideGdt,
}

impl SegmentError {
    /// Description of the error.
    pub fn message(&self) -> (r: &'static str)
        ensures
            r@ == (match *self {
                SegmentError::InLdt => "Segments in LDT are not supported."@,
                SegmentError::OutsideGdt => "Selector offset is outside the GDT."@,
            }),
    {
        match self {
            SegmentError::InLdt => "Segments in LDT are not supported.",
            SegmentError::OutsideGdt => "Selector offset is outside the GDT.",
        }
    }
}

/// The segment that the GDT descriptor `entry` describes for `selector`; a system segment
/// (bit 44 clear) takes bits 32 to 63 of its base from the low half of the next entry,
/// `high`.
pub open spec fn spec_gdt_segment(selector: u16, entry: u64, high: u64) -> Segment {
    let attrib = ((entry >> 40u64) & 0xff) | (((entry >> 52u64) & 0x0f) << 8u64);
    let limit = (entry & 0xffff) | (((entry >> 48u64) & 0x0f) << 16u64);
    let low_base = ((entry >> 16u64) & 0xff_ffff) | (((entry >> 56u64) & 0xff) << 24u64);
    let base = if entry & 0x1000_0000_0000u64 == 0 {
        low_base | ((high & 0xffff_ffff) << 32u64)
    } else {
        low_base
    };
    Segment { selector, base, limit: limit as u32, attrib: attrib as u16 }
}

/// The segment that `selector` loads from the GDT `gdt` of `gdt_limit`: a null segment for
/// a null selector, else the one its descriptor describes.
pub open spec fn spec_segment(selector: u16, gdt: Seq<u64>, gdt_limit: u16) -> Result<
    Segment,
    SegmentError,
> {
    let offset = selector & 0xfffc;
    let index = offset / 8;
    if selector & 4 != 0 {
        Err(SegmentError::InLdt)
    } else if offset == 0 {
        Ok(Segment { selector, attrib: 0, limit: 0, base: 0 })
    } else if offset >= gdt_limit || index >= gdt.len() {
        Err(SegmentError::OutsideGdt)
    } else if gdt[index as int] & 0x1000_0000_0000u64 == 0 && index + 1 >= gdt.len() {
        Err(SegmentError::OutsideGdt)
    } else {
        Ok(
            spec_gdt_segment(
                selector,
                gdt[index as int],
                if index + 1 < gdt.len() {
                    gdt[index + 1]
                } else {
                    0
                },
            ),
        )
    }
}

/// The segment that `selector` loads from the host GDT `gdt` whose limit is `gdt_limit`.
pub fn gdt_segment(selector: u16, gdt: &[u64], gdt_limit: u16) -> (r: Result<
    Segment,
    SegmentError,
>)
    ensures
        r == spec_segment(selector, gdt@, gdt_limit),
{
    // Make sure that selector's table bit is 0.
    if selector & 4 != 0 {
        return Err(SegmentError::InLdt);
    }

    // Mask off RPL from the selector to get the segment offset.
    let offset = selector & 0xfffc;
    if offset == 0 {
        return Ok(Segment::null(selector));
    }
    let index = (offset / 8) as usize;
    if offset >= gdt_limit || index >= gdt.len() {
        return Err(SegmentError::OutsideGdt);
    }

    // Get the GDT entry for this selector.
    let entry = gdt[index];
    let system = entry & 0x1000_0000_0000 == 0;
    if system && index + 1 >= gdt.len() {
        return Err(SegmentError::OutsideGdt);
    }
    let high: u64 = if index + 1 < gdt.len() {
        gdt[index + 1]
    } else {
        0
    };

    // Extract segment attributes, limit and base address.
    let attrib = ((entry >> 40) & 0xff) | (((entry >> 52) & 0x0f) << 8);
    let limit = (entry & 0xffff) | (((entry >> 48) & 0x0f) << 16);
    let low_base = ((entry >> 16) & 0xff_ffff) | (((entry >> 56) & 0xff) << 24);

    // System segments have 64 bit base address.
    let base = if system {
        low_base | ((high & 0xffff_ffff) << 32)
    } else {
        low_base
    };
    Ok(Segment { selector, base, limit: limit as u32, attrib: attrib as u16 })
}

/// Load segment register `register` of `vm` with the segment that `selector` loads from
/// the host GDT; FS and GS take their base from `fs_base` and `gs_base`.
pub fn load_segment(
    vm: &mut Vm,
    register: SegmentRegister,
    selector: u16,
    gdt: &[u64],
    gdt_limit: u16,
    fs_base: u64,
    gs_base: u64,
) -> (r: Result<(), SegmentError>)
    requires
        old(vm).wf(),
    ensures
        final(vm).wf(),
        match spec_segment(selector, gdt@, gdt_limit) {
            Err(e) => r == Err::<(), SegmentError>(e) && *final(vm) == *old(vm),
            Ok(s) => r is Ok && super::spec_segment_desc(final(vm).vmcb_view().state, register)
                == spec_descriptor(
                match register {
                    SegmentRegister::Fs => Segment { base: fs_base, ..s },
                    SegmentRegister::Gs => Segment { base: gs_base, ..s },
                    _ => s,
                },
            ),
        },
{
    let mut segment = match gdt_segment(selector, gdt, gdt_limit) {
        Ok(s) => s,
        Err(e) => return Err(e),
    };

    // FS and GS take their base address from MSRs.
    match register {
        SegmentRegister::Fs => segment.base = fs_base,
        SegmentRegister::Gs => segment.base = gs_base,
        _ => {},
    }
    vm.set_segment_reg(register, segment);
    proof {
        lemma_segment_loaded(
            old(vm).vmcb_view().state,
            final(vm).vmcb_view().state,
            register,
            segment,
        );
    }
    Ok(())
}

/// Reading back a segment register gives the segment loaded into it.
proof fn lemma_segment_loaded(
    before: super::vmcb::VmcbStateSaveArea,
    after: super::vmcb::VmcbStateSaveArea,
    register: SegmentRegister,
    segment: Segment,
)
    requires
        after == super::spec_with_segment(
            super::vmcb::VmcbStateSaveArea {
                cpl: if register == SegmentRegister::Cs {
                    super::spec_cpl(segment)
                } else {
                    before.cpl
                },
                ..before
            },
            register,
            spec_descriptor(segment),
        ),
    ensures
        super::spec_segment_desc(after, register) == spec_descriptor(segment),
{
}

/// What to do after the guest kernel's VM exited.
#[derive(Copy, Clone, PartialEq, Eq, Structural, Debug)]
pub enum GuestStep {
    /// Map the guest physical page at `page` and run on.
    MapPage { page: u64 },
    /// Report the `vmmcall` and step over it.
    Vmmcall,
    /// The guest halted: it is done.
    Halt,
    /// The guest shut down.
    Shutdown,
    /// A host interrupt was taken: run on.
    Resume,
    /// An exit the host does not handle.
    Unhandled,
}

/// What to do about `exit`, and whether the intercepted delivery `delivery`, if any, makes
/// the run fail after that.
pub fn guest_step(exit: VmExit, delivery: Option<Event>) -> (r: (GuestStep, bool))
    ensures
        r == (match exit {
            VmExit::NestedPageFault { address, .. } => (
                GuestStep::MapPage { page: (address.0 - address.0 % 4096) as u64 },
                delivery is Some,
            ),
            VmExit::Vmmcall => (GuestStep::Vmmcall, delivery is Some),
            VmExit::Hlt => (GuestStep::Halt, false),
            VmExit::Shutdown => (GuestStep::Shutdown, true),
            VmExit::Interrupt(Interrupt::Intr) => (GuestStep::Resume, false),
            _ => (GuestStep::Unhandled, true),
        }),
{
    match exit {
        VmExit::NestedPageFault { address, .. } => {
            let page = address.0 & !0xfff;
            proof {
                let a = address.0;
                assert(a & !0xfffu64 == a - a % 4096) by (bit_vector);
            }
            (GuestStep::MapPage { page }, delivery.is_some())
        },
        VmExit::Vmmcall => (GuestStep::Vmmcall, delivery.is_some()),
        VmExit::Hlt => (GuestStep::Halt, false),
        VmExit::Shutdown => (GuestStep::Shutdown, true),
        VmExit::Interrupt(Interrupt::Intr) => (GuestStep::Resume, false),
        _ => (GuestStep::Unhandled, true),
    }
}

/// Nested page table entry for the guest physical page `page`: present and writable,
/// mapped to the same host page.
pub fn guest_page_entry(page: u64) -> (r: u64)
    ensures
        r == page | NPT_PRESENT | NPT_WRITE,
{
    page | NPT_PRESENT | NPT_WRITE
}

/// Register values and intercepts that the guest kernel starts with.
#[derive(Copy, Clone, Debug)]
pub struct GuestStart {
    /// Debug status: the reserved bits set, no condition recorded.
    pub dr6: u64,
    /// Debug control: no breakpoint enabled.
    pub dr7: u64,
    /// Flags: only the reserved bit 1.
    pub rflags: u64,
    /// Stack pointer: the top of the guest's stack rounded down to 16 bytes, less 0x48.
    pub rsp: u64,
    /// What the host intercepts: `vmmcall`, `hlt` and FERR_FREEZE.
    pub intercepts: [Intercept; 3],
}

/// Start state of the guest kernel whose stack ends at `stack_top`.
pub fn guest_start(stack_top: u64) -> (r: GuestStart)
    requires
        stack_top >= 0x50,
    ensures
        r.dr6 == 0xffff_0ff0,
        r.dr7 == 0x400,
        r.rflags == 2,
        r.rsp == stack_top - stack_top % 16 - 0x48,
        r.intercepts@ == seq![Intercept::Vmmcall, Intercept::Hlt, Intercept::FerrFreeze],
{
    let aligned = stack_top - stack_top % 16;
    GuestStart {
        dr6: 0xffff_0ff0,
        dr7: 0x400,
        rflags: 2,
        rsp: aligned - 0x48,
        intercepts: [Intercept::Vmmcall, Intercept::Hlt, Intercept::FerrFreeze],
    }
}

} // verus!
