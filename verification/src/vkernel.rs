//! The VKernel: a small 64 bit kernel image run in a VM whose pages are mapped in on
//! demand. This module reads the image header, sets up the VM state it starts in, and
//! decides what to do on each VM exit; running the VM and mapping the pages is left to the
//! caller.
use vstd::prelude::*;
use crate::acpi::{le, read_le};
use crate::boot_image::page_round;
use crate::boot_block::KERNEL_PHYSICAL_REGION_BASE;
use crate::mm::{translate, MAX_ACCESSIBLE_PHYSICAL_ADDRESS};
use crate::page_table::{
    keeps_in_use, lemma_keeps_refl, spec_translate, tables_sound, PageType, PhysAddr, PhysMem,
    VirtAddr,
};
use crate::svm::npt::Npt;
use crate::svm::GuestAddr;
use crate::svm::{
    DescriptorTable, Event, Exception, Intercept, Interrupt, Register, Segment, SegmentRegister,
    TableRegister, Vm, VmExit, spec_descriptor, spec_segment_desc, all_msrs_byte, spec_dirty,
    intercepts_enabled, lemma_intercepts_enabled, CLEAN_INTERCEPTS_AND_TSC,
};

verus! {

/// Allocate `size` bytes of guest physical memory for the VKernel's own tables: the next
/// `size` bytes at `next`, mapped readable, writable and executable in the nested page
/// table. Alignments above 4K cannot be given. Whether the mapping succeeded is not
/// checked: a page that could not be mapped faults when the guest first touches it.
pub fn guest_alloc_phys<M: PhysMem>(
    npt: &mut Npt,
    phys_mem: &mut M,
    next: &mut u64,
    size: u64,
    align: u64,
) -> (r: Option<PhysAddr>)
    requires
        *old(next) + size <= u64::MAX,
    ensures
        final(npt).root() == old(npt).root(),
        align > 4096 ==> r is None && *final(next) == *old(next) && *final(phys_mem) == *old(
            phys_mem,
        ),
        align <= 4096 ==> r == Some(PhysAddr(*old(next))) && *final(next) == *old(next) + size,
        keeps_in_use(*old(phys_mem), *final(phys_mem), false),
        tables_sound(*old(phys_mem), old(npt).root()) ==> tables_sound(
            *final(phys_mem),
            old(npt).root(),
        ),
{
    proof {
        lemma_keeps_refl(*phys_mem, false);
    }
    // We can only do 4K aligned allocations.
    if align > 4096 {
        return None;
    }
    let address = *next;

    // Increase physical address for the next allocation.
    *next = address + size;

    // Map region to guest physical memory as readable and writable.
    let _ = npt.map(phys_mem, GuestAddr(address), PageType::Page4K, size, true, true);
    Some(PhysAddr(address))
}

/// Where the host reaches the `size` bytes of guest physical memory at `phys_addr`: only a
/// region within one page can be reached, through the page the nested page table maps it
/// to and the linear physical region.
pub fn guest_translate<M: PhysMem>(npt: &Npt, phys_mem: &mut M, phys_addr: PhysAddr, size: u64) -> (r:
    Option<VirtAddr>)
    ensures
        *final(phys_mem) == *old(phys_mem),
        size > 0x1000 - phys_addr.0 % 0x1000 ==> r is None,
        size <= 0x1000 - phys_addr.0 % 0x1000 ==> r == (match spec_translate(
            *old(phys_mem),
            npt.root(),
            phys_addr.0,
        ) {
            Some(h) => if size == 0 || h + size - 1 > MAX_ACCESSIBLE_PHYSICAL_ADDRESS {
                None
            } else {
                Some(VirtAddr((KERNEL_PHYSICAL_REGION_BASE + h) as u64))
            },
            None => None,
        }),
{
    // Make sure that region to translate fits in one page.
    let to_page_end = 0x1000 - phys_addr.0 % 0x1000;
    if size > to_page_end {
        return None;
    }

    // Translate guest physical address to host physical address, then to the address the
    // kernel reaches it at.
    match npt.guest_to_host(phys_mem, GuestAddr(phys_addr.0)) {
        Some(host) => translate(host, size),
        None => None,
    }
}

/// The VKernel image: loaded at `base`, entered 16 bytes in, with its initial stack
/// pointer, and two permission bits (write, execute) per page.
pub struct VKernelImage {
    pub base: u64,
    pub entrypoint: u64,
    pub image: Vec<u8>,
    pub permissions: Vec<u8>,
    pub rsp: u64,
}

/// Why the VKernel cannot run on.
#[derive(Copy, Clone, PartialEq, Eq, Structural, Debug)]
pub enum VKernelError {
    UnalignedBase,
    NotMissingPage,
}

impl VKernelError {
    /// Description of the error.
    pub fn message(&self) -> (r: &'static str)
        ensures
            r@ == (match *self {
                VKernelError::UnalignedBase => "Non page aligned kernel base address."@,
                VKernelError::NotMissingPage => "Page fault not due to missing page."@,
            }),
    {
        match self {
            VKernelError::UnalignedBase => "Non page aligned kernel base address.",
            VKernelError::NotMissingPage => "Page fault not due to missing page.",
        }
    }
}

/// What to do about a page fault in the VKernel.
#[derive(Copy, Clone, PartialEq, Eq, Structural, Debug)]
pub enum PageFaultAction {
    /// Map the kernel page at `page`, filled from `offset` in the image, with the given
    /// permissions.
    MapKernel { page: u64, offset: u64, write: bool, execute: bool },
    /// Map a zeroed, writable, non-executable page at `page`.
    MapZeroed { page: u64 },
}

/// What to do after the VM exited.
#[derive(Copy, Clone, PartialEq, Eq, Structural, Debug)]
pub enum RunStep {
    /// An interrupt was taken on the host: run the VM again.
    Resume,
    /// Handle a page fault at `address`, then run the VM again.
    PageFault { address: u64, error_code: u32 },
    /// The VKernel is done with this exit.
    Exit(VmExit),
    /// An event delivery was intercepted, which the VKernel never expects.
    UnexpectedDelivery(Event),
}

/// Size of the permission bitmap of an image of `len` bytes.
pub open spec fn permissions_len(len: nat) -> int {
    (page_round(len as int) + 3) / 4
}

impl VKernelImage {
    /// The image is laid out as `parse` builds it.
    pub open spec fn wf(&self) -> bool {
        &&& self.base % 4096 == 0
        &&& self.base + page_round(self.image@.len() as int) <= u64::MAX
        &&& self.permissions@.len() == permissions_len(self.image@.len())
    }

    /// The image in `image`: its base address and initial stack pointer are the first two
    /// little endian words, its entry point follows them. Every page is writable and
    /// executable. The base address must be page aligned.
    pub fn parse(image: Vec<u8>) -> (r: Result<Self, VKernelError>)
        requires
            image@.len() >= 16,
            le(image@, 0, 8) + page_round(image@.len() as int) <= u64::MAX,
            page_round(image@.len() as int) + 3 <= usize::MAX,
        ensures
            match r {
                Ok(k) => {
                    &&& le(image@, 0, 8) % 4096 == 0
                    &&& k.wf()
                    &&& k.base == le(image@, 0, 8)
                    &&& k.rsp == le(image@, 8, 8)
                    &&& k.entrypoint == k.base + 16
                    &&& k.image@ == image@
                    &&& forall|i: int| 0 <= i < k.permissions@.len() ==> #[trigger] k.permissions@[i] == 3
                },
                Err(e) => e == VKernelError::UnalignedBase && le(image@, 0, 8) % 4096 != 0,
            },
    {
        let base = read_le(image.as_slice(), 0, 8);
        let rsp = read_le(image.as_slice(), 8, 8);
        proof {
            crate::page_table::lemma_page_mask(base, PageType::Page4K);
        }
        if base & 0xfff != 0 {
            return Err(VKernelError::UnalignedBase);
        }
        let entrypoint = base + 16;
        let len = image.len();
        assert(len + 0xfff <= usize::MAX) by (nonlinear_arith)
            requires
                (len + 0xfff) / 0x1000 * 0x1000 + 3 <= usize::MAX,
        ;
        let image_size = (len + 0xfff) / 0x1000 * 0x1000;
        let permissions = vec![0b11u8; (image_size + 3) / 4];
        Ok(VKernelImage { base, entrypoint, image, permissions, rsp })
    }

    /// What to do about a page fault at `address` with `error_code`: pages of the image
    /// are mapped with its contents and permissions, other pages are mapped zeroed. Only
    /// faults on missing pages can be handled.
    pub fn page_fault_action(&self, address: u64, error_code: u32) -> (r: Result<
        PageFaultAction,
        VKernelError,
    >)
        requires
            self.wf(),
        ensures
            error_code & 1 != 0 ==> r == Err::<PageFaultAction, VKernelError>(
                VKernelError::NotMissingPage,
            ),
            error_code & 1 == 0 ==> {
                let page = address - address % 4096;
                let offset = page - self.base;
                let index = offset / 4096;
                let perms = self.permissions@[index * 2 / 8];
                let bit = (index * 2 % 8) as u8;
                r == Ok::<PageFaultAction, VKernelError>(
                    if self.base <= page < self.base + page_round(self.image@.len() as int) {
                        PageFaultAction::MapKernel {
                            page: page as u64,
                            offset: offset as u64,
                            write: (perms >> bit) & 1 == 1,
                            execute: (perms >> ((bit + 1) as u8)) & 1 == 1,
                        }
                    } else {
                        PageFaultAction::MapZeroed { page: page as u64 }
                    },
                )
            },
    {
        // We can only handle page faults due to missing page. Other page faults may be
        // caused by for example code writing to read only memory.
        if error_code & 1 != 0 {
            return Err(VKernelError::NotMissingPage);
        }

        // Get the address of the beginning of the page.
        let page = address & !0xfff;
        proof {
            assert(address & !0xfffu64 == address - address % 4096) by (bit_vector);
        }

        // Get page aligned range of the kernel in virtual memory.
        let len = self.image.len();
        let kernel_start = self.base;
        let kernel_end = self.base + ((len as u64 + 0xfff) / 0x1000 * 0x1000);

        if page >= kernel_start && page < kernel_end {
            // Offset of the page from the start of the kernel; page aligned as the base is.
            let offset = page - kernel_start;

            // Two permission bits per page: write, then execute.
            let page_index = offset / 4096;
            let perm_index = ((page_index * 2) / 8) as usize;
            let perm_bit = ((page_index * 2) % 8) as u8;
            proof {
                assert(page_index < page_round(len as int) / 4096) by (nonlinear_arith)
                    requires
                        offset < page_round(len as int),
                        page_index == offset / 4096,
                        page_round(len as int) % 4096 == 0,
                ;
                assert(page_index * 2 / 8 < self.permissions@.len()) by (nonlinear_arith)
                    requires
                        page_index < page_round(len as int) / 4096,
                        self.permissions@.len() == (page_round(len as int) + 3) / 4,
                ;
            }
            let perms = self.permissions[perm_index];
            let write = (perms >> perm_bit) & 1 == 1;
            let execute = (perms >> (perm_bit + 1)) & 1 == 1;
            Ok(PageFaultAction::MapKernel { page, offset, write, execute })
        } else {
            Ok(PageFaultAction::MapZeroed { page })
        }
    }

    /// Byte `offset` of the image, zero past its end: the contents of a kernel page.
    pub fn image_byte(&self, offset: u64) -> (r: u8)
        ensures
            r == (if offset < self.image@.len() {
                self.image@[offset as int]
            } else {
                0u8
            }),
    {
        let len = self.image.len();
        if offset < len as u64 {
            self.image[offset as usize]
        } else {
            0
        }
    }
}

/// What to do after the VM exited with `exit`, having intercepted the delivery of
/// `delivery` if any.
pub fn exit_step(exit: VmExit, delivery: Option<Event>) -> (r: RunStep)
    ensures
        r == (match delivery {
            Some(ev) => RunStep::UnexpectedDelivery(ev),
            None => match exit {
                VmExit::Interrupt(Interrupt::Intr) => RunStep::Resume,
                VmExit::Exception(Exception::Pf { address, error_code }) => RunStep::PageFault {
                    address: address.0,
                    error_code,
                },
                _ => RunStep::Exit(exit),
            },
        }),
{
    if let Some(ev) = delivery {
        return RunStep::UnexpectedDelivery(ev);
    }
    match exit {
        VmExit::Interrupt(Interrupt::Intr) => RunStep::Resume,
        VmExit::Exception(Exception::Pf { address, error_code }) => RunStep::PageFault {
            address: address.0,
            error_code,
        },
        _ => RunStep::Exit(exit),
    }
}

/// Present data segment with selector 0x10.
pub open spec fn data_segment() -> Segment {
    Segment { selector: 0x10, limit: 0, base: 0, attrib: 0x90 }
}

/// Present, 64 bit mode code segment with selector 0x8.
pub open spec fn code_segment() -> Segment {
    Segment { selector: 0x8, limit: 0, base: 0, attrib: 0x298 }
}

/// Null descriptor tables and flat segments.
fn configure_segments(vm: &mut Vm)
    requires
        old(vm).wf(),
    ensures
        final(vm).wf(),
        final(vm).regs_view() == old(vm).regs_view(),
        final(vm).vmcb_view().state.cs == spec_descriptor(code_segment()),
        final(vm).vmcb_view().state.ss == spec_descriptor(data_segment()),
        final(vm).vmcb_view().state.ds == spec_descriptor(data_segment()),
        final(vm).vmcb_view().state.es == spec_descriptor(data_segment()),
        final(vm).vmcb_view().state.fs == spec_descriptor(data_segment()),
        final(vm).vmcb_view().state.gs == spec_descriptor(data_segment()),
        final(vm).vmcb_view().state.idtr.base == 0 && final(vm).vmcb_view().state.idtr.limit == 0,
        final(vm).vmcb_view().state.gdtr.base == 0 && final(vm).vmcb_view().state.gdtr.limit == 0,
        final(vm).vmcb_view().state.cpl == 0,
{
    // Setup null IDT and GDT as we rely on descriptor caches.
    vm.set_table_reg(TableRegister::Idt, DescriptorTable::null());
    vm.set_table_reg(TableRegister::Gdt, DescriptorTable::null());

    // Present (bit 7), data (bits 3-4 = 0b10).
    let data_segment = Segment { selector: 0x10, limit: 0, base: 0, attrib: 0x90 };
    // Present (bit 7), 64 bit (bit 9), code (bits 3-4 = 0b11).
    let code_segment = Segment { selector: 0x8, limit: 0, base: 0, attrib: 0x298 };
    let null_segment = Segment::null(0);

    vm.set_segment_reg(SegmentRegister::Cs, code_segment);
    assert((8u16 & 3) as u8 == 0 && ((0x298u16 >> 5u16) & 3) as u8 == 0) by (bit_vector);
    vm.set_segment_reg(SegmentRegister::Ss, data_segment);
    vm.set_segment_reg(SegmentRegister::Ds, data_segment);
    vm.set_segment_reg(SegmentRegister::Es, data_segment);
    vm.set_segment_reg(SegmentRegister::Gs, data_segment);
    vm.set_segment_reg(SegmentRegister::Fs, data_segment);
    vm.set_segment_reg(SegmentRegister::Tr, null_segment);
    vm.set_segment_reg(SegmentRegister::Ldt, null_segment);
}

/// Long mode with paging through `cr3`, write-back memory, at `rip` with stack `rsp`.
fn configure_registers(vm: &mut Vm, cr3: u64, rip: u64, rsp: u64)
    requires
        old(vm).wf(),
    ensures
        final(vm).wf(),
        final(vm).spec_reg(Register::Efer) == 0x1d00,
        final(vm).spec_reg(Register::Cr0) == 0x8001_0003,
        final(vm).spec_reg(Register::Cr4) == 0x4_0620,
        final(vm).spec_reg(Register::Pat) == 0x0606_0606_0606_0606,
        final(vm).spec_reg(Register::Cr3) == cr3,
        final(vm).spec_reg(Register::Rip) == rip,
        final(vm).spec_reg(Register::Rsp) == rsp,
        final(vm).spec_reg(Register::Rflags) == 0x202,
        crate::svm::same_descriptors(final(vm).vmcb_view().state, old(vm).vmcb_view().state),
{
    // LME (bit 8), LMA (bit 10), NXE (bit 11), SVME (bit 12).
    vm.set_reg(Register::Efer, 0x1d00);
    // PE (bit 0), MP (bit 1), WP (bit 16), PG (bit 31).
    vm.set_reg(Register::Cr0, 0x8001_0003);
    // PAE (bit 5), OSFXSR (bit 9), OSXMMEXCPT (bit 10), OSXSAVE (bit 18).
    vm.set_reg(Register::Cr4, 0x4_0620);
    // Everything WB.
    vm.set_reg(Register::Pat, 0x0606_0606_0606_0606);
    vm.set_reg(Register::Cr3, cr3);
    vm.set_reg(Register::Rip, rip);
    vm.set_reg(Register::Rsp, rsp);
    // IF (bit 9) and the reserved bit 1.
    vm.set_reg(Register::Rflags, 0x202);
}

/// What the guest kernel's VM intercepts: page faults, the SVM instructions, `xsetbv`,
/// `hlt` and `invlpgb`, CR0, CR3 and CR4 accesses, every interrupt, and FERR freezes.
pub open spec fn vkernel_intercepts() -> Seq<Intercept> {
    seq![
        Intercept::Pf,
        Intercept::Vmmcall,
        Intercept::Vmload,
        Intercept::Vmsave,
        Intercept::Stgi,
        Intercept::Clgi,
        Intercept::Skinit,
        Intercept::Invlpga,
        Intercept::Xsetbv,
        Intercept::Hlt,
        Intercept::Invlpgb,
        Intercept::Cr0Read,
        Intercept::Cr0Write,
        Intercept::Cr3Read,
        Intercept::Cr3Write,
        Intercept::Cr4Read,
        Intercept::Cr4Write,
        Intercept::Intr,
        Intercept::Nmi,
        Intercept::Smi,
        Intercept::Init,
        Intercept::FerrFreeze,
    ]
}

/// Put `vm` in the state the VKernel starts in: long mode with paging through the page
/// table at `cr3`, flat segments, at the image's entry point and stack, with every MSR and
/// port access, the page faults, the SVM instructions, the control register accesses and
/// the interrupts intercepted.
pub fn configure(vm: &mut Vm, cr3: u64, image: &VKernelImage)
    requires
        old(vm).wf(),
    ensures
        final(vm).wf(),
        final(vm).spec_reg(Register::Efer) == 0x1d00,
        final(vm).spec_reg(Register::Cr0) == 0x8001_0003,
        final(vm).spec_reg(Register::Cr4) == 0x4_0620,
        final(vm).spec_reg(Register::Pat) == 0x0606_0606_0606_0606,
        final(vm).spec_reg(Register::Cr3) == cr3,
        final(vm).spec_reg(Register::Rip) == image.entrypoint,
        final(vm).spec_reg(Register::Rsp) == image.rsp,
        final(vm).spec_reg(Register::Rflags) == 0x202,
        final(vm).vmcb_view().state.cs == spec_descriptor(code_segment()),
        final(vm).vmcb_view().state.ss == spec_descriptor(data_segment()),
        final(vm).vmcb_view().state.ds == spec_descriptor(data_segment()),
        final(vm).vmcb_view().state.es == spec_descriptor(data_segment()),
        final(vm).vmcb_view().state.fs == spec_descriptor(data_segment()),
        final(vm).vmcb_view().state.gs == spec_descriptor(data_segment()),
        final(vm).vmcb_view().state.idtr.base == 0 && final(vm).vmcb_view().state.idtr.limit == 0,
        final(vm).vmcb_view().state.gdtr.base == 0 && final(vm).vmcb_view().state.gdtr.limit == 0,
        forall|i: int| 0 <= i < 0x1800 ==> final(vm).msrpm_view()[i] == all_msrs_byte(true, true),
        forall|i: int| 0 <= i < 0x2000 ==> final(vm).iopm_view()[i] == 0xffu8,
        intercepts_enabled(final(vm).vmcb_view().control, vkernel_intercepts()),
        final(vm).vmcb_view().state.cpl == 0,
{
    configure_segments(vm);
    configure_registers(vm, cr3, image.entrypoint, image.rsp);
    let ghost state = vm.vmcb_view().state;

    vm.intercept_all_msrs(true, true);
    vm.intercept_all_ports(true);

    let intercepts = [
        // Intercept relevant exceptions.
        Intercept::Pf,
        // Intercept relevant SVM instructions.
        Intercept::Vmmcall,
        Intercept::Vmload,
        Intercept::Vmsave,
        Intercept::Stgi,
        Intercept::Clgi,
        Intercept::Skinit,
        Intercept::Invlpga,
        // Intercept other instructions.
        Intercept::Xsetbv,
        Intercept::Hlt,
        Intercept::Invlpgb,
        // Intercept reads and writes of relevant CRs.
        Intercept::Cr0Read,
        Intercept::Cr0Write,
        Intercept::Cr3Read,
        Intercept::Cr3Write,
        Intercept::Cr4Read,
        Intercept::Cr4Write,
        // Intercept all interrupts on the system.
        Intercept::Intr,
        Intercept::Nmi,
        Intercept::Smi,
        Intercept::Init,
        // Intercept other stuff.
        Intercept::FerrFreeze,
    ];
    let ghost msrpm = vm.msrpm_view();
    let ghost iopm = vm.iopm_view();
    assert(intercepts@ =~= vkernel_intercepts());
    let ghost before = vm.vmcb_view();
    vm.intercept(&intercepts, true);
    assert(vm.vmcb_view().state == state);
    proof {
        lemma_intercepts_enabled(
            spec_dirty(before, vm.clean_supported(), CLEAN_INTERCEPTS_AND_TSC).control,
            intercepts@,
        );
    }
}

} // verus!
