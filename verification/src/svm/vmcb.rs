//! Model of the virtual machine control block: the control area that configures
//! intercepts and reports exits, and the guest state save area.
use vstd::prelude::*;

verus! {

#[derive(Copy, Clone, PartialEq, Eq, Structural, Debug)]
pub struct VmcbSegmentDescriptor {
    pub selector: u16,
    pub attrib: u16,
    pub limit: u32,
    pub base: u64,
}

impl VmcbSegmentDescriptor {
    pub fn zeroed() -> (r: Self)
        ensures
            r == (VmcbSegmentDescriptor { selector: 0, attrib: 0, limit: 0, base: 0 }),
    {
        VmcbSegmentDescriptor { selector: 0, attrib: 0, limit: 0, base: 0 }
    }
}

#[derive(Copy, Clone, PartialEq, Eq, Structural, Debug)]
pub struct VmcbControlArea {
    // Various intercepts (register reads, writes, instructions, interrupts, etc).
    pub intercept_cr_rw: u32,
    pub intercept_dr_rw: u32,
    pub intercept_exceptions: u32,
    pub intercept_misc_1: u32,
    pub intercept_misc_2: u32,
    pub intercept_misc_3: u32,
    // Pause intercept filtering.
    pub pause_filter_threshold: u16,
    pub pause_filter_count: u16,
    // Physical addresses of intercept bitmaps (for IO and MSRs).
    pub iopm_base_pa: u64,
    pub msrpm_base_pa: u64,
    // Offset that gets added to current TSC when guest reads it.
    pub tsc_offset: u64,
    // Address space identifier used for TLB tagging.
    pub guest_asid: u32,
    // Control value that determines what to flush on next `vmrun`.
    pub tlb_control: u32,
    // Things related to virtual interrupts, VGIF and AVIC.
    pub vintr: u64,
    // Guest interruptability state.
    pub interruptibility: u64,
    // Detailed information about VM exit.
    pub exitcode: u64,
    pub exit_info_1: u64,
    pub exit_info_2: u64,
    pub exit_int_info: u64,
    // Bits to enable various SVM features like nested paging.
    pub feature_control: u64,
    pub avic_apic_bar: u64,
    pub ghcb_pa: u64,
    // Field used to inject events (interrupts, NMIs, exceptions) to the guest.
    pub event_injection: u64,
    // Nested page table CR3 to use for nested paging.
    pub n_cr3: u64,
    // Bits to enable various virtualized features like vmsave/vmload, LBR virtualization.
    pub virtualized_features: u64,
    // Clean bits in VMCB that CPU can get from cache on next `vmrun`.
    pub vmcb_clean: u64,
    // The next sequential instruction pointer saved on exits due to instruction intercepts,
    // MSR and IOIO intercepts and exceptions caused by INT3, INTO and BOUND. Zero otherwise.
    pub next_rip: u64,
    // Filled by the processor on the nested or intercepted page fault.
    pub bytes_fetched: u8,
    // Things related to AVIC.
    pub apic_backing_page: u64,
    pub avic_logical_table: u64,
    pub avic_physical_table: u64,
    // Encrypted save state area, used when SEV-ES is enabled.
    pub vmsa_pointer: u64,
}

#[derive(Copy, Clone, PartialEq, Eq, Structural, Debug)]
pub struct VmcbStateSaveArea {
    // Guest segment registers.
    pub es: VmcbSegmentDescriptor,
    pub cs: VmcbSegmentDescriptor,
    pub ss: VmcbSegmentDescriptor,
    pub ds: VmcbSegmentDescriptor,
    pub fs: VmcbSegmentDescriptor,
    pub gs: VmcbSegmentDescriptor,
    pub gdtr: VmcbSegmentDescriptor,
    pub ldtr: VmcbSegmentDescriptor,
    pub idtr: VmcbSegmentDescriptor,
    pub tr: VmcbSegmentDescriptor,
    // Guest current privilege level.
    pub cpl: u8,
    // Guest EFER MSR.
    pub efer: u64,
    // Guest control registers.
    pub cr4: u64,
    pub cr3: u64,
    pub cr0: u64,
    // Guest debug registers.
    pub dr7: u64,
    pub dr6: u64,
    // Guest flags and instruction pointer.
    pub rflags: u64,
    pub rip: u64,
    // Guest stack pointer.
    pub rsp: u64,
    // Shadow stack related registers.
    pub s_cet: u64,
    pub ssp: u64,
    pub isst_addr: u64,
    // Guest RAX GPR.
    pub rax: u64,
    // Various guest MSRs.
    pub star: u64,
    pub lstar: u64,
    pub cstar: u64,
    pub sfmask: u64,
    pub kernel_gs_base: u64,
    pub sysenter_cs: u64,
    pub sysenter_esp: u64,
    pub sysenter_eip: u64,
    // Address that caused page fault.
    pub cr2: u64,
    // Guest PAT - used only when nested paging is enabled.
    pub g_pat: u64,
    // LBR virtualization related registers.
    pub dbgctl: u64,
    pub br_from: u64,
    pub br_to: u64,
    pub last_except_from: u64,
    pub last_except_to: u64,
}

#[derive(Copy, Clone, PartialEq, Eq, Structural, Debug)]
pub struct Vmcb {
    pub control: VmcbControlArea,
    pub state: VmcbStateSaveArea,
}

impl Vmcb {
    /// The VMCB with every field zero.
    pub open spec fn new_spec() -> Vmcb {
    let z = VmcbSegmentDescriptor { selector: 0, attrib: 0, limit: 0, base: 0 };
    Vmcb { control: VmcbControlArea {
        intercept_cr_rw: 0,
        intercept_dr_rw: 0,
        intercept_exceptions: 0,
        intercept_misc_1: 0,
        intercept_misc_2: 0,
        intercept_misc_3: 0,
        pause_filter_threshold: 0,
        pause_filter_count: 0,
        iopm_base_pa: 0,
        msrpm_base_pa: 0,
        tsc_offset: 0,
        guest_asid: 0,
        tlb_control: 0,
        vintr: 0,
        interruptibility: 0,
        exitcode: 0,
        exit_info_1: 0,
        exit_info_2: 0,
        exit_int_info: 0,
        feature_control: 0,
        avic_apic_bar: 0,
        ghcb_pa: 0,
        event_injection: 0,
        n_cr3: 0,
        virtualized_features: 0,
        vmcb_clean: 0,
        next_rip: 0,
        bytes_fetched: 0,
        apic_backing_page: 0,
        avic_logical_table: 0,
        avic_physical_table: 0,
        vmsa_pointer: 0,
    },
    state: VmcbStateSaveArea {
        es: z,
        cs: z,
        ss: z,
        ds: z,
        fs: z,
        gs: z,
        gdtr: z,
        ldtr: z,
        idtr: z,
        tr: z,
        cpl: 0,
        efer: 0,
        cr4: 0,
        cr3: 0,
        cr0: 0,
        dr7: 0,
        dr6: 0,
        rflags: 0,
        rip: 0,
        rsp: 0,
        s_cet: 0,
        ssp: 0,
        isst_addr: 0,
        rax: 0,
        star: 0,
        lstar: 0,
        cstar: 0,
        sfmask: 0,
        kernel_gs_base: 0,
        sysenter_cs: 0,
        sysenter_esp: 0,
        sysenter_eip: 0,
        cr2: 0,
        g_pat: 0,
        dbgctl: 0,
        br_from: 0,
        br_to: 0,
        last_except_from: 0,
        last_except_to: 0,
        },
    }
    }
}

impl Vmcb {
    /// Create a zeroed VMCB.
    pub fn new() -> (v: Vmcb)
        ensures
            v == Vmcb::new_spec(),
    {
        let z = VmcbSegmentDescriptor::zeroed();
        Vmcb {
            control: VmcbControlArea {
                intercept_cr_rw: 0,
                intercept_dr_rw: 0,
                intercept_exceptions: 0,
                intercept_misc_1: 0,
                intercept_misc_2: 0,
                intercept_misc_3: 0,
                pause_filter_threshold: 0,
                pause_filter_count: 0,
                iopm_base_pa: 0,
                msrpm_base_pa: 0,
                tsc_offset: 0,
                guest_asid: 0,
                tlb_control: 0,
                vintr: 0,
                interruptibility: 0,
                exitcode: 0,
                exit_info_1: 0,
                exit_info_2: 0,
                exit_int_info: 0,
                feature_control: 0,
                avic_apic_bar: 0,
                ghcb_pa: 0,
                event_injection: 0,
                n_cr3: 0,
                virtualized_features: 0,
                vmcb_clean: 0,
                next_rip: 0,
                bytes_fetched: 0,
                apic_backing_page: 0,
                avic_logical_table: 0,
                avic_physical_table: 0,
                vmsa_pointer: 0,
            },
            state: VmcbStateSaveArea {
                es: z,
                cs: z,
                ss: z,
                ds: z,
                fs: z,
                gs: z,
                gdtr: z,
                ldtr: z,
                idtr: z,
                tr: z,
                cpl: 0,
                efer: 0,
                cr4: 0,
                cr3: 0,
                cr0: 0,
                dr7: 0,
                dr6: 0,
                rflags: 0,
                rip: 0,
                rsp: 0,
                s_cet: 0,
                ssp: 0,
                isst_addr: 0,
                rax: 0,
                star: 0,
                lstar: 0,
                cstar: 0,
                sfmask: 0,
                kernel_gs_base: 0,
                sysenter_cs: 0,
                sysenter_esp: 0,
                sysenter_eip: 0,
                cr2: 0,
                g_pat: 0,
                dbgctl: 0,
                br_from: 0,
                br_to: 0,
                last_except_from: 0,
                last_except_to: 0,
            },
        }
    }
}

} // verus!
