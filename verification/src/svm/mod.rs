//! AMD SVM virtual machine state: the VMCB, intercept configuration, guest registers,
//! event injection and the decoding of VM exits.
use vstd::prelude::*;
use crate::page_table::VirtAddr;
use vmcb::{Vmcb, VmcbControlArea, VmcbSegmentDescriptor, VmcbStateSaveArea};
use utils::{
    Asid, AsidBitmap, SvmFeatures, SvmSupport, asid_used, check_svm, svm_decision,
    MAX_CONCURRENT_VMS,
};
use npt::Npt;

pub mod vmcb;
pub mod utils;
pub mod npt;
pub mod guest;

verus! {

pub trait ToInteger<T> {
    /// The integer this value stands for.
    spec fn spec_integer(&self) -> T;

    fn to_integer(&self) -> (r: T)
        ensures
            r == self.spec_integer(),
    ;
}

impl ToInteger<u32> for u32 {
    open spec fn spec_integer(&self) -> u32 {
        *self
    }

    fn to_integer(&self) -> (r: u32) {
        *self
    }
}

impl ToInteger<u16> for u16 {
    open spec fn spec_integer(&self) -> u16 {
        *self
    }

    fn to_integer(&self) -> (r: u16) {
        *self
    }
}

#[derive(Copy, Clone, PartialEq, Eq, Structural, Debug)]
pub enum VmError {
    NonAmdCpu,
    SvmNotSupported,
    SvmDisabled,
    OutOfAsids,
    NPNotSupported,
    NRipSaveNotSupported,
}

impl VmError {
    /// Human readable description of the error.
    pub fn to_string(&self) -> (r: &'static str)
        ensures
            r@ == (match *self {
                VmError::NonAmdCpu => "CPU vendor is not `AuthenticAMD`."@,
                VmError::SvmNotSupported => "CPUID reported that SVM is not supported."@,
                VmError::SvmDisabled => "SVM is disabled by the BIOS."@,
                VmError::OutOfAsids => "Couldn't assign unique ASID for this VM."@,
                VmError::NPNotSupported => "SVM nested paging is not supported."@,
                VmError::NRipSaveNotSupported => "Next RIP saving is not supported."@,
            }),
    {
        match self {
            VmError::NonAmdCpu => "CPU vendor is not `AuthenticAMD`.",
            VmError::SvmNotSupported => "CPUID reported that SVM is not supported.",
            VmError::SvmDisabled => "SVM is disabled by the BIOS.",
            VmError::OutOfAsids => "Couldn't assign unique ASID for this VM.",
            VmError::NPNotSupported => "SVM nested paging is not supported.",
            VmError::NRipSaveNotSupported => "Next RIP saving is not supported.",
        }
    }
}

#[derive(Copy, Clone, Debug, PartialEq, Eq, Structural)]
pub enum Register {
    Rax,
    Rcx,
    Rdx,
    Rbx,
    Rsp,
    Rbp,
    Rsi,
    Rdi,
    R8,
    R9,
    R10,
    R11,
    R12,
    R13,
    R14,
    R15,
    Rip,
    Rflags,
    Efer,
    Cr0,
    Cr2,
    Cr3,
    Cr4,
    Dr6,
    Dr7,
    Star,
    Lstar,
    Cstar,
    Sfmask,
    KernelGsBase,
    SysenterCs,
    SysenterEsp,
    SysenterEip,
    Pat,
}

/// Position of a register in the guest register cache, for the general purpose registers,
/// RIP and RFLAGS (in the order of the enum); `None` for registers kept in the VMCB.
pub open spec fn spec_gpr_index(r: Register) -> Option<int> {
    match r {
        Register::Rax => Some(0),
        Register::Rcx => Some(1),
        Register::Rdx => Some(2),
        Register::Rbx => Some(3),
        Register::Rsp => Some(4),
        Register::Rbp => Some(5),
        Register::Rsi => Some(6),
        Register::Rdi => Some(7),
        Register::R8 => Some(8),
        Register::R9 => Some(9),
        Register::R10 => Some(10),
        Register::R11 => Some(11),
        Register::R12 => Some(12),
        Register::R13 => Some(13),
        Register::R14 => Some(14),
        Register::R15 => Some(15),
        Register::Rip => Some(16),
        Register::Rflags => Some(17),
        _ => None,
    }
}

impl Register {
    /// Index of the register in the guest register cache, or 18 or more for VMCB registers.
    pub fn index(&self) -> (r: usize)
        ensures
            match spec_gpr_index(*self) {
                Some(i) => r == i,
                None => r >= 18,
            },
    {
        match self {
            Register::Rax => 0,
            Register::Rcx => 1,
            Register::Rdx => 2,
            Register::Rbx => 3,
            Register::Rsp => 4,
            Register::Rbp => 5,
            Register::Rsi => 6,
            Register::Rdi => 7,
            Register::R8 => 8,
            Register::R9 => 9,
            Register::R10 => 10,
            Register::R11 => 11,
            Register::R12 => 12,
            Register::R13 => 13,
            Register::R14 => 14,
            Register::R15 => 15,
            Register::Rip => 16,
            Register::Rflags => 17,
            _ => 18,
        }
    }
}

#[derive(Copy, Clone, Debug, PartialEq, Eq, Structural)]
pub enum TableRegister {
    Gdt,
    Idt,
}

#[derive(Copy, Clone, Debug, PartialEq, Eq, Structural)]
pub struct DescriptorTable {
    pub base: u64,
    pub limit: u16,
}

impl DescriptorTable {
    pub fn null() -> (r: Self)
        ensures
            r.base == 0 && r.limit == 0,
    {
        Self { base: 0, limit: 0 }
    }
}

#[derive(Copy, Clone, Debug, PartialEq, Eq, Structural)]
pub enum SegmentRegister {
    Es,
    Cs,
    Ss,
    Ds,
    Fs,
    Gs,
    Ldt,
    Tr,
}

#[derive(Copy, Clone, Debug, PartialEq, Eq, Structural)]
pub struct Segment {
    pub selector: u16,
    pub attrib: u16,
    pub limit: u32,
    pub base: u64,
}

impl Segment {
    pub fn null(selector: u16) -> (r: Self)
        ensures
            r == (Segment { selector, attrib: 0, limit: 0, base: 0 }),
    {
        Self { selector, attrib: 0, limit: 0, base: 0 }
    }
}

/// Intercept groups: each selects one intercept field of the VMCB control area.
pub const MISC_1: usize = 0x100;
pub const MISC_2: usize = 0x200;
pub const MISC_3: usize = 0x300;
pub const CR_RW: usize = 0x400;
pub const DR_RW: usize = 0x500;
pub const EXC: usize = 0x600;

#[derive(Copy, Clone, Debug, PartialEq, Eq, Structural)]
pub enum Intercept {
    Intr,
    Nmi,
    Smi,
    Init,
    Vintr,
    // Skipped "Intercept CR0 writes that change bits other than CR0.TS or CR0.MP." - always off.
    IdtrRead,
    GdtrRead,
    LdtrRead,
    TrRead,
    IdtrWrite,
    GdtrWrite,
    LdtrWrite,
    TrWrite,
    Rdtsc,
    Rdpmc,
    Pushf,
    Popf,
    Cpuid,
    Rsm,
    Iret,
    Int,
    Invd,
    Pause,
    Hlt,
    Invlpg,
    Invlpga,
    // Skipped IOIO_PROT and MSR_PROT - exposed by the different API.
    // Skipped task switches - always off.
    FerrFreeze,
    // Skipped shutdown events - always on.
    // Skipped VMRUN - always on.
    Vmmcall,
    Vmload,
    Vmsave,
    Stgi,
    Clgi,
    Skinit,
    Rdtscp,
    Icebp,
    Wbindvd,
    Monitor,
    Mwait,
    // Skipped "Intercept MWAIT/MWAITX instruction if monitor hardware is armed" - always off.
    Xsetbv,
    Rdpru,
    // Skipped EFER and CR0-15. Both happen after guest instruction finishes. Always off.
    Invlpgb,
    IllegalInvlpgb,
    Pcid,
    Mcommit,
    // Skipped TLBSYNC - not always supported. Always off.
    Cr0Read,
    Cr2Read,
    Cr3Read,
    Cr4Read,
    Cr8Read,
    Cr0Write,
    Cr2Write,
    Cr3Write,
    Cr4Write,
    Cr8Write,
    Dr0Read,
    Dr1Read,
    Dr2Read,
    Dr3Read,
    Dr6Read,
    Dr7Read,
    Dr0Write,
    Dr1Write,
    Dr2Write,
    Dr3Write,
    Dr6Write,
    Dr7Write,
    De,
    Db,
    Bp,
    Of,
    Br,
    Ud,
    Nm,
    Df,
    Ts,
    Np,
    Ss,
    Gp,
    Pf,
    Mf,
    Ac,
    Mc,
    Xf,
}

/// The intercept field (one of the groups) and the bit in it that enables `i`.
pub open spec fn spec_intercept(i: Intercept) -> (usize, u32) {
    match i {
        Intercept::Intr => (MISC_1, 0),
        Intercept::Nmi => (MISC_1, 1),
        Intercept::Smi => (MISC_1, 2),
        Intercept::Init => (MISC_1, 3),
        Intercept::Vintr => (MISC_1, 4),
        Intercept::IdtrRead => (MISC_1, 6),
        Intercept::GdtrRead => (MISC_1, 7),
        Intercept::LdtrRead => (MISC_1, 8),
        Intercept::TrRead => (MISC_1, 9),
        Intercept::IdtrWrite => (MISC_1, 10),
        Intercept::GdtrWrite => (MISC_1, 11),
        Intercept::LdtrWrite => (MISC_1, 12),
        Intercept::TrWrite => (MISC_1, 13),
        Intercept::Rdtsc => (MISC_1, 14),
        Intercept::Rdpmc => (MISC_1, 15),
        Intercept::Pushf => (MISC_1, 16),
        Intercept::Popf => (MISC_1, 17),
        Intercept::Cpuid => (MISC_1, 18),
        Intercept::Rsm => (MISC_1, 19),
        Intercept::Iret => (MISC_1, 20),
        Intercept::Int => (MISC_1, 21),
        Intercept::Invd => (MISC_1, 22),
        Intercept::Pause => (MISC_1, 23),
        Intercept::Hlt => (MISC_1, 24),
        Intercept::Invlpg => (MISC_1, 25),
        Intercept::Invlpga => (MISC_1, 26),
        Intercept::FerrFreeze => (MISC_1, 30),
        Intercept::Vmmcall => (MISC_2, 1),
        Intercept::Vmload => (MISC_2, 2),
        Intercept::Vmsave => (MISC_2, 3),
        Intercept::Stgi => (MISC_2, 4),
        Intercept::Clgi => (MISC_2, 5),
        Intercept::Skinit => (MISC_2, 6),
        Intercept::Rdtscp => (MISC_2, 7),
        Intercept::Icebp => (MISC_2, 8),
        Intercept::Wbindvd => (MISC_2, 9),
        Intercept::Monitor => (MISC_2, 10),
        Intercept::Mwait => (MISC_2, 11),
        Intercept::Xsetbv => (MISC_2, 13),
        Intercept::Rdpru => (MISC_2, 14),
        Intercept::Invlpgb => (MISC_3, 0),
        Intercept::IllegalInvlpgb => (MISC_3, 1),
        Intercept::Pcid => (MISC_3, 2),
        Intercept::Mcommit => (MISC_3, 3),
        Intercept::Cr0Read => (CR_RW, 0),
        Intercept::Cr2Read => (CR_RW, 2),
        Intercept::Cr3Read => (CR_RW, 3),
        Intercept::Cr4Read => (CR_RW, 4),
        Intercept::Cr8Read => (CR_RW, 8),
        Intercept::Cr0Write => (CR_RW, 16),
        Intercept::Cr2Write => (CR_RW, 18),
        Intercept::Cr3Write => (CR_RW, 19),
        Intercept::Cr4Write => (CR_RW, 20),
        Intercept::Cr8Write => (CR_RW, 24),
        Intercept::Dr0Read => (DR_RW, 0),
        Intercept::Dr1Read => (DR_RW, 1),
        Intercept::Dr2Read => (DR_RW, 2),
        Intercept::Dr3Read => (DR_RW, 3),
        Intercept::Dr6Read => (DR_RW, 6),
        Intercept::Dr7Read => (DR_RW, 7),
        Intercept::Dr0Write => (DR_RW, 16),
        Intercept::Dr1Write => (DR_RW, 17),
        Intercept::Dr2Write => (DR_RW, 18),
        Intercept::Dr3Write => (DR_RW, 19),
        Intercept::Dr6Write => (DR_RW, 22),
        Intercept::Dr7Write => (DR_RW, 23),
        Intercept::De => (EXC, 0),
        Intercept::Db => (EXC, 1),
        Intercept::Bp => (EXC, 3),
        Intercept::Of => (EXC, 4),
        Intercept::Br => (EXC, 5),
        Intercept::Ud => (EXC, 6),
        Intercept::Nm => (EXC, 7),
        Intercept::Df => (EXC, 8),
        Intercept::Ts => (EXC, 10),
        Intercept::Np => (EXC, 11),
        Intercept::Ss => (EXC, 12),
        Intercept::Gp => (EXC, 13),
        Intercept::Pf => (EXC, 14),
        Intercept::Mf => (EXC, 16),
        Intercept::Ac => (EXC, 17),
        Intercept::Mc => (EXC, 18),
        Intercept::Xf => (EXC, 19),
    }
}

impl Intercept {
    /// The encoding of this intercept: its group ORed with its bit number.
    pub fn encoding(&self) -> (r: usize)
        ensures
            r & !0xffusize == spec_intercept(*self).0,
            r & 0xff == spec_intercept(*self).1,
    {
        let (group, bit): (usize, usize) = match self {
            Intercept::Intr => (MISC_1, 0),
            Intercept::Nmi => (MISC_1, 1),
            Intercept::Smi => (MISC_1, 2),
            Intercept::Init => (MISC_1, 3),
            Intercept::Vintr => (MISC_1, 4),
            Intercept::IdtrRead => (MISC_1, 6),
            Intercept::GdtrRead => (MISC_1, 7),
            Intercept::LdtrRead => (MISC_1, 8),
            Intercept::TrRead => (MISC_1, 9),
            Intercept::IdtrWrite => (MISC_1, 10),
            Intercept::GdtrWrite => (MISC_1, 11),
            Intercept::LdtrWrite => (MISC_1, 12),
            Intercept::TrWrite => (MISC_1, 13),
            Intercept::Rdtsc => (MISC_1, 14),
            Intercept::Rdpmc => (MISC_1, 15),
            Intercept::Pushf => (MISC_1, 16),
            Intercept::Popf => (MISC_1, 17),
            Intercept::Cpuid => (MISC_1, 18),
            Intercept::Rsm => (MISC_1, 19),
            Intercept::Iret => (MISC_1, 20),
            Intercept::Int => (MISC_1, 21),
            Intercept::Invd => (MISC_1, 22),
            Intercept::Pause => (MISC_1, 23),
            Intercept::Hlt => (MISC_1, 24),
            Intercept::Invlpg => (MISC_1, 25),
            Intercept::Invlpga => (MISC_1, 26),
            Intercept::FerrFreeze => (MISC_1, 30),
            Intercept::Vmmcall => (MISC_2, 1),
            Intercept::Vmload => (MISC_2, 2),
            Intercept::Vmsave => (MISC_2, 3),
            Intercept::Stgi => (MISC_2, 4),
            Intercept::Clgi => (MISC_2, 5),
            Intercept::Skinit => (MISC_2, 6),
            Intercept::Rdtscp => (MISC_2, 7),
            Intercept::Icebp => (MISC_2, 8),
            Intercept::Wbindvd => (MISC_2, 9),
            Intercept::Monitor => (MISC_2, 10),
            Intercept::Mwait => (MISC_2, 11),
            Intercept::Xsetbv => (MISC_2, 13),
            Intercept::Rdpru => (MISC_2, 14),
            Intercept::Invlpgb => (MISC_3, 0),
            Intercept::IllegalInvlpgb => (MISC_3, 1),
            Intercept::Pcid => (MISC_3, 2),
            Intercept::Mcommit => (MISC_3, 3),
            Intercept::Cr0Read => (CR_RW, 0),
            Intercept::Cr2Read => (CR_RW, 2),
            Intercept::Cr3Read => (CR_RW, 3),
            Intercept::Cr4Read => (CR_RW, 4),
            Intercept::Cr8Read => (CR_RW, 8),
            Intercept::Cr0Write => (CR_RW, 16),
            Intercept::Cr2Write => (CR_RW, 18),
            Intercept::Cr3Write => (CR_RW, 19),
            Intercept::Cr4Write => (CR_RW, 20),
            Intercept::Cr8Write => (CR_RW, 24),
            Intercept::Dr0Read => (DR_RW, 0),
            Intercept::Dr1Read => (DR_RW, 1),
            Intercept::Dr2Read => (DR_RW, 2),
            Intercept::Dr3Read => (DR_RW, 3),
            Intercept::Dr6Read => (DR_RW, 6),
            Intercept::Dr7Read => (DR_RW, 7),
            Intercept::Dr0Write => (DR_RW, 16),
            Intercept::Dr1Write => (DR_RW, 17),
            Intercept::Dr2Write => (DR_RW, 18),
            Intercept::Dr3Write => (DR_RW, 19),
            Intercept::Dr6Write => (DR_RW, 22),
            Intercept::Dr7Write => (DR_RW, 23),
            Intercept::De => (EXC, 0),
            Intercept::Db => (EXC, 1),
            Intercept::Bp => (EXC, 3),
            Intercept::Of => (EXC, 4),
            Intercept::Br => (EXC, 5),
            Intercept::Ud => (EXC, 6),
            Intercept::Nm => (EXC, 7),
            Intercept::Df => (EXC, 8),
            Intercept::Ts => (EXC, 10),
            Intercept::Np => (EXC, 11),
            Intercept::Ss => (EXC, 12),
            Intercept::Gp => (EXC, 13),
            Intercept::Pf => (EXC, 14),
            Intercept::Mf => (EXC, 16),
            Intercept::Ac => (EXC, 17),
            Intercept::Mc => (EXC, 18),
            Intercept::Xf => (EXC, 19),
        };
        proof {
            assert(bit < 32 ==> (group | bit) & !0xffusize == group && (group | bit) & 0xffusize == bit)
                by (bit_vector)
                requires
                    group == 0x100usize || group == 0x200usize || group == 0x300usize || group
                        == 0x400usize || group == 0x500usize || group == 0x600usize,
            ;
        }
        group | bit
    }
}

#[derive(Copy, Clone, Debug, PartialEq, Eq, Structural)]
pub enum Interrupt {
    Intr,
    Nmi,
    Smi,
    Init,
    Vintr,
}

#[derive(Copy, Clone, Debug, PartialEq, Eq, Structural)]
pub enum Exception {
    De,
    Db,
    Bp,
    Of,
    Br,
    Ud,
    Nm,
    Df(u32),
    Ts(u32),
    Np(u32),
    Ss(u32),
    Gp(u32),
    Pf { address: VirtAddr, error_code: u32 },
    Mf,
    Ac(u32),
    Mc,
    Xf,
}

#[derive(Copy, Clone, Debug, PartialEq, Eq, Structural)]
pub enum AddressSize {
    Bits16,
    Bits32,
    Bits64,
}

#[derive(Copy, Clone, Debug, PartialEq, Eq, Structural)]
pub enum OperandSize {
    Bits8,
    Bits16,
    Bits32,
}

#[derive(Copy, Clone, Debug, PartialEq, Eq, Structural)]
pub struct IoString {
    pub address_size: AddressSize,
    pub rep: bool,
    pub segment: SegmentRegister,
}

/// Guest physical address.
#[derive(Copy, Clone, PartialEq, Eq, Structural, Debug)]
pub struct GuestAddr(pub u64);

#[derive(Copy, Clone, Debug, PartialEq, Eq, Structural)]
pub enum VmExit {
    NestedPageFault { address: GuestAddr, present: bool, write: bool, execute: bool },
    CrAccess { n: u8, write: bool },
    DrAccess { n: u8, write: bool },
    Interrupt(Interrupt),
    Exception(Exception),
    IdtrAccess { write: bool },
    GdtrAccess { write: bool },
    LdtrAccess { write: bool },
    TrAccess { write: bool },
    Msr { write: bool, msr: u32 },
    Io { write: bool, port: u16, operand_size: OperandSize, string: Option<IoString> },
    Rdtsc,
    Rdpmc,
    Pushf,
    Popf,
    Cpuid,
    Rsm,
    Iret,
    Int,
    Invd,
    Pause,
    Hlt,
    Invlpg,
    Invlpga,
    FerrFreeze,
    Shutdown,
    Vmrun,
    Vmmcall,
    Vmload,
    Vmsave,
    Stgi,
    Clgi,
    Skinit,
    Rdtscp,
    Icebp,
    Wbindvd,
    Monitor,
    Mwait,
    Rdpru,
    Xsetbv,
    Invlpgp,
    IllegalInvlpgp,
    Invpcid,
    Mcommit,
}

#[derive(Copy, Clone, Debug, PartialEq, Eq, Structural)]
pub enum Event {
    Intr(u8),
    Nmi,
    Exception(Exception),
    SoftwareInterrupt(u8),
}

// ----------------------------------------------------------------------------------------
// Event injection and intercepted event delivery.
// ----------------------------------------------------------------------------------------

/// Vector of an exception and its error code, if it has one.
pub open spec fn spec_exception_code(e: Exception) -> (u8, Option<u32>) {
    match e {
        Exception::De => (0, None),
        Exception::Db => (1, None),
        Exception::Bp => (3, None),
        Exception::Of => (4, None),
        Exception::Br => (5, None),
        Exception::Ud => (6, None),
        Exception::Nm => (7, None),
        Exception::Df(ec) => (8, Some(ec)),
        Exception::Ts(ec) => (10, Some(ec)),
        Exception::Np(ec) => (11, Some(ec)),
        Exception::Ss(ec) => (12, Some(ec)),
        Exception::Gp(ec) => (13, Some(ec)),
        Exception::Pf { address, error_code } => (14, Some(error_code)),
        Exception::Mf => (16, None),
        Exception::Ac(ec) => (17, Some(ec)),
        Exception::Mc => (18, None),
        Exception::Xf => (19, None),
    }
}

/// Event type, error code and vector of an event.
pub open spec fn spec_event_code(ev: Event) -> (u64, Option<u32>, u8) {
    match ev {
        Event::Intr(vector) => (0, None, vector),
        Event::Nmi => (2, None, 2),
        Event::SoftwareInterrupt(vector) => (4, None, vector),
        Event::Exception(e) => (3, spec_exception_code(e).1, spec_exception_code(e).0),
    }
}

/// The EVENTINJ value that delivers `ev`: vector in bits 0-7, type in bits 8-10, the valid
/// bit 31 and, with an error code, bit 11 and the code in bits 32-63.
pub open spec fn spec_injection(ev: Event) -> u64 {
    let (typ, error_code, vector) = spec_event_code(ev);
    let base = ((vector as u64) & 0xff) | ((typ & 0b111) << 8u64) | (1u64 << 31u64);
    match error_code {
        Some(ec) => base | ((ec as u64) << 32u64) | (1u64 << 11u64),
        None => base,
    }
}

/// Vector, type and error code of an event information value.
pub open spec fn info_vector(info: u64) -> u8 {
    (info & 0xff) as u8
}

pub open spec fn info_type(info: u64) -> u64 {
    (info >> 8u64) & 0b111
}

pub open spec fn info_error_code(info: u64) -> Option<u32> {
    if info & (1u64 << 11u64) != 0 {
        Some((info >> 32u64) as u32)
    } else {
        None
    }
}

/// The exception with vector `vector`, if there is one; those that push an error code only
/// when `ec` holds one.
pub open spec fn spec_exception(vector: u8, ec: Option<u32>, cr2: u64) -> Option<Exception> {
    let has = ec is Some;
    let c = ec.unwrap();
    if vector == 0 {
        Some(Exception::De)
    } else if vector == 1 {
        Some(Exception::Db)
    } else if vector == 3 {
        Some(Exception::Bp)
    } else if vector == 4 {
        Some(Exception::Of)
    } else if vector == 5 {
        Some(Exception::Br)
    } else if vector == 6 {
        Some(Exception::Ud)
    } else if vector == 7 {
        Some(Exception::Nm)
    } else if vector == 8 && has {
        Some(Exception::Df(c))
    } else if vector == 10 && has {
        Some(Exception::Ts(c))
    } else if vector == 11 && has {
        Some(Exception::Np(c))
    } else if vector == 12 && has {
        Some(Exception::Ss(c))
    } else if vector == 13 && has {
        Some(Exception::Gp(c))
    } else if vector == 14 && has {
        Some(Exception::Pf { address: VirtAddr(cr2), error_code: c })
    } else if vector == 16 {
        Some(Exception::Mf)
    } else if vector == 17 && has {
        Some(Exception::Ac(c))
    } else if vector == 18 {
        Some(Exception::Mc)
    } else if vector == 19 {
        Some(Exception::Xf)
    } else {
        None
    }
}

/// The event described by the valid event information value `info` (EXITINTINFO); `None`
/// when `info` describes something that is not a deliverable event.
pub open spec fn spec_event(info: u64, cr2: u64) -> Option<Event> {
    let typ = info_type(info);
    let vector = info_vector(info);
    let ec = info_error_code(info);
    if typ == 0 && ec is None {
        Some(Event::Intr(vector))
    } else if typ == 2 && ec is None {
        Some(Event::Nmi)
    } else if typ == 4 && ec is None {
        Some(Event::SoftwareInterrupt(vector))
    } else if typ == 3 {
        match spec_exception(vector, ec, cr2) {
            Some(e) => Some(Event::Exception(e)),
            None => None,
        }
    } else {
        None
    }
}

/// Decode the event in the event information value `info` whose valid bit is set. `cr2`
/// gives the address of a page fault.
pub fn decode_event(info: u64, cr2: u64) -> (r: Event)
    requires
        spec_event(info, cr2) is Some,
    ensures
        spec_event(info, cr2) == Some(r),
{
    let typ = ((info >> 8) & 0b111) as u8;
    let vector = ((info >> 0) & 0xff) as u8;

    let error_code = if info & (1 << 11) != 0 {
        Some((info >> 32) as u32)
    } else {
        None
    };
    proof {
        assert((info >> 0u64) & 0xff == info & 0xff && (info >> 8u64) & 0b111 < 8) by (bit_vector);
    }

    match typ {
        0 => Event::Intr(vector),
        2 => Event::Nmi,
        3 => {
            let exception = match vector {
                0 => Exception::De,
                1 => Exception::Db,
                3 => Exception::Bp,
                4 => Exception::Of,
                5 => Exception::Br,
                6 => Exception::Ud,
                7 => Exception::Nm,
                8 => Exception::Df(error_code.unwrap()),
                10 => Exception::Ts(error_code.unwrap()),
                11 => Exception::Np(error_code.unwrap()),
                12 => Exception::Ss(error_code.unwrap()),
                13 => Exception::Gp(error_code.unwrap()),
                14 => Exception::Pf { address: VirtAddr(cr2), error_code: error_code.unwrap() },
                16 => Exception::Mf,
                17 => Exception::Ac(error_code.unwrap()),
                18 => Exception::Mc,
                _ => Exception::Xf,
            };
            Event::Exception(exception)
        },
        _ => Event::SoftwareInterrupt(vector),
    }
}

/// Encode `event` for injection: the EVENTINJ value and, for a page fault, the CR2 value
/// that the guest must see.
pub fn encode_event(event: Event) -> (r: (u64, Option<u64>))
    ensures
        r.0 == spec_injection(event),
        r.1 == (match event {
            Event::Exception(Exception::Pf { address, error_code }) => Some(address.0),
            _ => None::<u64>,
        }),
{
    let mut cr2: Option<u64> = None;
    let (typ, error_code, vector): (u64, Option<u32>, u8) = match event {
        Event::Intr(vector) => (0, None, vector),
        Event::Nmi => (2, None, 2),
        Event::SoftwareInterrupt(vector) => (4, None, vector),
        Event::Exception(exception) => {
            let (vector, error_code): (u8, Option<u32>) = match exception {
                Exception::De => (0, None),
                Exception::Db => (1, None),
                Exception::Bp => (3, None),
                Exception::Of => (4, None),
                Exception::Br => (5, None),
                Exception::Ud => (6, None),
                Exception::Nm => (7, None),
                Exception::Df(ec) => (8, Some(ec)),
                Exception::Ts(ec) => (10, Some(ec)),
                Exception::Np(ec) => (11, Some(ec)),
                Exception::Ss(ec) => (12, Some(ec)),
                Exception::Gp(ec) => (13, Some(ec)),
                Exception::Pf { address, error_code } => {
                    cr2 = Some(address.0);
                    (14, Some(error_code))
                },
                Exception::Mf => (16, None),
                Exception::Ac(ec) => (17, Some(ec)),
                Exception::Mc => (18, None),
                Exception::Xf => (19, None),
            };

            (3, error_code, vector)
        },
    };

    let mut injection: u64 = 0;

    injection |= (vector as u64 & 0xff) << 0;
    injection |= (typ & 0b111) << 8;
    injection |= 1 << 31;

    if let Some(error_code) = error_code {
        injection |= (error_code as u64) << 32;
        injection |= 1 << 11;
    }
    proof {
        let v = vector as u64;
        assert(0u64 | ((v & 0xff) << 0u64) == v & 0xff) by (bit_vector);
    }

    (injection, cr2)
}

/// Where the vector, the type and the error code stand in an injection word.
proof fn lemma_injection_bits(vector: u8, typ: u64, ec: u32, base: u64, full: u64)
    by (bit_vector)
    requires
        typ < 8,
        base == ((vector as u64) & 0xff) | ((typ & 0b111) << 8u64) | (1u64 << 31u64),
        full == base | ((ec as u64) << 32u64) | (1u64 << 11u64),
    ensures
        (base & 0xff) as u8 == vector,
        (base >> 8u64) & 0b111 == typ,
        base & (1u64 << 11u64) == 0,
        base & (1u64 << 31u64) != 0,
        (full & 0xff) as u8 == vector,
        (full >> 8u64) & 0b111 == typ,
        full & (1u64 << 11u64) != 0,
        ((full >> 32u64) as u32) == ec,
        full & (1u64 << 31u64) != 0,
{
}

/// Injecting an event and reading it back as an intercepted delivery gives the same event
/// (a page fault reads its address from CR2, which the injection sets).
pub proof fn lemma_event_roundtrip(ev: Event)
    ensures
        spec_event(
            spec_injection(ev),
            match ev {
                Event::Exception(Exception::Pf { address, error_code }) => address.0,
                _ => 0,
            },
        ) == Some(ev),
        spec_injection(ev) & (1u64 << 31u64) != 0,
{
    let (typ, error_code, vector) = spec_event_code(ev);
    let inj = spec_injection(ev);
    let v = vector as u64;
    let base = (v & 0xff) | ((typ & 0b111) << 8u64) | (1u64 << 31u64);
    assert(typ < 8);
    let ec = match error_code {
        Some(e) => e,
        None => 0u32,
    };
    let full = base | ((ec as u64) << 32u64) | (1u64 << 11u64);
    lemma_injection_bits(vector, typ, ec, base, full);
}

/// An intercepted delivery of an injected event reads back as that event, whatever CR2
/// holds but for a page fault, whose address `inject_event` puts in CR2.
pub proof fn lemma_inject_then_deliver(ev: Event, cr2: u64)
    requires
        ev matches Event::Exception(Exception::Pf { address, error_code }) ==> cr2 == address.0,
    ensures
        spec_injection(ev) & (1u64 << 31u64) != 0,
        spec_event(spec_injection(ev), cr2) == Some(ev),
{
    lemma_event_roundtrip(ev);
}

// ----------------------------------------------------------------------------------------
// VM exits.
// ----------------------------------------------------------------------------------------

/// The exception reported by an exception intercept for `vector` (EXITINFO1 holds the
/// error code and EXITINFO2 the faulting address of a page fault).
pub open spec fn spec_exit_exception(vector: u64, info1: u64, info2: u64) -> Option<Exception> {
    let ec = info1 as u32;
    if vector == 0 {
        Some(Exception::De)
    } else if vector == 1 {
        Some(Exception::Db)
    } else if vector == 3 {
        Some(Exception::Bp)
    } else if vector == 4 {
        Some(Exception::Of)
    } else if vector == 5 {
        Some(Exception::Br)
    } else if vector == 6 {
        Some(Exception::Ud)
    } else if vector == 7 {
        Some(Exception::Nm)
    } else if vector == 8 {
        Some(Exception::Df(0))
    } else if vector == 10 {
        Some(Exception::Ts(ec & 0xffff))
    } else if vector == 11 {
        Some(Exception::Np(ec))
    } else if vector == 12 {
        Some(Exception::Ss(ec))
    } else if vector == 13 {
        Some(Exception::Gp(ec))
    } else if vector == 14 {
        Some(Exception::Pf { address: VirtAddr(info2), error_code: ec })
    } else if vector == 16 {
        Some(Exception::Mf)
    } else if vector == 17 {
        Some(Exception::Ac(ec))
    } else if vector == 18 {
        Some(Exception::Mc)
    } else if vector == 19 {
        Some(Exception::Xf)
    } else {
        None
    }
}

/// Operand size of an IO intercept (EXITINFO1 bits 4 to 6).
pub open spec fn spec_io_operand_size(info1: u64) -> Option<OperandSize> {
    if info1 & (1u64 << 4u64) != 0 {
        Some(OperandSize::Bits8)
    } else if info1 & (1u64 << 5u64) != 0 {
        Some(OperandSize::Bits16)
    } else if info1 & (1u64 << 6u64) != 0 {
        Some(OperandSize::Bits32)
    } else {
        None
    }
}

/// Address size of a string IO intercept (EXITINFO1 bits 7 to 9).
pub open spec fn spec_io_address_size(info1: u64) -> Option<AddressSize> {
    if info1 & (1u64 << 7u64) != 0 {
        Some(AddressSize::Bits16)
    } else if info1 & (1u64 << 8u64) != 0 {
        Some(AddressSize::Bits32)
    } else if info1 & (1u64 << 9u64) != 0 {
        Some(AddressSize::Bits64)
    } else {
        None
    }
}

/// Effective segment of a string IO intercept (EXITINFO1 bits 10 to 12).
pub open spec fn spec_io_segment(info1: u64) -> Option<SegmentRegister> {
    let s = (info1 >> 10u64) & 0b111;
    if s == 0 {
        Some(SegmentRegister::Es)
    } else if s == 1 {
        Some(SegmentRegister::Cs)
    } else if s == 2 {
        Some(SegmentRegister::Ss)
    } else if s == 3 {
        Some(SegmentRegister::Ds)
    } else if s == 4 {
        Some(SegmentRegister::Fs)
    } else if s == 5 {
        Some(SegmentRegister::Gs)
    } else {
        None
    }
}

/// The IO intercept described by EXITINFO1, if it is well formed.
pub open spec fn spec_io_exit(info1: u64) -> Option<VmExit> {
    match spec_io_operand_size(info1) {
        None => None,
        Some(operand_size) => {
            let write = info1 & 1 == 0;
            let port = (info1 >> 16u64) as u16;
            if info1 & (1u64 << 2u64) != 0 {
                match (spec_io_address_size(info1), spec_io_segment(info1)) {
                    (Some(address_size), Some(segment)) => Some(
                        VmExit::Io {
                            write,
                            port,
                            operand_size,
                            string: Some(
                                IoString { rep: info1 & (1u64 << 3u64) != 0, address_size, segment },
                            ),
                        },
                    ),
                    _ => None,
                }
            } else {
                Some(VmExit::Io { write, port, operand_size, string: None })
            }
        },
    }
}

/// The VM exit described by the exit code and exit information of the VMCB (`rcx` is the
/// guest RCX, which names the MSR of an MSR intercept). `None` for exit codes that cannot
/// happen with the intercepts this VM enables, and for malformed exit information.
pub open spec fn spec_vmexit(code: u64, info1: u64, info2: u64, rcx: u64) -> Option<VmExit> {
    if code <= 0x0f {
        Some(VmExit::CrAccess { n: code as u8, write: false })
    } else if 0x10 <= code <= 0x1f {
        Some(VmExit::CrAccess { n: (code - 0x10) as u8, write: true })
    } else if 0x20 <= code <= 0x2f {
        Some(VmExit::DrAccess { n: (code - 0x20) as u8, write: false })
    } else if 0x30 <= code <= 0x3f {
        Some(VmExit::DrAccess { n: (code - 0x30) as u8, write: true })
    } else if 0x40 <= code <= 0x5f {
        match spec_exit_exception((code - 0x40) as u64, info1, info2) {
            Some(e) => Some(VmExit::Exception(e)),
            None => None,
        }
    } else if code == 0x60 {
        Some(VmExit::Interrupt(Interrupt::Intr))
    } else if code == 0x61 {
        Some(VmExit::Interrupt(Interrupt::Nmi))
    } else if code == 0x62 {
        Some(VmExit::Interrupt(Interrupt::Smi))
    } else if code == 0x63 {
        Some(VmExit::Interrupt(Interrupt::Init))
    } else if code == 0x64 {
        Some(VmExit::Interrupt(Interrupt::Vintr))
    } else if code == 0x66 {
        Some(VmExit::IdtrAccess { write: false })
    } else if code == 0x67 {
        Some(VmExit::GdtrAccess { write: false })
    } else if code == 0x68 {
        Some(VmExit::LdtrAccess { write: false })
    } else if code == 0x69 {
        Some(VmExit::TrAccess { write: false })
    } else if code == 0x6a {
        Some(VmExit::IdtrAccess { write: true })
    } else if code == 0x6b {
        Some(VmExit::GdtrAccess { write: true })
    } else if code == 0x6c {
        Some(VmExit::LdtrAccess { write: true })
    } else if code == 0x6d {
        Some(VmExit::TrAccess { write: true })
    } else if code == 0x6e {
        Some(VmExit::Rdtsc)
    } else if code == 0x6f {
        Some(VmExit::Rdpmc)
    } else if code == 0x70 {
        Some(VmExit::Pushf)
    } else if code == 0x71 {
        Some(VmExit::Popf)
    } else if code == 0x72 {
        Some(VmExit::Cpuid)
    } else if code == 0x73 {
        Some(VmExit::Rsm)
    } else if code == 0x74 {
        Some(VmExit::Iret)
    } else if code == 0x75 {
        Some(VmExit::Int)
    } else if code == 0x76 {
        Some(VmExit::Invd)
    } else if code == 0x77 {
        Some(VmExit::Pause)
    } else if code == 0x78 {
        Some(VmExit::Hlt)
    } else if code == 0x79 {
        Some(VmExit::Invlpg)
    } else if code == 0x7a {
        Some(VmExit::Invlpga)
    } else if code == 0x7e {
        Some(VmExit::FerrFreeze)
    } else if code == 0x7f {
        Some(VmExit::Shutdown)
    } else if code == 0x80 {
        Some(VmExit::Vmrun)
    } else if code == 0x81 {
        Some(VmExit::Vmmcall)
    } else if code == 0x82 {
        Some(VmExit::Vmload)
    } else if code == 0x83 {
        Some(VmExit::Vmsave)
    } else if code == 0x84 {
        Some(VmExit::Stgi)
    } else if code == 0x85 {
        Some(VmExit::Clgi)
    } else if code == 0x86 {
        Some(VmExit::Skinit)
    } else if code == 0x87 {
        Some(VmExit::Rdtscp)
    } else if code == 0x88 {
        Some(VmExit::Icebp)
    } else if code == 0x89 {
        Some(VmExit::Wbindvd)
    } else if code == 0x8a {
        Some(VmExit::Monitor)
    } else if code == 0x8b {
        Some(VmExit::Mwait)
    } else if code == 0x8e {
        Some(VmExit::Rdpru)
    } else if code == 0x8d {
        Some(VmExit::Xsetbv)
    } else if code == 0xa0 {
        Some(VmExit::Invlpgp)
    } else if code == 0xa1 {
        Some(VmExit::IllegalInvlpgp)
    } else if code == 0xa2 {
        Some(VmExit::Invpcid)
    } else if code == 0xa3 {
        Some(VmExit::Mcommit)
    } else if code == 0x7b {
        spec_io_exit(info1)
    } else if code == 0x7c {
        Some(VmExit::Msr { msr: rcx as u32, write: info1 == 1 })
    } else if code == 0x400 && info1 & (1u64 << 3u64) == 0 {
        Some(
            VmExit::NestedPageFault {
                address: GuestAddr(info2),
                present: info1 & 1 != 0,
                write: info1 & (1u64 << 1u64) != 0,
                execute: info1 & (1u64 << 4u64) != 0,
            },
        )
    } else {
        None
    }
}

/// Decode the IO intercept information.
fn decode_io_exit(exit_info_1: u64) -> (r: VmExit)
    requires
        spec_io_exit(exit_info_1) is Some,
    ensures
        spec_io_exit(exit_info_1) == Some(r),
{
    let operand_size = if exit_info_1 & (1 << 4) != 0 {
        OperandSize::Bits8
    } else if exit_info_1 & (1 << 5) != 0 {
        OperandSize::Bits16
    } else {
        OperandSize::Bits32
    };

    let string = if exit_info_1 & (1 << 2) != 0 {
        let address_size = if exit_info_1 & (1 << 7) != 0 {
            AddressSize::Bits16
        } else if exit_info_1 & (1 << 8) != 0 {
            AddressSize::Bits32
        } else {
            AddressSize::Bits64
        };

        let rep = exit_info_1 & (1 << 3) != 0;
        let segment = match (exit_info_1 >> 10) & 0b111 {
            0 => SegmentRegister::Es,
            1 => SegmentRegister::Cs,
            2 => SegmentRegister::Ss,
            3 => SegmentRegister::Ds,
            4 => SegmentRegister::Fs,
            _ => SegmentRegister::Gs,
        };

        Some(IoString { rep, address_size, segment })
    } else {
        None
    };

    VmExit::Io { write: exit_info_1 & 1 == 0, port: (exit_info_1 >> 16) as u16, operand_size, string }
}

/// Decode a VM exit from the exit code and exit information of the VMCB.
pub fn decode_exit(exit_code: u64, exit_info_1: u64, exit_info_2: u64, rcx: u64) -> (r: VmExit)
    requires
        spec_vmexit(exit_code, exit_info_1, exit_info_2, rcx) is Some,
    ensures
        spec_vmexit(exit_code, exit_info_1, exit_info_2, rcx) == Some(r),
{
    match exit_code {
        0x00..=0x0f => VmExit::CrAccess { n: exit_code as u8, write: false },
        0x10..=0x1f => VmExit::CrAccess { n: (exit_code - 0x10) as u8, write: true },
        0x20..=0x2f => VmExit::DrAccess { n: (exit_code - 0x20) as u8, write: false },
        0x30..=0x3f => VmExit::DrAccess { n: (exit_code - 0x30) as u8, write: true },
        0x40..=0x5f => {
            let vector = exit_code - 0x40;
            let error_code = exit_info_1 as u32;
            let exception = match vector {
                0 => Exception::De,
                1 => Exception::Db,
                3 => Exception::Bp,
                4 => Exception::Of,
                5 => Exception::Br,
                6 => Exception::Ud,
                7 => Exception::Nm,
                8 => Exception::Df(0),
                10 => Exception::Ts(error_code & 0xffff),
                11 => Exception::Np(error_code),
                12 => Exception::Ss(error_code),
                13 => Exception::Gp(error_code),
                14 => Exception::Pf { address: VirtAddr(exit_info_2), error_code },
                16 => Exception::Mf,
                17 => Exception::Ac(error_code),
                18 => Exception::Mc,
                _ => Exception::Xf,
            };

            VmExit::Exception(exception)
        },
        0x60 => VmExit::Interrupt(Interrupt::Intr),
        0x61 => VmExit::Interrupt(Interrupt::Nmi),
        0x62 => VmExit::Interrupt(Interrupt::Smi),
        0x63 => VmExit::Interrupt(Interrupt::Init),
        0x64 => VmExit::Interrupt(Interrupt::Vintr),
        0x66 => VmExit::IdtrAccess { write: false },
        0x67 => VmExit::GdtrAccess { write: false },
        0x68 => VmExit::LdtrAccess { write: false },
        0x69 => VmExit::TrAccess { write: false },
        0x6a => VmExit::IdtrAccess { write: true },
        0x6b => VmExit::GdtrAccess { write: true },
        0x6c => VmExit::LdtrAccess { write: true },
        0x6d => VmExit::TrAccess { write: true },
        0x6e => VmExit::Rdtsc,
        0x6f => VmExit::Rdpmc,
        0x70 => VmExit::Pushf,
        0x71 => VmExit::Popf,
        0x72 => VmExit::Cpuid,
        0x73 => VmExit::Rsm,
        0x74 => VmExit::Iret,
        0x75 => VmExit::Int,
        0x76 => VmExit::Invd,
        0x77 => VmExit::Pause,
        0x78 => VmExit::Hlt,
        0x79 => VmExit::Invlpg,
        0x7a => VmExit::Invlpga,
        0x7e => VmExit::FerrFreeze,
        0x7f => VmExit::Shutdown,
        0x80 => VmExit::Vmrun,
        0x81 => VmExit::Vmmcall,
        0x82 => VmExit::Vmload,
        0x83 => VmExit::Vmsave,
        0x84 => VmExit::Stgi,
        0x85 => VmExit::Clgi,
        0x86 => VmExit::Skinit,
        0x87 => VmExit::Rdtscp,
        0x88 => VmExit::Icebp,
        0x89 => VmExit::Wbindvd,
        0x8a => VmExit::Monitor,
        0x8b => VmExit::Mwait,
        0x8e => VmExit::Rdpru,
        0x8d => VmExit::Xsetbv,
        0xa0 => VmExit::Invlpgp,
        0xa1 => VmExit::IllegalInvlpgp,
        0xa2 => VmExit::Invpcid,
        0xa3 => VmExit::Mcommit,
        0x7b => decode_io_exit(exit_info_1),
        0x7c => VmExit::Msr { msr: rcx as u32, write: exit_info_1 == 1 },
        _ => {
            let address = GuestAddr(exit_info_2);
            let present = exit_info_1 & 1 != 0;
            let write = exit_info_1 & (1 << 1) != 0;
            let execute = exit_info_1 & (1 << 4) != 0;

            VmExit::NestedPageFault { address, present, write, execute }
        },
    }
}

// ----------------------------------------------------------------------------------------
// The virtual machine.
// ----------------------------------------------------------------------------------------

/// Clean bits of the VMCB: each one covers a part of the VMCB the CPU may cache.
pub const CLEAN_INTERCEPTS_AND_TSC: u32 = 0;
pub const CLEAN_NP: u32 = 4;
pub const CLEAN_CR: u32 = 5;
pub const CLEAN_DR: u32 = 6;
pub const CLEAN_DT: u32 = 7;
pub const CLEAN_SEG: u32 = 8;
pub const CLEAN_CR2: u32 = 9;

/// Size in bytes of the MSR permission bitmap.
pub const MSRPM_SIZE: usize = 8192;

/// Size in bytes of the IO permission bitmap.
pub const IOPM_SIZE: usize = 12288;

/// Value of a register kept in the VMCB state save area.
pub open spec fn spec_vmcb_reg(v: Vmcb, r: Register) -> u64 {
    let s = v.state;
    match r {
        Register::Efer => s.efer,
        Register::Cr0 => s.cr0,
        Register::Cr2 => s.cr2,
        Register::Cr3 => s.cr3,
        Register::Cr4 => s.cr4,
        Register::Dr6 => s.dr6,
        Register::Dr7 => s.dr7,
        Register::Star => s.star,
        Register::Lstar => s.lstar,
        Register::Cstar => s.cstar,
        Register::Sfmask => s.sfmask,
        Register::KernelGsBase => s.kernel_gs_base,
        Register::SysenterCs => s.sysenter_cs,
        Register::SysenterEsp => s.sysenter_esp,
        Register::SysenterEip => s.sysenter_eip,
        Register::Pat => s.g_pat,
        _ => 0,
    }
}

/// Value of register `r` given the VMCB and the guest register cache.
pub open spec fn spec_reg(v: Vmcb, regs: Seq<u64>, r: Register) -> u64 {
    match spec_gpr_index(r) {
        Some(i) => regs[i],
        None => spec_vmcb_reg(v, r),
    }
}

/// The VMCB with the VMCB register `r` set to `value`.
pub open spec fn spec_with_vmcb_reg(v: Vmcb, r: Register, value: u64) -> Vmcb {
    match r {
        Register::Efer => Vmcb { state: VmcbStateSaveArea { efer: value, ..v.state }, ..v },
        Register::Cr0 => Vmcb { state: VmcbStateSaveArea { cr0: value, ..v.state }, ..v },
        Register::Cr2 => Vmcb { state: VmcbStateSaveArea { cr2: value, ..v.state }, ..v },
        Register::Cr3 => Vmcb { state: VmcbStateSaveArea { cr3: value, ..v.state }, ..v },
        Register::Cr4 => Vmcb { state: VmcbStateSaveArea { cr4: value, ..v.state }, ..v },
        Register::Dr6 => Vmcb { state: VmcbStateSaveArea { dr6: value, ..v.state }, ..v },
        Register::Dr7 => Vmcb { state: VmcbStateSaveArea { dr7: value, ..v.state }, ..v },
        Register::Star => Vmcb { state: VmcbStateSaveArea { star: value, ..v.state }, ..v },
        Register::Lstar => Vmcb { state: VmcbStateSaveArea { lstar: value, ..v.state }, ..v },
        Register::Cstar => Vmcb { state: VmcbStateSaveArea { cstar: value, ..v.state }, ..v },
        Register::Sfmask => Vmcb { state: VmcbStateSaveArea { sfmask: value, ..v.state }, ..v },
        Register::KernelGsBase => Vmcb { state: VmcbStateSaveArea { kernel_gs_base: value, ..v.state }, ..v },
        Register::SysenterCs => Vmcb { state: VmcbStateSaveArea { sysenter_cs: value, ..v.state }, ..v },
        Register::SysenterEsp => Vmcb { state: VmcbStateSaveArea { sysenter_esp: value, ..v.state }, ..v },
        Register::SysenterEip => Vmcb { state: VmcbStateSaveArea { sysenter_eip: value, ..v.state }, ..v },
        Register::Pat => Vmcb { state: VmcbStateSaveArea { g_pat: value, ..v.state }, ..v },
        _ => v,
    }
}

/// Clean bit that covers register `r` in the VMCB.
pub open spec fn spec_clean_bit(r: Register) -> Option<u32> {
    match r {
        Register::Efer => Some(CLEAN_CR),
        Register::Cr0 => Some(CLEAN_CR),
        Register::Cr2 => Some(CLEAN_CR2),
        Register::Cr3 => Some(CLEAN_CR),
        Register::Cr4 => Some(CLEAN_CR),
        Register::Dr6 => Some(CLEAN_DR),
        Register::Dr7 => Some(CLEAN_DR),
        Register::Star => None,
        Register::Lstar => None,
        Register::Cstar => None,
        Register::Sfmask => None,
        Register::KernelGsBase => None,
        Register::SysenterCs => None,
        Register::SysenterEsp => None,
        Register::SysenterEip => None,
        Register::Pat => Some(CLEAN_NP),
        _ => None,
    }
}

/// Bits of register `r` whose change alters the guest paging mode, requiring a TLB flush.
pub open spec fn spec_flush_mask(r: Register) -> Option<u64> {
    match r {
        Register::Efer => Some(0xd00u64),
        Register::Cr0 => Some(0xe001_0000u64),
        Register::Cr2 => None,
        Register::Cr3 => Some(0xffff_ffff_ffff_ffffu64),
        Register::Cr4 => Some(0xb0u64),
        Register::Dr6 => None,
        Register::Dr7 => None,
        Register::Star => None,
        Register::Lstar => None,
        Register::Cstar => None,
        Register::Sfmask => None,
        Register::KernelGsBase => None,
        Register::SysenterCs => None,
        Register::SysenterEsp => None,
        Register::SysenterEip => None,
        Register::Pat => None,
        _ => None,
    }
}

/// The VMCB after the part covered by clean bit `bit` is marked modified (only when the CPU
/// supports VMCB clean bits).
pub open spec fn spec_dirty(v: Vmcb, clean_supported: bool, bit: u32) -> Vmcb {
    if clean_supported {
        Vmcb { control: VmcbControlArea { vmcb_clean: v.control.vmcb_clean & !(1u64 << bit), ..v.control }, ..v }
    } else {
        v
    }
}

/// The VMCB after register `r` (kept in the VMCB) is set to `value`: the register changes,
/// its clean bit is cleared, and a TLB flush is requested when paging relevant bits change.
pub open spec fn spec_set_vmcb_reg(v: Vmcb, clean_supported: bool, flush_value: u32, r: Register, value: u64) -> Vmcb {
    let before = spec_vmcb_reg(v, r);
    let v1 = spec_with_vmcb_reg(v, r, value);
    let v2 = match spec_clean_bit(r) {
        Some(b) => spec_dirty(v1, clean_supported, b),
        None => v1,
    };
    match spec_flush_mask(r) {
        Some(m) => if before & m != value & m {
            Vmcb { control: VmcbControlArea { tlb_control: flush_value, ..v2.control }, ..v2 }
        } else {
            v2
        },
        None => v2,
    }
}

/// The VMCB descriptor of segment register `r`.
pub open spec fn spec_segment_desc(s: VmcbStateSaveArea, r: SegmentRegister) -> VmcbSegmentDescriptor {
    match r {
        SegmentRegister::Es => s.es,
        SegmentRegister::Cs => s.cs,
        SegmentRegister::Ss => s.ss,
        SegmentRegister::Ds => s.ds,
        SegmentRegister::Fs => s.fs,
        SegmentRegister::Gs => s.gs,
        SegmentRegister::Ldt => s.ldtr,
        SegmentRegister::Tr => s.tr,
    }
}

/// The state save area with the descriptor of segment register `r` replaced.
pub open spec fn spec_with_segment(s: VmcbStateSaveArea, r: SegmentRegister, d: VmcbSegmentDescriptor) -> VmcbStateSaveArea {
    match r {
        SegmentRegister::Es => VmcbStateSaveArea { es: d, ..s },
        SegmentRegister::Cs => VmcbStateSaveArea { cs: d, ..s },
        SegmentRegister::Ss => VmcbStateSaveArea { ss: d, ..s },
        SegmentRegister::Ds => VmcbStateSaveArea { ds: d, ..s },
        SegmentRegister::Fs => VmcbStateSaveArea { fs: d, ..s },
        SegmentRegister::Gs => VmcbStateSaveArea { gs: d, ..s },
        SegmentRegister::Ldt => VmcbStateSaveArea { ldtr: d, ..s },
        SegmentRegister::Tr => VmcbStateSaveArea { tr: d, ..s },
    }
}

/// The segment and descriptor table registers of `a` and `b` are the same.
pub open spec fn same_descriptors(a: VmcbStateSaveArea, b: VmcbStateSaveArea) -> bool {
    &&& a.es == b.es
    &&& a.cs == b.cs
    &&& a.ss == b.ss
    &&& a.ds == b.ds
    &&& a.fs == b.fs
    &&& a.gs == b.gs
    &&& a.ldtr == b.ldtr
    &&& a.tr == b.tr
    &&& a.idtr == b.idtr
    &&& a.gdtr == b.gdtr
    &&& a.cpl == b.cpl
}

/// The VMCB descriptor that holds `segment`.
pub open spec fn spec_descriptor(segment: Segment) -> VmcbSegmentDescriptor {
    VmcbSegmentDescriptor {
        selector: segment.selector,
        attrib: segment.attrib,
        limit: segment.limit,
        base: segment.base,
    }
}

/// Privilege level of a code segment: the larger of the selector's RPL and the
/// descriptor's DPL.
pub open spec fn spec_cpl(segment: Segment) -> u8 {
    let rpl = (segment.selector & 3) as u8;
    let dpl = ((segment.attrib >> 5u16) & 3) as u8;
    if rpl > dpl { rpl } else { dpl }
}

/// Mask of the intercept bits of group `g` named in `s`.
pub open spec fn group_mask(s: Seq<Intercept>, g: usize) -> u32
    decreases s.len(),
{
    if s.len() == 0 {
        0
    } else {
        let m = group_mask(s.drop_last(), g);
        if spec_intercept(s.last()).0 == g {
            m | (1u32 << spec_intercept(s.last()).1)
        } else {
            m
        }
    }
}

/// `field` with the bits of `mask` set (`enable`) or cleared.
pub open spec fn apply_mask(field: u32, mask: u32, enable: bool) -> u32 {
    if enable {
        field | mask
    } else {
        field & !mask
    }
}

/// Bit `b` of `x` is set.
pub open spec fn bit32(x: u32, b: u32) -> bool {
    (x >> b) & 1 == 1
}

/// How single bits of an or, of a cleared mask and of a set bit come out.
proof fn lemma_mask_bits(m: u32, f: u32, b: u32, c: u32)
    requires
        b < 32,
        c < 32,
    ensures
        bit32(m | (1u32 << c), b) == (b == c || bit32(m, b)),
        !bit32(0, b),
        bit32(f | m, b) == (bit32(m, b) || bit32(f, b)),
        bit32(f & !m, b) == (!bit32(m, b) && bit32(f, b)),
{
    assert((((m | (1u32 << c)) >> b) & 1 == 1) == (b == c || (m >> b) & 1 == 1) && (0u32 >> b) & 1
        != 1 && (((f | m) >> b) & 1 == 1) == ((m >> b) & 1 == 1 || (f >> b) & 1 == 1) && (((f & !m)
        >> b) & 1 == 1) == ((m >> b) & 1 != 1 && (f >> b) & 1 == 1)) by (bit_vector)
        requires
            b < 32,
            c < 32,
    ;
}

/// Bit `b` of the mask of group `g` is set exactly when `s` names the intercept at that
/// bit of the group.
proof fn lemma_group_mask_bit(s: Seq<Intercept>, g: usize, b: u32)
    requires
        b < 32,
    ensures
        bit32(group_mask(s, g), b) == exists|i: int|
            0 <= i < s.len() && #[trigger] spec_intercept(s[i]) == (g, b),
    decreases s.len(),
{
    if s.len() == 0 {
        lemma_mask_bits(0, 0, b, 0);
    } else {
        let d = s.drop_last();
        lemma_group_mask_bit(d, g, b);
        let (lg, lb) = spec_intercept(s.last());
        assert(lb < 32);
        lemma_mask_bits(group_mask(d, g), 0, b, lb);
        if exists|i: int| 0 <= i < d.len() && #[trigger] spec_intercept(d[i]) == (g, b) {
            let i = choose|i: int| 0 <= i < d.len() && #[trigger] spec_intercept(d[i]) == (g, b);
            assert(s[i] == d[i]);
            assert(spec_intercept(s[i]) == (g, b));
        }
        if exists|i: int| 0 <= i < s.len() && #[trigger] spec_intercept(s[i]) == (g, b) {
            let i = choose|i: int| 0 <= i < s.len() && #[trigger] spec_intercept(s[i]) == (g, b);
            if i < d.len() {
                assert(d[i] == s[i]);
                assert(spec_intercept(d[i]) == (g, b));
            }
        }
        if lg == g && lb == b {
            assert(spec_intercept(s[s.len() - 1]) == (g, b));
        }
    }
}

/// Setting a register kept in the VMCB gives it the new value, keeps every other register
/// and the TSC offset, and asks for a TLB flush exactly when a bit that decides the guest's
/// paging mode changes.
pub proof fn lemma_set_reg_flush(v: Vmcb, regs: Seq<u64>, clean: bool, flush: u32, r: Register, x: u64)
    requires
        spec_gpr_index(r) is None,
    ensures
        spec_reg(spec_set_vmcb_reg(v, clean, flush, r, x), regs, r) == x,
        forall|q: Register|
            q != r ==> #[trigger] spec_reg(spec_set_vmcb_reg(v, clean, flush, r, x), regs, q) == spec_reg(
                v,
                regs,
                q,
            ),
        spec_set_vmcb_reg(v, clean, flush, r, x).control.tlb_control == match spec_flush_mask(r) {
            Some(m) => if spec_vmcb_reg(v, r) & m != x & m {
                flush
            } else {
                v.control.tlb_control
            },
            None => v.control.tlb_control,
        },
        spec_set_vmcb_reg(v, clean, flush, r, x).control.tsc_offset == v.control.tsc_offset,
{
}

/// Setting the TSC offset gives the offset read back and keeps every register.
pub proof fn lemma_tsc_offset_set(v: Vmcb, regs: Seq<u64>, clean: bool, x: u64)
    ensures
        ({
            let d = spec_dirty(v, clean, CLEAN_INTERCEPTS_AND_TSC);
            let w = Vmcb { control: VmcbControlArea { tsc_offset: x, ..d.control }, ..d };
            &&& w.control.tsc_offset == x
            &&& forall|q: Register| #[trigger] spec_reg(w, regs, q) == spec_reg(v, regs, q)
        }),
{
}

/// Enabling the intercepts in `s` and then disabling them clears exactly the bits that they
/// name in a field of group `g` and leaves every other bit of it as it was.
pub proof fn lemma_intercept_toggle(x: u32, s: Seq<Intercept>, g: usize, b: u32)
    requires
        b < 32,
    ensures
        bit32(apply_mask(apply_mask(x, group_mask(s, g), true), group_mask(s, g), false), b) == if exists|i: int|
            0 <= i < s.len() && #[trigger] spec_intercept(s[i]) == (g, b) {
            false
        } else {
            bit32(x, b)
        },
{
    lemma_intercept_bits(x, s, g, true, b);
    lemma_intercept_bits(apply_mask(x, group_mask(s, g), true), s, g, false, b);
}

/// Once every MSR is intercepted as `read` and `write` say, intercepting any one MSR the
/// same way leaves the permission bitmap as it is.
pub proof fn lemma_msr_after_all(pm: Seq<u8>, msr: u32, read: bool, write: bool)
    requires
        msr_supported(msr),
        pm.len() == MSRPM_SIZE,
        forall|i: int| 0 <= i < 0x1800 ==> pm[i] == all_msrs_byte(read, write),
    ensures
        pm.update(
            msr_position(msr) / 8,
            msr_byte(pm[msr_position(msr) / 8], (msr_position(msr) % 8) as u8, read, write),
        ) == pm,
{
    let p = msr_position(msr);
    assert(0 <= p / 8 < 0x1800);
    assert(p % 2 == 0);
    let bit = (p % 8) as u8;
    assert(bit == 0 || bit == 2 || bit == 4 || bit == 6);
    lemma_msr_pattern_constants();
    assert(pm[p / 8] == all_msrs_byte(read, write));
    assert(msr_byte(pm[p / 8], bit, read, write) == pm[p / 8]);
    assert(pm.update(p / 8, pm[p / 8]) =~= pm);
}

/// Enabling (or disabling) the intercepts in `s` sets (or clears) exactly the bits that
/// they name in a field of group `g`, and leaves every other bit of it as it was.
pub proof fn lemma_intercept_bits(x: u32, s: Seq<Intercept>, g: usize, enable: bool, b: u32)
    requires
        b < 32,
    ensures
        bit32(apply_mask(x, group_mask(s, g), enable), b) == if exists|i: int|
            0 <= i < s.len() && #[trigger] spec_intercept(s[i]) == (g, b) {
            enable
        } else {
            bit32(x, b)
        },
{
    lemma_group_mask_bit(s, g, b);
    lemma_mask_bits(group_mask(s, g), x, b, 0);
}

/// The control area with the intercepts in `s` enabled or disabled.
pub open spec fn spec_intercepts(c: VmcbControlArea, s: Seq<Intercept>, enable: bool) -> VmcbControlArea {
    VmcbControlArea {
        intercept_misc_1: apply_mask(c.intercept_misc_1, group_mask(s, MISC_1), enable),
        intercept_misc_2: apply_mask(c.intercept_misc_2, group_mask(s, MISC_2), enable),
        intercept_misc_3: apply_mask(c.intercept_misc_3, group_mask(s, MISC_3), enable),
        intercept_cr_rw: apply_mask(c.intercept_cr_rw, group_mask(s, CR_RW), enable),
        intercept_dr_rw: apply_mask(c.intercept_dr_rw, group_mask(s, DR_RW), enable),
        intercept_exceptions: apply_mask(c.intercept_exceptions, group_mask(s, EXC), enable),
        ..c
    }
}

/// MSRs in one of the three ranges covered by the MSR permission bitmap.
pub open spec fn msr_supported(msr: u32) -> bool {
    msr <= 0x1fff || (0xc000_0000 <= msr <= 0xc000_1fff) || (0xc001_0000 <= msr <= 0xc001_1fff)
}

/// Bit position of the read intercept of `msr` in the MSR permission bitmap (the write
/// intercept follows it).
pub open spec fn msr_position(msr: u32) -> int {
    if msr <= 0x1fff {
        8 * 0x0000 + (msr - 0x0000_0000) * 2
    } else if msr <= 0xc000_1fff {
        8 * 0x0800 + (msr - 0xc000_0000) * 2
    } else {
        8 * 0x1000 + (msr - 0xc001_0000) * 2
    }
}

/// A permission byte with the two bits at `bit` replaced by `read` and `write`.
pub open spec fn msr_byte(old: u8, bit: u8, read: bool, write: bool) -> u8 {
    (old & !(3u8 << bit)) | ((if read { 1u8 } else { 0u8 }) << bit) | ((if write { 1u8 } else { 0u8 }) << ((bit + 1) as u8))
}

/// Where the MSR permission bitmap keeps the bits of `msr`, as the AMD manual lays it out:
/// the vector of 0x800 bytes for its range (from byte 0 for MSRs 0 to 0x1fff, from byte 0x800
/// for 0xc000_0000 to 0xc000_1fff, from byte 0x1000 for 0xc001_0000 to 0xc001_1fff), and in
/// it two bits per MSR in order: the byte and the bit of its read intercept.
pub open spec fn apm_msr_bit(msr: u32) -> (int, int) {
    let (vector, first) = if msr <= 0x1fff {
        (0x000int, 0int)
    } else if 0xc000_0000 <= msr <= 0xc000_1fff {
        (0x800int, 0xc000_0000int)
    } else {
        (0x1000int, 0xc001_0000int)
    };
    (vector + (msr - first) / 4, 2 * ((msr - first) % 4))
}

/// Setting whether `msr` is intercepted, as `intercept_msr` does, sets its pair of bits
/// where the AMD manual places them to `read` (low bit) and `write` (high bit), and leaves
/// every other pair of bits of the bitmap as it was.
pub proof fn lemma_msr_layout(m1: Seq<u8>, m2: Seq<u8>, msr: u32, read: bool, write: bool)
    requires
        msr_supported(msr),
        m1.len() == MSRPM_SIZE,
        m2 == m1.update(
            msr_position(msr) / 8,
            msr_byte(m1[msr_position(msr) / 8], (msr_position(msr) % 8) as u8, read, write),
        ),
    ensures
        ({
            let (byte, bit) = apm_msr_bit(msr);
            &&& 0 <= byte < MSRPM_SIZE
            &&& (m2[byte] >> (bit as u8)) & 3u8 == (if read {
                1u8
            } else {
                0u8
            }) | (if write {
                2u8
            } else {
                0u8
            })
            &&& forall|k: u8|
                k < 8 && k % 2 == 0 && k != bit ==> #[trigger] ((m2[byte] >> k) & 3u8) == (m1[byte]
                    >> k) & 3u8
            &&& forall|i: int| 0 <= i < m1.len() && i != byte ==> #[trigger] m2[i] == m1[i]
        }),
{
    let p = msr_position(msr);
    let (byte, bit) = apm_msr_bit(msr);
    assert(p / 8 == byte && p % 8 == bit) by (nonlinear_arith)
        requires
            p == (if msr <= 0x1fff {
                8 * 0x0000 + (msr - 0x0000_0000) * 2
            } else if msr <= 0xc000_1fff {
                8 * 0x0800 + (msr - 0xc000_0000) * 2
            } else {
                8 * 0x1000 + (msr - 0xc001_0000) * 2
            }),
            msr_supported(msr),
            (byte, bit) == apm_msr_bit(msr),
    ;
    lemma_msr_intercept_bits(m1, msr, read, write);
    let r: u8 = if read { 1 } else { 0 };
    let w: u8 = if write { 1 } else { 0 };
    assert forall|k: u8| k < 8 && k % 2 == 0 && k != bit implies #[trigger] ((m2[byte] >> k) & 3u8) == (
    m1[byte] >> k) & 3u8 by {
        lemma_msr_byte_bits(m1[byte], bit as u8, k, r, w);
    }
}

/// Byte of the MSR permission bitmap that intercepts reads (`read`) and writes (`write`)
/// of every MSR it covers.
pub open spec fn all_msrs_byte(read: bool, write: bool) -> u8 {
    (if read { 0x55u8 } else { 0u8 }) | (if write { 0xaau8 } else { 0u8 })
}

/// In a byte that intercepts every MSR it covers, each MSR's pair of bits is `read` (low bit)
/// and `write` (high bit).
pub proof fn lemma_all_msrs_byte(read: bool, write: bool)
    by (bit_vector)
    ensures
        forall|k: u8|
            k < 8 && k % 2 == 0 ==> #[trigger] ((all_msrs_byte(read, write) >> k) & 3u8) == (if read {
                1u8
            } else {
                0u8
            }) | (if write {
                2u8
            } else {
                0u8
            }),
{
}

/// Every ASID from 1 below `nr_asids` is taken in `bitmap`.
pub open spec fn asids_taken(bitmap: Seq<u64>, nr_asids: u32) -> bool {
    forall|b: int| 1 <= b < nr_asids && b <= MAX_CONCURRENT_VMS ==> #[trigger] asid_used(bitmap, b)
}

pub struct Vm {
    /// Guest state. It must be configured by the user of the VM.
    guest_vmcb: Vmcb,
    /// Basic register state for the guest. Contains all GPRs, RIP and RFLAGS.
    guest_registers: Vec<u64>,
    /// Nested page tables for the guest.
    npt: Npt,
    /// Unique address space identifier for the guest.
    asid: Asid,
    /// Set to true if this CPU supports clean VMCB extension.
    support_vmcb_clean: bool,
    /// Last core this VM was run at. !0 if this VM wasn't run.
    last_core: u64,
    /// Value to set `tlb_control` to to flush guest TLB.
    flush_tlb_value: u32,
    /// Permission bitmap for MSRs. Determines if MSR read/write is intercepted.
    msrpm: Vec<u8>,
    /// Permission bitmap for IO ports. Determines if port input/output is intercepted.
    iopm: Vec<u8>,
}

impl Vm {
    /// The register cache and the permission bitmaps have their architectural sizes.
    pub closed spec fn wf(&self) -> bool {
        &&& self.guest_registers@.len() == 18
        &&& self.msrpm@.len() == MSRPM_SIZE
        &&& self.iopm@.len() == IOPM_SIZE
    }

    /// A well formed VM caches 18 guest registers and holds whole MSR and I/O permission
    /// maps.
    pub proof fn lemma_wf_sizes(&self)
        requires
            self.wf(),
        ensures
            self.regs_view().len() == 18,
            self.msrpm_view().len() == MSRPM_SIZE,
            self.iopm_view().len() == IOPM_SIZE,
    {
    }

    /// The guest VMCB.
    pub closed spec fn vmcb_view(&self) -> Vmcb {
        self.guest_vmcb
    }

    /// The guest register cache: RAX to R15, RIP and RFLAGS.
    pub closed spec fn regs_view(&self) -> Seq<u64> {
        self.guest_registers@
    }

    /// The MSR permission bitmap.
    pub closed spec fn msrpm_view(&self) -> Seq<u8> {
        self.msrpm@
    }

    /// The IO permission bitmap.
    pub closed spec fn iopm_view(&self) -> Seq<u8> {
        self.iopm@
    }

    pub closed spec fn clean_supported(&self) -> bool {
        self.support_vmcb_clean
    }

    pub closed spec fn flush_value(&self) -> u32 {
        self.flush_tlb_value
    }

    pub closed spec fn last_core_view(&self) -> u64 {
        self.last_core
    }

    pub closed spec fn npt_view(&self) -> &Npt {
        &self.npt
    }

    pub closed spec fn asid_view(&self) -> u32 {
        self.asid.value()
    }

    /// Value of guest register `r`.
    pub open spec fn spec_reg(&self, r: Register) -> u64 {
        spec_reg(self.vmcb_view(), self.regs_view(), r)
    }

    /// Everything but the VMCB is unchanged between `self` and `other`.
    pub open spec fn same_but_vmcb(&self, other: &Vm) -> bool {
        &&& self.regs_view() == other.regs_view()
        &&& self.msrpm_view() == other.msrpm_view()
        &&& self.iopm_view() == other.iopm_view()
        &&& self.clean_supported() == other.clean_supported()
        &&& self.flush_value() == other.flush_value()
        &&& self.last_core_view() == other.last_core_view()
        &&& self.npt_view() == other.npt_view()
        &&& self.asid_view() == other.asid_view()
    }

    /// Create a VM on a core whose SVM support is `support`, for a CPU with the SVM
    /// `features`, taking the lowest free ASID from `bitmap`, with nested page tables `npt`
    /// and the physical addresses of its permission bitmaps. Fails when SVM cannot be enabled,
    /// when no ASID is free, or when the CPU lacks nested paging or next RIP saving; a failed
    /// VM gives its ASID back.
    pub fn new(
        support: &SvmSupport,
        features: &SvmFeatures,
        bitmap: &mut AsidBitmap,
        npt: Npt,
        msrpm_pa: u64,
        iopm_pa: u64,
    ) -> (r: Result<Self, VmError>)
        requires
            old(bitmap).wf(),
        ensures
            final(bitmap).wf(),
            svm_decision(*support) is Err ==> r == Err::<Vm, VmError>(svm_decision(*support)->Err_0)
                && final(bitmap)@ == old(bitmap)@,
            svm_decision(*support) is Ok && asids_taken(old(bitmap)@, features.nr_asids) ==> r
                == Err::<Vm, VmError>(VmError::OutOfAsids) && final(bitmap)@ == old(bitmap)@,
            svm_decision(*support) is Ok && !asids_taken(old(bitmap)@, features.nr_asids)
                && !features.nested_paging ==> r == Err::<Vm, VmError>(VmError::NPNotSupported),
            svm_decision(*support) is Ok && !asids_taken(old(bitmap)@, features.nr_asids)
                && features.nested_paging && !features.nrip_save ==> r == Err::<Vm, VmError>(
                VmError::NRipSaveNotSupported,
            ),
            r is Err ==> forall|b: int| #[trigger] asid_used(final(bitmap)@, b) == asid_used(old(bitmap)@, b),
            r matches Ok(vm) ==> {
                let a = vm.asid_view() as int;
                &&& 1 <= a < features.nr_asids
                &&& !asid_used(old(bitmap)@, a)
                &&& forall|b: int| 1 <= b < a ==> asid_used(old(bitmap)@, b)
                &&& forall|b: int| #[trigger] asid_used(final(bitmap)@, b) == (asid_used(old(bitmap)@, b) || b == a)
            },
            svm_decision(*support) is Ok && !asids_taken(old(bitmap)@, features.nr_asids)
                && features.nested_paging && features.nrip_save ==> (r matches Ok(vm) && {
                let c = vm.vmcb_view().control;
                &&& vm.wf()
                &&& vm.regs_view() == Seq::new(18, |i: int| 0u64)
                &&& vm.msrpm_view() == Seq::new(MSRPM_SIZE as nat, |i: int| 0u8)
                &&& vm.iopm_view() == Seq::new(IOPM_SIZE as nat, |i: int| 0u8)
                &&& vm.last_core_view() == 0xffff_ffff_ffff_ffff
                &&& vm.npt_view().root() == npt.root()
                &&& vm.clean_supported() == features.vmcb_clean
                &&& vm.flush_value() == (if features.flush_by_asid { 3u32 } else { 1u32 })
                &&& vm.vmcb_view().state == Vmcb::new_spec().state
                &&& c == VmcbControlArea {
                    intercept_misc_1: (1u32 << 27u32) | (1u32 << 28u32) | (1u32 << 31u32),
                    intercept_misc_2: 1,
                    pause_filter_threshold: 0,
                    pause_filter_count: 0,
                    iopm_base_pa: iopm_pa,
                    msrpm_base_pa: msrpm_pa,
                    tsc_offset: 0,
                    guest_asid: vm.asid_view(),
                    tlb_control: 0,
                    vintr: 1u64 << 24u64,
                    feature_control: 1,
                    n_cr3: npt.root(),
                    ..Vmcb::new_spec().control
                }
            }),
    {
        match check_svm(support) {
            Ok(()) => {},
            Err(e) => return Err(e),
        }
        let asid = match Asid::new(bitmap, features.nr_asids) {
            Some(asid) => asid,
            None => return Err(VmError::OutOfAsids),
        };

        // Make sure that all required SVM features are supported.
        if !features.nested_paging {
            asid.release(bitmap);
            return Err(VmError::NPNotSupported);
        }
        if !features.nrip_save {
            asid.release(bitmap);
            return Err(VmError::NRipSaveNotSupported);
        }
        let mut guest_registers: Vec<u64> = Vec::new();
        let mut i: usize = 0;
        while i < 18
            invariant
                i <= 18,
                guest_registers@ == Seq::new(i as nat, |j: int| 0u64),
            decreases 18 - i,
        {
            guest_registers.push(0);
            i += 1;
        }
        let msrpm = zeroed_bytes(MSRPM_SIZE);
        let iopm = zeroed_bytes(IOPM_SIZE);

        let mut vm = Self {
            guest_vmcb: Vmcb::new(),
            guest_registers,
            npt,
            asid,
            support_vmcb_clean: false,
            last_core: 0xffff_ffff_ffff_ffff,
            flush_tlb_value: 0,
            msrpm,
            iopm,
        };

        match vm.initialize(features, msrpm_pa, iopm_pa) {
            Ok(()) => Ok(vm),
            Err(e) => Err(e),
        }
    }

    fn initialize(&mut self, features: &SvmFeatures, msrpm_pa: u64, iopm_pa: u64) -> (r: Result<(), VmError>)
        requires
            old(self).wf(),
        ensures
            final(self).wf(),
            !features.nested_paging ==> r == Err::<(), VmError>(VmError::NPNotSupported),
            features.nested_paging && !features.nrip_save ==> r == Err::<(), VmError>(VmError::NRipSaveNotSupported),
            features.nested_paging && features.nrip_save ==> r is Ok && {
                let c = final(self).vmcb_view().control;
                &&& final(self).regs_view() == old(self).regs_view()
                &&& final(self).msrpm_view() == old(self).msrpm_view()
                &&& final(self).iopm_view() == old(self).iopm_view()
                &&& final(self).last_core_view() == old(self).last_core_view()
                &&& final(self).asid_view() == old(self).asid_view()
                &&& final(self).npt_view().root() == old(self).npt_view().root()
                &&& final(self).clean_supported() == features.vmcb_clean
                &&& final(self).flush_value() == (if features.flush_by_asid { 3u32 } else { 1u32 })
                &&& final(self).vmcb_view().state == old(self).vmcb_view().state
                &&& c == VmcbControlArea {
                    intercept_misc_1: (1u32 << 27u32) | (1u32 << 28u32) | (1u32 << 31u32),
                    intercept_misc_2: 1,
                    pause_filter_threshold: 0,
                    pause_filter_count: 0,
                    iopm_base_pa: iopm_pa,
                    msrpm_base_pa: msrpm_pa,
                    tsc_offset: 0,
                    guest_asid: old(self).asid_view(),
                    tlb_control: 0,
                    vintr: 1u64 << 24u64,
                    feature_control: 1,
                    n_cr3: old(self).npt_view().root(),
                    ..old(self).vmcb_view().control
                }
            },
    {
        // Make sure that all required SVM features are supported.
        if !features.nested_paging {
            return Err(VmError::NPNotSupported);
        }

        if !features.nrip_save {
            return Err(VmError::NRipSaveNotSupported);
        }

        self.flush_tlb_value = if features.flush_by_asid {
            // Flush this guest's TLB entries.
            3
        } else {
            // Flush entire TLB (Should be used only on legacy hardware).
            1
        };

        // Check if this CPU supports VMCB clean.
        self.support_vmcb_clean = features.vmcb_clean;

        let n_cr3 = self.npt.table().0;
        let asid = self.asid.get();

        // Always intercept VMRUN and shutdown events. Use IOPM and MSRPM.
        // Other intercepts will be configured by the user.
        self.guest_vmcb.control.intercept_misc_2 = 1;
        self.guest_vmcb.control.intercept_misc_1 = (1 << 27) | (1 << 28) | (1 << 31);

        // Pause filters aren't used.
        self.guest_vmcb.control.pause_filter_threshold = 0;
        self.guest_vmcb.control.pause_filter_count = 0;

        // Assign physical addresses of permission bitmaps.
        self.guest_vmcb.control.iopm_base_pa = iopm_pa;
        self.guest_vmcb.control.msrpm_base_pa = msrpm_pa;

        // TSC offset starts at 0. Can be adjusted by the user.
        self.guest_vmcb.control.tsc_offset = 0;

        // Assign this VM unique ASID. Don't flush anything on VMRUN.
        self.guest_vmcb.control.guest_asid = asid;
        self.guest_vmcb.control.tlb_control = 0;

        // Virtualize masking of INTR so physical interrupts can be delivered when VM is running.
        self.guest_vmcb.control.vintr = 1 << 24;

        // Enable nested paging and set nested page table CR3. Don't setup any encryption.
        self.guest_vmcb.control.feature_control = 1;
        self.guest_vmcb.control.n_cr3 = n_cr3;

        // AVIC, GHCB, VMSA, LBR virtualization, VMCB clean bits aren't used.
        Ok(())
    }

    /// The event whose delivery through the IDT was interrupted by the VM exit, if any.
    pub fn intercepted_delivery(&self) -> (r: Option<Event>)
        requires
            self.wf(),
            self.vmcb_view().control.exit_int_info & (1u64 << 31u64) != 0 ==> spec_event(
                self.vmcb_view().control.exit_int_info,
                self.vmcb_view().state.cr2,
            ) is Some,
        ensures
            r == (if self.vmcb_view().control.exit_int_info & (1u64 << 31u64) == 0 {
                None
            } else {
                spec_event(self.vmcb_view().control.exit_int_info, self.vmcb_view().state.cr2)
            }),
    {
        let info = self.guest_vmcb.control.exit_int_info;
        if info & (1 << 31) == 0 {
            return None;
        }

        Some(decode_event(info, self.guest_vmcb.state.cr2))
    }

    fn vmcb_dirty(&mut self, bit: u32)
        requires
            old(self).wf(),
            bit < 64,
        ensures
            final(self).wf(),
            final(self).vmcb_view() == spec_dirty(old(self).vmcb_view(), old(self).clean_supported(), bit),
            final(self).same_but_vmcb(old(self)),
    {
        if self.support_vmcb_clean {
            // Unset the clean bit to mark that this part of VMCB has been modified.
            self.guest_vmcb.control.vmcb_clean &= !(1 << bit);
        }
    }

    /// Enable or disable one intercept.
    fn set_intercept(&mut self, intercept: Intercept, enable: bool)
        requires
            old(self).wf(),
        ensures
            final(self).wf(),
            final(self).vmcb_view() == (Vmcb {
                control: spec_intercepts(old(self).vmcb_view().control, seq![intercept], enable),
                ..old(self).vmcb_view()
            }),
            final(self).same_but_vmcb(old(self)),
    {
        let intercept_code = intercept.encoding();
        let bit = (intercept_code & 0xff) as u32;
        proof {
            assert(bit < 32);
            lemma_group_mask_single(intercept);
        }
        let mask: u32 = 1 << bit;

        // Pick the misc field for this intercept.
        let group = intercept_code & !0xff;
        if group == MISC_1 {
            let f = self.guest_vmcb.control.intercept_misc_1;
            self.guest_vmcb.control.intercept_misc_1 = if enable { f | mask } else { f & !mask };
        } else if group == MISC_2 {
            let f = self.guest_vmcb.control.intercept_misc_2;
            self.guest_vmcb.control.intercept_misc_2 = if enable { f | mask } else { f & !mask };
        } else if group == MISC_3 {
            let f = self.guest_vmcb.control.intercept_misc_3;
            self.guest_vmcb.control.intercept_misc_3 = if enable { f | mask } else { f & !mask };
        } else if group == CR_RW {
            let f = self.guest_vmcb.control.intercept_cr_rw;
            self.guest_vmcb.control.intercept_cr_rw = if enable { f | mask } else { f & !mask };
        } else if group == DR_RW {
            let f = self.guest_vmcb.control.intercept_dr_rw;
            self.guest_vmcb.control.intercept_dr_rw = if enable { f | mask } else { f & !mask };
        } else {
            let f = self.guest_vmcb.control.intercept_exceptions;
            self.guest_vmcb.control.intercept_exceptions = if enable { f | mask } else { f & !mask };
        }
        proof {
            let c = old(self).vmcb_view().control;
            assert forall|f: u32| apply_mask(f, 0, enable) == f by {
                lemma_or_masks(f, 0, 0);
            }
            assert(apply_mask(c.intercept_misc_1, 0, enable) == c.intercept_misc_1);
        }
    }

    /// Enable (`enable`) or disable the intercepts in `intercepts`.
    pub fn intercept(&mut self, intercepts: &[Intercept], enable: bool)
        requires
            old(self).wf(),
        ensures
            final(self).wf(),
            final(self).vmcb_view() == (Vmcb {
                control: spec_intercepts(
                    spec_dirty(old(self).vmcb_view(), old(self).clean_supported(), CLEAN_INTERCEPTS_AND_TSC).control,
                    intercepts@,
                    enable,
                ),
                ..old(self).vmcb_view()
            }),
            final(self).same_but_vmcb(old(self)),
    {
        self.vmcb_dirty(CLEAN_INTERCEPTS_AND_TSC);
        let ghost v0 = self.vmcb_view();
        let ghost mid = *self;
        proof {
            lemma_intercepts_empty(v0.control, enable);
            assert(intercepts@.take(0) =~= Seq::<Intercept>::empty());
        }

        let mut i: usize = 0;
        while i < intercepts.len()
            invariant
                self.wf(),
                i <= intercepts@.len(),
                self.vmcb_view() == (Vmcb { control: spec_intercepts(v0.control, intercepts@.take(i as int), enable), ..v0 }),
                self.same_but_vmcb(&mid),
            decreases intercepts@.len() - i,
        {
            let ghost before = self.vmcb_view();
            self.set_intercept(intercepts[i], enable);
            proof {
                lemma_intercepts_step(v0.control, intercepts@, i as int, enable);
            }
            i += 1;
        }
        proof {
            assert(intercepts@.take(intercepts@.len() as int) =~= intercepts@);
        }
    }

    /// Set whether reads and writes of `msr` are intercepted.
    pub fn intercept_msr(&mut self, msr: u32, read: bool, write: bool)
        requires
            old(self).wf(),
            msr_supported(msr),
        ensures
            final(self).wf(),
            final(self).msrpm_view() == old(self).msrpm_view().update(
                msr_position(msr) / 8,
                msr_byte(old(self).msrpm_view()[msr_position(msr) / 8], (msr_position(msr) % 8) as u8, read, write),
            ),
            final(self).vmcb_view() == old(self).vmcb_view(),
            final(self).regs_view() == old(self).regs_view(),
            final(self).iopm_view() == old(self).iopm_view(),
    {
        let position: u32 = if msr <= 0x0000_1fff {
            8 * 0x0000 + (msr - 0x0000_0000) * 2
        } else if msr <= 0xc000_1fff {
            8 * 0x0800 + (msr - 0xc000_0000) * 2
        } else {
            8 * 0x1000 + (msr - 0xc001_0000) * 2
        };

        let index = (position / 8) as usize;
        let bit = (position % 8) as u8;

        // First clear intercepts for this MSR, then set new intercepts for this MSR.
        let cleared = self.msrpm[index] & !(0b11 << bit);
        let value = cleared | (read as u8) << bit | (write as u8) << (bit + 1);
        self.msrpm.set(index, value);
    }

    /// Set whether reads and writes of every MSR in `msrs` are intercepted.
    pub fn intercept_msrs<M: ToInteger<u32>>(&mut self, msrs: &[M], read: bool, write: bool)
        requires
            old(self).wf(),
            forall|i: int| 0 <= i < msrs@.len() ==> msr_supported(#[trigger] msrs@[i].spec_integer()),
        ensures
            final(self).wf(),
            final(self).vmcb_view() == old(self).vmcb_view(),
            final(self).regs_view() == old(self).regs_view(),
            final(self).iopm_view() == old(self).iopm_view(),
            forall|i: int| 0 <= i < msrs@.len() ==> {
                let p = msr_position(#[trigger] msrs@[i].spec_integer());
                (final(self).msrpm_view()[p / 8] >> ((p % 8) as u8)) & 3u8 == (if read { 1u8 } else { 0u8 }) | (if write { 2u8 } else { 0u8 })
            },
    {
        let mut i: usize = 0;
        while i < msrs.len()
            invariant
                self.wf(),
                i <= msrs@.len(),
                forall|j: int| 0 <= j < msrs@.len() ==> msr_supported(#[trigger] msrs@[j].spec_integer()),
                self.vmcb_view() == old(self).vmcb_view(),
                self.regs_view() == old(self).regs_view(),
                self.iopm_view() == old(self).iopm_view(),
                self.msrpm_view().len() == MSRPM_SIZE,
                forall|j: int| 0 <= j < i ==> {
                    let p = msr_position(#[trigger] msrs@[j].spec_integer());
                    (self.msrpm_view()[p / 8] >> ((p % 8) as u8)) & 3u8 == (if read { 1u8 } else { 0u8 }) | (if write { 2u8 } else { 0u8 })
                },
            decreases msrs@.len() - i,
        {
            let msr = msrs[i].to_integer();
            let ghost before = self.msrpm_view();
            self.intercept_msr(msr, read, write);
            proof {
                lemma_msr_intercept_bits(before, msr, read, write);
                assert forall|j: int| 0 <= j < i + 1 implies {
                    let p = msr_position(#[trigger] msrs@[j].spec_integer());
                    (self.msrpm_view()[p / 8] >> ((p % 8) as u8)) & 3u8 == (if read { 1u8 } else { 0u8 }) | (if write { 2u8 } else { 0u8 })
                } by {
                    if j < i {
                        lemma_msr_intercept_other(before, msr, read, write, msrs@[j].spec_integer());
                    }
                }
            }
            i += 1;
        }
    }

    /// Set whether reads and writes of every MSR covered by the permission bitmap are
    /// intercepted.
    pub fn intercept_all_msrs(&mut self, read: bool, write: bool)
        requires
            old(self).wf(),
        ensures
            final(self).wf(),
            forall|i: int| 0 <= i < 0x1800 ==> final(self).msrpm_view()[i] == all_msrs_byte(read, write),
            forall|i: int| 0x1800 <= i < MSRPM_SIZE ==> final(self).msrpm_view()[i] == old(self).msrpm_view()[i],
            final(self).msrpm_view().len() == MSRPM_SIZE,
            final(self).vmcb_view() == old(self).vmcb_view(),
            final(self).regs_view() == old(self).regs_view(),
            final(self).iopm_view() == old(self).iopm_view(),
    {
        let mut value: u8 = 0;
        let mut bit: u8 = 0;
        proof {
            lemma_msr_pattern_constants();
        }
        while bit < 8
            invariant
                self.wf(),
                bit <= 8,
                bit % 2 == 0,
                value == (if read { low_bits_of(0x55u8, bit) } else { 0u8 }) | (if write { low_bits_of(0xaau8, bit) } else { 0u8 }),
            decreases 8 - bit,
        {
            let ghost prev = value;
            if read {
                value |= 1 << (bit + 0);
            }
            if write {
                value |= 1 << (bit + 1);
            }
            proof {
                lemma_all_msrs_step(prev, bit, read, write);
            }
            bit += 2;
        }
        proof {
            assert(low_bits_of(0x55u8, 8) == 0x55u8 && low_bits_of(0xaau8, 8) == 0xaau8);
        }

        let mut i: usize = 0;
        while i < 0x1800
            invariant
                self.wf(),
                i <= 0x1800,
                self.msrpm_view().len() == MSRPM_SIZE,
                value == all_msrs_byte(read, write),
                forall|j: int| 0 <= j < i ==> self.msrpm_view()[j] == value,
                forall|j: int| i <= j < MSRPM_SIZE ==> self.msrpm_view()[j] == old(self).msrpm_view()[j],
                self.vmcb_view() == old(self).vmcb_view(),
                self.regs_view() == old(self).regs_view(),
                self.iopm_view() == old(self).iopm_view(),
            decreases 0x1800 - i,
        {
            self.msrpm.set(i, value);
            i += 1;
        }
    }

    /// Set whether accesses to IO port `port` are intercepted.
    pub fn intercept_port(&mut self, port: u16, enable: bool)
        requires
            old(self).wf(),
        ensures
            final(self).wf(),
            final(self).iopm_view() == old(self).iopm_view().update(
                (port / 8) as int,
                if enable {
                    old(self).iopm_view()[(port / 8) as int] | (1u8 << ((port % 8) as u8))
                } else {
                    old(self).iopm_view()[(port / 8) as int] & !(1u8 << ((port % 8) as u8))
                },
            ),
            final(self).vmcb_view() == old(self).vmcb_view(),
            final(self).regs_view() == old(self).regs_view(),
            final(self).msrpm_view() == old(self).msrpm_view(),
    {
        let position = port;
        let index = (position / 8) as usize;
        let bit = (position % 8) as u8;

        let byte = self.iopm[index];
        if enable {
            self.iopm.set(index, byte | (1 << bit));
        } else {
            self.iopm.set(index, byte & !(1 << bit));
        }
    }

    /// Set whether accesses to every IO port in `ports` are intercepted.
    pub fn intercept_ports<P: ToInteger<u16>>(&mut self, ports: &[P], enable: bool)
        requires
            old(self).wf(),
        ensures
            final(self).wf(),
            final(self).vmcb_view() == old(self).vmcb_view(),
            final(self).regs_view() == old(self).regs_view(),
            final(self).msrpm_view() == old(self).msrpm_view(),
            forall|i: int| 0 <= i < ports@.len() ==> {
                let p = #[trigger] ports@[i].spec_integer();
                ((final(self).iopm_view()[(p / 8) as int] >> ((p % 8) as u8)) & 1 == 1) == enable
            },
    {
        let mut i: usize = 0;
        while i < ports.len()
            invariant
                self.wf(),
                i <= ports@.len(),
                self.vmcb_view() == old(self).vmcb_view(),
                self.regs_view() == old(self).regs_view(),
                self.msrpm_view() == old(self).msrpm_view(),
                self.iopm_view().len() == IOPM_SIZE,
                forall|j: int| 0 <= j < i ==> {
                    let p = #[trigger] ports@[j].spec_integer();
                    ((self.iopm_view()[(p / 8) as int] >> ((p % 8) as u8)) & 1 == 1) == enable
                },
            decreases ports@.len() - i,
        {
            let port = ports[i].to_integer();
            let ghost before = self.iopm_view();
            self.intercept_port(port, enable);
            proof {
                assert forall|j: int| 0 <= j < i + 1 implies {
                    let p = #[trigger] ports@[j].spec_integer();
                    ((self.iopm_view()[(p / 8) as int] >> ((p % 8) as u8)) & 1 == 1) == enable
                } by {
                    let p = ports@[j].spec_integer();
                    let b = before[(port / 8) as int];
                    let k = (p % 8) as u8;
                    let kk = (port % 8) as u8;
                    if p / 8 == port / 8 {
                        assert(k < 8 && kk < 8);
                        assert((((b | (1u8 << kk)) >> k) & 1 == 1) == (((b >> k) & 1 == 1) || k == kk)
                            && (((b & !(1u8 << kk)) >> k) & 1 == 1) == (((b >> k) & 1 == 1) && k != kk))
                            by (bit_vector)
                            requires k < 8, kk < 8;
                        if p != port {
                            assert(k != kk);
                        }
                    }
                }
            }
            i += 1;
        }
    }

    /// Set whether accesses to every IO port are intercepted.
    pub fn intercept_all_ports(&mut self, enable: bool)
        requires
            old(self).wf(),
        ensures
            final(self).wf(),
            forall|i: int| 0 <= i < 0x2000 ==> final(self).iopm_view()[i] == (if enable { 0xffu8 } else { 0u8 }),
            forall|i: int| 0x2000 <= i < IOPM_SIZE ==> final(self).iopm_view()[i] == old(self).iopm_view()[i],
            final(self).iopm_view().len() == IOPM_SIZE,
            final(self).vmcb_view() == old(self).vmcb_view(),
            final(self).regs_view() == old(self).regs_view(),
            final(self).msrpm_view() == old(self).msrpm_view(),
    {
        let value: u8 = if enable { 0xff } else { 0x00 };

        let mut i: usize = 0;
        while i < 0x2000
            invariant
                self.wf(),
                i <= 0x2000,
                self.iopm_view().len() == IOPM_SIZE,
                forall|j: int| 0 <= j < i ==> self.iopm_view()[j] == value,
                forall|j: int| i <= j < IOPM_SIZE ==> self.iopm_view()[j] == old(self).iopm_view()[j],
                self.vmcb_view() == old(self).vmcb_view(),
                self.regs_view() == old(self).regs_view(),
                self.msrpm_view() == old(self).msrpm_view(),
            decreases 0x2000 - i,
        {
            self.iopm.set(i, value);
            i += 1;
        }
    }

    /// Value of guest register `register`.
    pub fn reg(&self, register: Register) -> (r: u64)
        requires
            self.wf(),
        ensures
            r == self.spec_reg(register),
    {
        let index = register.index();

        if index < self.guest_registers.len() {
            self.guest_registers[index]
        } else {
            match register {
            Register::Efer => self.guest_vmcb.state.efer,
            Register::Cr0 => self.guest_vmcb.state.cr0,
            Register::Cr2 => self.guest_vmcb.state.cr2,
            Register::Cr3 => self.guest_vmcb.state.cr3,
            Register::Cr4 => self.guest_vmcb.state.cr4,
            Register::Dr6 => self.guest_vmcb.state.dr6,
            Register::Dr7 => self.guest_vmcb.state.dr7,
            Register::Star => self.guest_vmcb.state.star,
            Register::Lstar => self.guest_vmcb.state.lstar,
            Register::Cstar => self.guest_vmcb.state.cstar,
            Register::Sfmask => self.guest_vmcb.state.sfmask,
            Register::KernelGsBase => self.guest_vmcb.state.kernel_gs_base,
            Register::SysenterCs => self.guest_vmcb.state.sysenter_cs,
            Register::SysenterEsp => self.guest_vmcb.state.sysenter_esp,
            Register::SysenterEip => self.guest_vmcb.state.sysenter_eip,
            Register::Pat => self.guest_vmcb.state.g_pat,
                _ => 0,
            }
        }
    }

    /// Set register `register` of the VMCB, returning its previous value.
    fn set_vmcb_reg(&mut self, register: Register, value: u64) -> (before: u64)
        requires
            old(self).wf(),
            spec_gpr_index(register) is None,
        ensures
            final(self).wf(),
            before == spec_vmcb_reg(old(self).vmcb_view(), register),
            final(self).vmcb_view() == spec_with_vmcb_reg(old(self).vmcb_view(), register, value),
            final(self).same_but_vmcb(old(self)),
    {
        match register {
            Register::Efer => {
                let before = self.guest_vmcb.state.efer;
                self.guest_vmcb.state.efer = value;
                before
            },
            Register::Cr0 => {
                let before = self.guest_vmcb.state.cr0;
                self.guest_vmcb.state.cr0 = value;
                before
            },
            Register::Cr2 => {
                let before = self.guest_vmcb.state.cr2;
                self.guest_vmcb.state.cr2 = value;
                before
            },
            Register::Cr3 => {
                let before = self.guest_vmcb.state.cr3;
                self.guest_vmcb.state.cr3 = value;
                before
            },
            Register::Cr4 => {
                let before = self.guest_vmcb.state.cr4;
                self.guest_vmcb.state.cr4 = value;
                before
            },
            Register::Dr6 => {
                let before = self.guest_vmcb.state.dr6;
                self.guest_vmcb.state.dr6 = value;
                before
            },
            Register::Dr7 => {
                let before = self.guest_vmcb.state.dr7;
                self.guest_vmcb.state.dr7 = value;
                before
            },
            Register::Star => {
                let before = self.guest_vmcb.state.star;
                self.guest_vmcb.state.star = value;
                before
            },
            Register::Lstar => {
                let before = self.guest_vmcb.state.lstar;
                self.guest_vmcb.state.lstar = value;
                before
            },
            Register::Cstar => {
                let before = self.guest_vmcb.state.cstar;
                self.guest_vmcb.state.cstar = value;
                before
            },
            Register::Sfmask => {
                let before = self.guest_vmcb.state.sfmask;
                self.guest_vmcb.state.sfmask = value;
                before
            },
            Register::KernelGsBase => {
                let before = self.guest_vmcb.state.kernel_gs_base;
                self.guest_vmcb.state.kernel_gs_base = value;
                before
            },
            Register::SysenterCs => {
                let before = self.guest_vmcb.state.sysenter_cs;
                self.guest_vmcb.state.sysenter_cs = value;
                before
            },
            Register::SysenterEsp => {
                let before = self.guest_vmcb.state.sysenter_esp;
                self.guest_vmcb.state.sysenter_esp = value;
                before
            },
            Register::SysenterEip => {
                let before = self.guest_vmcb.state.sysenter_eip;
                self.guest_vmcb.state.sysenter_eip = value;
                before
            },
            Register::Pat => {
                let before = self.guest_vmcb.state.g_pat;
                self.guest_vmcb.state.g_pat = value;
                before
            },
            _ => 0,
        }
    }

    /// Set guest register `register` to `value`. Setting a register kept in the VMCB marks
    /// its part of the VMCB modified, and changing the paging mode requests a TLB flush.
    pub fn set_reg(&mut self, register: Register, value: u64)
        requires
            old(self).wf(),
        ensures
            final(self).wf(),
            match spec_gpr_index(register) {
                Some(i) => {
                    &&& final(self).regs_view() == old(self).regs_view().update(i, value)
                    &&& final(self).vmcb_view() == old(self).vmcb_view()
                },
                None => {
                    &&& final(self).regs_view() == old(self).regs_view()
                    &&& final(self).vmcb_view() == spec_set_vmcb_reg(
                        old(self).vmcb_view(),
                        old(self).clean_supported(),
                        old(self).flush_value(),
                        register,
                        value,
                    )
                },
            },
            final(self).spec_reg(register) == value,
            forall|r: Register| r != register ==> #[trigger] final(self).spec_reg(r) == old(self).spec_reg(r),
            same_descriptors(final(self).vmcb_view().state, old(self).vmcb_view().state),
            final(self).msrpm_view() == old(self).msrpm_view(),
            final(self).iopm_view() == old(self).iopm_view(),
            final(self).clean_supported() == old(self).clean_supported(),
            final(self).flush_value() == old(self).flush_value(),
            final(self).last_core_view() == old(self).last_core_view(),
            final(self).npt_view() == old(self).npt_view(),
            final(self).asid_view() == old(self).asid_view(),
    {
        let index = register.index();

        if index < self.guest_registers.len() {
            self.guest_registers.set(index, value);
        } else {
            let before = self.set_vmcb_reg(register, value);

            if let Some(clean) = clean_bit(register) {
                self.vmcb_dirty(clean);
            }

            if let Some(flush_mask) = flush_mask(register) {
                // If bits in `flush_mask` were changed we need TLB flush.
                let before = before & flush_mask;
                let after = value & flush_mask;

                if before != after {
                    self.flush_tlb();
                }
            }
        }
    }

    /// The current state of segment register `register`.
    pub fn segment_reg(&self, register: SegmentRegister) -> (r: Segment)
        requires
            self.wf(),
        ensures
            spec_descriptor(r) == spec_segment_desc(self.vmcb_view().state, register),
    {
        let segment = match register {
            SegmentRegister::Es => self.guest_vmcb.state.es,
            SegmentRegister::Cs => self.guest_vmcb.state.cs,
            SegmentRegister::Ss => self.guest_vmcb.state.ss,
            SegmentRegister::Ds => self.guest_vmcb.state.ds,
            SegmentRegister::Fs => self.guest_vmcb.state.fs,
            SegmentRegister::Gs => self.guest_vmcb.state.gs,
            SegmentRegister::Ldt => self.guest_vmcb.state.ldtr,
            SegmentRegister::Tr => self.guest_vmcb.state.tr,
        };

        Segment { base: segment.base, limit: segment.limit, attrib: segment.attrib, selector: segment.selector }
    }

    /// Load segment register `register`. Loading CS also sets the CPL.
    pub fn set_segment_reg(&mut self, register: SegmentRegister, segment: Segment)
        requires
            old(self).wf(),
        ensures
            final(self).wf(),
            final(self).vmcb_view().state == spec_with_segment(
                VmcbStateSaveArea {
                    cpl: if register == SegmentRegister::Cs {
                        spec_cpl(segment)
                    } else {
                        old(self).vmcb_view().state.cpl
                    },
                    ..old(self).vmcb_view().state
                },
                register,
                spec_descriptor(segment),
            ),
            final(self).vmcb_view().control == spec_dirty(old(self).vmcb_view(), old(self).clean_supported(), CLEAN_SEG).control,
            final(self).same_but_vmcb(old(self)),
    {
        self.vmcb_dirty(CLEAN_SEG);

        if matches!(register, SegmentRegister::Cs) {
            // Update the CPL when changing CS.
            let rpl = ((segment.selector >> 0) & 3) as u8;
            let dpl = ((segment.attrib >> 5) & 3) as u8;
            proof {
                let sel = segment.selector;
                assert((sel >> 0u16) & 3 == sel & 3) by (bit_vector);
            }

            self.guest_vmcb.state.cpl = if rpl > dpl { rpl } else { dpl };
        }

        let d = VmcbSegmentDescriptor {
            base: segment.base,
            limit: segment.limit,
            attrib: segment.attrib,
            selector: segment.selector,
        };
        match register {
            SegmentRegister::Es => self.guest_vmcb.state.es = d,
            SegmentRegister::Cs => self.guest_vmcb.state.cs = d,
            SegmentRegister::Ss => self.guest_vmcb.state.ss = d,
            SegmentRegister::Ds => self.guest_vmcb.state.ds = d,
            SegmentRegister::Fs => self.guest_vmcb.state.fs = d,
            SegmentRegister::Gs => self.guest_vmcb.state.gs = d,
            SegmentRegister::Ldt => self.guest_vmcb.state.ldtr = d,
            SegmentRegister::Tr => self.guest_vmcb.state.tr = d,
        }
    }

    /// The current state of descriptor table register `register`.
    pub fn table_reg(&self, register: TableRegister) -> (r: DescriptorTable)
        requires
            self.wf(),
        ensures
            r == (match register {
                TableRegister::Idt => DescriptorTable {
                    base: self.vmcb_view().state.idtr.base,
                    limit: self.vmcb_view().state.idtr.limit as u16,
                },
                TableRegister::Gdt => DescriptorTable {
                    base: self.vmcb_view().state.gdtr.base,
                    limit: self.vmcb_view().state.gdtr.limit as u16,
                },
            }),
    {
        let table = match register {
            TableRegister::Idt => self.guest_vmcb.state.idtr,
            TableRegister::Gdt => self.guest_vmcb.state.gdtr,
        };

        DescriptorTable { base: table.base, limit: table.limit as u16 }
    }

    /// Load descriptor table register `register`.
    pub fn set_table_reg(&mut self, register: TableRegister, table: DescriptorTable)
        requires
            old(self).wf(),
        ensures
            final(self).wf(),
            final(self).vmcb_view() == ({
                let v = spec_dirty(old(self).vmcb_view(), old(self).clean_supported(), CLEAN_DT);
                let s = v.state;
                match register {
                    TableRegister::Idt => Vmcb {
                        state: VmcbStateSaveArea {
                            idtr: VmcbSegmentDescriptor { base: table.base, limit: table.limit as u32, ..s.idtr },
                            ..s
                        },
                        ..v
                    },
                    TableRegister::Gdt => Vmcb {
                        state: VmcbStateSaveArea {
                            gdtr: VmcbSegmentDescriptor { base: table.base, limit: table.limit as u32, ..s.gdtr },
                            ..s
                        },
                        ..v
                    },
                }
            }),
            final(self).same_but_vmcb(old(self)),
    {
        self.vmcb_dirty(CLEAN_DT);

        match register {
            TableRegister::Idt => {
                self.guest_vmcb.state.idtr.base = table.base;
                self.guest_vmcb.state.idtr.limit = table.limit as u32;
            },
            TableRegister::Gdt => {
                self.guest_vmcb.state.gdtr.base = table.base;
                self.guest_vmcb.state.gdtr.limit = table.limit as u32;
            },
        }
    }

    /// Request a flush of the guest's TLB on the next run.
    pub fn flush_tlb(&mut self)
        requires
            old(self).wf(),
        ensures
            final(self).wf(),
            final(self).vmcb_view() == (Vmcb {
                control: VmcbControlArea { tlb_control: old(self).flush_value(), ..old(self).vmcb_view().control },
                ..old(self).vmcb_view()
            }),
            final(self).same_but_vmcb(old(self)),
    {
        self.guest_vmcb.control.tlb_control = self.flush_tlb_value;
    }

    /// Inject `event` into the guest on the next run. A page fault also sets CR2 to the
    /// faulting address.
    pub fn inject_event(&mut self, event: Event)
        requires
            old(self).wf(),
        ensures
            final(self).wf(),
            final(self).vmcb_view().control.event_injection == spec_injection(event),
            match event {
                Event::Exception(Exception::Pf { address, error_code }) => final(self).vmcb_view() == (Vmcb {
                    control: VmcbControlArea {
                        event_injection: spec_injection(event),
                        ..spec_set_vmcb_reg(old(self).vmcb_view(), old(self).clean_supported(), old(self).flush_value(), Register::Cr2, address.0).control
                    },
                    ..spec_set_vmcb_reg(old(self).vmcb_view(), old(self).clean_supported(), old(self).flush_value(), Register::Cr2, address.0)
                }),
                _ => final(self).vmcb_view() == (Vmcb {
                    control: VmcbControlArea { event_injection: spec_injection(event), ..old(self).vmcb_view().control },
                    ..old(self).vmcb_view()
                }),
            },
            final(self).same_but_vmcb(old(self)),
    {
        let (injection, cr2) = encode_event(event);

        if let Some(address) = cr2 {
            self.set_reg(Register::Cr2, address);
        }

        self.guest_vmcb.control.event_injection = injection;
    }

    /// Get the guest state ready for `vmrun` on core `core_id`: when the VM last ran on
    /// another core (or never ran) the VMCB clean bits are reset, and the registers that
    /// `vmrun` loads from the VMCB (RAX, RSP, RIP, RFLAGS) are copied from the register
    /// cache. Returns whether the VM moved to `core_id`, in which case SVM must be enabled
    /// on that core before the run.
    pub fn prepare_run(&mut self, core_id: u64) -> (moved: bool)
        requires
            old(self).wf(),
        ensures
            final(self).wf(),
            moved == (core_id != old(self).last_core_view()),
            final(self).last_core_view() == core_id,
            final(self).vmcb_view() == ({
                let v = old(self).vmcb_view();
                let v1 = if moved && old(self).clean_supported() {
                    Vmcb { control: VmcbControlArea { vmcb_clean: 0, ..v.control }, ..v }
                } else {
                    v
                };
                Vmcb {
                    state: VmcbStateSaveArea {
                        rax: old(self).spec_reg(Register::Rax),
                        rsp: old(self).spec_reg(Register::Rsp),
                        rip: old(self).spec_reg(Register::Rip),
                        rflags: old(self).spec_reg(Register::Rflags),
                        ..v1.state
                    },
                    ..v1
                }
            }),
            final(self).regs_view() == old(self).regs_view(),
            final(self).msrpm_view() == old(self).msrpm_view(),
            final(self).iopm_view() == old(self).iopm_view(),
            final(self).clean_supported() == old(self).clean_supported(),
            final(self).flush_value() == old(self).flush_value(),
            final(self).npt_view() == old(self).npt_view(),
            final(self).asid_view() == old(self).asid_view(),
    {
        let moved = core_id != self.last_core;

        // Handle case where this VM is ran on different CPU than before (or is ran for the first
        // time).
        if moved {
            if self.support_vmcb_clean {
                // We are required to zero out `vmcb_clean` if we are running for the first
                // time or on different core.
                self.guest_vmcb.control.vmcb_clean = 0;
            }

            self.last_core = core_id;
        }

        // Copy relevant registers from the cache to the VMCB.
        let rax = self.reg(Register::Rax);
        let rsp = self.reg(Register::Rsp);
        let rip = self.reg(Register::Rip);
        let rflags = self.reg(Register::Rflags);
        self.guest_vmcb.state.rax = rax;
        self.guest_vmcb.state.rsp = rsp;
        self.guest_vmcb.state.rip = rip;
        self.guest_vmcb.state.rflags = rflags;

        moved
    }

    /// Take over the guest state after `vmrun` returned (the general purpose registers other
    /// than RAX and RSP are already in the register cache): copy RAX, RSP, RIP and RFLAGS
    /// from the VMCB to the cache, clear the TLB flush request, mark the whole VMCB clean,
    /// and decode the VM exit together with the event whose delivery it interrupted.
    pub fn finish_run(&mut self) -> (r: (VmExit, Option<Event>))
        requires
            old(self).wf(),
            spec_vmexit(
                old(self).vmcb_view().control.exitcode,
                old(self).vmcb_view().control.exit_info_1,
                old(self).vmcb_view().control.exit_info_2,
                old(self).spec_reg(Register::Rcx),
            ) is Some,
            old(self).vmcb_view().control.exit_int_info & (1u64 << 31u64) != 0 ==> spec_event(
                old(self).vmcb_view().control.exit_int_info,
                old(self).vmcb_view().state.cr2,
            ) is Some,
        ensures
            final(self).wf(),
            Some(r.0) == spec_vmexit(
                old(self).vmcb_view().control.exitcode,
                old(self).vmcb_view().control.exit_info_1,
                old(self).vmcb_view().control.exit_info_2,
                old(self).spec_reg(Register::Rcx),
            ),
            r.1 == (if old(self).vmcb_view().control.exit_int_info & (1u64 << 31u64) == 0 {
                None
            } else {
                spec_event(old(self).vmcb_view().control.exit_int_info, old(self).vmcb_view().state.cr2)
            }),
            final(self).regs_view() == old(self).regs_view().update(0, old(self).vmcb_view().state.rax).update(
                4,
                old(self).vmcb_view().state.rsp,
            ).update(16, old(self).vmcb_view().state.rip).update(17, old(self).vmcb_view().state.rflags),
            final(self).vmcb_view() == ({
                let v = old(self).vmcb_view();
                let c = VmcbControlArea {
                    tlb_control: 0,
                    vmcb_clean: if old(self).clean_supported() { 0xffff_ffff } else { v.control.vmcb_clean },
                    ..v.control
                };
                Vmcb { control: c, ..v }
            }),
            final(self).msrpm_view() == old(self).msrpm_view(),
            final(self).iopm_view() == old(self).iopm_view(),
            final(self).clean_supported() == old(self).clean_supported(),
            final(self).flush_value() == old(self).flush_value(),
            final(self).last_core_view() == old(self).last_core_view(),
            final(self).npt_view() == old(self).npt_view(),
            final(self).asid_view() == old(self).asid_view(),
    {
        let rcx = self.reg(Register::Rcx);

        // Copy relevant registers from the VMCB to the cache.
        let rax = self.guest_vmcb.state.rax;
        let rsp = self.guest_vmcb.state.rsp;
        let rip = self.guest_vmcb.state.rip;
        let rflags = self.guest_vmcb.state.rflags;
        self.set_reg(Register::Rax, rax);
        self.set_reg(Register::Rsp, rsp);
        self.set_reg(Register::Rip, rip);
        self.set_reg(Register::Rflags, rflags);

        // TLB was flushed, clear the flag to avoid flush next time this VM is ran.
        self.guest_vmcb.control.tlb_control = 0;

        if self.support_vmcb_clean {
            // So far nothing has been modified in the VMCB. Even though some bits are reserved
            // AMD allows setting this to `0xffff_ffff`.
            self.guest_vmcb.control.vmcb_clean = 0xffff_ffff;
        }

        let exit_code = self.guest_vmcb.control.exitcode;
        let exit_info_1 = self.guest_vmcb.control.exit_info_1;
        let exit_info_2 = self.guest_vmcb.control.exit_info_2;

        let vmexit = decode_exit(exit_code, exit_info_1, exit_info_2, rcx);

        // It is possible for an intercept to occur while the guest is attempting to
        // deliver an exception or interrupt through the IDT.
        let event = self.intercepted_delivery();

        (vmexit, event)
    }

    /// The guest's nested page tables, to map guest memory; nothing else of the VM changes.
    pub fn npt_mut(&mut self) -> (r: &mut Npt)
        ensures
            *r == *old(self).npt_view(),
            *final(self).npt_view() == *final(r),
            final(self).wf() == old(self).wf(),
            final(self).vmcb_view() == old(self).vmcb_view(),
            final(self).regs_view() == old(self).regs_view(),
            final(self).msrpm_view() == old(self).msrpm_view(),
            final(self).iopm_view() == old(self).iopm_view(),
    {
        &mut self.npt
    }

    /// Nested page tables of the guest.
    pub fn npt(&self) -> (r: &Npt)
        requires
            self.wf(),
        ensures
            r == self.npt_view(),
    {
        &self.npt
    }

    /// Current privilege level of the guest.
    pub fn cpl(&self) -> (r: u8)
        requires
            self.wf(),
        ensures
            r == self.vmcb_view().state.cpl,
    {
        self.guest_vmcb.state.cpl
    }

    /// Address of the instruction after the one that caused the exit. Only valid after
    /// exits that save it (it is zero otherwise).
    pub fn next_rip(&self) -> (r: u64)
        requires
            self.wf(),
            self.vmcb_view().control.next_rip != 0,
        ensures
            r == self.vmcb_view().control.next_rip,
    {
        self.guest_vmcb.control.next_rip
    }

    pub fn tsc_offset(&self) -> (r: u64)
        requires
            self.wf(),
        ensures
            r == self.vmcb_view().control.tsc_offset,
    {
        self.guest_vmcb.control.tsc_offset
    }

    pub fn set_tsc_offset(&mut self, offset: u64)
        requires
            old(self).wf(),
        ensures
            final(self).wf(),
            final(self).vmcb_view() == ({
                let v = spec_dirty(old(self).vmcb_view(), old(self).clean_supported(), CLEAN_INTERCEPTS_AND_TSC);
                Vmcb { control: VmcbControlArea { tsc_offset: offset, ..v.control }, ..v }
            }),
            final(self).same_but_vmcb(old(self)),
    {
        self.vmcb_dirty(CLEAN_INTERCEPTS_AND_TSC);
        self.guest_vmcb.control.tsc_offset = offset;
    }

    /// The guest is in an interrupt shadow (interrupts are blocked for one instruction).
    pub fn in_interrupt_shadow(&self) -> (r: bool)
        requires
            self.wf(),
        ensures
            r == (self.vmcb_view().control.interruptibility & 1 == 1),
    {
        (self.guest_vmcb.control.interruptibility & 1) == 1
    }
}

fn clean_bit(register: Register) -> (r: Option<u32>)
    ensures
        r == spec_clean_bit(register),
        r matches Some(b) ==> b < 64,
{
    match register {
        Register::Efer => Some(CLEAN_CR),
        Register::Cr0 => Some(CLEAN_CR),
        Register::Cr2 => Some(CLEAN_CR2),
        Register::Cr3 => Some(CLEAN_CR),
        Register::Cr4 => Some(CLEAN_CR),
        Register::Dr6 => Some(CLEAN_DR),
        Register::Dr7 => Some(CLEAN_DR),
        Register::Star => None,
        Register::Lstar => None,
        Register::Cstar => None,
        Register::Sfmask => None,
        Register::KernelGsBase => None,
        Register::SysenterCs => None,
        Register::SysenterEsp => None,
        Register::SysenterEip => None,
        Register::Pat => Some(CLEAN_NP),
        _ => None,
    }
}

fn flush_mask(register: Register) -> (r: Option<u64>)
    ensures
        r == spec_flush_mask(register),
{
    match register {
        Register::Efer => Some(0xd00u64),
        Register::Cr0 => Some(0xe001_0000u64),
        Register::Cr2 => None,
        Register::Cr3 => Some(0xffff_ffff_ffff_ffffu64),
        Register::Cr4 => Some(0xb0u64),
        Register::Dr6 => None,
        Register::Dr7 => None,
        Register::Star => None,
        Register::Lstar => None,
        Register::Cstar => None,
        Register::Sfmask => None,
        Register::KernelGsBase => None,
        Register::SysenterCs => None,
        Register::SysenterEsp => None,
        Register::SysenterEip => None,
        Register::Pat => None,
        _ => None,
    }
}

/// A zeroed byte buffer.
fn zeroed_bytes(n: usize) -> (v: Vec<u8>)
    ensures
        v@ == Seq::new(n as nat, |i: int| 0u8),
{
    let mut v: Vec<u8> = Vec::new();
    let mut i: usize = 0;
    while i < n
        invariant
            i <= n,
            v@ == Seq::new(i as nat, |j: int| 0u8),
        decreases n - i,
    {
        v.push(0);
        i += 1;
    }
    v
}

/// The low `n` bits of `x`.
pub open spec fn low_bits_of(x: u8, n: u8) -> u8 {
    if n >= 8 {
        x
    } else {
        x & (((1u16 << n) - 1) as u8)
    }
}

/// Values of the bit patterns that allow both reads and writes, built two bits at a time.
proof fn lemma_msr_pattern_constants()
    by (bit_vector)
    ensures
        low_bits_of(0x55u8, 0) == 0 && low_bits_of(0x55u8, 2) == 1 && low_bits_of(0x55u8, 4) == 5 && low_bits_of(0x55u8, 6) == 0x15 && low_bits_of(0x55u8, 8) == 0x55,
        low_bits_of(0xaau8, 0) == 0 && low_bits_of(0xaau8, 2) == 2 && low_bits_of(0xaau8, 4) == 0xa && low_bits_of(0xaau8, 6) == 0x2a && low_bits_of(0xaau8, 8) == 0xaa,
        1u8 << 0u8 == 1 && 1u8 << 1u8 == 2 && 1u8 << 2u8 == 4 && 1u8 << 3u8 == 8 && 1u8 << 4u8 == 16 && 1u8 << 5u8 == 32 && 1u8 << 6u8 == 64 && 1u8 << 7u8 == 128,
        (0u8 | 1u8) == 1 && (0u8 | 2u8) == 2 && (1u8 | 2u8) == 3 && (0u8 | 0u8) == 0,
        (1u8 | 4u8) == 5 && (2u8 | 8u8) == 0xa && (3u8 | 4u8) == 7 && (7u8 | 8u8) == 0xf && (1u8 | 0u8) == 1 && (2u8 | 0u8) == 2,
        (5u8 | 16u8) == 0x15 && (0xau8 | 32u8) == 0x2a && (0xfu8 | 16u8) == 0x1f && (0x1fu8 | 32u8) == 0x3f && (5u8 | 0u8) == 5 && (0xau8 | 0u8) == 0xa && (0u8 | 4u8) == 4 && (0u8 | 8u8) == 8 && (0u8 | 0xau8) == 0xa && (0u8 | 5u8) == 5,
        (0x15u8 | 64u8) == 0x55 && (0x2au8 | 128u8) == 0xaa && (0x3fu8 | 64u8) == 0x7f && (0x7fu8 | 128u8) == 0xff && (0x15u8 | 0u8) == 0x15 && (0x2au8 | 0u8) == 0x2a && (0u8 | 16u8) == 16 && (0u8 | 32u8) == 32 && (0u8 | 0x2au8) == 0x2a && (0u8 | 0x15u8) == 0x15,
        (0x55u8 | 0u8) == 0x55 && (0u8 | 0xaau8) == 0xaa && (0x55u8 | 0xaau8) == 0xff && (0u8 | 64u8) == 64 && (0u8 | 128u8) == 128 && (0x5u8 | 0xau8) == 0xf && (0x15u8 | 0x2au8) == 0x3f && (1u8 | 2u8) == 3,
        0u8 | 0u8 == 0,
        msr_byte(0xffu8, 0u8, true, true) == 0xffu8 && msr_byte(0xffu8, 2u8, true, true) == 0xffu8 && msr_byte(0xffu8, 4u8, true, true) == 0xffu8 && msr_byte(0xffu8, 6u8, true, true) == 0xffu8,
        msr_byte(0x55u8, 0u8, true, false) == 0x55u8 && msr_byte(0x55u8, 2u8, true, false) == 0x55u8 && msr_byte(0x55u8, 4u8, true, false) == 0x55u8 && msr_byte(0x55u8, 6u8, true, false) == 0x55u8,
        msr_byte(0xaau8, 0u8, false, true) == 0xaau8 && msr_byte(0xaau8, 2u8, false, true) == 0xaau8 && msr_byte(0xaau8, 4u8, false, true) == 0xaau8 && msr_byte(0xaau8, 6u8, false, true) == 0xaau8,
        msr_byte(0u8, 0u8, false, false) == 0u8 && msr_byte(0u8, 2u8, false, false) == 0u8 && msr_byte(0u8, 4u8, false, false) == 0u8 && msr_byte(0u8, 6u8, false, false) == 0u8,
{
}

proof fn lemma_all_msrs_step(prev: u8, bit: u8, read: bool, write: bool)
    requires
        bit < 8,
        bit % 2 == 0,
        prev == (if read { low_bits_of(0x55u8, bit) } else { 0u8 }) | (if write { low_bits_of(0xaau8, bit) } else { 0u8 }),
    ensures
        ({
            let v1 = if read { prev | (1u8 << bit) } else { prev };
            let v2 = if write { v1 | (1u8 << ((bit + 1) as u8)) } else { v1 };
            v2 == (if read { low_bits_of(0x55u8, (bit + 2) as u8) } else { 0u8 }) | (if write { low_bits_of(0xaau8, (bit + 2) as u8) } else { 0u8 })
        }),
{
    assert(bit == 0 || bit == 2 || bit == 4 || bit == 6);
    lemma_msr_pattern_constants();
    assert(forall|a: u8, b: u8| #[trigger] (a | b) == a | b);
}

proof fn lemma_group_mask_single(i: Intercept)
    ensures
        forall|g: usize| #[trigger] group_mask(seq![i], g) == (if spec_intercept(i).0 == g { 1u32 << spec_intercept(i).1 } else { 0u32 }),
{
    assert forall|g: usize| #[trigger] group_mask(seq![i], g) == (if spec_intercept(i).0 == g { 1u32 << spec_intercept(i).1 } else { 0u32 }) by {
        let s = seq![i];
        assert(s.drop_last() =~= Seq::<Intercept>::empty());
        assert(group_mask(Seq::<Intercept>::empty(), g) == 0);
        assert(s.last() == i);
        let b = spec_intercept(i).1;
        lemma_or_masks(1u32 << b, 0, 0);
    }
}

/// Setting or clearing mask bits one group after another.
proof fn lemma_or_masks(f: u32, m: u32, b: u32)
    by (bit_vector)
    ensures
        f | 0u32 == f,
        f & !0u32 == f,
        0u32 | f == f,
        (f | m) | b == f | (m | b),
        (f & !m) & !b == f & !(m | b),
        (f | m) | m == f | m,
{
}

/// Every intercept in `s` is enabled in the control area `c`: enabling them changes nothing.
pub open spec fn intercepts_enabled(c: VmcbControlArea, s: Seq<Intercept>) -> bool {
    spec_intercepts(c, s, true) == c
}

/// Intercepts that were just enabled are enabled.
pub proof fn lemma_intercepts_enabled(c: VmcbControlArea, s: Seq<Intercept>)
    ensures
        intercepts_enabled(spec_intercepts(c, s, true), s),
{
    assert forall|f: u32, m: u32| #[trigger] apply_mask(apply_mask(f, m, true), m, true) == apply_mask(
        f,
        m,
        true,
    ) by {
        lemma_or_masks(f, m, 0);
    }
}

proof fn lemma_intercepts_empty(c: VmcbControlArea, enable: bool)
    ensures
        spec_intercepts(c, Seq::<Intercept>::empty(), enable) == c,
{
    assert forall|f: u32| #[trigger] apply_mask(f, 0, enable) == f by {
        lemma_or_masks(f, 0, 0);
    }
    assert forall|g: usize| #[trigger] group_mask(Seq::<Intercept>::empty(), g) == 0 by {}
}

proof fn lemma_intercepts_step(c: VmcbControlArea, s: Seq<Intercept>, i: int, enable: bool)
    requires
        0 <= i < s.len(),
    ensures
        spec_intercepts(spec_intercepts(c, s.take(i), enable), seq![s[i]], enable) == spec_intercepts(c, s.take(i + 1), enable),
{
    lemma_group_mask_single(s[i]);
    assert(s.take(i + 1).drop_last() =~= s.take(i));
    assert(s.take(i + 1).last() == s[i]);
    assert forall|f: u32, m: u32, b: u32| #[trigger] apply_mask(apply_mask(f, m, enable), b, enable) == apply_mask(f, m | b, enable) by {
        lemma_or_masks(f, m, b);
    }
    assert forall|f: u32, m: u32| #[trigger] apply_mask(apply_mask(f, m, enable), 0, enable) == apply_mask(f, m, enable) by {
        lemma_or_masks(f | m, 0, 0);
        lemma_or_masks(f & !m, 0, 0);
    }
}

/// Writing the two permission bits at `bit` of a byte: they read back as written, and the
/// other bit pairs keep their value.
proof fn lemma_msr_byte_bits(o: u8, bit: u8, k: u8, r: u8, w: u8)
    by (bit_vector)
    requires
        bit < 8,
        k < 8,
        bit % 2 == 0,
        k % 2 == 0,
        r <= 1,
        w <= 1,
    ensures
        k == bit ==> (((o & !(3u8 << bit)) | (r << bit) | (w << ((bit + 1) as u8))) >> k) & 3u8 == r
            | (w << 1u8),
        k != bit ==> (((o & !(3u8 << bit)) | (r << bit) | (w << ((bit + 1) as u8))) >> k) & 3u8 == (
        o >> k) & 3u8,
        w == 1 ==> w << 1u8 == 2u8,
        w == 0 ==> w << 1u8 == 0u8,
{
}

proof fn lemma_msr_intercept_bits(before: Seq<u8>, msr: u32, read: bool, write: bool)
    requires
        msr_supported(msr),
        before.len() == MSRPM_SIZE,
    ensures
        ({
            let p = msr_position(msr);
            let after = before.update(p / 8, msr_byte(before[p / 8], (p % 8) as u8, read, write));
            (after[p / 8] >> ((p % 8) as u8)) & 3u8 == (if read { 1u8 } else { 0u8 }) | (if write { 2u8 } else { 0u8 })
        }),
{
    let p = msr_position(msr);
    let bit = (p % 8) as u8;
    let o = before[p / 8];
    let r: u8 = if read { 1 } else { 0 };
    let w: u8 = if write { 1 } else { 0 };
    assert(p % 2 == 0);
    lemma_msr_byte_bits(o, bit, bit, r, w);
}

proof fn lemma_msr_intercept_other(before: Seq<u8>, msr: u32, read: bool, write: bool, other: u32)
    requires
        msr_supported(msr),
        msr_supported(other),
        before.len() == MSRPM_SIZE,
    ensures
        ({
            let p = msr_position(msr);
            let q = msr_position(other);
            let after = before.update(p / 8, msr_byte(before[p / 8], (p % 8) as u8, read, write));
            msr != other ==> (after[q / 8] >> ((q % 8) as u8)) & 3u8 == (before[q / 8] >> ((q % 8) as u8)) & 3u8
        }),
{
    let p = msr_position(msr);
    let q = msr_position(other);
    if msr != other && p / 8 == q / 8 {
        let bit = (p % 8) as u8;
        let k = (q % 8) as u8;
        assert(bit != k);
        let o = before[p / 8];
        let r: u8 = if read { 1 } else { 0 };
        let w: u8 = if write { 1 } else { 0 };
        lemma_msr_byte_bits(o, bit, k, r, w);
    }
}

} // verus!
