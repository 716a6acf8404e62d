//! Local APIC modes and the register values that depend on them.
use vstd::prelude::*;

verus! {

pub const APIC_TIMER_IRQ: u8 = 0xfe;

pub const SPURIOUS_IRQ: u8 = 0xff;

/// Registers of the local APIC.
#[derive(Copy, Clone, PartialEq, Eq, Structural, Debug)]
pub enum Register {
    ApicID,
    Eoi,
    SpuriousInterruptVector,
    TimerLvt,
    TimerInitialCount,
    TimerCurrentCount,
    TimerDivideConfiguration,
}

/// Offset of register `r` in the xAPIC register page.
pub open spec fn spec_register_offset(r: Register) -> u32 {
    match r {
        Register::ApicID => 0x20,
        Register::Eoi => 0xb0,
        Register::SpuriousInterruptVector => 0xf0,
        Register::TimerLvt => 0x320,
        Register::TimerInitialCount => 0x380,
        Register::TimerCurrentCount => 0x390,
        Register::TimerDivideConfiguration => 0x3e0,
    }
}

impl Register {
    /// Offset of this register in the xAPIC register page.
    pub fn offset(&self) -> (r: u32)
        ensures
            r == spec_register_offset(*self),
    {
        match self {
            Register::ApicID => 0x20,
            Register::Eoi => 0xb0,
            Register::SpuriousInterruptVector => 0xf0,
            Register::TimerLvt => 0x320,
            Register::TimerInitialCount => 0x380,
            Register::TimerCurrentCount => 0x390,
            Register::TimerDivideConfiguration => 0x3e0,
        }
    }

    /// MSR through which this register is reached in x2APIC mode: 0x800 plus the xAPIC
    /// offset in 16 byte units.
    pub fn msr(&self) -> (r: u32)
        ensures
            r == 0x800 + spec_register_offset(*self) / 16,
    {
        0x800 + self.offset() / 16
    }
}

#[derive(Copy, Clone, PartialEq, Eq, Structural, Debug)]
pub enum ApicMode {
    XApic,
    X2Apic,
}

/// A local APIC, reached through its memory mapped register page (xAPIC) or through MSRs
/// (x2APIC).
#[derive(Copy, Clone, PartialEq, Eq, Structural, Debug)]
pub enum Apic {
    XApic,
    X2Apic,
}

impl Apic {
    pub fn mode(&self) -> (r: ApicMode)
        ensures
            r == (match self {
                Apic::XApic => ApicMode::XApic,
                Apic::X2Apic => ApicMode::X2Apic,
            }),
    {
        match self {
            Apic::XApic => ApicMode::XApic,
            Apic::X2Apic => ApicMode::X2Apic,
        }
    }

    /// APIC ID held in a raw value of the APIC ID register: the top byte in xAPIC mode, the
    /// whole value in x2APIC mode.
    pub fn apic_id_from_register(&self, raw: u32) -> (r: u32)
        ensures
            r == (match self {
                Apic::XApic => raw >> 24u32,
                Apic::X2Apic => raw,
            }),
    {
        match self {
            Apic::XApic => raw >> 24,
            Apic::X2Apic => raw,
        }
    }

    /// Value of the interrupt command register that sends `ipi` to the APIC `dest_apic`.
    pub fn icr(&self, dest_apic: u32, ipi: u32) -> (r: u64)
        ensures
            r == (((match self {
                Apic::XApic => dest_apic << 24u32,
                Apic::X2Apic => dest_apic,
            }) as u64) << 32u64) | ipi as u64,
    {
        // Adjust the destination APIC ID based on current APIC mode.
        let dest_apic = match self {
            Apic::XApic => dest_apic << 24,
            Apic::X2Apic => dest_apic,
        };
        ((dest_apic as u64) << 32) | ipi as u64
    }
}

} // verus!
