//! Interrupt descriptor table entries and the state saved on an interrupt.
use vstd::prelude::*;

verus! {

#[derive(Debug, Clone, Copy)]
pub struct InterruptFrame {
    pub rip: u64,
    pub cs: u64,
    pub rflags: u64,
    pub rsp: u64,
    pub ss: u64,
}

#[derive(Debug, Clone, Copy)]
pub struct RegisterState {
    pub r15: u64,
    pub r14: u64,
    pub r13: u64,
    pub r12: u64,
    pub r11: u64,
    pub r10: u64,
    pub r9: u64,
    pub r8: u64,
    pub rbp: u64,
    pub rdi: u64,
    pub rsi: u64,
    pub rdx: u64,
    pub rcx: u64,
    pub rbx: u64,
    pub rax: u64,
}

/// A 16 byte interrupt gate of the 64 bit IDT.
#[derive(Clone, Copy)]
pub struct IdtGate {
    pub data: [u32; 4],
}

impl IdtGate {
    /// Gate to handler `offset` in code segment `cs`, with gate type `gate_type`, privilege
    /// level `dpl` and interrupt stack `ist`.
    pub fn new(present: bool, cs: u16, offset: u64, gate_type: u32, dpl: u32, ist: u32) -> (r: Self)
        requires
            dpl <= 3,
            ist <= 7,
            gate_type <= 31,
        ensures
            r.data@ == seq![
                ((offset as u32) & 0xffff) | ((cs as u32) << 16u32),
                ((offset as u32) & 0xffff0000) | ist | (gate_type << 8u32) | (dpl << 13u32) | ((
                if present {
                    1u32
                } else {
                    0u32
                }) << 15u32),
                (offset >> 32u64) as u32,
                0u32,
            ],
    {
        let d0 = ((offset as u32) & 0xffff) | ((cs as u32) << 16);
        let p: u32 = if present {
            1
        } else {
            0
        };
        let d1 = ((offset as u32) & 0xffff0000) | ist | (gate_type << 8) | (dpl << 13) | (p << 15);
        let d2 = (offset >> 32) as u32;
        let data = [d0, d1, d2, 0u32];
        assert(data@ =~= seq![d0, d1, d2, 0u32]);
        Self { data }
    }
}

/// Number of exception vectors that have a name.
pub const NAMED_EXCEPTIONS: u8 = 21;

/// An interrupt that the kernel cannot handle, as it is reported.
#[derive(Copy, Clone, PartialEq, Eq, Structural, Debug)]
pub enum FatalInterrupt {
    /// A page fault, with the bits of its error code: the page was present, the access was
    /// a write, a reserved bit was set in an entry, the access was an instruction fetch.
    PageFault { present: bool, write: bool, reserved: bool, execute: bool },
    /// An exception with a name.
    Exception { vector: u8 },
    /// An exception vector without a name.
    UnknownException { vector: u8 },
    /// A hardware interrupt that nothing handles.
    Irq { vector: u8 },
}

/// How an interrupt at `vector` with error code `error` that nothing handles is reported.
pub fn classify_fatal(vector: u8, error: u64) -> (r: FatalInterrupt)
    ensures
        r == (if vector >= 32 {
            FatalInterrupt::Irq { vector }
        } else if vector == 14 {
            FatalInterrupt::PageFault {
                present: error & 1 != 0,
                write: error & 2 != 0,
                reserved: error & 8 != 0,
                execute: error & 16 != 0,
            }
        } else if vector < NAMED_EXCEPTIONS {
            FatalInterrupt::Exception { vector }
        } else {
            FatalInterrupt::UnknownException { vector }
        }),
{
    if vector >= 32 {
        FatalInterrupt::Irq { vector }
    } else if vector == 14 {
        FatalInterrupt::PageFault {
            present: error & 1 != 0,
            write: error & 2 != 0,
            reserved: error & 8 != 0,
            execute: error & 16 != 0,
        }
    } else if vector < NAMED_EXCEPTIONS {
        FatalInterrupt::Exception { vector }
    } else {
        FatalInterrupt::UnknownException { vector }
    }
}

/// Name of the exception at `vector`.
pub open spec fn spec_exception_name(vector: u8) -> Seq<char> {
    match vector {
        0 => "#DE"@,
        1 => "#DB"@,
        2 => "NMI"@,
        3 => "#BP"@,
        4 => "#OF"@,
        5 => "#BR"@,
        6 => "#UD"@,
        7 => "#NM"@,
        8 => "#DF"@,
        9 => "Coprocessor Segment Overrun"@,
        10 => "#TS"@,
        11 => "#NP"@,
        12 => "#SS"@,
        13 => "#GP"@,
        14 => "#PF"@,
        15 => "Reserved"@,
        16 => "#MF"@,
        17 => "#AC"@,
        18 => "#MC"@,
        19 => "#XM"@,
        _ => "#VE"@,
    }
}

/// Name of the exception at `vector`, one of the named ones.
pub fn exception_name(vector: u8) -> (r: &'static str)
    requires
        vector < NAMED_EXCEPTIONS,
    ensures
        r@ == spec_exception_name(vector),
{
    match vector {
        0 => "#DE",
        1 => "#DB",
        2 => "NMI",
        3 => "#BP",
        4 => "#OF",
        5 => "#BR",
        6 => "#UD",
        7 => "#NM",
        8 => "#DF",
        9 => "Coprocessor Segment Overrun",
        10 => "#TS",
        11 => "#NP",
        12 => "#SS",
        13 => "#GP",
        14 => "#PF",
        15 => "Reserved",
        16 => "#MF",
        17 => "#AC",
        18 => "#MC",
        19 => "#XM",
        _ => "#VE",
    }
}

/// What a faulting access tried to do to its address.
pub fn page_fault_action(write: bool, execute: bool) -> (r: &'static str)
    ensures
        r@ == (if execute {
            "execute"@
        } else if write {
            "write to"@
        } else {
            "read"@
        }),
{
    if execute {
        "execute"
    } else if write {
        "write to"
    } else {
        "read"
    }
}

/// Why a page fault happened, from the bits of its error code.
pub fn page_fault_reason(present: bool, write: bool, reserved: bool, execute: bool) -> (r: &'static str)
    ensures
        r@ == (if !present {
            "Page was not present."@
        } else if reserved {
            "Reverved bit was set in one of the page table entries."@
        } else if write {
            "Page was not writable."@
        } else if execute {
            "Page was not executable."@
        } else {
            "Unknown reason for page fault."@
        }),
{
    if !present {
        "Page was not present."
    } else if reserved {
        "Reverved bit was set in one of the page table entries."
    } else if write {
        "Page was not writable."
    } else if execute {
        "Page was not executable."
    } else {
        "Unknown reason for page fault."
    }
}

} // verus!
