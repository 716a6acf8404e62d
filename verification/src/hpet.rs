//! High Precision Event Timer: what its capability register says and the register values that
//! set it up, enable and disable it.
use vstd::prelude::*;

verus! {

/// Offset of the General Capabilities and ID register.
pub const CAPABILITIES_REGISTER: usize = 0x00;

/// Offset of the General Configuration register.
pub const CONFIGURATION_REGISTER: usize = 0x10;

/// Offset of the General Interrupt Status register.
pub const INTERRUPT_STATUS_REGISTER: usize = 0x20;

/// Offset of the Main Counter Value register.
pub const COUNTER_REGISTER: usize = 0xf0;

/// Shifting by zero changes nothing, and a mask of no bits keeps nothing.
pub(crate) proof fn lemma_no_shift(x: u64)
    by (bit_vector)
    ensures
        (1u64 << 0u64) == 1u64,
        x & (0xffff_ffff_ffff_ffffu64 << 0u64) == x,
        x & (((1u64 << 0u64) - 1) as u64) == (((1u64 << 0u64) - 1) as u64),
        0u64 & 0xfffu64 == 0,
{
}

pub struct Hpet {
    timers: usize,
    clock_period: u64,
    is_64bit: bool,
}

impl Hpet {
    pub closed spec fn timers_spec(&self) -> usize {
        self.timers
    }

    pub closed spec fn period_spec(&self) -> u64 {
        self.clock_period
    }

    pub closed spec fn is_64bit_spec(&self) -> bool {
        self.is_64bit
    }

    /// The timer block described by the value of its General Capabilities register: the
    /// counter period in femtoseconds in the top half, the counter width in bit 13 and the
    /// index of the last timer in bits 8 to 12.
    pub fn from_capabilities(capabilities: u64) -> (r: Self)
        requires
            capabilities >> 32u64 > 0,
        ensures
            r.period_spec() == capabilities >> 32u64,
            r.is_64bit_spec() == ((capabilities >> 13u64) & 1 != 0),
            r.timers_spec() == ((capabilities >> 8u64) & 0x1f) + 1,
            1 <= r.timers_spec() <= 32,
    {
        // The period at which the counter increments in femtoseconds (10^-15 seconds).
        let clock_period = capabilities >> 32;

        // 0 if the main counter is 32 bits wide.
        let count_size_cap = (capabilities >> 13) & 0b1;

        // Index of the last timer in this block.
        let num_tim_cap = (capabilities >> 8) & 0b11111;
        assert(num_tim_cap <= 31) by (bit_vector)
            requires
                num_tim_cap == (capabilities >> 8u64) & 0x1f,
        ;
        Self { timers: (num_tim_cap + 1) as usize, clock_period, is_64bit: count_size_cap != 0 }
    }

    /// General configuration with the timer and the LegacyReplacement route disabled.
    pub fn initial_configuration(configuration: u64) -> (r: u64)
        ensures
            r == configuration & !3u64,
    {
        // Disable the timer.
        let c1 = configuration & !(1u64 << 0);

        // Disable LegacyReplacement route.
        let c2 = c1 & !(1u64 << 1);
        assert(c2 == configuration & !3u64) by (bit_vector)
            requires
                c1 == configuration & !(1u64 << 0u64),
                c2 == c1 & !(1u64 << 1u64),
        ;
        c2
    }

    /// Interrupt status with the `Interrupt active` bit of every timer cleared.
    pub fn cleared_interrupt_status(&self, interrupt_status: u64) -> (r: u64)
        requires
            self.timers_spec() <= 32,
        ensures
            r == interrupt_status & (0xffff_ffff_ffff_ffffu64 << (self.timers_spec() as u64)),
    {
        let mut status = interrupt_status;
        proof {
            lemma_no_shift(interrupt_status);
        }
        let mut timer: usize = 0;
        while timer < self.timers
            invariant
                timer <= self.timers,
                self.timers <= 32,
                status == interrupt_status & (0xffff_ffff_ffff_ffffu64 << (timer as u64)),
            decreases self.timers - timer,
        {
            let t = timer as u64;
            let next = status & !(1u64 << t);
            assert(next == interrupt_status & (0xffff_ffff_ffff_ffffu64 << ((t + 1) as u64))) by (bit_vector)
                requires
                    t < 32,
                    status == interrupt_status & (0xffff_ffff_ffff_ffffu64 << t),
                    next == status & !(1u64 << t),
            ;
            status = next;
            timer += 1;
        }
        status
    }

    /// Offset of the Configuration and Capabilities register of `timer`.
    pub fn timer_config_register(&self, timer: usize) -> (r: usize)
        requires
            timer < self.timers_spec(),
            self.timers_spec() <= 32,
        ensures
            r == 0x100 + timer * 0x20,
    {
        0x100 + timer * 0x20
    }

    /// Timer configuration with FSB interrupt delivery and the timer's interrupts disabled.
    pub fn timer_configuration(value: u64) -> (r: u64)
        ensures
            r == value & !((1u64 << 14u64) | (1u64 << 2u64)),
    {
        // Disable FSB interrupt delivery.
        let v1 = value & !(1u64 << 14);

        // Disable interrupts for this timer.
        let v2 = v1 & !(1u64 << 2);
        assert(v2 == value & !((1u64 << 14u64) | (1u64 << 2u64))) by (bit_vector)
            requires
                v1 == value & !(1u64 << 14u64),
                v2 == v1 & !(1u64 << 2u64),
        ;
        v2
    }

    /// General configuration with the counter running or halted.
    pub fn set_enabled(&self, configuration: u64, enabled: bool) -> (r: u64)
        ensures
            r == (if enabled {
                configuration | 1
            } else {
                configuration & !1u64
            }),
    {
        proof {
            lemma_no_shift(configuration);
        }
        if enabled {
            configuration | (1u64 << 0)
        } else {
            configuration & !(1u64 << 0)
        }
    }

    /// General configuration that starts the counter.
    pub fn enable(&self, configuration: u64) -> (r: u64)
        ensures
            r == configuration | 1,
    {
        self.set_enabled(configuration, true)
    }

    /// General configuration that halts the counter.
    pub fn disable(&self, configuration: u64) -> (r: u64)
        ensures
            r == configuration & !1u64,
    {
        self.set_enabled(configuration, false)
    }

    /// Counter period in femtoseconds.
    pub fn period(&self) -> (r: u64)
        ensures
            r == self.period_spec(),
    {
        self.clock_period
    }

    /// The main counter is 64 bits wide.
    pub fn is_64bit(&self) -> (r: bool)
        ensures
            r == self.is_64bit_spec(),
    {
        self.is_64bit
    }

    /// Number of timers in the block.
    pub fn timers(&self) -> (r: usize)
        ensures
            r == self.timers_spec(),
    {
        self.timers
    }
}

} // verus!
