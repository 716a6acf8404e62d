//! Spinlock decisions: who may take a lock, when interrupts must be off, and how it is
//! released. The atomic instructions and the interrupt flag are driven by the caller.
use vstd::prelude::*;

verus! {

/// Access to the interrupt state of the current processor, supplied by the environment that
/// uses the locks.
pub trait Interrupts {
    fn in_interrupt() -> bool;

    fn in_exception() -> bool;

    fn core_id() -> u32;

    fn disable_interrupts();

    fn enable_interrupts();
}

/// Interrupt state of the kernel: locks are never taken from interrupt or exception context
/// and interrupts are left alone.
pub struct KernelInterrupts;

/// Interrupt state of the bootloader, which runs with interrupts disabled.
pub struct EmptyInterrupts;

/// Why a lock cannot be taken.
#[derive(Copy, Clone, PartialEq, Eq, Structural, Debug)]
pub enum LockError {
    /// A preemptible lock was requested in an interrupt handler.
    InInterrupt,
    /// The lock is already held by the requesting core.
    Deadlock,
}

/// How a held lock was taken, which decides what releasing it does.
#[derive(Copy, Clone, PartialEq, Eq, Structural, Debug)]
pub struct LockGuard {
    /// Taken without checking that it was free; releasing it leaves the lock alone.
    pub force_taken: bool,
    /// Taken without the interrupt and deadlock checks.
    pub unsafe_locked: bool,
}

/// Core number that marks a lock as held by nobody.
pub const NO_CORE: u32 = 0xffff_ffff;

/// Who holds a lock, and how it must be taken.
struct LockState {
    locked: bool,
    non_preemptible: bool,
    lock_core: u32,
}

impl LockState {
    /// A lock that nobody holds has no holder.
    #[verifier::type_invariant]
    spec fn no_holder_when_free(&self) -> bool {
        !self.locked ==> self.lock_core == NO_CORE
    }
}

/// A lock that protects `value`.
pub struct Lock<T> {
    state: LockState,
    value: T,
}

impl<T> Lock<T> {
    /// The protected value.
    pub closed spec fn value(&self) -> T {
        self.value
    }

    /// Somebody holds the lock.
    pub closed spec fn is_locked_spec(&self) -> bool {
        self.state.locked
    }

    /// Interrupts are disabled while the lock is held.
    pub closed spec fn non_preemptible_spec(&self) -> bool {
        self.state.non_preemptible
    }

    /// Core that holds the lock, `NO_CORE` when it is free.
    pub closed spec fn holder(&self) -> u32 {
        self.state.lock_core
    }

    /// Create a new preemptible lock around `value`.
    pub fn new(value: T) -> (r: Self)
        ensures
            r.value() == value,
            !r.is_locked_spec(),
            !r.non_preemptible_spec(),
            r.holder() == NO_CORE,
    {
        Lock { value, state: LockState { locked: false, lock_core: NO_CORE, non_preemptible: false } }
    }

    /// Create a new lock around `value` that keeps interrupts disabled while it is held.
    pub fn new_non_preemptible(value: T) -> (r: Self)
        ensures
            r.value() == value,
            !r.is_locked_spec(),
            r.non_preemptible_spec(),
            r.holder() == NO_CORE,
    {
        Lock { value, state: LockState { locked: false, lock_core: NO_CORE, non_preemptible: true } }
    }

    /// Somebody holds the lock. A lock that nobody holds has no holder core.
    pub fn is_locked(&self) -> (r: bool)
        ensures
            r == self.is_locked_spec(),
            !r ==> self.holder() == NO_CORE,
    {
        proof {
            use_type_invariant(&self.state);
        }
        self.state.locked
    }

    /// Checks made before spinning for the lock on `core_id`. `Ok(true)` means that
    /// interrupts must be disabled first; a preemptible lock cannot be taken in an interrupt
    /// handler, and no lock can be taken again by the core that holds it. A free lock has
    /// no holder, so it never reports a deadlock to a real core.
    pub fn pre_lock(&self, in_interrupt: bool, core_id: u32) -> (r: Result<bool, LockError>)
        ensures
            !self.is_locked_spec() ==> self.holder() == NO_CORE,
            r == (if !self.non_preemptible_spec() && in_interrupt {
                Err(LockError::InInterrupt)
            } else if self.holder() == core_id {
                Err(LockError::Deadlock)
            } else {
                Ok(self.non_preemptible_spec())
            }),
    {
        proof {
            use_type_invariant(&self.state);
        }
        if !self.state.non_preemptible && in_interrupt {
            return Err(LockError::InInterrupt);
        }

        // If this lock is locked by our core that means that we have deadlocked.
        if self.state.lock_core == core_id {
            return Err(LockError::Deadlock);
        }
        Ok(self.state.non_preemptible)
    }

    /// One attempt to take the lock for `core_id`: succeeds exactly when it is free, and a
    /// free lock had no holder.
    pub fn try_acquire(&mut self, core_id: u32) -> (r: bool)
        ensures
            r ==> old(self).holder() == NO_CORE,
            r == !old(self).is_locked_spec(),
            final(self).is_locked_spec(),
            final(self).value() == old(self).value(),
            final(self).non_preemptible_spec() == old(self).non_preemptible_spec(),
            final(self).holder() == (if r {
                core_id
            } else {
                old(self).holder()
            }),
    {
        proof {
            use_type_invariant(&self.state);
        }
        if self.state.locked {
            false
        } else {
            self.state.locked = true;
            self.state.lock_core = core_id;
            true
        }
    }

    /// Take the lock for `core_id` after checking it is free, without the interrupt and
    /// deadlock checks.
    pub fn try_lock_unsafe(&mut self, core_id: u32) -> (r: Option<LockGuard>)
        ensures
            r is Some == !old(self).is_locked_spec(),
            r is Some ==> r->0 == (LockGuard { force_taken: false, unsafe_locked: true }),
            final(self).is_locked_spec(),
            final(self).value() == old(self).value(),
            final(self).non_preemptible_spec() == old(self).non_preemptible_spec(),
            final(self).holder() == (if r is Some {
                core_id
            } else {
                old(self).holder()
            }),
    {
        if self.try_acquire(core_id) {
            Some(LockGuard { force_taken: false, unsafe_locked: true })
        } else {
            None
        }
    }

    /// Take the lock by force, whoever holds it.
    pub fn force_lock_unsafe(&self) -> (r: LockGuard)
        ensures
            r == (LockGuard { force_taken: true, unsafe_locked: true }),
    {
        LockGuard { force_taken: true, unsafe_locked: true }
    }

    /// The guard of a lock taken through `pre_lock` and `try_acquire`.
    pub fn guard(&self) -> (r: LockGuard)
        ensures
            r == (LockGuard { force_taken: false, unsafe_locked: false }),
    {
        LockGuard { force_taken: false, unsafe_locked: false }
    }

    /// The protected value, for the holder of the lock.
    pub fn get_mut(&mut self) -> (r: &mut T)
        ensures
            *r == old(self).value(),
            final(self).value() == *final(r),
            final(self).is_locked_spec() == old(self).is_locked_spec(),
            final(self).non_preemptible_spec() == old(self).non_preemptible_spec(),
            final(self).holder() == old(self).holder(),
    {
        &mut self.value
    }

    /// Release a lock held through `guard`. A lock taken by force stays as it is. The
    /// result says whether interrupts must be enabled again.
    pub fn unlock(&mut self, guard: LockGuard) -> (r: bool)
        ensures
            final(self).value() == old(self).value(),
            final(self).non_preemptible_spec() == old(self).non_preemptible_spec(),
            guard.force_taken ==> (final(self).is_locked_spec() == old(self).is_locked_spec()
                && final(self).holder() == old(self).holder() && !r),
            !guard.force_taken ==> (!final(self).is_locked_spec() && final(self).holder()
                == NO_CORE && r == (!guard.unsafe_locked && old(self).non_preemptible_spec())),
    {
        if guard.force_taken {
            return false;
        }
        self.state.lock_core = NO_CORE;
        self.state.locked = false;

        // Interrupts come back only if this lock was taken safely.
        !guard.unsafe_locked && self.state.non_preemptible
    }
}

} // verus!
