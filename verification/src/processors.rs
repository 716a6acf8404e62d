//! Processor bookkeeping: the state of every core and the list of local APICs that the
//! MADT describes.
use vstd::prelude::*;
use std::collections::BTreeSet;
use crate::acpi::le;
use crate::elf::{decode_uint, Endianness};

verus! {

/// Maximum number of cores allowed on the system.
pub const MAX_CORES: usize = 1024;

#[derive(Clone, Copy, PartialEq, Eq, Structural, Debug)]
pub enum CoreState {
    /// The core has checked in with the kernel and is actively running.
    Online,
    /// The core has been launched by the kernel, but has not yet registered with the kernel.
    Launched,
    /// This APIC ID does not exist.
    NoCore,
    /// This core is halted forever.
    Halted,
}

/// Raw value of state `s`.
pub open spec fn spec_state_raw(s: CoreState) -> u8 {
    match s {
        CoreState::Online => 1,
        CoreState::Launched => 2,
        CoreState::NoCore => 3,
        CoreState::Halted => 4,
    }
}

impl CoreState {
    /// The state with raw value `value`.
    pub fn from_raw(value: u8) -> (r: CoreState)
        requires
            1 <= value <= 4,
        ensures
            spec_state_raw(r) == value,
    {
        match value {
            1 => CoreState::Online,
            2 => CoreState::Launched,
            3 => CoreState::NoCore,
            _ => CoreState::Halted,
        }
    }

    /// Raw value of this state.
    pub fn raw(&self) -> (r: u8)
        ensures
            r == spec_state_raw(*self),
    {
        match self {
            CoreState::Online => 1,
            CoreState::Launched => 2,
            CoreState::NoCore => 3,
            CoreState::Halted => 4,
        }
    }
}

/// State of all cores on the system, by APIC ID, and the number of cores.
pub struct Processors {
    states: Vec<CoreState>,
    total_cores: u32,
}

impl Processors {
    pub closed spec fn states(&self) -> Seq<CoreState> {
        self.states@
    }

    pub closed spec fn total(&self) -> u32 {
        self.total_cores
    }

    /// No core exists yet and the number of cores is unknown.
    pub fn new() -> (r: Self)
        ensures
            r.states() == Seq::new(MAX_CORES as nat, |i: int| CoreState::NoCore),
            r.total() == 0,
    {
        let states = vec![CoreState::NoCore; MAX_CORES];
        assert(states@ =~= Seq::new(MAX_CORES as nat, |i: int| CoreState::NoCore));
        Self { states, total_cores: 0 }
    }

    pub fn set_core_state(&mut self, apic_id: u32, state: CoreState)
        requires
            (apic_id as int) < old(self).states().len(),
        ensures
            final(self).states() == old(self).states().update(apic_id as int, state),
            final(self).total() == old(self).total(),
    {
        self.states.set(apic_id as usize, state);
    }

    pub fn core_state(&self, apic_id: u32) -> (r: CoreState)
        requires
            (apic_id as int) < self.states().len(),
        ensures
            r == self.states()[apic_id as int],
    {
        self.states[apic_id as usize]
    }

    pub fn set_total_cores(&mut self, total: u32)
        ensures
            final(self).total() == total,
            final(self).states() == old(self).states(),
    {
        self.total_cores = total;
    }

    /// Number of cores on the system, once ACPI initialization has counted them.
    pub fn total_cores(&self) -> (r: u32)
        requires
            self.total() > 0,
        ensures
            r == self.total(),
    {
        self.total_cores
    }

    /// A core checks in: a launched application processor becomes online; the bootstrap
    /// processor was marked online already.
    pub fn notify_core_online(&mut self, apic_id: u32, is_bsp: bool)
        requires
            (apic_id as int) < old(self).states().len(),
            is_bsp ==> old(self).states()[apic_id as int] == CoreState::Online,
            !is_bsp ==> old(self).states()[apic_id as int] == CoreState::Launched,
        ensures
            final(self).states() == old(self).states().update(apic_id as int, CoreState::Online),
            final(self).total() == old(self).total(),
    {
        if self.states[apic_id as usize] == CoreState::Launched {
            self.states.set(apic_id as usize, CoreState::Online);
        }
        assert(self.states@ =~= old(self).states().update(apic_id as int, CoreState::Online));
    }
}

/// APIC ID of an interrupt controller structure of type `t` and size `size` at `pos`, if it
/// describes a processor APIC that is enabled or can be enabled; `None` when a processor
/// entry has the wrong size.
pub open spec fn madt_entry(b: Seq<u8>, pos: int, t: u8, size: u8) -> Option<Option<u32>> {
    if t == 0 {
        if size != 8 {
            None
        } else {
            let flags = le(b, pos + 4, 4);
            if flags % 4 != 0 {
                Some(Some(b[pos + 3] as u32))
            } else {
                Some(None)
            }
        }
    } else if t == 9 {
        if size != 16 {
            None
        } else {
            let flags = le(b, pos + 8, 4);
            if flags % 4 != 0 {
                Some(Some(le(b, pos + 4, 4) as u32))
            } else {
                Some(None)
            }
        }
    } else {
        Some(None)
    }
}

/// APIC IDs of the usable processors listed in the interrupt controller structures of `b`
/// from `pos` on, in order; `None` if a structure is malformed.
pub open spec fn madt_walk(b: Seq<u8>, pos: nat) -> Option<Seq<u32>>
    decreases b.len() - pos,
{
    if pos + 2 > b.len() {
        Some(Seq::empty())
    } else {
        let t = b[pos as int];
        let size = b[pos + 1int];
        if size < 2 {
            None
        } else if pos + size > b.len() {
            Some(Seq::empty())
        } else {
            match madt_entry(b, pos as int, t, size) {
                None => None,
                Some(this) => match madt_walk(b, pos + size as nat) {
                    None => None,
                    Some(rest) => Some(
                        match this {
                            Some(id) => seq![id] + rest,
                            None => rest,
                        },
                    ),
                },
            }
        }
    }
}

pub const APIC_ENABLED: u32 = 1;

pub const APIC_ONLINE_CAPABLE: u32 = 2;

/// Little endian value of the four bytes at `pos`.
fn read_u32(b: &[u8], pos: usize) -> (r: u32)
    requires
        pos + 4 <= b@.len(),
    ensures
        r as nat == le(b@, pos as int, 4),
{
    let len = b.len();
    let s = vstd::slice::slice_subrange(b, pos, pos + 4);
    proof {
        crate::elf::lemma_uint_bound(s@, Endianness::Little);
        reveal_with_fuel(crate::elf::byte_bound, 5);
    }
    decode_uint(s, Endianness::Little) as u32
}

/// APIC IDs of the processors that the MADT payload `payload` lists as enabled or online
/// capable.
pub fn parse_madt(payload: &[u8]) -> (r: BTreeSet<u32>)
    requires
        madt_walk(payload@, 8) matches Some(ids) && ids.no_duplicates(),
    ensures
        r@ == madt_walk(payload@, 8)->0.to_set(),
{
    let end = payload.len();

    // Skip the local interrupt controller address (4 bytes) and flags (4 bytes).
    let mut ics: usize = 8;
    let mut apics: BTreeSet<u32> = BTreeSet::new();
    let ghost mut found: Seq<u32> = Seq::empty();
    proof {
        assert(found.to_set() =~= Set::<u32>::empty());
    }
    let ghost all = madt_walk(payload@, 8)->0;
    loop
        invariant_except_break
            madt_walk(payload@, ics as nat) matches Some(rest) && all == found + rest,
        invariant
            end == payload@.len(),
            madt_walk(payload@, 8) == Some(all),
            all.no_duplicates(),
            apics@ == found.to_set(),
        ensures
            apics@ == all.to_set(),
        decreases end - ics,
    {
        // Make sure that there is enough space for ICS type and size.
        if ics > end || end - ics < 2 {
            proof {
                assert(madt_walk(payload@, ics as nat) == Some(Seq::<u32>::empty()));
                assert(all =~= found);
            }
            break;
        }
        let ics_type = payload[ics];
        let ics_size = payload[ics + 1];
        let ghost rest = madt_walk(payload@, ics as nat)->0;

        // Make sure that there is enough space for the whole ICS entry.
        if end - ics < ics_size as usize {
            proof {
                assert(madt_walk(payload@, ics as nat) == Some(Seq::<u32>::empty()));
                assert(all =~= found);
            }
            break;
        }
        let apic: Option<(u32, u32)> = if ics_type == 0 {
            // Processor Local APIC.
            let apic_id = payload[ics + 3] as u32;
            let flags = read_u32(payload, ics + 4);
            Some((apic_id, flags))
        } else if ics_type == 9 {
            // Processor Local x2APIC.
            let apic_id = read_u32(payload, ics + 4);
            let flags = read_u32(payload, ics + 8);
            Some((apic_id, flags))
        } else {
            None
        };
        let ghost next_rest = madt_walk(payload@, (ics + ics_size) as nat)->0;
        if let Some((apic_id, flags)) = apic {
            // We only care about APICs which are either enabled or can be enabled by us.
            assert((flags & 3 != 0) == (flags % 4 != 0) && (flags & 1 != 0 || flags & 2 != 0) == (flags
                & 3 != 0)) by (bit_vector);
            if flags & APIC_ENABLED != 0 || flags & APIC_ONLINE_CAPABLE != 0 {
                proof {
                    assert(rest == seq![apic_id] + next_rest);
                    assert(all == (found + seq![apic_id]) + next_rest);
                    assert(all[found.len() as int] == apic_id);
                    if apics@.contains(apic_id) {
                        assert(found.to_set().contains(apic_id));
                        let k = choose|k: int| 0 <= k < found.len() && found[k] == apic_id;
                        assert(all[k] == apic_id);
                    }
                }
                let ghost old_found = found;
                // Every APIC that the MADT lists is listed once.
                let unique = apics.insert(apic_id);
                proof {
                    assert(unique);
                    found = found + seq![apic_id];
                    assert(found.drop_last() =~= old_found);
                    assert(found.to_set() =~= (found.drop_last()).to_set().insert(apic_id)) by {
                        assert(found.drop_last() =~= found.subrange(0, found.len() - 1));
                        assert forall|x: u32| found.to_set().contains(x) <==> found.drop_last().to_set().insert(apic_id).contains(x) by {
                            if found.to_set().contains(x) {
                                let k = choose|k: int| 0 <= k < found.len() && found[k] == x;
                                if k < found.len() - 1 {
                                    assert(found.drop_last()[k] == x);
                                }
                            }
                            if found.drop_last().to_set().contains(x) {
                                let k = choose|k: int| 0 <= k < found.drop_last().len() && found.drop_last()[k] == x;
                                assert(found[k] == x);
                            }
                            if x == apic_id {
                                assert(found[found.len() - 1] == apic_id);
                            }
                        }
                    }
                }
            } else {
                proof {
                    assert(rest == next_rest);
                }
            }
        } else {
            proof {
                assert(rest == next_rest);
            }
        }

        // Go to the next ICS entry.
        ics = ics + ics_size as usize;
    }
    apics
}

} // verus!
