use flugzeug::processors::{parse_madt, CoreState, Processors, MAX_CORES};
use std::collections::BTreeSet;

fn local_apic(apic_id: u8, flags: u32) -> Vec<u8> {
    let mut e = vec![0, 8, 0, apic_id];
    e.extend_from_slice(&flags.to_le_bytes());
    e
}

fn local_x2apic(apic_id: u32, flags: u32) -> Vec<u8> {
    let mut e = vec![9, 16, 0, 0];
    e.extend_from_slice(&apic_id.to_le_bytes());
    e.extend_from_slice(&flags.to_le_bytes());
    e.extend_from_slice(&0u32.to_le_bytes());
    e
}

fn madt(entries: &[Vec<u8>]) -> Vec<u8> {
    let mut p = vec![0u8; 8];
    for e in entries {
        p.extend_from_slice(e);
    }
    p
}

#[test]
fn madt_lists_usable_apics_in_order() {
    let payload = madt(&[
        local_apic(3, 1),
        local_apic(1, 2),
        local_apic(2, 0),
        vec![1, 12, 0, 0, 0, 0, 0, 0, 0, 0, 0, 0], // I/O APIC, ignored
        local_x2apic(0x100, 1),
        local_apic(0, 3),
    ]);
    let apics = parse_madt(&payload);
    assert_eq!(apics, BTreeSet::from([0, 1, 3, 0x100]));
    assert_eq!(apics.into_iter().collect::<Vec<u32>>(), vec![0, 1, 3, 0x100]);
}

#[test]
fn madt_stops_at_truncated_entry() {
    let mut payload = madt(&[local_apic(5, 1)]);
    payload.extend_from_slice(&[0, 8, 0, 6]);
    assert_eq!(parse_madt(&payload), BTreeSet::from([5]));
}

#[test]
fn empty_madt() {
    assert!(parse_madt(&[0u8; 8]).is_empty());
}

#[test]
fn core_states() {
    let mut p = Processors::new();
    assert_eq!(p.core_state(0), CoreState::NoCore);
    assert_eq!(p.core_state((MAX_CORES - 1) as u32), CoreState::NoCore);
    p.set_core_state(0, CoreState::Online);
    p.set_core_state(4, CoreState::Launched);
    p.notify_core_online(4, false);
    p.notify_core_online(0, true);
    assert_eq!(p.core_state(0), CoreState::Online);
    assert_eq!(p.core_state(4), CoreState::Online);
    p.set_total_cores(2);
    assert_eq!(p.total_cores(), 2);
}

#[test]
fn core_state_raw_values() {
    for raw in 1..=4u8 {
        assert_eq!(CoreState::from_raw(raw).raw(), raw);
    }
    assert_eq!(CoreState::from_raw(1), CoreState::Online);
    assert_eq!(CoreState::Halted.raw(), 4);
}
