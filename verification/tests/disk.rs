use flugzeug::disk::{
    bios_reachable, disk_address_packet, read_step, DiskAddressPacket, ReadAction, ReadEvent,
    READ_TRIES,
};

#[test]
fn packet_for_one_sector() {
    let d = disk_address_packet(0x1234_5678, 0x7e00);
    assert_eq!(
        d,
        DiskAddressPacket {
            size: 16,
            zero: 0,
            sectors: 1,
            offset: 0x7e00,
            segment: 0,
            lo_lba: 0x1234_5678,
            hi_lba: 0,
        }
    );
}

#[test]
fn buffers_must_be_low_and_aligned() {
    assert!(bios_reachable(0x7000, 0x8000));
    assert!(bios_reachable(0x10000 - 528, 0x10000 - 17));
    assert!(!bios_reachable(0x10000 - 512, 0x8000));
    assert!(!bios_reachable(0x7008, 0x8000));
    assert!(!bios_reachable(0x7000, 0x10000 - 16));
    assert!(!bios_reachable(u64::MAX - 4, 0));
}

/// Drive the read steps with a disk whose first `failures` reads fail, and record the
/// actions taken.
fn run(failures: u32) -> Vec<ReadAction> {
    let mut actions = Vec::new();
    let mut reads = 0u32;
    let (mut tries, mut action) = read_step(0, ReadEvent::Begin);
    loop {
        actions.push(action);
        let event = match action {
            ReadAction::Read => {
                reads += 1;
                ReadEvent::ReadDone { failed: reads <= failures }
            },
            ReadAction::Reset => ReadEvent::ResetDone { failed: false },
            _ => break,
        };
        let next = read_step(tries, event);
        tries = next.0;
        action = next.1;
    }
    actions
}

#[test]
fn first_read_succeeds() {
    assert_eq!(run(0), vec![ReadAction::Read, ReadAction::Finish]);
}

#[test]
fn reset_before_each_retry() {
    assert_eq!(
        run(2),
        vec![
            ReadAction::Read,
            ReadAction::Reset,
            ReadAction::Read,
            ReadAction::Reset,
            ReadAction::Read,
            ReadAction::Finish,
        ]
    );
}

#[test]
fn gives_up_after_five_reads() {
    let actions = run(100);
    let reads = actions.iter().filter(|a| **a == ReadAction::Read).count();
    assert_eq!(reads, READ_TRIES as usize);
    assert_eq!(actions.last(), Some(&ReadAction::GiveUp));
    assert_eq!(actions.iter().filter(|a| **a == ReadAction::Reset).count(), 4);
}

#[test]
fn failed_reset_stops() {
    assert_eq!(read_step(2, ReadEvent::ResetDone { failed: true }), (2, ReadAction::ResetFailed));
    assert_eq!(read_step(4, ReadEvent::ReadDone { failed: true }), (5, ReadAction::GiveUp));
    assert_eq!(read_step(3, ReadEvent::ReadDone { failed: false }), (3, ReadAction::Finish));
}
