//! Reading one sector of the boot disk through the BIOS extended read: the disk address
//! packet, where the BIOS can reach the buffers, and the retry decisions. The caller issues
//! the BIOS calls and reports what they answered.
use vstd::prelude::*;

verus! {

/// Reads of one sector that are tried before giving up.
pub const READ_TRIES: u32 = 5;

/// Disk address packet of the BIOS extended read (int 13h, AH = 42h), 16 bytes long.
#[derive(Copy, Clone, PartialEq, Eq, Structural, Debug)]
pub struct DiskAddressPacket {
    pub size: u8,
    pub zero: u8,
    pub sectors: u16,
    pub offset: u16,
    pub segment: u16,
    pub lo_lba: u32,
    pub hi_lba: u32,
}

/// The packet that asks for the one sector at `lba` to be read into the buffer at offset
/// `buffer` of segment 0.
pub fn disk_address_packet(lba: u32, buffer: u16) -> (d: DiskAddressPacket)
    ensures
        d == (DiskAddressPacket {
            size: 16,
            zero: 0,
            sectors: 1,
            offset: buffer,
            segment: 0,
            lo_lba: lba,
            hi_lba: 0,
        }),
{
    DiskAddressPacket { size: 16, zero: 0, sectors: 1, offset: buffer, segment: 0, lo_lba: lba, hi_lba: 0 }
}

/// The BIOS can use the 512-byte read buffer at `buffer` and the packet at `packet`: both
/// end below 64K and the buffer is aligned to 16 bytes.
pub fn bios_reachable(buffer: u64, packet: u64) -> (r: bool)
    ensures
        r == (buffer + 512 < 0x10000 && buffer % 16 == 0 && packet + 16 < 0x10000),
{
    buffer < 0x10000 - 512 && buffer % 16 == 0 && packet < 0x10000 - 16
}

/// What the BIOS answered to the last call made for a sector read.
#[derive(Copy, Clone, PartialEq, Eq, Structural, Debug)]
pub enum ReadEvent {
    /// The read of the sector is requested.
    Begin,
    /// The disk system was reset; `failed` is the carry flag of the answer.
    ResetDone { failed: bool },
    /// The extended read ran; `failed` is the carry flag of the answer.
    ReadDone { failed: bool },
}

/// What to do next for a sector read.
#[derive(Copy, Clone, PartialEq, Eq, Structural, Debug)]
pub enum ReadAction {
    /// Issue the extended read with the disk address packet.
    Read,
    /// Reset the disk system before trying again.
    Reset,
    /// The sector was read: copy it from the read buffer to its destination.
    Finish,
    /// Resetting the disk system failed.
    ResetFailed,
    /// Every read failed.
    GiveUp,
}

/// Next step of reading a sector after `tries` failed reads, given what the BIOS answered.
/// A read comes first; each failed read is followed by a disk reset and another read, until
/// `READ_TRIES` reads have failed.
pub fn read_step(tries: u32, event: ReadEvent) -> (r: (u32, ReadAction))
    requires
        tries < READ_TRIES,
    ensures
        r == (match event {
            ReadEvent::Begin => (0u32, ReadAction::Read),
            ReadEvent::ResetDone { failed } => if failed {
                (tries, ReadAction::ResetFailed)
            } else {
                (tries, ReadAction::Read)
            },
            ReadEvent::ReadDone { failed } => if !failed {
                (tries, ReadAction::Finish)
            } else if tries + 1 >= READ_TRIES {
                ((tries + 1) as u32, ReadAction::GiveUp)
            } else {
                ((tries + 1) as u32, ReadAction::Reset)
            },
        }),
        r.0 <= READ_TRIES,
        r.1 == ReadAction::Reset ==> r.0 < READ_TRIES,
{
    match event {
        ReadEvent::Begin => (0, ReadAction::Read),
        ReadEvent::ResetDone { failed } => {
            if failed {
                (tries, ReadAction::ResetFailed)
            } else {
                (tries, ReadAction::Read)
            }
        },
        ReadEvent::ReadDone { failed } => {
            if !failed {
                (tries, ReadAction::Finish)
            } else if tries + 1 >= READ_TRIES {
                (tries + 1, ReadAction::GiveUp)
            } else {
                (tries + 1, ReadAction::Reset)
            }
        },
    }
}

} // verus!
