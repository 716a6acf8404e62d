use vstd::prelude::*;

verus! {

/// Signature used to check if a boot disk descriptor is valid.
pub const SIGNATURE: u32 = 0x1778cf9d;

/// Disk data which is required to find all programs stored on the disk. The bootloader
/// reads it at fixed offsets.
#[derive(Copy, Clone, PartialEq, Eq, Structural, Debug)]
pub struct BootDiskDescriptor {
    /// This signature needs to be equal to `SIGNATURE`, otherwise the descriptor is invalid.
    pub signature: u32,
    /// LBA address of the second stage bootloader.
    pub bootloader_lba: u32,
    /// Size (in sectors) of the second stage bootloader.
    pub bootloader_sectors: u32,
    /// Checksum (calculated by `checksum`) of the second stage bootloader.
    pub bootloader_checksum: u32,
    /// LBA address of the kernel.
    pub kernel_lba: u32,
    /// Size (in sectors) of the kernel.
    pub kernel_sectors: u32,
    /// Checksum (calculated by `checksum`) of the kernel.
    pub kernel_checksum: u32,
}

/// Disk data which is required to read from the disk using BIOS interrupts.
#[derive(Copy, Clone, PartialEq, Eq, Structural, Debug)]
pub struct BootDiskData {
    /// Disk number used by the BIOS.
    pub disk_number: u8,
    /// Disk geometry used to convert LBA to CHS.
    pub sectors_per_track: u32,
    pub heads_per_cylinder: u32,
    pub sectors_per_cylinder: u32,
}

/// Little endian bytes of `x`.
pub open spec fn u32_le(x: u32) -> Seq<u8> {
    seq![(x & 0xff) as u8, ((x >> 8u32) & 0xff) as u8, ((x >> 16u32) & 0xff) as u8, (x >> 24u32) as u8]
}

fn push_u32_le(out: &mut Vec<u8>, x: u32)
    ensures
        final(out)@ == old(out)@ + u32_le(x),
{
    out.push((x & 0xff) as u8);
    out.push(((x >> 8) & 0xff) as u8);
    out.push(((x >> 16) & 0xff) as u8);
    out.push((x >> 24) as u8);
    assert(out@ =~= old(out)@ + u32_le(x));
}

impl BootDiskDescriptor {
    /// The descriptor as it lies on disk: its fields in order, each little endian.
    pub open spec fn spec_bytes(&self) -> Seq<u8> {
        u32_le(self.signature) + u32_le(self.bootloader_lba) + u32_le(self.bootloader_sectors)
            + u32_le(self.bootloader_checksum) + u32_le(self.kernel_lba) + u32_le(
            self.kernel_sectors,
        ) + u32_le(self.kernel_checksum)
    }

    pub fn to_bytes(&self) -> (r: Vec<u8>)
        ensures
            r@ == self.spec_bytes(),
            r@.len() == 28,
    {
        let mut out: Vec<u8> = Vec::new();
        push_u32_le(&mut out, self.signature);
        push_u32_le(&mut out, self.bootloader_lba);
        push_u32_le(&mut out, self.bootloader_sectors);
        push_u32_le(&mut out, self.bootloader_checksum);
        push_u32_le(&mut out, self.kernel_lba);
        push_u32_le(&mut out, self.kernel_sectors);
        push_u32_le(&mut out, self.kernel_checksum);
        out
    }
}

/// FNV-1a 32 bit hash of `data`, folded from the first byte to the last.
pub open spec fn fnv1a(data: Seq<u8>) -> u32
    decreases data.len(),
{
    if data.len() == 0 {
        0x811c_9dc5u32
    } else {
        let prev = fnv1a(data.drop_last());
        ((prev ^ (data.last() as u32)) as int * 16_777_619int % 0x1_0000_0000int) as u32
    }
}

/// Calculate FNV-1a 32 bit checksum of the data.
pub fn checksum(data: &[u8]) -> (hash: u32)
    ensures
        hash == fnv1a(data@),
{
    let mut hash: u32 = 0x811c_9dc5;
    let mut i: usize = 0;
    while i < data.len()
        invariant
            i <= data.len(),
            hash == fnv1a(data@.take(i as int)),
        decreases data.len() - i,
    {
        assert(data@.take(i as int + 1).drop_last() =~= data@.take(i as int));
        hash ^= data[i] as u32;
        hash = hash.wrapping_mul(16_777_619);
        i += 1;
    }
    assert(data@.take(data.len() as int) =~= data@);
    hash
}

} // verus!
