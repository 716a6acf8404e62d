//! The BIOS boot image: the second stage bootloader laid out as it sits in memory, the
//! kernel padded to whole pages, and the disk image that puts the boot disk descriptor
//! after the first sector of the early bootloader.
use vstd::prelude::*;
use crate::bdd::{checksum, fnv1a, BootDiskDescriptor, SIGNATURE};
use crate::elf::{
    header_spec, min_load_addr, parse_ok, segment_fields_spec, slice_spec, Bitness, Elf, Machine,
    Segment, SegmentType,
};

verus! {

/// Size limits and load address that the early bootloader relies on.
pub const MAX_EARLY_BOOTLOADER_SIZE: usize = 3 * 512;

pub const MAX_BOOTLOADER_SIZE: usize = 400 * 1024;

pub const BDD_SIZE: usize = 512;

pub const BOOTLOADER_BASE: u64 = 0x10000;

/// Why a boot image cannot be built.
#[derive(Copy, Clone, PartialEq, Eq, Structural, Debug)]
pub enum ImageError {
    BootloaderParse,
    BootloaderNot32Bit,
    BootloaderNotX86,
    BootloaderBase,
    SegmentOrder,
    VirtualSize,
    ImageTooLarge,
    KernelParse,
    KernelNot64Bit,
    EarlyBootloaderTooBig,
    BootloaderTooBig,
    EarlyBootloaderUnaligned,
    BootloaderUnaligned,
    KernelUnaligned,
}

impl ImageError {
    /// Description of the error.
    pub fn message(&self) -> (r: &'static str)
        ensures
            r@ == (match *self {
                ImageError::BootloaderParse => "Failed to parse bootloader ELF."@,
                ImageError::BootloaderNot32Bit => "Bootloader is not 32 bit."@,
                ImageError::BootloaderNotX86 => "Bootloader is not x86 binary."@,
                ImageError::BootloaderBase => "Bootloader has invalid base address."@,
                ImageError::SegmentOrder => "Segments are not in ascending order."@,
                ImageError::VirtualSize => "Virtual size is smaller than file size."@,
                ImageError::ImageTooLarge => "Image does not fit in memory."@,
                ImageError::KernelParse => "Failed to parse kernel ELF."@,
                ImageError::KernelNot64Bit => "Kernel is not 64 bit."@,
                ImageError::EarlyBootloaderTooBig => "Early bootloader is too big."@,
                ImageError::BootloaderTooBig => "Bootloader is too big."@,
                ImageError::EarlyBootloaderUnaligned => "Early bootloader size is not aligned."@,
                ImageError::BootloaderUnaligned => "Bootloader size is not aligned."@,
                ImageError::KernelUnaligned => "Kernel size is not aligned."@,
            }),
    {
        match self {
            ImageError::BootloaderParse => "Failed to parse bootloader ELF.",
            ImageError::BootloaderNot32Bit => "Bootloader is not 32 bit.",
            ImageError::BootloaderNotX86 => "Bootloader is not x86 binary.",
            ImageError::BootloaderBase => "Bootloader has invalid base address.",
            ImageError::SegmentOrder => "Segments are not in ascending order.",
            ImageError::VirtualSize => "Virtual size is smaller than file size.",
            ImageError::ImageTooLarge => "Image does not fit in memory.",
            ImageError::KernelParse => "Failed to parse kernel ELF.",
            ImageError::KernelNot64Bit => "Kernel is not 64 bit.",
            ImageError::EarlyBootloaderTooBig => "Early bootloader is too big.",
            ImageError::BootloaderTooBig => "Bootloader is too big.",
            ImageError::EarlyBootloaderUnaligned => "Early bootloader size is not aligned.",
            ImageError::BootloaderUnaligned => "Bootloader size is not aligned.",
            ImageError::KernelUnaligned => "Kernel size is not aligned.",
        }
    }
}

/// `n` zero bytes.
pub open spec fn zeros(n: int) -> Seq<u8> {
    Seq::new(n as nat, |i: int| 0u8)
}

/// Length `n` rounded up to a whole number of 4K pages.
pub open spec fn page_round(n: int) -> int {
    (n + 0xfff) / 0x1000 * 0x1000
}

/// `m` padded with zeros to a whole number of 4K pages.
pub open spec fn page_padded(m: Seq<u8>) -> Seq<u8> {
    m + zeros(page_round(m.len() as int) - m.len())
}

/// The memory image `m` after placing a segment of type `seg_type` at `virt_addr` (relative
/// to `base`) with contents `bytes` and `virt_size` bytes in memory. Only loadable segments
/// are placed; each one must start at or after the end of the image so far and hold at
/// least its file contents.
pub open spec fn place_segment(
    m: Seq<u8>,
    seg_type: SegmentType,
    virt_addr: u64,
    virt_size: u64,
    bytes: Seq<u8>,
    base: u64,
) -> Result<Seq<u8>, ImageError> {
    let offset = ((virt_addr - base) as u64) as usize;
    let size = virt_size as usize;
    if seg_type != SegmentType::Load {
        Ok(m)
    } else if virt_addr < base || offset < m.len() {
        Err(ImageError::SegmentOrder)
    } else if size < bytes.len() {
        Err(ImageError::VirtualSize)
    } else if offset + size > usize::MAX {
        Err(ImageError::ImageTooLarge)
    } else {
        Ok(m + zeros(offset - m.len()) + bytes + zeros(size - bytes.len()))
    }
}

/// The memory image of the first `n` program headers of the ELF image `b` with header `h`,
/// loaded at `base`.
pub open spec fn place_segments(b: Seq<u8>, h: crate::elf::ElfHeader, base: u64, n: nat) -> Result<
    Seq<u8>,
    ImageError,
>
    decreases n,
{
    if n == 0 {
        Ok(Seq::empty())
    } else {
        match place_segments(b, h, base, (n - 1) as nat) {
            Err(e) => Err(e),
            Ok(m) => {
                let f = segment_fields_spec(b, h, (n - 1) as u64).unwrap();
                place_segment(
                    m,
                    f.seg_type,
                    f.virt_addr,
                    f.virt_size,
                    slice_spec(b, f.raw_offset as int, f.raw_size as int).unwrap(),
                    base,
                )
            },
        }
    }
}

/// Placing the segment decoded from program header `i` continues the image of the
/// headers before it.
proof fn lemma_place_step(
    b: Seq<u8>,
    h: crate::elf::ElfHeader,
    base: u64,
    i: nat,
    seg: Segment,
    before: Seq<u8>,
)
    requires
        place_segments(b, h, base, i) == Ok::<Seq<u8>, ImageError>(before),
        crate::elf::segment_from(seg, segment_fields_spec(b, h, i as u64).unwrap(), b),
    ensures
        place_segments(b, h, base, i + 1) == place_segment(
            before,
            seg.seg_type,
            seg.virt_addr,
            seg.virt_size,
            seg.bytes@,
            base,
        ),
{
}

/// Once placing a segment fails, placing more segments fails the same way.
proof fn lemma_place_error_sticks(
    b: Seq<u8>,
    h: crate::elf::ElfHeader,
    base: u64,
    n: nat,
    m: nat,
    e: ImageError,
)
    requires
        n <= m,
        place_segments(b, h, base, n) == Err::<Seq<u8>, ImageError>(e),
    ensures
        place_segments(b, h, base, m) == Err::<Seq<u8>, ImageError>(e),
    decreases m - n,
{
    if n < m {
        lemma_place_error_sticks(b, h, base, n, (m - 1) as nat, e);
    }
}

/// `m` padded to whole pages with its checksum, if that fits in memory.
pub open spec fn with_checksum(m: Seq<u8>) -> Result<(Seq<u8>, u32), ImageError> {
    if page_round(m.len() as int) > usize::MAX {
        Err(ImageError::ImageTooLarge)
    } else {
        Ok((page_padded(m), fnv1a(page_padded(m))))
    }
}

/// The padded image and its checksum once the segments are placed.
pub open spec fn finish(placed: Result<Seq<u8>, ImageError>) -> Result<(Seq<u8>, u32), ImageError> {
    match placed {
        Err(e) => Err(e),
        Ok(m) => with_checksum(m),
    }
}

/// The second stage bootloader as it sits in memory from its base address, padded to
/// whole pages, and its checksum; or why the ELF image `b` cannot be used as one.
pub open spec fn bootloader_image(b: Seq<u8>) -> Result<(Seq<u8>, u32), ImageError> {
    if !parse_ok(b) {
        Err(ImageError::BootloaderParse)
    } else {
        let h = header_spec(b).unwrap();
        let base = min_load_addr(b, h, h.segment_count).unwrap();
        if h.bitness != Bitness::Bits32 {
            Err(ImageError::BootloaderNot32Bit)
        } else if h.machine != Machine::X86 {
            Err(ImageError::BootloaderNotX86)
        } else if base != BOOTLOADER_BASE {
            Err(ImageError::BootloaderBase)
        } else {
            finish(place_segments(b, h, base, h.segment_count as nat))
        }
    }
}

/// The kernel image `b` padded to whole pages and its checksum; or why it cannot be used.
pub open spec fn kernel_image(b: Seq<u8>) -> Result<(Seq<u8>, u32), ImageError> {
    if page_round(b.len() as int) > usize::MAX {
        Err(ImageError::ImageTooLarge)
    } else if !parse_ok(page_padded(b)) {
        Err(ImageError::KernelParse)
    } else if header_spec(page_padded(b)).unwrap().bitness != Bitness::Bits64 {
        Err(ImageError::KernelNot64Bit)
    } else {
        Ok((page_padded(b), fnv1a(page_padded(b))))
    }
}

/// `r` is the result `spec` describes, vectors taken by their contents.
pub open spec fn result_matches(r: Result<(Vec<u8>, u32), ImageError>, spec: Result<(Seq<u8>, u32), ImageError>) -> bool {
    match r {
        Ok(v) => spec == Ok::<(Seq<u8>, u32), ImageError>((v.0@, v.1)),
        Err(e) => spec == Err::<(Seq<u8>, u32), ImageError>(e),
    }
}

/// Place `segment` in the memory image `mapped`.
fn place(mapped: &mut Vec<u8>, segment: &Segment, base: u64) -> (r: Result<(), ImageError>)
    ensures
        match place_segment(
            old(mapped)@,
            segment.seg_type,
            segment.virt_addr,
            segment.virt_size,
            segment.bytes@,
            base,
        ) {
            Ok(m) => r is Ok && final(mapped)@ == m,
            Err(e) => r == Err::<(), ImageError>(e),
        },
{
    if segment.seg_type != SegmentType::Load {
        return Ok(());
    }
    if segment.virt_addr < base {
        return Err(ImageError::SegmentOrder);
    }
    let offset = (segment.virt_addr - base) as usize;
    let size = segment.virt_size as usize;
    let len = mapped.len();
    if offset < len {
        return Err(ImageError::SegmentOrder);
    }
    if size < segment.bytes.len() {
        return Err(ImageError::VirtualSize);
    }
    let end = match offset.checked_add(size) {
        Some(end) => end,
        None => return Err(ImageError::ImageTooLarge),
    };
    let ghost before = mapped@;
    mapped.resize(offset, 0u8);
    assert(mapped@ =~= before + zeros(offset - before.len()));
    let ghost padded = mapped@;
    mapped.extend_from_slice(segment.bytes);
    assert(mapped@ =~= padded + segment.bytes@);
    let ghost filled = mapped@;
    mapped.resize(end, 0u8);
    assert(mapped@ =~= filled + zeros(size - segment.bytes@.len()));
    Ok(())
}

/// Pad `v` with zeros to a whole number of 4K pages, and checksum it.
fn pad_and_checksum(v: Vec<u8>) -> (r: Result<(Vec<u8>, u32), ImageError>)
    ensures
        result_matches(r, with_checksum(v@)),
{
    let mut v = v;
    let len = v.len();
    let rounded = match len.checked_add(0xfff) {
        Some(x) => x / 0x1000 * 0x1000,
        None => return Err(ImageError::ImageTooLarge),
    };
    let ghost before = v@;
    v.resize(rounded, 0u8);
    assert(v@ =~= page_padded(before));
    let sum = checksum(v.as_slice());
    Ok((v, sum))
}

/// Lay out the second stage bootloader ELF `binary` as it sits in memory from its base
/// address, padded to whole pages, with its checksum. The bootloader must be a 32 bit x86
/// image based at `BOOTLOADER_BASE` whose loadable segments come in ascending order.
pub fn prepare_bootloader_binary(binary: &[u8]) -> (r: Result<(Vec<u8>, u32), ImageError>)
    ensures
        result_matches(r, bootloader_image(binary@)),
{
    let elf = match Elf::parse(binary) {
        Some(elf) => elf,
        None => return Err(ImageError::BootloaderParse),
    };
    if elf.bitness() != Bitness::Bits32 {
        return Err(ImageError::BootloaderNot32Bit);
    }
    if elf.machine() != Machine::X86 {
        return Err(ImageError::BootloaderNotX86);
    }
    let base = elf.base_address();
    if base != BOOTLOADER_BASE {
        return Err(ImageError::BootloaderBase);
    }
    let ghost b = binary@;
    let ghost h = header_spec(b).unwrap();
    let (segments, all_decoded) = elf.segments();
    if all_decoded.is_none() {
        return Err(ImageError::BootloaderParse);
    }
    let mut mapped: Vec<u8> = Vec::new();
    let mut i: usize = 0;
    assert(bootloader_image(b) == finish(place_segments(b, h, base, h.segment_count as nat)));
    while i < segments.len()
        invariant
            bootloader_image(b) == finish(place_segments(b, h, base, h.segment_count as nat)),
            b == binary@,
            i <= segments@.len(),
            segments@.len() == h.segment_count,
            forall|k: int|
                0 <= k < segments@.len() ==> crate::elf::segment_from(
                    #[trigger] segments@[k],
                    segment_fields_spec(b, h, k as u64).unwrap(),
                    b,
                ),
            place_segments(b, h, base, i as nat) == Ok::<Seq<u8>, ImageError>(mapped@),
        decreases segments@.len() - i,
    {
        let segment = &segments[i];
        proof {
            lemma_place_step(b, h, base, i as nat, segments@[i as int], mapped@);
        }
        match place(&mut mapped, segment, base) {
            Ok(()) => {},
            Err(e) => {
                proof {
                    lemma_place_error_sticks(b, h, base, (i + 1) as nat, h.segment_count as nat, e);
                }
                return Err(e);
            },
        }
        i += 1;
    }
    pad_and_checksum(mapped)
}

/// Pad the kernel ELF `binary` to whole pages and checksum it. The kernel must be a 64 bit
/// image.
pub fn prepare_kernel_binary(binary: Vec<u8>) -> (r: Result<(Vec<u8>, u32), ImageError>)
    ensures
        result_matches(r, kernel_image(binary@)),
{
    let (padded, sum) = match pad_and_checksum(binary) {
        Ok(p) => p,
        Err(e) => return Err(e),
    };
    match Elf::parse(padded.as_slice()) {
        None => Err(ImageError::KernelParse),
        Some(elf) => {
            if elf.bitness() != Bitness::Bits64 {
                Err(ImageError::KernelNot64Bit)
            } else {
                Ok((padded, sum))
            }
        },
    }
}

/// The descriptor of a disk whose early bootloader takes `early_len` bytes, followed by
/// the descriptor sector, a bootloader of `bootloader_len` bytes and a kernel of
/// `kernel_len` bytes.
pub open spec fn disk_descriptor(
    early_len: nat,
    bootloader_len: nat,
    kernel_len: nat,
    bootloader_checksum: u32,
    kernel_checksum: u32,
) -> BootDiskDescriptor {
    let bootloader_lba = (early_len / 512 + 1) as u32;
    let bootloader_sectors = (bootloader_len / 512) as u32;
    BootDiskDescriptor {
        signature: SIGNATURE,
        bootloader_lba,
        bootloader_sectors,
        bootloader_checksum,
        kernel_lba: (bootloader_lba + bootloader_sectors) as u32,
        kernel_sectors: (kernel_len / 512) as u32,
        kernel_checksum,
    }
}

/// The disk image: the first sector of the early bootloader, the sector holding the boot
/// disk descriptor, the rest of the early bootloader, the bootloader and the kernel; or
/// which size limit or alignment is broken.
pub open spec fn boot_image(
    early: Seq<u8>,
    bootloader: Seq<u8>,
    kernel: Seq<u8>,
    bootloader_checksum: u32,
    kernel_checksum: u32,
) -> Result<Seq<u8>, ImageError> {
    if early.len() > MAX_EARLY_BOOTLOADER_SIZE {
        Err(ImageError::EarlyBootloaderTooBig)
    } else if bootloader.len() > MAX_BOOTLOADER_SIZE {
        Err(ImageError::BootloaderTooBig)
    } else if early.len() % 512 != 0 {
        Err(ImageError::EarlyBootloaderUnaligned)
    } else if bootloader.len() % 4096 != 0 {
        Err(ImageError::BootloaderUnaligned)
    } else if kernel.len() % 4096 != 0 {
        Err(ImageError::KernelUnaligned)
    } else {
        let descriptor = disk_descriptor(
            early.len(),
            bootloader.len(),
            kernel.len(),
            bootloader_checksum,
            kernel_checksum,
        );
        Ok(early.subrange(0, 512) + descriptor.spec_bytes() + zeros(BDD_SIZE - 28) + early.subrange(
            512,
            early.len() as int,
        ) + bootloader + kernel)
    }
}

/// Build the BIOS disk image from the early bootloader, the prepared bootloader and kernel,
/// and their checksums.
pub fn create_boot_image(
    early_bootloader: &[u8],
    bootloader: &[u8],
    kernel: &[u8],
    bootloader_checksum: u32,
    kernel_checksum: u32,
) -> (r: Result<Vec<u8>, ImageError>)
    requires
        early_bootloader@.len() >= 512,
    ensures
        match r {
            Ok(image) => boot_image(
                early_bootloader@,
                bootloader@,
                kernel@,
                bootloader_checksum,
                kernel_checksum,
            ) == Ok::<Seq<u8>, ImageError>(image@) && image@.len() % 512 == 0,
            Err(e) => boot_image(
                early_bootloader@,
                bootloader@,
                kernel@,
                bootloader_checksum,
                kernel_checksum,
            ) == Err::<Seq<u8>, ImageError>(e),
        },
{
    let early_len = early_bootloader.len();
    let bootloader_len = bootloader.len();
    let kernel_len = kernel.len();
    if early_len > MAX_EARLY_BOOTLOADER_SIZE {
        return Err(ImageError::EarlyBootloaderTooBig);
    }
    if bootloader_len > MAX_BOOTLOADER_SIZE {
        return Err(ImageError::BootloaderTooBig);
    }
    if early_len % 512 != 0 {
        return Err(ImageError::EarlyBootloaderUnaligned);
    }
    if bootloader_len % 4096 != 0 {
        return Err(ImageError::BootloaderUnaligned);
    }
    if kernel_len % 4096 != 0 {
        return Err(ImageError::KernelUnaligned);
    }

    let bootloader_sectors = (bootloader_len / 512) as u32;
    let kernel_sectors = #[verifier::truncate] ((kernel_len / 512) as u32);

    // Add 1 to skip the descriptor sector.
    let first_free_lba = (early_len / 512 + 1) as u32;
    let bootloader_lba = first_free_lba;
    let kernel_lba = bootloader_lba + bootloader_sectors;

    let bdd = BootDiskDescriptor {
        signature: SIGNATURE,
        bootloader_lba,
        bootloader_sectors,
        bootloader_checksum,
        kernel_lba,
        kernel_sectors,
        kernel_checksum,
    };
    assert(bdd == disk_descriptor(
        early_bootloader@.len(),
        bootloader@.len(),
        kernel@.len(),
        bootloader_checksum,
        kernel_checksum,
    ));

    let mut bdd_sector = bdd.to_bytes();
    let ghost fields = bdd_sector@;
    bdd_sector.resize(BDD_SIZE, 0u8);
    assert(bdd_sector@ =~= fields + zeros(BDD_SIZE - 28));

    let mut image: Vec<u8> = Vec::new();
    image.extend_from_slice(vstd::slice::slice_subrange(early_bootloader, 0, 512));
    image.extend_from_slice(bdd_sector.as_slice());
    image.extend_from_slice(vstd::slice::slice_subrange(early_bootloader, 512, early_len));
    image.extend_from_slice(bootloader);
    image.extend_from_slice(kernel);
    assert(image@ =~= early_bootloader@.subrange(0, 512) + bdd_sector@ + early_bootloader@.subrange(
        512,
        early_len as int,
    ) + bootloader@ + kernel@);
    assert(bdd_sector@ == bdd.spec_bytes() + zeros(BDD_SIZE - 28));
    let ghost expected = early_bootloader@.subrange(0, 512) + bdd.spec_bytes() + zeros(
        BDD_SIZE - 28,
    ) + early_bootloader@.subrange(512, early_bootloader@.len() as int) + bootloader@ + kernel@;
    assert(boot_image(
        early_bootloader@,
        bootloader@,
        kernel@,
        bootloader_checksum,
        kernel_checksum,
    ) == Ok::<Seq<u8>, ImageError>(expected));
    assert(image@ == expected);
    Ok(image)
}

} // verus!
