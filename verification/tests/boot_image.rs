use flugzeug::bdd::{checksum, BootDiskDescriptor, SIGNATURE};
use flugzeug::boot_image::{
    create_boot_image, prepare_bootloader_binary, prepare_kernel_binary, ImageError,
};

fn put(b: &mut [u8], off: usize, v: &[u8]) {
    b[off..off + v.len()].copy_from_slice(v);
}

/// A 32 bit x86 image with the given (virtual address, file contents, memory size)
/// segments, all loadable, their contents stored from offset 0x100 on.
fn elf32(machine: u16, segments: &[(u32, &[u8], u32)]) -> Vec<u8> {
    let mut b = vec![0u8; 0x200];
    put(&mut b, 0, &[0x7f, b'E', b'L', b'F', 1, 1, 1]);
    put(&mut b, 0x10, &2u16.to_le_bytes());
    put(&mut b, 0x12, &machine.to_le_bytes());
    put(&mut b, 0x18, &0x10000u32.to_le_bytes());
    put(&mut b, 0x1c, &0x34u32.to_le_bytes());
    put(&mut b, 0x2a, &32u16.to_le_bytes());
    put(&mut b, 0x2c, &(segments.len() as u16).to_le_bytes());
    put(&mut b, 0x2e, &40u16.to_le_bytes());
    let mut data = 0x100usize;
    for (i, (vaddr, bytes, memsz)) in segments.iter().enumerate() {
        let p = 0x34 + i * 32;
        put(&mut b, p, &1u32.to_le_bytes());
        put(&mut b, p + 4, &(data as u32).to_le_bytes());
        put(&mut b, p + 8, &vaddr.to_le_bytes());
        put(&mut b, p + 0x10, &(bytes.len() as u32).to_le_bytes());
        put(&mut b, p + 0x14, &memsz.to_le_bytes());
        put(&mut b, p + 0x18, &5u32.to_le_bytes());
        put(&mut b, data, bytes);
        data += bytes.len();
    }
    b
}

/// A 64 bit image with one loadable segment.
fn elf64() -> Vec<u8> {
    let mut b = vec![0u8; 0x108];
    put(&mut b, 0, &[0x7f, b'E', b'L', b'F', 2, 1, 1]);
    put(&mut b, 0x12, &0x3eu16.to_le_bytes());
    put(&mut b, 0x20, &0x40u64.to_le_bytes());
    put(&mut b, 0x36, &56u16.to_le_bytes());
    put(&mut b, 0x38, &1u16.to_le_bytes());
    put(&mut b, 0x40, &1u32.to_le_bytes());
    put(&mut b, 0x48, &0x100u64.to_le_bytes());
    put(&mut b, 0x50, &0xffff_ffff_8000_0000u64.to_le_bytes());
    put(&mut b, 0x60, &8u64.to_le_bytes());
    put(&mut b, 0x68, &8u64.to_le_bytes());
    b
}

#[test]
fn bootloader_is_laid_out_as_in_memory() {
    let binary = elf32(3, &[(0x10000, &[1, 2, 3, 4], 8), (0x10010, &[5, 6], 2)]);
    let (mapped, sum) = prepare_bootloader_binary(&binary).unwrap();
    let mut expected = vec![1, 2, 3, 4, 0, 0, 0, 0, 0, 0, 0, 0, 0, 0, 0, 0, 5, 6];
    expected.resize(4096, 0);
    assert_eq!(mapped, expected);
    assert_eq!(sum, checksum(&expected));
}

#[test]
fn bootloader_errors() {
    let wrong_base = elf32(3, &[(0x20000, &[1], 1)]);
    assert_eq!(prepare_bootloader_binary(&wrong_base), Err(ImageError::BootloaderBase));
    let not_x86 = elf32(0x28, &[(0x10000, &[1], 1)]);
    assert_eq!(prepare_bootloader_binary(&not_x86), Err(ImageError::BootloaderNotX86));
    let unordered = elf32(3, &[(0x10010, &[5, 6], 2), (0x10000, &[1, 2], 2)]);
    assert_eq!(prepare_bootloader_binary(&unordered), Err(ImageError::SegmentOrder));
    let short = elf32(3, &[(0x10000, &[1, 2, 3, 4], 2)]);
    assert_eq!(prepare_bootloader_binary(&short), Err(ImageError::VirtualSize));
    assert_eq!(prepare_bootloader_binary(&elf64()), Err(ImageError::BootloaderNot32Bit));
    assert_eq!(prepare_bootloader_binary(&[1, 2, 3]), Err(ImageError::BootloaderParse));
    assert_eq!(ImageError::SegmentOrder.message(), "Segments are not in ascending order.");
}

#[test]
fn kernel_is_padded_to_pages() {
    let binary = elf64();
    let (padded, sum) = prepare_kernel_binary(binary.clone()).unwrap();
    assert_eq!(padded.len(), 4096);
    assert_eq!(&padded[..binary.len()], &binary[..]);
    assert!(padded[binary.len()..].iter().all(|b| *b == 0));
    assert_eq!(sum, checksum(&padded));
    let bootloader = elf32(3, &[(0x10000, &[1], 1)]);
    assert_eq!(prepare_kernel_binary(bootloader), Err(ImageError::KernelNot64Bit));
    assert_eq!(prepare_kernel_binary(vec![0; 10]), Err(ImageError::KernelParse));
}

#[test]
fn disk_image_layout() {
    let early: Vec<u8> = (0..1024).map(|i| (i % 200) as u8).collect();
    let bootloader = vec![0xbb; 4096];
    let kernel = vec![0xcc; 8192];
    let image = create_boot_image(&early, &bootloader, &kernel, 0x1111, 0x2222).unwrap();
    assert_eq!(image.len(), 512 + 512 + 512 + 4096 + 8192);
    assert_eq!(&image[..512], &early[..512]);
    let descriptor = BootDiskDescriptor {
        signature: SIGNATURE,
        bootloader_lba: 3,
        bootloader_sectors: 8,
        bootloader_checksum: 0x1111,
        kernel_lba: 11,
        kernel_sectors: 16,
        kernel_checksum: 0x2222,
    };
    assert_eq!(&image[512..540], &descriptor.to_bytes()[..]);
    assert_eq!(&image[512..516], &SIGNATURE.to_le_bytes());
    assert!(image[540..1024].iter().all(|b| *b == 0));
    assert_eq!(&image[1024..1536], &early[512..]);
    assert_eq!(image[1536], 0xbb);
    assert_eq!(image[1536 + 4096], 0xcc);
}

#[test]
fn disk_image_limits() {
    let sector = vec![0u8; 512];
    assert_eq!(
        create_boot_image(&vec![0; 2048], &[], &[], 0, 0),
        Err(ImageError::EarlyBootloaderTooBig)
    );
    assert_eq!(
        create_boot_image(&sector, &vec![0; 401 * 1024], &[], 0, 0),
        Err(ImageError::BootloaderTooBig)
    );
    assert_eq!(
        create_boot_image(&vec![0; 700], &[], &[], 0, 0),
        Err(ImageError::EarlyBootloaderUnaligned)
    );
    assert_eq!(
        create_boot_image(&sector, &vec![0; 512], &[], 0, 0),
        Err(ImageError::BootloaderUnaligned)
    );
    assert_eq!(
        create_boot_image(&sector, &[], &vec![0; 100], 0, 0),
        Err(ImageError::KernelUnaligned)
    );
}
