use flugzeug::elf::{Bitness, Elf, Endianness, Machine, SectionType, SegmentType};

fn put(b: &mut [u8], off: usize, v: &[u8]) {
    b[off..off + v.len()].copy_from_slice(v);
}

/// A small 64 bit little endian x86-64 image with two loadable segments and the sections
/// `.text` and `.shstrtab`.
fn image() -> Vec<u8> {
    let mut b = vec![0u8; 0x1f0];
    put(&mut b, 0, &[0x7f, b'E', b'L', b'F', 2, 1, 1]);
    put(&mut b, 0x10, &2u16.to_le_bytes());
    put(&mut b, 0x12, &0x3eu16.to_le_bytes());
    put(&mut b, 0x18, &0x40_1000u64.to_le_bytes());
    put(&mut b, 0x20, &0x40u64.to_le_bytes());
    put(&mut b, 0x28, &0x130u64.to_le_bytes());
    put(&mut b, 0x36, &56u16.to_le_bytes());
    put(&mut b, 0x38, &2u16.to_le_bytes());
    put(&mut b, 0x3a, &64u16.to_le_bytes());
    put(&mut b, 0x3c, &3u16.to_le_bytes());
    put(&mut b, 0x3e, &2u16.to_le_bytes());

    // Code segment: read and execute.
    let p = 0x40;
    put(&mut b, p, &1u32.to_le_bytes());
    put(&mut b, p + 4, &5u32.to_le_bytes());
    put(&mut b, p + 8, &0x100u64.to_le_bytes());
    put(&mut b, p + 0x10, &0x40_1000u64.to_le_bytes());
    put(&mut b, p + 0x20, &0x10u64.to_le_bytes());
    put(&mut b, p + 0x28, &0x20u64.to_le_bytes());
    put(&mut b, p + 0x30, &0x1000u64.to_le_bytes());
    // Data segment: read and write, below the code.
    let p = 0x40 + 56;
    put(&mut b, p, &1u32.to_le_bytes());
    put(&mut b, p + 4, &6u32.to_le_bytes());
    put(&mut b, p + 8, &0x110u64.to_le_bytes());
    put(&mut b, p + 0x10, &0x40_0000u64.to_le_bytes());
    put(&mut b, p + 0x20, &8u64.to_le_bytes());
    put(&mut b, p + 0x28, &8u64.to_le_bytes());

    for i in 0..0x10 {
        b[0x100 + i] = 0x90;
    }
    put(&mut b, 0x110, b"DATADATA");
    put(&mut b, 0x118, b"\0.text\0.shstrtab\0");

    // Section 1: .text.
    let s = 0x130 + 64;
    put(&mut b, s, &1u32.to_le_bytes());
    put(&mut b, s + 4, &1u32.to_le_bytes());
    put(&mut b, s + 8, &6u64.to_le_bytes());
    put(&mut b, s + 0x10, &0x40_1000u64.to_le_bytes());
    put(&mut b, s + 0x18, &0x100u64.to_le_bytes());
    put(&mut b, s + 0x20, &0x10u64.to_le_bytes());
    put(&mut b, s + 0x30, &16u64.to_le_bytes());
    // Section 2: .shstrtab.
    let s = 0x130 + 128;
    put(&mut b, s, &7u32.to_le_bytes());
    put(&mut b, s + 4, &3u32.to_le_bytes());
    put(&mut b, s + 0x18, &0x118u64.to_le_bytes());
    put(&mut b, s + 0x20, &17u64.to_le_bytes());
    b
}

#[test]
fn parses_header_and_base_address() {
    let bytes = image();
    let elf = Elf::parse(&bytes).expect("valid image");
    assert_eq!(elf.bitness(), Bitness::Bits64);
    assert_eq!(elf.endianness(), Endianness::Little);
    assert_eq!(elf.machine(), Machine::Amd64);
    assert_eq!(elf.entrypoint(), 0x40_1000);
    // The lowest loadable segment decides the base address.
    assert_eq!(elf.base_address(), 0x40_0000);
}

#[test]
fn segments_in_header_order() {
    let bytes = image();
    let elf = Elf::parse(&bytes).unwrap();
    let (segments, all_decoded) = elf.segments();
    assert_eq!(all_decoded, Some(()));
    assert_eq!(segments.len(), 2);
    let code = &segments[0];
    assert_eq!(code.seg_type, SegmentType::Load);
    assert_eq!(code.virt_addr, 0x40_1000);
    assert_eq!(code.virt_size, 0x20);
    assert_eq!(code.bytes, &[0x90u8; 16][..]);
    assert_eq!(code.align, Some(0x1000));
    assert!(code.read && code.execute && !code.write);
    let data = &segments[1];
    assert_eq!(data.bytes, b"DATADATA");
    assert_eq!(data.align, None);
    assert!(data.read && data.write && !data.execute);
}

#[test]
fn sections_and_names() {
    let bytes = image();
    let elf = Elf::parse(&bytes).unwrap();
    let text = elf.section_by_name(".text").expect(".text");
    assert_eq!(text.name, Some(".text"));
    assert_eq!(text.sec_type, SectionType::Progbits);
    assert_eq!(text.virt_addr, 0x40_1000);
    assert_eq!(text.bytes, Some(&[0x90u8; 16][..]));
    assert!(text.alloc && text.execute && !text.write);
    assert_eq!(text.link, None);
    assert!(elf.section_by_name(".data").is_none());
    let (sections, all_decoded) = elf.sections();
    assert_eq!(all_decoded, Some(()));
    assert_eq!(sections.len(), 3);
    assert_eq!(sections[2].name, Some(".shstrtab"));
    assert_eq!(sections[2].sec_type, SectionType::Strtab);
    assert!(elf.section_by_index(3).is_none());
    assert!(elf.segment_by_index(2).is_none());
}

#[test]
fn rejects_bad_images() {
    let mut bytes = image();
    bytes[0] = 0;
    assert!(Elf::parse(&bytes).is_none());

    let mut bytes = image();
    bytes[4] = 3;
    assert!(Elf::parse(&bytes).is_none());

    // A segment whose contents lie outside the image.
    let mut bytes = image();
    put(&mut bytes, 0x40 + 0x20, &0x1000u64.to_le_bytes());
    assert!(Elf::parse(&bytes).is_none());

    // No loadable segment.
    let mut bytes = image();
    put(&mut bytes, 0x40, &4u32.to_le_bytes());
    put(&mut bytes, 0x40 + 56, &4u32.to_le_bytes());
    assert!(Elf::parse(&bytes).is_none());

    assert!(Elf::parse(&[]).is_none());
}
