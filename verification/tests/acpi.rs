use flugzeug::acpi::{
    locate_acpi, parse_header, sdt_entries, system_table_entries, AcpiTables, SdtError, SdtType,
    HEADER_SIZE,
};
use flugzeug::page_table::PhysAddr;

/// A table with `signature` and `payload`, with a valid checksum.
fn table(signature: &[u8; 4], payload: &[u8]) -> Vec<u8> {
    let length = (HEADER_SIZE + payload.len()) as u32;
    let mut t = Vec::new();
    t.extend_from_slice(signature);
    t.extend_from_slice(&length.to_le_bytes());
    t.push(2); // revision
    t.push(0); // checksum, fixed below
    t.extend_from_slice(b"FLUGZG");
    t.extend_from_slice(&0x1122_3344_5566_7788u64.to_le_bytes());
    t.extend_from_slice(&7u32.to_le_bytes());
    t.extend_from_slice(&0xabcdu32.to_le_bytes());
    t.extend_from_slice(&0x10u32.to_le_bytes());
    t.extend_from_slice(payload);
    let sum = t.iter().fold(0u8, |a, b| a.wrapping_add(*b));
    t[9] = 0u8.wrapping_sub(sum);
    t
}

#[test]
fn header_fields_are_read() {
    let t = table(b"HPET", &[1, 2, 3, 4]);
    let (header, payload) = parse_header(&t);
    assert_eq!(&header.signature, b"HPET");
    assert_eq!(header.length, 40);
    assert_eq!(header.revision, 2);
    assert_eq!(&header.oem_id, b"FLUGZG");
    assert_eq!(header.oem_table_id, 0x1122_3344_5566_7788);
    assert_eq!(header.oem_revision, 7);
    assert_eq!(header.creator_id, 0xabcd);
    assert_eq!(header.creator_revision, 0x10);
    assert_eq!(payload, Some((HEADER_SIZE, 4)));
}

#[test]
fn bad_checksum_gives_no_payload() {
    let mut t = table(b"APIC", &[9, 9]);
    t[37] ^= 1;
    let (header, payload) = parse_header(&t);
    assert_eq!(&header.signature, b"APIC");
    assert_eq!(payload, None);
}

#[test]
fn checksum_covers_only_the_table_length() {
    let mut t = table(b"FACP", &[]);
    // Bytes after the table do not count.
    t.push(0x55);
    let (_, payload) = parse_header(&t);
    assert_eq!(payload, Some((HEADER_SIZE, 0)));
}

#[test]
fn rsdt_and_xsdt_entries() {
    let rsdt = table(b"RSDT", &[0x00, 0x10, 0x00, 0x00, 0x78, 0x56, 0x34, 0x12]);
    let (header, payload) = parse_header(&rsdt);
    let (off, size) = payload.unwrap();
    let entries = sdt_entries(&header, &rsdt[off..off + size], SdtType::Rsdt);
    assert_eq!(entries, vec![0x1000, 0x1234_5678]);

    let xsdt_payload = 0xdead_beef_0000_1000u64.to_le_bytes();
    let xsdt = table(b"XSDT", &xsdt_payload);
    let (header, payload) = parse_header(&xsdt);
    let (off, size) = payload.unwrap();
    let entries = sdt_entries(&header, &xsdt[off..off + size], SdtType::Xsdt);
    assert_eq!(entries, vec![0xdead_beef_0000_1000]);
}

#[test]
fn tables_are_found_by_signature() {
    let mut tables = AcpiTables::new();
    assert_eq!(tables.get_acpi_tables(b"APIC"), None);
    tables.add(b"APIC", PhysAddr(0x1000), 10);
    tables.add(b"SSDT", PhysAddr(0x2000), 20);
    tables.add(b"SSDT", PhysAddr(0x3000), 30);
    assert_eq!(tables.get_acpi_tables(b"APIC"), Some(&[(PhysAddr(0x1000), 10)][..]));
    assert_eq!(
        tables.get_acpi_tables(b"SSDT"),
        Some(&[(PhysAddr(0x2000), 20), (PhysAddr(0x3000), 30)][..])
    );
    assert_eq!(tables.get_only_acpi_table(b"APIC"), Some((PhysAddr(0x1000), 10)));
    assert_eq!(tables.get_only_acpi_table(b"SSDT"), None);
    assert_eq!(tables.get_first_acpi_table(b"SSDT"), Some((PhysAddr(0x2000), 20)));
    assert_eq!(tables.get_first_acpi_table(b"HPET"), None);
}

fn rsdp(revision: u8, rsdt: u32, xsdt: u64) -> Vec<u8> {
    let mut r = Vec::new();
    r.extend_from_slice(b"RSD PTR ");
    r.push(0);
    r.extend_from_slice(b"OEMOEM");
    r.push(revision);
    r.extend_from_slice(&rsdt.to_le_bytes());
    let sum = r.iter().fold(0u8, |a, b| a.wrapping_add(*b));
    r[8] = 0u8.wrapping_sub(sum);
    r.extend_from_slice(&36u32.to_le_bytes());
    r.extend_from_slice(&xsdt.to_le_bytes());
    r.extend_from_slice(&[0, 0, 0, 0]);
    let sum = r.iter().fold(0u8, |a, b| a.wrapping_add(*b));
    r[32] = 0u8.wrapping_sub(sum);
    r
}

#[test]
fn rsdp_in_bios_area() {
    let mut mem = vec![0u8; 0x10_0000];
    let p = rsdp(2, 0x7fe_0000, 0x7fe_1000);
    mem[0xf_5a20..0xf_5a20 + 36].copy_from_slice(&p);
    let tables = locate_acpi(&mem, 0x9fc0).unwrap();
    assert_eq!(tables.rsdt, Some(0x7fe_0000));
    assert_eq!(tables.xsdt, Some(0x7fe_1000));
}

#[test]
fn rsdp_in_ebda_comes_first() {
    let mut mem = vec![0u8; 0x10_0000];
    let old = rsdp(0, 0x1234, 0);
    mem[0x9fd0..0x9fd0 + 20].copy_from_slice(&old[..20]);
    let new = rsdp(2, 0x5678, 0x9abc);
    mem[0xe_0000..0xe_0000 + 36].copy_from_slice(&new);
    let tables = locate_acpi(&mem, 0x9fc0).unwrap();
    assert_eq!(tables.rsdt, Some(0x1234));
    assert_eq!(tables.xsdt, None);
}

#[test]
fn rsdp_must_be_aligned_and_valid() {
    let mut mem = vec![0u8; 0x10_0000];
    let p = rsdp(0, 0x1234, 0);
    // Not 16 byte aligned.
    mem[0xe_0008..0xe_0008 + 20].copy_from_slice(&p[..20]);
    // Bad checksum.
    let mut bad = p.clone();
    bad[10] ^= 1;
    mem[0xe_1000..0xe_1000 + 20].copy_from_slice(&bad[..20]);
    assert!(locate_acpi(&mem, 0x9fc0).is_none());
}

#[test]
fn system_table_pointers() {
    let rsdt = table(b"RSDT", &[0x00, 0x10, 0x00, 0x00, 0x00, 0x20, 0x00, 0x00]);
    assert_eq!(system_table_entries(&rsdt, SdtType::Rsdt), Ok(vec![0x1000, 0x2000]));
    assert_eq!(system_table_entries(&rsdt, SdtType::Xsdt), Err(SdtError::Signature));
    let odd = table(b"XSDT", &[1, 2, 3, 4]);
    assert_eq!(system_table_entries(&odd, SdtType::Xsdt), Err(SdtError::Size));
    let mut broken = rsdt.clone();
    broken[40] ^= 0x10;
    assert_eq!(system_table_entries(&broken, SdtType::Rsdt), Err(SdtError::Checksum));
}
