use flugzeug::pci::PciDeviceData;
use flugzeug::pci_ids::{build_database, classify_line, parse_pci_ids, LineKind, PciIdsError};

const SAMPLE: &str = "# List of PCI ID's
#
#\tvendor  vendor_name
#\t\tdevice  device_name

8086  Intel Corporation
\t100e  82540EM Gigabit Ethernet Controller
\t\t1028 002e  Optiplex GX260
\t1237  440FX - 82441FX PMC [Natoma]
1022  Advanced Micro Devices, Inc. [AMD]
\t2000  79c970 [PCnet32 LANCE]
\t1450  Family 17h (Models 00h-0fh) Root Complex
dead  Vendor without devices
1234  Technical Corp. \u{a0}
\t1111  QEMU \"VGA\"\r

C 00  Unclassified device
\t00  Non-VGA unclassified device
";

#[test]
fn reads_vendors_in_file_order() {
    let vendors = parse_pci_ids(SAMPLE.as_bytes()).unwrap();
    let ids: Vec<u16> = vendors.iter().map(|v| v.vendor_id).collect();
    assert_eq!(ids, vec![0x8086, 0x1022, 0xdead, 0x1234]);
    assert_eq!(vendors[0].name, "Intel Corporation");
    assert_eq!(vendors[0].devices.len(), 2);
    assert_eq!(vendors[0].devices[0].device_id, 0x100e);
    assert_eq!(vendors[0].devices[1].name, "440FX - 82441FX PMC [Natoma]");
    assert_eq!(vendors[1].devices[0].name, "79c970 [PCnet32 LANCE]");
    assert!(vendors[2].devices.is_empty());
    // Unicode whitespace is trimmed like ASCII whitespace, and so is a carriage return.
    assert_eq!(vendors[3].name, "Technical Corp.");
    assert_eq!(vendors[3].devices[0].name, "QEMU \"VGA\"");
}

#[test]
fn database_is_sorted() {
    let db = build_database(parse_pci_ids(SAMPLE.as_bytes()).unwrap());
    let ids: Vec<u16> = db.iter().map(|v| v.vendor_id).collect();
    assert_eq!(ids, vec![0x1022, 0x1234, 0x8086]);
    let amd: Vec<u16> = db[0].devices.iter().map(|d| d.device_id).collect();
    assert_eq!(amd, vec![0x1450, 0x2000]);
    let found = PciDeviceData::find(&db, 0x1022, 0x2000).unwrap();
    assert_eq!(found.device_name, "79c970 [PCnet32 LANCE]");
    assert!(PciDeviceData::find(&db, 0xdead, 0).is_none());
}

#[test]
fn stable_order_for_equal_ids() {
    let text = "0001  first\n\t0002  a\n\t0002  b\n0001  second\n\t0001  c\n";
    let db = build_database(parse_pci_ids(text.as_bytes()).unwrap());
    assert_eq!(db[0].name, "first");
    assert_eq!(db[1].name, "second");
    assert_eq!(db[0].devices[0].name, "a");
    assert_eq!(db[0].devices[1].name, "b");
}

#[test]
fn line_kinds() {
    assert_eq!(classify_line(b"   ").0, LineKind::Skip);
    assert_eq!(classify_line(b"# comment").0, LineKind::Skip);
    assert_eq!(classify_line(b"\t\t1028 002e  Sub").0, LineKind::Skip);
    assert_eq!(classify_line(b"C 00  Unclassified").0, LineKind::Stop);
    let (kind, start, end) = classify_line(b"10de  NVIDIA Corporation  ");
    assert_eq!(kind, LineKind::Vendor(0x10de));
    assert_eq!(&b"10de  NVIDIA Corporation  "[start..end], b"NVIDIA Corporation");
    assert_eq!(classify_line(b"\t+0fAb x").0, LineKind::Device(0xfab));
    assert_eq!(classify_line(b"\t\t\t1 x").0, LineKind::Error(PciIdsError::TooDeep));
    assert_eq!(classify_line(b"abcd").0, LineKind::Error(PciIdsError::MissingName));
    assert_eq!(classify_line(b"1g00 x").0, LineKind::Error(PciIdsError::BadId));
    assert_eq!(classify_line(b"10000 x").0, LineKind::Error(PciIdsError::BadId));
    assert_eq!(classify_line(b"+ x").0, LineKind::Error(PciIdsError::BadId));
}

#[test]
fn file_errors() {
    assert_eq!(parse_pci_ids(b"\t1234  orphan\n").err(), Some(PciIdsError::DeviceWithoutVendor));
    assert_eq!(parse_pci_ids(b"1234  ok\nzz  bad\n").err(), Some(PciIdsError::BadId));
    assert_eq!(parse_pci_ids(b"1234  \xff\xfe\n").err(), Some(PciIdsError::BadName));
    assert_eq!(parse_pci_ids(b"").map(|v| v.len()).ok(), Some(0));
}
