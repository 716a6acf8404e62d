use flugzeug::cpu::{get_features, verify_cpu, Cpuid};
use flugzeug::pci::{escape_string, DeviceEntry, PciDeviceData, VendorEntry};

fn leaf(eax: u32, ebx: u32, ecx: u32, edx: u32) -> Cpuid {
    Cpuid { eax, ebx, ecx, edx }
}

#[test]
fn cpu_feature_decoding() {
    let all = 0xffff_ffff;
    let f = get_features(leaf(7, 0, 0, 0), leaf(0, 0, all, all), leaf(0, all, 0, 0),
                         leaf(0x8000_0001, 0, 0, 0), leaf(0, 0, all, all));
    assert!(f.fpu && f.sse2 && f.avx && f.avx2 && f.svm && f.bits64 && f.page1g);
    assert_eq!(verify_cpu(&f), Ok(()));

    // Leaves above the reported maximum are not read.
    let f = get_features(leaf(1, 0, 0, 0), leaf(0, 0, all, all), leaf(0, all, 0, 0),
                         leaf(0x8000_0000, 0, 0, 0), leaf(0, 0, all, all));
    assert!(f.sse && !f.avx2 && !f.svm && !f.xd);
    assert_eq!(verify_cpu(&f), Err("avx2"));

    let f = get_features(leaf(0, 0, 0, 0), leaf(0, 0, all, all), leaf(0, all, 0, 0),
                         leaf(0x8000_0001, 0, 0, 0), leaf(0, 0, all, all));
    assert!(!f.fpu);
    assert_eq!(verify_cpu(&f), Err("fpu"));
}

fn database() -> Vec<VendorEntry> {
    vec![
        VendorEntry {
            vendor_id: 0x1022,
            name: "Advanced Micro Devices, Inc. [AMD]".to_string(),
            devices: vec![
                DeviceEntry { device_id: 0x1450, name: "Family 17h Root Complex".to_string() },
                DeviceEntry { device_id: 0x1480, name: "Starship Root Complex".to_string() },
            ],
        },
        VendorEntry {
            vendor_id: 0x8086,
            name: "Intel Corporation".to_string(),
            devices: vec![DeviceEntry { device_id: 0x100e, name: "82540EM Gigabit".to_string() }],
        },
    ]
}

#[test]
fn pci_lookup() {
    let db = database();
    let found = PciDeviceData::find(&db, 0x8086, 0x100e).unwrap();
    assert_eq!(found.vendor_id, 0x8086);
    assert_eq!(found.device_id, 0x100e);
    assert_eq!(found.vendor_name, "Intel Corporation");
    assert_eq!(found.device_name, "82540EM Gigabit");
    let found = PciDeviceData::find(&db, 0x1022, 0x1480).unwrap();
    assert_eq!(found.device_name, "Starship Root Complex");
    assert!(PciDeviceData::find(&db, 0x1022, 0x1234).is_none());
    assert!(PciDeviceData::find(&db, 0x10de, 0x1450).is_none());
    assert!(PciDeviceData::find(&Vec::new(), 0x10de, 0x1450).is_none());
}

#[test]
fn string_escaping() {
    assert_eq!(escape_string("plain"), "plain");
    assert_eq!(escape_string("say \"hi\""), "say \\\"hi\\\"");
    assert_eq!(escape_string("a\\b"), "a\\\\b");
    assert_eq!(escape_string("ümlaut \""), "ümlaut \\\"");
}
