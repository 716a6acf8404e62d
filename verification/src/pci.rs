//! PCI device identification: configuration space addresses, the configuration header of a
//! device, what the device scan reports of each device by the PCI ID database, and where
//! the network controller's registers are.
use vstd::prelude::*;
use vstd::string::*;

verus! {

#[derive(Clone, Copy, Debug)]
pub struct PciHeader {
    pub vendor_id: u16,
    pub device_id: u16,
    pub command: u16,
    pub status: u16,
    pub revision: u8,
    pub prog_if: u8,
    pub subclass: u8,
    pub class: u8,
    pub cache_line_size: u8,
    pub latency_timer: u8,
    pub header_type: u8,
    pub bist: u8,
    pub bar0: u32,
    pub bar1: u32,
    pub bar2: u32,
    pub bar3: u32,
    pub bar4: u32,
    pub bar5: u32,
}

/// A device of the database.
pub struct DeviceEntry {
    pub device_id: u16,
    pub name: String,
}

/// A vendor of the database with its devices, ordered by device ID.
pub struct VendorEntry {
    pub vendor_id: u16,
    pub name: String,
    pub devices: Vec<DeviceEntry>,
}

/// Names of a device found in the database.
pub struct PciDeviceData {
    pub vendor_id: u16,
    pub device_id: u16,
    pub vendor_name: String,
    pub device_name: String,
}

/// Vendors are ordered by strictly increasing vendor ID and each vendor's devices by
/// strictly increasing device ID.
pub open spec fn database_sorted(vendors: Seq<VendorEntry>) -> bool {
    &&& forall|i: int, j: int|
        0 <= i < j < vendors.len() ==> #[trigger] vendors[i].vendor_id < #[trigger] vendors[j].vendor_id
    &&& forall|v: int| 0 <= v < vendors.len() ==> devices_sorted(#[trigger] vendors[v].devices@)
}

/// Devices are ordered by strictly increasing device ID.
pub open spec fn devices_sorted(devices: Seq<DeviceEntry>) -> bool {
    forall|i: int, j: int|
        0 <= i < j < devices.len() ==> #[trigger] devices[i].device_id < #[trigger] devices[j].device_id
}

/// Binary search over the vendor IDs of the sorted `vendors`.
fn find_vendor(vendors: &Vec<VendorEntry>, vendor_id: u16) -> (r: Option<usize>)
    requires
        database_sorted(vendors@),
    ensures
        match r {
            Some(i) => i < vendors@.len() && vendors@[i as int].vendor_id == vendor_id,
            None => forall|i: int| 0 <= i < vendors@.len() ==> vendors@[i].vendor_id != vendor_id,
        },
{
    let mut lo: usize = 0;
    let mut hi: usize = vendors.len();
    while lo < hi
        invariant
            database_sorted(vendors@),
            lo <= hi <= vendors@.len(),
            forall|i: int| 0 <= i < lo ==> vendors@[i].vendor_id < vendor_id,
            forall|i: int| hi <= i < vendors@.len() ==> vendors@[i].vendor_id > vendor_id,
        decreases hi - lo,
    {
        let mid = lo + (hi - lo) / 2;
        let id = vendors[mid].vendor_id;
        if id == vendor_id {
            return Some(mid);
        } else if id < vendor_id {
            lo = mid + 1;
        } else {
            hi = mid;
        }
    }
    None
}

/// Binary search over the device IDs of the sorted `devices`.
fn find_device(devices: &Vec<DeviceEntry>, device_id: u16) -> (r: Option<usize>)
    requires
        devices_sorted(devices@),
    ensures
        match r {
            Some(i) => i < devices@.len() && devices@[i as int].device_id == device_id,
            None => forall|i: int| 0 <= i < devices@.len() ==> devices@[i].device_id != device_id,
        },
{
    let mut lo: usize = 0;
    let mut hi: usize = devices.len();
    while lo < hi
        invariant
            devices_sorted(devices@),
            lo <= hi <= devices@.len(),
            forall|i: int| 0 <= i < lo ==> devices@[i].device_id < device_id,
            forall|i: int| hi <= i < devices@.len() ==> devices@[i].device_id > device_id,
        decreases hi - lo,
    {
        let mid = lo + (hi - lo) / 2;
        let id = devices[mid].device_id;
        if id == device_id {
            return Some(mid);
        } else if id < device_id {
            lo = mid + 1;
        } else {
            hi = mid;
        }
    }
    None
}

impl PciDeviceData {
    /// Names of device `device_id` of vendor `vendor_id`, if the database lists both.
    pub fn find(vendors: &Vec<VendorEntry>, vendor_id: u16, device_id: u16) -> (r: Option<Self>)
        requires
            database_sorted(vendors@),
        ensures
            r is Some <==> exists|v: int, d: int|
                0 <= v < vendors@.len() && 0 <= d < vendors@[v].devices@.len()
                    && #[trigger] vendors@[v].vendor_id == vendor_id
                    && #[trigger] vendors@[v].devices@[d].device_id == device_id,
            r matches Some(data) ==> exists|v: int, d: int|
                0 <= v < vendors@.len() && 0 <= d < vendors@[v].devices@.len()
                    && #[trigger] vendors@[v].vendor_id == vendor_id
                    && #[trigger] vendors@[v].devices@[d].device_id == device_id
                    && data.vendor_id == vendor_id && data.device_id == device_id
                    && data.vendor_name@ == vendors@[v].name@ && data.device_name@
                    == vendors@[v].devices@[d].name@,
    {
        let vendor_index = match find_vendor(vendors, vendor_id) {
            Some(i) => i,
            None => return None,
        };
        let vendor = &vendors[vendor_index];
        proof {
            assert forall|v: int| 0 <= v < vendors@.len() && vendors@[v].vendor_id == vendor_id implies v == vendor_index by {
                if v < vendor_index {
                    assert(vendors@[v].vendor_id < vendors@[vendor_index as int].vendor_id);
                } else if v > vendor_index {
                    assert(vendors@[vendor_index as int].vendor_id < vendors@[v].vendor_id);
                }
            }
            assert(devices_sorted(vendors@[vendor_index as int].devices@));
        }
        let device_index = match find_device(&vendor.devices, device_id) {
            Some(i) => i,
            None => return None,
        };
        let device = &vendor.devices[device_index];
        let data = Self {
            vendor_id,
            device_id,
            vendor_name: vendor.name.clone(),
            device_name: device.name.clone(),
        };
        proof {
            assert(vendors@[vendor_index as int].devices@[device_index as int].device_id == device_id);
        }
        Some(data)
    }
}

/// Value written to the configuration address port to reach register `offset` of function
/// `function` of device `device` on bus `bus`: the enable bit 31, the bus in bits 16 to 23,
/// the device in bits 11 to 15, the function in bits 8 to 10, and the register offset.
pub fn config_address(bus: u32, device: u32, function: u32, offset: u32) -> (r: u32)
    requires
        bus < 256,
        device < 32,
        function < 8,
        offset < 256,
    ensures
        r == 0x8000_0000 + bus * 0x1_0000 + device * 0x800 + function * 0x100 + offset,
{
    0x8000_0000 + bus * 0x1_0000 + device * 0x800 + function * 0x100 + offset
}

/// Number of configuration registers that the header occupies.
pub const PCI_HEADER_REGISTERS: usize = 10;

/// The header read as configuration registers `regs`, in configuration space order.
pub open spec fn spec_header(regs: Seq<u32>) -> PciHeader {
    PciHeader {
        vendor_id: regs[0] as u16,
        device_id: (regs[0] >> 16u32) as u16,
        command: regs[1] as u16,
        status: (regs[1] >> 16u32) as u16,
        revision: regs[2] as u8,
        prog_if: (regs[2] >> 8u32) as u8,
        subclass: (regs[2] >> 16u32) as u8,
        class: (regs[2] >> 24u32) as u8,
        cache_line_size: regs[3] as u8,
        latency_timer: (regs[3] >> 8u32) as u8,
        header_type: (regs[3] >> 16u32) as u8,
        bist: (regs[3] >> 24u32) as u8,
        bar0: regs[4],
        bar1: regs[5],
        bar2: regs[6],
        bar3: regs[7],
        bar4: regs[8],
        bar5: regs[9],
    }
}

impl PciHeader {
    /// Decode the header from its configuration registers.
    pub fn from_registers(regs: &[u32]) -> (r: Self)
        requires
            regs@.len() == PCI_HEADER_REGISTERS,
        ensures
            r == spec_header(regs@),
    {
        PciHeader {
            vendor_id: regs[0] as u16,
            device_id: (regs[0] >> 16) as u16,
            command: regs[1] as u16,
            status: (regs[1] >> 16) as u16,
            revision: regs[2] as u8,
            prog_if: (regs[2] >> 8) as u8,
            subclass: (regs[2] >> 16) as u8,
            class: (regs[2] >> 24) as u8,
            cache_line_size: regs[3] as u8,
            latency_timer: (regs[3] >> 8) as u8,
            header_type: (regs[3] >> 16) as u8,
            bist: (regs[3] >> 24) as u8,
            bar0: regs[4],
            bar1: regs[5],
            bar2: regs[6],
            bar3: regs[7],
            bar4: regs[8],
            bar5: regs[9],
        }
    }
}

/// What the scan reports of a device.
pub enum DeviceReport {
    /// No device answers at this function.
    Absent,
    /// A device that the database names.
    Known(PciDeviceData),
    /// A device that the kernel knows and the database does not (QEMU's VGA controller).
    Expected,
    /// A device that neither knows.
    Unknown,
}

/// The report for the device that answers with `vendor_id` and `device_id`: absent when both
/// read as all ones, else its names from the database, else whether the kernel expects it.
pub fn report_device(vendors: &Vec<VendorEntry>, vendor_id: u16, device_id: u16) -> (r: DeviceReport)
    requires
        database_sorted(vendors@),
    ensures
        (vendor_id == 0xffff && device_id == 0xffff) <==> r is Absent,
        r matches DeviceReport::Known(data) ==> data.vendor_id == vendor_id && data.device_id
            == device_id,
        !(vendor_id == 0xffff && device_id == 0xffff) ==> ((r is Known) <==> exists|v: int, d: int|
            0 <= v < vendors@.len() && 0 <= d < vendors@[v].devices@.len()
                && #[trigger] vendors@[v].vendor_id == vendor_id
                && #[trigger] vendors@[v].devices@[d].device_id == device_id),
        r is Expected ==> vendor_id == 0x1234 && device_id == 0x1111,
        r is Unknown ==> !(vendor_id == 0x1234 && device_id == 0x1111),
{
    // Skip invalid devices.
    if vendor_id == 0xffff && device_id == 0xffff {
        return DeviceReport::Absent;
    }
    match PciDeviceData::find(vendors, vendor_id, device_id) {
        Some(data) => DeviceReport::Known(data),
        None => {
            // Skip devices known by us but unknown for PCI data.
            if vendor_id == 0x1234 && device_id == 0x1111 {
                DeviceReport::Expected
            } else {
                DeviceReport::Unknown
            }
        },
    }
}

/// The device is an Intel network controller that the kernel drives (82540EM or I219-V).
pub fn has_nic_driver(vendor_id: u16, device_id: u16) -> (r: bool)
    ensures
        r == (vendor_id == 0x8086 && (device_id == 0x100e || device_id == 0x1539)),
{
    vendor_id == 0x8086 && (device_id == 0x100e || device_id == 0x1539)
}

/// Why the network controller's registers cannot be found.
#[derive(Copy, Clone, PartialEq, Eq, Structural, Debug)]
pub enum NicError {
    /// BAR0 is not in memory space.
    NotMemory,
    /// BAR0 has a type other than 32 or 64 bit.
    InvalidType(u32),
    /// The registers do not start on a page boundary.
    Unaligned,
}

impl NicError {
    /// Description of the error.
    pub fn message(&self) -> (r: &'static str)
        ensures
            r@ == (match *self {
                NicError::NotMemory => "Intel NIC BAR0 is not in memory space."@,
                NicError::InvalidType(_) => "Intel NIC BAR0 invalid type."@,
                NicError::Unaligned => "Intel NIC MMIO is not page aligned."@,
            }),
    {
        match self {
            NicError::NotMemory => "Intel NIC BAR0 is not in memory space.",
            NicError::InvalidType(_) => "Intel NIC BAR0 invalid type.",
            NicError::Unaligned => "Intel NIC MMIO is not page aligned.",
        }
    }
}

/// The base address of the register space that BAR0 (with BAR1 for a 64 bit BAR) of
/// `header` gives, and whether it is prefetchable.
pub fn nic_mmio_base(header: &PciHeader) -> (r: Result<(u64, bool), NicError>)
    ensures
        header.bar0 & 1 != 0 ==> r == Err::<(u64, bool), NicError>(NicError::NotMemory),
        header.bar0 & 1 == 0 && (header.bar0 >> 1u32) & 3 != 0 && (header.bar0 >> 1u32) & 3 != 2
            ==> r == Err::<(u64, bool), NicError>(NicError::InvalidType((header.bar0 >> 1u32) & 3)),
        header.bar0 & 1 == 0 && ((header.bar0 >> 1u32) & 3 == 0 || (header.bar0 >> 1u32) & 3 == 2)
            ==> {
            let base: u64 = if (header.bar0 >> 1u32) & 3 == 0 {
                (header.bar0 & 0xffff_fff0) as u64
            } else {
                ((header.bar1 as u64) << 32u64) | ((header.bar0 & 0xffff_fff0) as u64)
            };
            r == if base % 4096 != 0 {
                Err::<(u64, bool), NicError>(NicError::Unaligned)
            } else {
                Ok::<(u64, bool), NicError>((base, (header.bar0 >> 3u32) & 1 == 1))
            }
        },
{
    let bar = header.bar0;
    let memory = bar & 1 == 0;
    let typ = (bar >> 1) & 0b11;
    let prefetchable = (bar >> 3) & 1 == 1;
    if !memory {
        return Err(NicError::NotMemory);
    }
    let base_address: u64 = if typ == 0 {
        (bar & 0xffff_fff0) as u64
    } else if typ == 2 {
        let lo = (header.bar0 & 0xffff_fff0) as u64;
        let hi = header.bar1 as u64;
        (hi << 32) | lo
    } else {
        return Err(NicError::InvalidType(typ));
    };
    if base_address % 4096 != 0 {
        return Err(NicError::Unaligned);
    }
    Ok((base_address, prefetchable))
}

/// `s` with a backslash before every double quote and backslash.
pub open spec fn escaped(s: Seq<char>) -> Seq<char>
    decreases s.len(),
{
    if s.len() == 0 {
        Seq::empty()
    } else {
        let rest = escaped(s.drop_last());
        let ch = s.last();
        if ch == '"' || ch == '\\' {
            rest.push('\\').push(ch)
        } else {
            rest.push(ch)
        }
    }
}

/// `string` with double quotes and backslashes escaped, ready to be put in a Rust string
/// literal.
pub fn escape_string(string: &str) -> (r: String)
    ensures
        r@ == escaped(string@),
{
    let mut result = String::new();
    let n = string.unicode_len();
    let mut i: usize = 0;
    while i < n
        invariant
            n == string@.len(),
            i <= n,
            result@ == escaped(string@.subrange(0, i as int)),
        decreases n - i,
    {
        let ch = string.get_char(i);
        proof {
            let prefix = string@.subrange(0, i as int + 1);
            assert(prefix.drop_last() =~= string@.subrange(0, i as int));
            assert(prefix.last() == ch);
        }
        let escape = ch == '"' || ch == '\\';
        if escape {
            let backslash = "\\";
            proof {
                reveal_strlit("\\");
            }
            result.append(backslash);
        }
        let one = string.substring_char(i, i + 1);
        proof {
            assert(one@ =~= seq![ch]);
        }
        result.append(one);
        proof {
            let r0 = escaped(string@.subrange(0, i as int));
            if escape {
                assert(result@ =~= r0.push('\\').push(ch));
            } else {
                assert(result@ =~= r0.push(ch));
            }
        }
        i += 1;
    }
    proof {
        assert(string@.subrange(0, n as int) =~= string@);
    }
    result
}

} // verus!
