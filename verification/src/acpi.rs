//! ACPI tables: the common header with its checksum, the list of tables in the RSDT or XSDT,
//! and the map from table signatures to the tables found.
use vstd::prelude::*;
use std::collections::BTreeMap;
use crate::elf::{decode_uint, uint_le, Endianness};
use crate::page_table::PhysAddr;
use crate::boot_block::AcpiTables as RootTables;

verus! {

#[derive(Clone, Copy, Debug)]
pub struct Rsdp {
    pub signature: [u8; 8],
    pub checksum: u8,
    pub oem_id: [u8; 6],
    pub revision: u8,
    pub rsdt_addr: u32,
}

#[derive(Clone, Copy, Debug)]
pub struct RsdpExtended {
    pub rsdp: Rsdp,
    pub length: u32,
    pub xsdt_addr: u64,
    pub extended_checksum: u8,
    pub reserved: [u8; 3],
}

/// Header common to all ACPI system description tables.
#[derive(Clone, Copy, Debug)]
pub struct Header {
    pub signature: [u8; 4],
    pub length: u32,
    pub revision: u8,
    pub checksum: u8,
    pub oem_id: [u8; 6],
    pub oem_table_id: u64,
    pub oem_revision: u32,
    pub creator_id: u32,
    pub creator_revision: u32,
}

#[derive(Clone, Copy, Debug)]
pub struct Address {
    pub address_space: u8,
    pub register_bit_width: u8,
    pub register_bit_offset: u8,
    pub reserved: u8,
    pub address: u64,
}

#[derive(Clone, Copy, Debug)]
pub struct HpetPayload {
    pub hardware_rev: u8,
    pub flags: u8,
    pub pci_vendor_id: u16,
    pub address: Address,
    pub hpet_number: u8,
    pub minimum_tick: u16,
    pub page_protection: u8,
}

/// Size of the common table header.
pub const HEADER_SIZE: usize = 36;

/// Little endian value of the `n` bytes of `b` at `off`.
pub open spec fn le(b: Seq<u8>, off: int, n: int) -> nat {
    uint_le(b.subrange(off, off + n))
}

/// Sum of the bytes of `b`.
pub open spec fn byte_sum(b: Seq<u8>) -> nat
    decreases b.len(),
{
    if b.len() == 0 {
        0
    } else {
        byte_sum(b.drop_last()) + b.last() as nat
    }
}

/// Length field of the table header at the start of `b`.
pub open spec fn header_length(b: Seq<u8>) -> nat {
    le(b, 4, 4)
}

/// The header at the start of `b` is what `h` says.
pub open spec fn header_of(b: Seq<u8>, h: Header) -> bool {
    &&& h.signature@ == b.subrange(0, 4)
    &&& h.length == le(b, 4, 4)
    &&& h.revision == b[8]
    &&& h.checksum == b[9]
    &&& h.oem_id@ == b.subrange(10, 16)
    &&& h.oem_table_id == le(b, 16, 8)
    &&& h.oem_revision == le(b, 24, 4)
    &&& h.creator_id == le(b, 28, 4)
    &&& h.creator_revision == le(b, 32, 4)
}

/// The bytes of a table of `length` bytes at the start of `b` sum to 0 modulo 256.
pub open spec fn checksum_ok(b: Seq<u8>, length: nat) -> bool {
    byte_sum(b.subrange(0, length as int)) % 256 == 0
}

/// Little endian value of the `n <= 8` bytes of `b` at `off`.
pub(crate) fn read_le(b: &[u8], off: usize, n: usize) -> (v: u64)
    requires
        n <= 8,
        off + n <= b@.len(),
    ensures
        v as nat == le(b@, off as int, n as int),
{
    let len = b.len();
    let s = vstd::slice::slice_subrange(b, off, off + n);
    decode_uint(s, Endianness::Little)
}

/// Parse the table whose bytes start `table`: its header, and the offset and size of its
/// payload when the checksum over its `length` bytes is valid.
pub fn parse_header(table: &[u8]) -> (r: (Header, Option<(usize, usize)>))
    requires
        table@.len() >= HEADER_SIZE,
        HEADER_SIZE <= header_length(table@) <= table@.len(),
    ensures
        header_of(table@, r.0),
        r.1 == (if checksum_ok(table@, header_length(table@)) {
            Some((HEADER_SIZE, (header_length(table@) - HEADER_SIZE) as usize))
        } else {
            None
        }),
{
    let signature = [table[0], table[1], table[2], table[3]];
    let oem_id = [table[10], table[11], table[12], table[13], table[14], table[15]];
    proof {
        crate::elf::lemma_uint_bound(table@.subrange(4, 8), Endianness::Little);
        crate::elf::lemma_uint_bound(table@.subrange(24, 28), Endianness::Little);
        crate::elf::lemma_uint_bound(table@.subrange(28, 32), Endianness::Little);
        crate::elf::lemma_uint_bound(table@.subrange(32, 36), Endianness::Little);
        reveal_with_fuel(crate::elf::byte_bound, 5);
    }
    let length = read_le(table, 4, 4) as u32;
    let header = Header {
        signature,
        length,
        revision: table[8],
        checksum: table[9],
        oem_id,
        oem_table_id: read_le(table, 16, 8),
        oem_revision: read_le(table, 24, 4) as u32,
        creator_id: read_le(table, 28, 4) as u32,
        creator_revision: read_le(table, 32, 4) as u32,
    };
    assert(header.signature@ =~= table@.subrange(0, 4));
    assert(header.oem_id@ =~= table@.subrange(10, 16));

    // Get the table size.
    let payload_size = (length as usize) - HEADER_SIZE;

    // Calculate table checksum.
    let mut sum: u32 = 0;
    let mut i: usize = 0;
    while i < length as usize
        invariant
            i <= length,
            length as nat == header_length(table@),
            length <= table@.len(),
            sum < 256,
            sum == byte_sum(table@.subrange(0, i as int)) % 256,
        decreases length - i,
    {
        proof {
            assert(table@.subrange(0, i as int + 1).drop_last() =~= table@.subrange(0, i as int));
        }
        sum = (sum + table[i] as u32) % 256;
        i += 1;
    }

    // Get the payload only if the checksum is valid.
    let payload = if sum == 0 {
        Some((HEADER_SIZE, payload_size))
    } else {
        None
    };
    (header, payload)
}

/// System description table that lists the other tables.
#[derive(Copy, Clone, PartialEq, Eq, Structural, Debug)]
pub enum SdtType {
    /// 32 bit table pointers.
    Rsdt,
    /// 64 bit table pointers.
    Xsdt,
}

/// Size of a table pointer in an SDT of type `t`.
pub open spec fn entry_size(t: SdtType) -> nat {
    match t {
        SdtType::Rsdt => 4,
        SdtType::Xsdt => 8,
    }
}

/// Signature that an SDT of type `t` carries.
pub open spec fn sdt_signature(t: SdtType) -> Seq<u8> {
    match t {
        SdtType::Rsdt => seq![82u8, 83u8, 68u8, 84u8],
        SdtType::Xsdt => seq![88u8, 83u8, 68u8, 84u8],
    }
}

/// Addresses of the tables listed in the payload of an SDT of type `sdt_type` with header
/// `sdt`.
pub fn sdt_entries(sdt: &Header, payload: &[u8], sdt_type: SdtType) -> (r: Vec<u64>)
    requires
        sdt.signature@ == sdt_signature(sdt_type),
        payload@.len() % entry_size(sdt_type) == 0,
    ensures
        r@.len() == payload@.len() / entry_size(sdt_type),
        forall|i: int|
            0 <= i < r@.len() ==> #[trigger] r@[i] as nat == le(
                payload@,
                i * entry_size(sdt_type),
                entry_size(sdt_type) as int,
            ),
{
    // RSDT pointers are 32 bit wide, XSDT pointers are 64 bit wide.
    let entry_size: usize = match sdt_type {
        SdtType::Rsdt => 4,
        SdtType::Xsdt => 8,
    };
    let payload_len = payload.len();
    let entry_count = payload_len / entry_size;
    let mut tables: Vec<u64> = Vec::new();
    let mut entry: usize = 0;
    while entry < entry_count
        invariant
            entry <= entry_count,
            payload_len == payload@.len(),
            entry_count == payload@.len() / (entry_size as nat),
            entry_size as nat == crate::acpi::entry_size(sdt_type),
            tables@.len() == entry,
            forall|i: int|
                0 <= i < entry ==> #[trigger] tables@[i] as nat == le(
                    payload@,
                    i * entry_size,
                    entry_size as int,
                ),
        decreases entry_count - entry,
    {
        proof {
            assert((entry + 1) * entry_size <= payload@.len()) by (nonlinear_arith)
                requires
                    entry < entry_count,
                    entry_count == payload@.len() / (entry_size as nat),
                    entry_size > 0,
            ;
            assert(entry * entry_size + entry_size == (entry + 1) * entry_size) by (nonlinear_arith);
        }
        let table_addr = read_le(payload, entry * entry_size, entry_size);
        tables.push(table_addr);
        entry += 1;
    }
    tables
}

/// Why the RSDT or XSDT cannot be used.
#[derive(Copy, Clone, PartialEq, Eq, Structural, Debug)]
pub enum SdtError {
    /// The checksum of the table is invalid.
    Checksum,
    /// The table does not carry the signature of its type.
    Signature,
    /// The payload is not a whole number of table pointers.
    Size,
}

/// Addresses of the tables that the RSDT or XSDT `table` lists; its header must fit in it
/// and its length must not exceed it.
pub fn system_table_entries(table: &[u8], sdt_type: SdtType) -> (r: Result<Vec<u64>, SdtError>)
    requires
        table@.len() >= HEADER_SIZE,
        HEADER_SIZE <= header_length(table@) <= table@.len(),
    ensures
        !checksum_ok(table@, header_length(table@)) ==> r == Err::<Vec<u64>, SdtError>(
            SdtError::Checksum,
        ),
        checksum_ok(table@, header_length(table@)) && table@.subrange(0, 4) != sdt_signature(
            sdt_type,
        ) ==> r == Err::<Vec<u64>, SdtError>(SdtError::Signature),
        checksum_ok(table@, header_length(table@)) && table@.subrange(0, 4) == sdt_signature(
            sdt_type,
        ) && (header_length(table@) - HEADER_SIZE) % (entry_size(sdt_type) as int) != 0 ==> r == Err::<
            Vec<u64>,
            SdtError,
        >(SdtError::Size),
        r matches Ok(v) ==> {
            &&& checksum_ok(table@, header_length(table@))
            &&& table@.subrange(0, 4) == sdt_signature(sdt_type)
            &&& (header_length(table@) - HEADER_SIZE) % (entry_size(sdt_type) as int) == 0
            &&& v@.len() == (header_length(table@) - HEADER_SIZE) / (entry_size(sdt_type) as int)
            &&& forall|i: int|
                0 <= i < v@.len() ==> #[trigger] v@[i] as nat == le(
                    table@,
                    HEADER_SIZE + i * entry_size(sdt_type),
                    entry_size(sdt_type) as int,
                )
        },
{
    let (sdt, payload) = parse_header(table);
    let (offset, size) = match payload {
        Some(p) => p,
        None => return Err(SdtError::Checksum),
    };
    let expected: [u8; 4] = match sdt_type {
        SdtType::Rsdt => [82u8, 83, 68, 84],
        SdtType::Xsdt => [88u8, 83, 68, 84],
    };
    if sdt.signature[0] != expected[0] || sdt.signature[1] != expected[1] || sdt.signature[2]
        != expected[2] || sdt.signature[3] != expected[3] {
        proof {
            if table@.subrange(0, 4) == sdt_signature(sdt_type) {
                assert(sdt.signature@ == expected@);
            }
        }
        return Err(SdtError::Signature);
    }
    assert(sdt.signature@ =~= sdt_signature(sdt_type));
    let entry_size: usize = match sdt_type {
        SdtType::Rsdt => 4,
        SdtType::Xsdt => 8,
    };
    if size % entry_size != 0 {
        return Err(SdtError::Size);
    }
    let body = vstd::slice::slice_subrange(table, offset, offset + size);
    let entries = sdt_entries(&sdt, body, sdt_type);
    proof {
        assert forall|i: int| 0 <= i < entries@.len() implies #[trigger] entries@[i] as nat == le(
            table@,
            HEADER_SIZE + i * entry_size,
            entry_size as int,
        ) by {
            assert(body@.subrange(i * entry_size, i * entry_size + entry_size) =~= table@.subrange(
                HEADER_SIZE + i * entry_size,
                HEADER_SIZE + i * entry_size + entry_size,
            ));
        }
    }
    Ok(entries)
}

/// Key under which tables with `signature` are filed: the signature read as a little endian
/// number.
pub open spec fn signature_key(signature: Seq<u8>) -> nat {
    uint_le(signature)
}

/// Tables found on the system: for each signature, the payloads of its tables in the order
/// they were added.
pub struct AcpiTables {
    tables: BTreeMap<u32, Vec<(PhysAddr, usize)>>,
}

/// Signature key of `signature`.
fn key_of(signature: &[u8; 4]) -> (r: u32)
    ensures
        r as nat == signature_key(signature@),
{
    proof {
        crate::elf::lemma_uint_bound(signature@, Endianness::Little);
        reveal_with_fuel(crate::elf::byte_bound, 5);
        assert(signature@.subrange(0, 4) =~= signature@);
    }
    read_le(signature.as_slice(), 0, 4) as u32
}

impl AcpiTables {
    /// A signature is filed only together with a table.
    #[verifier::type_invariant]
    spec fn filed_nonempty(&self) -> bool {
        forall|k: u32| #[trigger] self.tables@.contains_key(k) ==> self.tables@[k]@.len() > 0
    }

    /// Payloads of the tables filed under `key`, in the order they were added.
    pub closed spec fn tables_for(&self, key: u32) -> Seq<(PhysAddr, usize)> {
        if self.tables@.contains_key(key) {
            self.tables@[key]@
        } else {
            Seq::empty()
        }
    }

    pub fn new() -> (r: Self)
        ensures
            forall|key: u32| #[trigger] r.tables_for(key) == Seq::<(PhysAddr, usize)>::empty(),
    {
        Self { tables: BTreeMap::new() }
    }

    /// File the table with payload `payload` of `payload_size` bytes under `signature`.
    pub fn add(&mut self, signature: &[u8; 4], payload: PhysAddr, payload_size: usize)
        ensures
            forall|key: u32|
                #[trigger] final(self).tables_for(key) == if key == signature_key(signature@) {
                    old(self).tables_for(key).push((payload, payload_size))
                } else {
                    old(self).tables_for(key)
                },
    {
        proof {
            use_type_invariant(&*self);
        }
        let key = key_of(signature);
        let mut tables = BTreeMap::new();
        std::mem::swap(&mut tables, &mut self.tables);
        let mut filed = match tables.remove(&key) {
            Some(v) => v,
            None => Vec::new(),
        };
        filed.push((payload, payload_size));
        tables.insert(key, filed);
        self.tables = tables;
    }

    /// Payloads of all tables with `signature`, in the order they were added, if there are
    /// any.
    pub fn get_acpi_tables(&self, signature: &[u8; 4]) -> (r: Option<&[(PhysAddr, usize)]>)
        ensures
            r is None <==> self.tables_for(signature_key(signature@) as u32).len() == 0,
            r matches Some(v) ==> v@ == self.tables_for(signature_key(signature@) as u32),
    {
        proof {
            use_type_invariant(self);
        }
        let key = key_of(signature);
        match self.tables.get(&key) {
            Some(v) => Some(v.as_slice()),
            None => None,
        }
    }

    /// The table with `signature`, if there is exactly one.
    pub fn get_only_acpi_table(&self, signature: &[u8; 4]) -> (r: Option<(PhysAddr, usize)>)
        ensures
            r == (if self.tables_for(signature_key(signature@) as u32).len() == 1 {
                Some(self.tables_for(signature_key(signature@) as u32)[0])
            } else {
                None
            }),
    {
        match self.get_acpi_tables(signature) {
            Some(tables) => {
                if tables.len() == 1 {
                    Some(tables[0])
                } else {
                    None
                }
            },
            None => None,
        }
    }

    /// The first table added with `signature`, if any.
    pub fn get_first_acpi_table(&self, signature: &[u8; 4]) -> (r: Option<(PhysAddr, usize)>)
        ensures
            r == (if self.tables_for(signature_key(signature@) as u32).len() == 0 {
                None
            } else {
                Some(self.tables_for(signature_key(signature@) as u32)[0])
            }),
    {
        match self.get_acpi_tables(signature) {
            Some(tables) => Some(tables[0]),
            None => None,
        }
    }
}

/// Size of the root system description pointer, and of its extended form.
pub const RSDP_SIZE: usize = 20;

pub const RSDP_EXTENDED_SIZE: usize = 36;

/// The signature `RSD PTR ` of the root system description pointer.
pub open spec fn rsdp_signature() -> Seq<u8> {
    seq![82u8, 83u8, 68u8, 32u8, 80u8, 84u8, 82u8, 32u8]
}

/// A root system description pointer with a valid checksum lies at `addr` in `mem` (and,
/// from revision 1 on, its extended form with a valid checksum too).
pub open spec fn rsdp_at(mem: Seq<u8>, addr: int) -> bool {
    &&& 0 <= addr
    &&& addr + RSDP_SIZE <= mem.len()
    &&& mem.subrange(addr, addr + 8) == rsdp_signature()
    &&& byte_sum(mem.subrange(addr, addr + RSDP_SIZE)) % 256 == 0
    &&& mem[addr + 15] > 0 ==> addr + RSDP_EXTENDED_SIZE <= mem.len() && byte_sum(
        mem.subrange(addr, addr + RSDP_EXTENDED_SIZE),
    ) % 256 == 0
}

/// The system description tables that the pointer at `addr` in `mem` names: the RSDT, and
/// from revision 1 on the XSDT.
pub open spec fn rsdp_tables(mem: Seq<u8>, addr: int) -> RootTables {
    RootTables {
        rsdt: Some(le(mem, addr + 16, 4) as u64),
        xsdt: if mem[addr + 15] > 0 {
            Some(le(mem, addr + 24, 8) as u64)
        } else {
            None
        },
    }
}

/// The first 16 byte aligned address from `a` on, below `end`, where a valid pointer lies.
pub open spec fn find_rsdp(mem: Seq<u8>, a: int, end: int) -> Option<int>
    decreases (if end > a {
        end - a
    } else {
        0
    }),
{
    if a >= end {
        None
    } else if rsdp_at(mem, a) {
        Some(a)
    } else {
        find_rsdp(mem, a + 16, end)
    }
}

/// The first valid pointer at a 16 byte aligned address inside `[start, end)`.
pub open spec fn scan_rsdp(mem: Seq<u8>, start: int, end: int) -> Option<int> {
    find_rsdp(mem, (start + 15) / 16 * 16, end / 16 * 16)
}

/// The tables of the pointer found in the first KB of the EBDA at `ebda`, or else in the
/// BIOS area from 0xe0000 to 0xfffff.
pub open spec fn acpi_root(mem: Seq<u8>, ebda: int) -> Option<RootTables> {
    match scan_rsdp(mem, ebda, ebda + 1024) {
        Some(a) => Some(rsdp_tables(mem, a)),
        None => match scan_rsdp(mem, 0xe0000, 0xfffff) {
            Some(a) => Some(rsdp_tables(mem, a)),
            None => None,
        },
    }
}

/// Sum of `len` bytes of `mem` at `start`, modulo 256.
fn sum_bytes(mem: &[u8], start: usize, len: usize) -> (r: u8)
    requires
        start + len <= mem@.len(),
    ensures
        r as nat == byte_sum(mem@.subrange(start as int, start + len)) % 256,
{
    let n = mem.len();
    let mut sum: u8 = 0;
    let mut i: usize = 0;
    while i < len
        invariant
            i <= len,
            n == mem@.len(),
            start + len <= mem@.len(),
            sum as nat == byte_sum(mem@.subrange(start as int, start + i)) % 256,
        decreases len - i,
    {
        assert(mem@.subrange(start as int, start + i + 1).drop_last() =~= mem@.subrange(
            start as int,
            start + i,
        ));
        sum = sum.wrapping_add(mem[start + i]);
        i += 1;
    }
    sum
}

/// Whether a valid pointer lies at `addr`.
fn check_rsdp(mem: &[u8], addr: usize) -> (r: bool)
    ensures
        r == rsdp_at(mem@, addr as int),
{
    let n = mem.len();
    if addr > n || n - addr < RSDP_SIZE {
        return false;
    }
    let signature = [82u8, 83, 68, 32, 80, 84, 82, 32];
    let mut i: usize = 0;
    while i < 8
        invariant
            i <= 8,
            n == mem@.len(),
            addr + RSDP_SIZE <= mem@.len(),
            signature@ == rsdp_signature(),
            forall|k: int| 0 <= k < i ==> mem@[addr + k] == rsdp_signature()[k],
        decreases 8 - i,
    {
        if mem[addr + i] != signature[i] {
            proof {
                assert(mem@.subrange(addr as int, addr + 8)[i as int] != rsdp_signature()[i as int]);
            }
            return false;
        }
        i += 1;
    }
    assert(mem@.subrange(addr as int, addr + 8) =~= rsdp_signature());
    if sum_bytes(mem, addr, RSDP_SIZE) != 0 {
        return false;
    }
    if mem[addr + 15] > 0 {
        if n - addr < RSDP_EXTENDED_SIZE {
            return false;
        }
        if sum_bytes(mem, addr, RSDP_EXTENDED_SIZE) != 0 {
            return false;
        }
    }
    true
}

/// First valid pointer at a 16 byte aligned address inside `[start, end)`.
fn scan(mem: &[u8], start: usize, end: usize) -> (r: Option<usize>)
    requires
        start + 15 <= usize::MAX,
    ensures
        match scan_rsdp(mem@, start as int, end as int) {
            Some(a) => r matches Some(x) && x == a && rsdp_at(mem@, a),
            None => r is None,
        },
{
    let mut addr = (start + 0xf) / 16 * 16;
    let last = end / 16 * 16;
    while addr < last
        invariant
            find_rsdp(mem@, (start + 15) / 16 * 16, end / 16 * 16) == find_rsdp(
                mem@,
                addr as int,
                last as int,
            ),
            last == end / 16 * 16,
            addr % 16 == 0,
            last % 16 == 0,
        decreases last - addr,
    {
        if check_rsdp(mem, addr) {
            return Some(addr);
        }
        addr += 16;
    }
    None
}

/// Find the ACPI root tables: the first valid root system description pointer at a 16 byte
/// aligned address in the first KB of the EBDA, or else in the BIOS area from 0xe0000 to
/// 0xfffff. `mem` holds physical memory from address 0; `ebda` is the EBDA address that the
/// BIOS data area holds.
pub fn locate_acpi(mem: &[u8], ebda: u16) -> (r: Option<RootTables>)
    ensures
        r == acpi_root(mem@, ebda as int),
{
    let n = mem.len();
    let ebda = ebda as usize;
    let addr = match scan(mem, ebda, ebda + 1024) {
        Some(a) => a,
        None => match scan(mem, 0xe0000, 0xfffff) {
            Some(a) => a,
            None => return None,
        },
    };
    let rsdt = read_le(mem, addr + 16, 4);
    let xsdt = if mem[addr + 15] > 0 {
        Some(read_le(mem, addr + 24, 8))
    } else {
        None
    };
    Some(RootTables { rsdt: Some(rsdt), xsdt })
}

} // verus!
