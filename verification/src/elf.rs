//! Parser of 32 and 64 bit ELF images, little and big endian.
use vstd::prelude::*;
use vstd::utf8::valid_utf8;
use vstd::string::StringSliceAdditionalSpecFns;

verus! {

#[derive(Copy, Clone, PartialEq, Eq, Structural, Debug)]
pub enum Bitness {
    Bits32,
    Bits64,
}

#[derive(Copy, Clone, PartialEq, Eq, Structural, Debug)]
pub enum Endianness {
    Little,
    Big,
}

#[derive(Copy, Clone, PartialEq, Eq, Structural, Debug)]
pub enum Machine {
    NoMachine,
    X86,
    Mips,
    PowerPC,
    PowerPC64,
    Arm,
    Ia64,
    Amd64,
    Arm64,
    RiscV,
    Other(u16),
}

#[derive(Copy, Clone, PartialEq, Eq, Structural, Debug)]
pub enum SegmentType {
    Null,
    Load,
    Dynamic,
    Interp,
    Note,
    Shlib,
    Phdr,
    Tls,
    Other(u32),
}

#[derive(Copy, Clone, PartialEq, Eq, Structural, Debug)]
pub enum SectionType {
    Null,
    Progbits,
    Symtab,
    Strtab,
    Rela,
    Hash,
    Dynamic,
    Note,
    Nobits,
    Rel,
    Shlib,
    Dynsym,
    InitArray,
    FiniArray,
    PreinitArray,
    Group,
    SymtabShndx,
    Num,
    Other(u32),
}

// ----------------------------------------------------------------------------------------
// The ELF format, stated over the bytes of an image.
// ----------------------------------------------------------------------------------------

/// Unsigned value of little endian bytes.
pub open spec fn uint_le(b: Seq<u8>) -> nat
    decreases b.len(),
{
    if b.len() == 0 {
        0
    } else {
        b[0] as nat + 256 * uint_le(b.drop_first())
    }
}

/// Unsigned value of big endian bytes.
pub open spec fn uint_be(b: Seq<u8>) -> nat
    decreases b.len(),
{
    if b.len() == 0 {
        0
    } else {
        uint_be(b.drop_last()) * 256 + b.last() as nat
    }
}

/// Unsigned value of bytes in the given byte order.
pub open spec fn uint_of(b: Seq<u8>, e: Endianness) -> nat {
    match e {
        Endianness::Little => uint_le(b),
        Endianness::Big => uint_be(b),
    }
}

/// The `n` bytes at `off`, if they lie inside `b`.
pub open spec fn slice_spec(b: Seq<u8>, off: int, n: int) -> Option<Seq<u8>> {
    if 0 <= off && 0 <= n && off + n <= b.len() {
        Some(b.subrange(off, off + n))
    } else {
        None
    }
}

/// The unsigned integer of `n` bytes at `off` (when they lie inside `b`).
pub open spec fn read_spec(b: Seq<u8>, off: int, n: int, e: Endianness) -> Option<u64> {
    match slice_spec(b, off, n) {
        Some(s) => Some(uint_of(s, e) as u64),
        None => None,
    }
}

pub open spec fn spec_machine(v: u16) -> Machine {
    if v == 0x00 {
        Machine::NoMachine
    } else if v == 0x03 {
        Machine::X86
    } else if v == 0x08 {
        Machine::Mips
    } else if v == 0x14 {
        Machine::PowerPC
    } else if v == 0x15 {
        Machine::PowerPC64
    } else if v == 0x28 {
        Machine::Arm
    } else if v == 0x32 {
        Machine::Ia64
    } else if v == 0x3e {
        Machine::Amd64
    } else if v == 0xb7 {
        Machine::Arm64
    } else if v == 0xf3 {
        Machine::RiscV
    } else {
        Machine::Other(v)
    }
}

pub open spec fn spec_segment_type(v: u32) -> SegmentType {
    if v == 0 {
        SegmentType::Null
    } else if v == 1 {
        SegmentType::Load
    } else if v == 2 {
        SegmentType::Dynamic
    } else if v == 3 {
        SegmentType::Interp
    } else if v == 4 {
        SegmentType::Note
    } else if v == 5 {
        SegmentType::Shlib
    } else if v == 6 {
        SegmentType::Phdr
    } else if v == 7 {
        SegmentType::Tls
    } else {
        SegmentType::Other(v)
    }
}

pub open spec fn spec_section_type(v: u32) -> SectionType {
    if v == 0x00 {
        SectionType::Null
    } else if v == 0x01 {
        SectionType::Progbits
    } else if v == 0x02 {
        SectionType::Symtab
    } else if v == 0x03 {
        SectionType::Strtab
    } else if v == 0x04 {
        SectionType::Rela
    } else if v == 0x05 {
        SectionType::Hash
    } else if v == 0x06 {
        SectionType::Dynamic
    } else if v == 0x07 {
        SectionType::Note
    } else if v == 0x08 {
        SectionType::Nobits
    } else if v == 0x09 {
        SectionType::Rel
    } else if v == 0x0a {
        SectionType::Shlib
    } else if v == 0x0b {
        SectionType::Dynsym
    } else if v == 0x0e {
        SectionType::InitArray
    } else if v == 0x0f {
        SectionType::FiniArray
    } else if v == 0x10 {
        SectionType::PreinitArray
    } else if v == 0x11 {
        SectionType::Group
    } else if v == 0x12 {
        SectionType::SymtabShndx
    } else if v == 0x13 {
        SectionType::Num
    } else {
        SectionType::Other(v)
    }
}

/// Fields of the ELF file header.
#[derive(Copy, Clone, PartialEq, Eq, Structural, Debug)]
pub struct ElfHeader {
    pub bitness: Bitness,
    pub endianness: Endianness,
    pub machine: Machine,
    pub entrypoint: u64,
    pub segment_table: u64,
    pub segment_entry_size: u64,
    pub segment_count: u64,
    pub section_table: u64,
    pub section_entry_size: u64,
    pub section_count: u64,
    pub shstrndx: u64,
}

pub open spec fn is_elf_magic(b: Seq<u8>) -> bool {
    b.len() >= 4 && b[0] == 0x7f && b[1] == 0x45 && b[2] == 0x4c && b[3] == 0x46
}

pub open spec fn spec_bitness(v: u8) -> Option<Bitness> {
    if v == 1 {
        Some(Bitness::Bits32)
    } else if v == 2 {
        Some(Bitness::Bits64)
    } else {
        None
    }
}

pub open spec fn spec_endianness(v: u8) -> Option<Endianness> {
    if v == 1 {
        Some(Endianness::Little)
    } else if v == 2 {
        Some(Endianness::Big)
    } else {
        None
    }
}

/// Offsets and widths of the file header fields, in the order entry, program header
/// offset, program header entry size, program header count, section header offset, section
/// header entry size, section header count, section name string table index.
pub open spec fn header_layout(bitness: Bitness) -> Seq<(int, int)> {
    match bitness {
        Bitness::Bits32 => seq![
            (0x18, 4),
            (0x1c, 4),
            (0x2a, 2),
            (0x2c, 2),
            (0x20, 4),
            (0x2e, 2),
            (0x30, 2),
            (0x32, 2),
        ],
        Bitness::Bits64 => seq![
            (0x18, 8),
            (0x20, 8),
            (0x36, 2),
            (0x38, 2),
            (0x28, 8),
            (0x3a, 2),
            (0x3c, 2),
            (0x3e, 2),
        ],
    }
}

/// The `k`th field of `header_layout` in the image `b`.
pub open spec fn header_field(b: Seq<u8>, bitness: Bitness, e: Endianness, k: int) -> Option<u64> {
    read_spec(b, header_layout(bitness)[k].0, header_layout(bitness)[k].1, e)
}

/// The file header of the image `b`, if it has one that can be read.
pub open spec fn header_spec(b: Seq<u8>) -> Option<ElfHeader> {
    if !is_elf_magic(b) || b.len() < 6 || spec_bitness(b[4]) is None || spec_endianness(b[5]) is None {
        None
    } else {
        let bitness = spec_bitness(b[4]).unwrap();
        let e = spec_endianness(b[5]).unwrap();
        let f = |k: int| header_field(b, bitness, e, k);
        if read_spec(b, 0x12, 2, e) is None || exists|k: int| 0 <= k < 8 && #[trigger] header_field(b, bitness, e, k) is None {
            None
        } else {
            Some(
                ElfHeader {
                    bitness,
                    endianness: e,
                    machine: spec_machine(read_spec(b, 0x12, 2, e).unwrap() as u16),
                    entrypoint: f(0).unwrap(),
                    segment_table: f(1).unwrap(),
                    segment_entry_size: f(2).unwrap(),
                    segment_count: f(3).unwrap(),
                    section_table: f(4).unwrap(),
                    section_entry_size: f(5).unwrap(),
                    section_count: f(6).unwrap(),
                    shstrndx: f(7).unwrap(),
                },
            )
        }
    }
}

/// The file header's fields are read where the ELF format puts them: an image starts with
/// 0x7f 'E' 'L' 'F', byte 4 is 1 for a 32-bit and 2 for a 64-bit image, byte 5 is 1 for
/// little and 2 for big endian, and the other fields are read in that byte order: a 32-bit image keeps its entry point in the 4 bytes at 0x18 and its program and
/// section header table offsets in the 4 bytes at 0x1c and 0x20; a 64-bit image keeps them in
/// the 8 bytes at 0x18, 0x20 and 0x28. The program header entry size and count, the section
/// header entry size and count and the section name table index follow in 2 bytes each,
/// from 0x2a (32-bit) or 0x36 (64-bit).
pub proof fn lemma_header_fields(b: Seq<u8>)
    requires
        header_spec(b) is Some,
    ensures
        ({
            let h = header_spec(b)->0;
            let e = h.endianness;
            &&& b.len() >= 6 && b[0] == 0x7f && b[1] == 0x45 && b[2] == 0x4c && b[3] == 0x46
            &&& (h.bitness == Bitness::Bits32) == (b[4] == 1)
            &&& (h.bitness == Bitness::Bits64) == (b[4] == 2)
            &&& (h.endianness == Endianness::Little) == (b[5] == 1)
            &&& (h.endianness == Endianness::Big) == (b[5] == 2)
            &&& h.bitness == Bitness::Bits32 ==> {
                &&& b.len() >= 0x34
                &&& h.entrypoint == uint_of(b.subrange(0x18, 0x1c), e)
                &&& h.entrypoint < 0x1_0000_0000
                &&& h.segment_table == uint_of(b.subrange(0x1c, 0x20), e)
                &&& h.section_table == uint_of(b.subrange(0x20, 0x24), e)
                &&& h.segment_entry_size == uint_of(b.subrange(0x2a, 0x2c), e)
                &&& h.segment_count == uint_of(b.subrange(0x2c, 0x2e), e)
                &&& h.section_entry_size == uint_of(b.subrange(0x2e, 0x30), e)
                &&& h.section_count == uint_of(b.subrange(0x30, 0x32), e)
                &&& h.shstrndx == uint_of(b.subrange(0x32, 0x34), e)
            }
            &&& h.bitness == Bitness::Bits64 ==> {
                &&& b.len() >= 0x40
                &&& h.entrypoint == uint_of(b.subrange(0x18, 0x20), e)
                &&& h.segment_table == uint_of(b.subrange(0x20, 0x28), e)
                &&& h.section_table == uint_of(b.subrange(0x28, 0x30), e)
                &&& h.segment_entry_size == uint_of(b.subrange(0x36, 0x38), e)
                &&& h.segment_count == uint_of(b.subrange(0x38, 0x3a), e)
                &&& h.section_entry_size == uint_of(b.subrange(0x3a, 0x3c), e)
                &&& h.section_count == uint_of(b.subrange(0x3c, 0x3e), e)
                &&& h.shstrndx == uint_of(b.subrange(0x3e, 0x40), e)
            }
        }),
{
    let bitness = spec_bitness(b[4]).unwrap();
    let e = spec_endianness(b[5]).unwrap();
    lemma_header_is_fields(b);
    lemma_field_bytes(b, bitness, e, 0);
    lemma_field_bytes(b, bitness, e, 1);
    lemma_field_bytes(b, bitness, e, 2);
    lemma_field_bytes(b, bitness, e, 3);
    lemma_field_bytes(b, bitness, e, 4);
    lemma_field_bytes(b, bitness, e, 5);
    lemma_field_bytes(b, bitness, e, 6);
    lemma_field_bytes(b, bitness, e, 7);
    reveal_with_fuel(byte_bound, 5);
}

/// A readable header is made of its fields.
proof fn lemma_header_is_fields(b: Seq<u8>)
    requires
        header_spec(b) is Some,
    ensures
        ({
            let bitness = spec_bitness(b[4]).unwrap();
            let e = spec_endianness(b[5]).unwrap();
            let h = header_spec(b)->0;
            &&& h.bitness == bitness
            &&& h.endianness == e
            &&& forall|k: int| 0 <= k < 8 ==> #[trigger] header_field(b, bitness, e, k) is Some
            &&& h.entrypoint == header_field(b, bitness, e, 0)->0
            &&& h.segment_table == header_field(b, bitness, e, 1)->0
            &&& h.segment_entry_size == header_field(b, bitness, e, 2)->0
            &&& h.segment_count == header_field(b, bitness, e, 3)->0
            &&& h.section_table == header_field(b, bitness, e, 4)->0
            &&& h.section_entry_size == header_field(b, bitness, e, 5)->0
            &&& h.section_count == header_field(b, bitness, e, 6)->0
            &&& h.shstrndx == header_field(b, bitness, e, 7)->0
        }),
{
}

/// A header field that can be read is the number its bytes give.
proof fn lemma_field_bytes(b: Seq<u8>, bitness: Bitness, e: Endianness, k: int)
    requires
        0 <= k < 8,
        header_field(b, bitness, e, k) is Some,
    ensures
        ({
            let (off, n) = header_layout(bitness)[k];
            &&& off + n <= b.len()
            &&& header_field(b, bitness, e, k)->0 == uint_of(b.subrange(off, off + n), e)
            &&& uint_of(b.subrange(off, off + n), e) < byte_bound(n as nat)
        }),
{
    let (off, n) = header_layout(bitness)[k];
    lemma_uint_bound(b.subrange(off, off + n), e);
    lemma_byte_bound(n as nat);
}

/// Position of the `index`th entry of a table, computed in 64 bit wrapping arithmetic.
pub open spec fn entry_offset(table: u64, entry_size: u64, index: u64) -> int {
    (index * entry_size + table) % 0x1_0000_0000_0000_0000
}

/// The bytes of the `index`th program header.
pub open spec fn segment_entry_spec(b: Seq<u8>, h: ElfHeader, index: u64) -> Option<Seq<u8>> {
    if index >= h.segment_count {
        None
    } else {
        slice_spec(
            b,
            entry_offset(h.segment_table, h.segment_entry_size, index),
            h.segment_entry_size as int,
        )
    }
}

/// The bytes of the `index`th section header.
pub open spec fn section_entry_spec(b: Seq<u8>, h: ElfHeader, index: u64) -> Option<Seq<u8>> {
    if index >= h.section_count {
        None
    } else {
        slice_spec(
            b,
            entry_offset(h.section_table, h.section_entry_size, index),
            h.section_entry_size as int,
        )
    }
}

/// Fields of a program header, as `segment_by_index` decodes them.
#[derive(Copy, Clone, PartialEq, Eq, Structural, Debug)]
pub struct SegmentFields {
    pub seg_type: SegmentType,
    pub virt_addr: u64,
    pub virt_size: u64,
    pub raw_offset: u64,
    pub raw_size: u64,
    pub flags: u32,
    pub align: u64,
}

/// Offsets and widths of type, virtual address, memory size, file offset, file size, flags
/// and alignment in a program header.
pub open spec fn segment_layout(bitness: Bitness) -> Seq<(int, int)> {
    match bitness {
        Bitness::Bits32 => seq![(0x00, 4), (0x08, 4), (0x14, 4), (0x04, 4), (0x10, 4), (0x18, 4), (0x1c, 4)],
        Bitness::Bits64 => seq![(0x00, 4), (0x10, 8), (0x28, 8), (0x08, 8), (0x20, 8), (0x04, 4), (0x30, 8)],
    }
}

/// The `k`th field of `segment_layout` in the program header `ent`.
pub open spec fn segment_field(ent: Seq<u8>, h: ElfHeader, k: int) -> Option<u64> {
    read_spec(ent, segment_layout(h.bitness)[k].0, segment_layout(h.bitness)[k].1, h.endianness)
}

/// The decoded `index`th program header, if all of its fields can be read.
pub open spec fn segment_fields_spec(b: Seq<u8>, h: ElfHeader, index: u64) -> Option<SegmentFields> {
    match segment_entry_spec(b, h, index) {
        None => None,
        Some(ent) => {
            let f = |k: int| segment_field(ent, h, k);
            if exists|k: int| 0 <= k < 7 && #[trigger] segment_field(ent, h, k) is None {
                None
            } else {
                Some(
                    SegmentFields {
                        seg_type: spec_segment_type(f(0).unwrap() as u32),
                        virt_addr: f(1).unwrap(),
                        virt_size: f(2).unwrap(),
                        raw_offset: f(3).unwrap(),
                        raw_size: f(4).unwrap(),
                        flags: f(5).unwrap() as u32,
                        align: f(6).unwrap(),
                    },
                )
            }
        },
    }
}

/// A program header's fields are read where the ELF format puts them, in the image's byte
/// order: in a 32-bit image the file offset, virtual address, file size, memory size and
/// flags are the 4 bytes at 0x04, 0x08, 0x10, 0x14 and 0x18 of the entry; in a 64-bit image
/// the flags are the 4 bytes at 0x04 and the others the 8 bytes at 0x08, 0x10, 0x20 and 0x28.
pub proof fn lemma_segment_fields(b: Seq<u8>, h: ElfHeader, index: u64)
    requires
        segment_fields_spec(b, h, index) is Some,
    ensures
        ({
            let f = segment_fields_spec(b, h, index)->0;
            let ent = segment_entry_spec(b, h, index)->0;
            let e = h.endianness;
            &&& h.bitness == Bitness::Bits32 ==> {
                &&& ent.len() >= 0x20
                &&& f.raw_offset == uint_of(ent.subrange(0x04, 0x08), e)
                &&& f.virt_addr == uint_of(ent.subrange(0x08, 0x0c), e)
                &&& f.raw_size == uint_of(ent.subrange(0x10, 0x14), e)
                &&& f.virt_size == uint_of(ent.subrange(0x14, 0x18), e)
                &&& f.flags == uint_of(ent.subrange(0x18, 0x1c), e)
            }
            &&& h.bitness == Bitness::Bits64 ==> {
                &&& ent.len() >= 0x38
                &&& f.flags == uint_of(ent.subrange(0x04, 0x08), e)
                &&& f.raw_offset == uint_of(ent.subrange(0x08, 0x10), e)
                &&& f.virt_addr == uint_of(ent.subrange(0x10, 0x18), e)
                &&& f.raw_size == uint_of(ent.subrange(0x20, 0x28), e)
                &&& f.virt_size == uint_of(ent.subrange(0x28, 0x30), e)
            }
        }),
{
    let ent = segment_entry_spec(b, h, index)->0;
    assert forall|k: int| 0 <= k < 7 implies #[trigger] segment_field(ent, h, k) is Some by {
        if segment_field(ent, h, k) is None {
            assert(segment_fields_spec(b, h, index) is None);
        }
    }
    lemma_segment_field_bytes(ent, h, 1);
    lemma_segment_field_bytes(ent, h, 2);
    lemma_segment_field_bytes(ent, h, 3);
    lemma_segment_field_bytes(ent, h, 4);
    lemma_segment_field_bytes(ent, h, 5);
    lemma_segment_field_bytes(ent, h, 6);
    reveal_with_fuel(byte_bound, 5);
}

/// A program header field that can be read is the number its bytes give.
proof fn lemma_segment_field_bytes(ent: Seq<u8>, h: ElfHeader, k: int)
    requires
        0 <= k < 7,
        segment_field(ent, h, k) is Some,
    ensures
        ({
            let (off, n) = segment_layout(h.bitness)[k];
            &&& off + n <= ent.len()
            &&& segment_field(ent, h, k)->0 == uint_of(ent.subrange(off, off + n), h.endianness)
            &&& uint_of(ent.subrange(off, off + n), h.endianness) < byte_bound(n as nat)
        }),
{
    let (off, n) = segment_layout(h.bitness)[k];
    lemma_uint_bound(ent.subrange(off, off + n), h.endianness);
    lemma_byte_bound(n as nat);
}

/// `segment_by_index` succeeds: the header decodes and its contents lie inside the image.
pub open spec fn segment_ok(b: Seq<u8>, h: ElfHeader, index: u64) -> bool {
    match segment_fields_spec(b, h, index) {
        None => false,
        Some(f) => slice_spec(b, f.raw_offset as int, f.raw_size as int) is Some,
    }
}

/// Fields of a section header, as `section_by_index` decodes them.
#[derive(Copy, Clone, PartialEq, Eq, Structural, Debug)]
pub struct SectionFields {
    pub name_offset: u32,
    pub sec_type: SectionType,
    pub virt_addr: u64,
    pub raw_offset: u64,
    pub raw_size: u64,
    pub link: u64,
    pub info: u32,
    pub entry_size: u64,
    pub flags: u64,
    pub align: u64,
}

/// Offsets and widths of name, type, address, file offset, size, link, info, entry size,
/// flags and alignment in a section header.
pub open spec fn section_layout(bitness: Bitness) -> Seq<(int, int)> {
    match bitness {
        Bitness::Bits32 => seq![
            (0x00, 4),
            (0x04, 4),
            (0x0c, 4),
            (0x10, 4),
            (0x14, 4),
            (0x18, 4),
            (0x1c, 4),
            (0x24, 4),
            (0x08, 4),
            (0x20, 4),
        ],
        Bitness::Bits64 => seq![
            (0x00, 4),
            (0x04, 4),
            (0x10, 8),
            (0x18, 8),
            (0x20, 8),
            (0x28, 4),
            (0x2c, 4),
            (0x38, 8),
            (0x08, 8),
            (0x30, 8),
        ],
    }
}

/// The `k`th field of `section_layout` in the section header `ent`.
pub open spec fn section_field(ent: Seq<u8>, h: ElfHeader, k: int) -> Option<u64> {
    read_spec(ent, section_layout(h.bitness)[k].0, section_layout(h.bitness)[k].1, h.endianness)
}

/// The decoded `index`th section header, if all of its fields can be read.
pub open spec fn section_fields_spec(b: Seq<u8>, h: ElfHeader, index: u64) -> Option<SectionFields> {
    match section_entry_spec(b, h, index) {
        None => None,
        Some(ent) => {
            let f = |k: int| section_field(ent, h, k);
            if exists|k: int| 0 <= k < 10 && #[trigger] section_field(ent, h, k) is None {
                None
            } else {
                Some(
                    SectionFields {
                        name_offset: f(0).unwrap() as u32,
                        sec_type: spec_section_type(f(1).unwrap() as u32),
                        virt_addr: f(2).unwrap(),
                        raw_offset: f(3).unwrap(),
                        raw_size: f(4).unwrap(),
                        link: f(5).unwrap(),
                        info: f(6).unwrap() as u32,
                        entry_size: f(7).unwrap(),
                        flags: f(8).unwrap(),
                        align: f(9).unwrap(),
                    },
                )
            }
        },
    }
}

/// A section header's fields are read where the ELF format puts them, in the image's byte
/// order: the name offset is the 4 bytes at 0x00 of the entry; in a 32-bit image the flags,
/// address, file offset, size, link and entry size are the 4 bytes at 0x08, 0x0c, 0x10, 0x14,
/// 0x18 and 0x24; in a 64-bit image they are the 8 bytes at 0x08, 0x10, 0x18 and 0x20, the 4
/// bytes at 0x28 and the 8 bytes at 0x38.
pub proof fn lemma_section_fields(b: Seq<u8>, h: ElfHeader, index: u64)
    requires
        section_fields_spec(b, h, index) is Some,
    ensures
        ({
            let f = section_fields_spec(b, h, index)->0;
            let ent = section_entry_spec(b, h, index)->0;
            let e = h.endianness;
            &&& f.name_offset == uint_of(ent.subrange(0x00, 0x04), e)
            &&& h.bitness == Bitness::Bits32 ==> {
                &&& ent.len() >= 0x28
                &&& f.flags == uint_of(ent.subrange(0x08, 0x0c), e)
                &&& f.virt_addr == uint_of(ent.subrange(0x0c, 0x10), e)
                &&& f.raw_offset == uint_of(ent.subrange(0x10, 0x14), e)
                &&& f.raw_size == uint_of(ent.subrange(0x14, 0x18), e)
                &&& f.link == uint_of(ent.subrange(0x18, 0x1c), e)
                &&& f.entry_size == uint_of(ent.subrange(0x24, 0x28), e)
            }
            &&& h.bitness == Bitness::Bits64 ==> {
                &&& ent.len() >= 0x40
                &&& f.flags == uint_of(ent.subrange(0x08, 0x10), e)
                &&& f.virt_addr == uint_of(ent.subrange(0x10, 0x18), e)
                &&& f.raw_offset == uint_of(ent.subrange(0x18, 0x20), e)
                &&& f.raw_size == uint_of(ent.subrange(0x20, 0x28), e)
                &&& f.link == uint_of(ent.subrange(0x28, 0x2c), e)
                &&& f.entry_size == uint_of(ent.subrange(0x38, 0x40), e)
            }
        }),
{
    let ent = section_entry_spec(b, h, index)->0;
    assert forall|k: int| 0 <= k < 10 implies #[trigger] section_field(ent, h, k) is Some by {
        if section_field(ent, h, k) is None {
            assert(section_fields_spec(b, h, index) is None);
        }
    }
    lemma_section_field_bytes(ent, h, 0);
    lemma_section_field_bytes(ent, h, 2);
    lemma_section_field_bytes(ent, h, 3);
    lemma_section_field_bytes(ent, h, 4);
    lemma_section_field_bytes(ent, h, 5);
    lemma_section_field_bytes(ent, h, 7);
    lemma_section_field_bytes(ent, h, 8);
    reveal_with_fuel(byte_bound, 5);
}

/// A section header field that can be read is the number its bytes give.
proof fn lemma_section_field_bytes(ent: Seq<u8>, h: ElfHeader, k: int)
    requires
        0 <= k < 10,
        section_field(ent, h, k) is Some,
    ensures
        ({
            let (off, n) = section_layout(h.bitness)[k];
            &&& off + n <= ent.len()
            &&& section_field(ent, h, k)->0 == uint_of(ent.subrange(off, off + n), h.endianness)
            &&& uint_of(ent.subrange(off, off + n), h.endianness) < byte_bound(n as nat)
        }),
{
    let (off, n) = section_layout(h.bitness)[k];
    lemma_uint_bound(ent.subrange(off, off + n), h.endianness);
    lemma_byte_bound(n as nat);
}

/// Index of the first zero byte of `s` at or after `i`.
pub open spec fn first_zero_from(s: Seq<u8>, i: int) -> Option<int>
    decreases s.len() - i,
{
    if i < 0 || i >= s.len() {
        None
    } else if s[i] == 0 {
        Some(i)
    } else {
        first_zero_from(s, i + 1)
    }
}

/// The zero terminated string that starts at `offset` in `strings`, without its terminator.
pub open spec fn cstring_spec(strings: Seq<u8>, offset: int) -> Option<Seq<u8>> {
    if offset > strings.len() {
        None
    } else {
        match first_zero_from(strings, offset) {
            Some(z) => Some(strings.subrange(offset, z)),
            None => None,
        }
    }
}

/// The name stored at `offset` of the string table, if it is a valid UTF-8 string.
pub open spec fn name_spec(strings: Option<Seq<u8>>, offset: int) -> Option<Seq<u8>> {
    match strings {
        None => None,
        Some(s) => match cstring_spec(s, offset) {
            Some(n) => if valid_utf8(n) { Some(n) } else { None },
            None => None,
        },
    }
}

/// Least virtual address of the loadable segments among the first `n` ones.
pub open spec fn min_load_addr(b: Seq<u8>, h: ElfHeader, n: u64) -> Option<u64>
    decreases n,
{
    if n == 0 {
        None
    } else {
        let prev = min_load_addr(b, h, (n - 1) as u64);
        let f = segment_fields_spec(b, h, (n - 1) as u64);
        if f is Some && f.unwrap().seg_type == SegmentType::Load {
            let va = f.unwrap().virt_addr;
            match prev {
                Some(p) => Some(if p < va { p } else { va }),
                None => Some(va),
            }
        } else {
            prev
        }
    }
}

/// Segment `k` is loadable and maps at `va`.
pub open spec fn load_at(b: Seq<u8>, h: ElfHeader, k: u64, va: u64) -> bool {
    segment_fields_spec(b, h, k) is Some && segment_fields_spec(b, h, k).unwrap().seg_type
        == SegmentType::Load && segment_fields_spec(b, h, k).unwrap().virt_addr == va
}

/// The base address is the least virtual address of the loadable segments: no loadable
/// segment lies below it, and some loadable segment starts at it.
pub proof fn lemma_base_is_lowest_segment(b: Seq<u8>, h: ElfHeader, n: u64)
    ensures
        match min_load_addr(b, h, n) {
            Some(m) => {
                &&& forall|k: u64, va: u64| k < n && #[trigger] load_at(b, h, k, va) ==> m <= va
                &&& exists|k: u64| k < n && #[trigger] load_at(b, h, k, m)
            },
            None => forall|k: u64, va: u64| k < n ==> !#[trigger] load_at(b, h, k, va),
        },
    decreases n,
{
    if n > 0 {
        let k0 = (n - 1) as u64;
        lemma_base_is_lowest_segment(b, h, k0);
        let f = segment_fields_spec(b, h, k0);
        if f is Some && f.unwrap().seg_type == SegmentType::Load {
            let va = f.unwrap().virt_addr;
            assert(load_at(b, h, k0, va));
            match min_load_addr(b, h, k0) {
                Some(p) => {
                    if p < va {
                        let w = choose|k: u64| k < k0 && #[trigger] load_at(b, h, k, p);
                        assert(load_at(b, h, w, p));
                    }
                },
                None => {},
            }
        }
    }
}

/// The section name string table of the image.
pub open spec fn strings_spec(b: Seq<u8>, h: ElfHeader) -> Option<Seq<u8>> {
    match section_fields_spec(b, h, h.shstrndx) {
        Some(f) => if slice_spec(b, f.raw_offset as int, f.raw_size as int) is Some {
            slice_spec(b, f.raw_offset as int, f.raw_size as int)
        } else {
            None
        },
        None => None,
    }
}

/// `Elf::parse` accepts `b`: it has a readable header, every program header decodes with
/// its contents inside the image, and at least one segment is loadable.
pub open spec fn parse_ok(b: Seq<u8>) -> bool {
    &&& header_spec(b) is Some
    &&& forall|i: u64| i < header_spec(b).unwrap().segment_count ==> #[trigger] segment_ok(b, header_spec(b).unwrap(), i)
    &&& min_load_addr(b, header_spec(b).unwrap(), header_spec(b).unwrap().segment_count) is Some
}

// ----------------------------------------------------------------------------------------
// Reading integers.
// ----------------------------------------------------------------------------------------

/// Number of values that `k` bytes can hold.
pub open spec fn byte_bound(k: nat) -> nat
    decreases k,
{
    if k == 0 {
        1
    } else {
        256 * byte_bound((k - 1) as nat)
    }
}

proof fn lemma_byte_bound(k: nat)
    requires
        k <= 8,
    ensures
        1 <= byte_bound(k) <= 0x1_0000_0000_0000_0000,
        k <= 7 ==> byte_bound(k) <= 0x100_0000_0000_0000,
{
    reveal_with_fuel(byte_bound, 9);
    assert(byte_bound(0) == 1 && byte_bound(1) == 0x100 && byte_bound(2) == 0x1_0000
        && byte_bound(3) == 0x100_0000 && byte_bound(4) == 0x1_0000_0000 && byte_bound(5)
        == 0x100_0000_0000 && byte_bound(6) == 0x1_0000_0000_0000 && byte_bound(7)
        == 0x100_0000_0000_0000 && byte_bound(8) == 0x1_0000_0000_0000_0000);
}

/// Borrow `size` bytes at `offset` of `bytes`, if they lie inside it.
fn byte_slice<'b>(bytes: &'b [u8], offset: u64, size: u64) -> (r: Option<&'b [u8]>)
    ensures
        match slice_spec(bytes@, offset as int, size as int) {
            Some(s) => r is Some && r.unwrap()@ == s,
            None => r is None,
        },
{
    let len = bytes.len() as u64;
    if offset <= len && size <= len - offset {
        Some(vstd::slice::slice_subrange(bytes, offset as usize, (offset + size) as usize))
    } else {
        None
    }
}

/// Value of at most eight bytes in the given byte order.
pub(crate) fn decode_uint(s: &[u8], e: Endianness) -> (v: u64)
    requires
        s@.len() <= 8,
    ensures
        v as nat == uint_of(s@, e),
{
    let n = s.len();
    let mut v: u64 = 0;
    match e {
        Endianness::Little => {
            let mut j = n;
            while j > 0
                invariant
                    j <= n,
                    n == s@.len(),
                    n <= 8,
                    v as nat == uint_le(s@.subrange(j as int, n as int)),
                    (v as nat) < byte_bound((n - j) as nat),
                decreases j,
            {
                j -= 1;
                proof {
                    lemma_byte_bound((n - j - 1) as nat);
                    assert(s@.subrange(j as int, n as int).drop_first() =~= s@.subrange(
                        j as int + 1,
                        n as int,
                    ));
                }
                v = v * 256 + s[j] as u64;
            }
            assert(s@.subrange(0, n as int) =~= s@);
        },
        Endianness::Big => {
            let mut j: usize = 0;
            while j < n
                invariant
                    j <= n,
                    n == s@.len(),
                    n <= 8,
                    v as nat == uint_be(s@.subrange(0, j as int)),
                    (v as nat) < byte_bound(j as nat),
                decreases n - j,
            {
                proof {
                    lemma_byte_bound(j as nat);
                    assert(s@.subrange(0, j as int + 1).drop_last() =~= s@.subrange(0, j as int));
                }
                v = v * 256 + s[j] as u64;
                j += 1;
            }
            assert(s@.subrange(0, n as int) =~= s@);
        },
    }
    v
}

pub(crate) proof fn lemma_uint_bound(b: Seq<u8>, e: Endianness)
    ensures
        uint_of(b, e) < byte_bound(b.len()),
    decreases b.len(),
{
    if b.len() > 0 {
        lemma_uint_bound(b.drop_first(), e);
        lemma_uint_bound(b.drop_last(), e);
    }
}

/// A view of a byte region whose integers are read in one byte order.
struct Reader<'b> {
    bytes: &'b [u8],
    endianness: Endianness,
}

impl<'b> Reader<'b> {
    fn new(bytes: &'b [u8], endianness: Endianness) -> (r: Self)
        ensures
            r.bytes@ == bytes@,
            r.endianness == endianness,
    {
        Self { bytes, endianness }
    }

    fn partial(bytes: &'b [u8], offset: u64, size: u64, endianness: Endianness) -> (r: Option<Self>)
        ensures
            match slice_spec(bytes@, offset as int, size as int) {
                Some(s) => r is Some && r.unwrap().bytes@ == s && r.unwrap().endianness == endianness,
                None => r is None,
            },
    {
        let slice = byte_slice(bytes, offset, size)?;
        Some(Self { bytes: slice, endianness })
    }

    /// Read the unsigned integer of `size` bytes at `offset`.
    fn read(&self, offset: u64, size: u64) -> (r: Option<u64>)
        requires
            size <= 8,
        ensures
            r == read_spec(self.bytes@, offset as int, size as int, self.endianness),
            r matches Some(v) ==> (v as nat) < byte_bound(size as nat),
    {
        let slice = byte_slice(self.bytes, offset, size)?;
        proof {
            lemma_uint_bound(slice@, self.endianness);
            lemma_byte_bound(size as nat);
        }
        Some(decode_uint(slice, self.endianness))
    }
}

fn machine_from(v: u16) -> (m: Machine)
    ensures
        m == spec_machine(v),
{
    match v {
        0x00 => Machine::NoMachine,
        0x03 => Machine::X86,
        0x08 => Machine::Mips,
        0x14 => Machine::PowerPC,
        0x15 => Machine::PowerPC64,
        0x28 => Machine::Arm,
        0x32 => Machine::Ia64,
        0x3e => Machine::Amd64,
        0xb7 => Machine::Arm64,
        0xf3 => Machine::RiscV,
        x => Machine::Other(x),
    }
}

fn segment_type_from(v: u32) -> (t: SegmentType)
    ensures
        t == spec_segment_type(v),
{
    match v {
        0 => SegmentType::Null,
        1 => SegmentType::Load,
        2 => SegmentType::Dynamic,
        3 => SegmentType::Interp,
        4 => SegmentType::Note,
        5 => SegmentType::Shlib,
        6 => SegmentType::Phdr,
        7 => SegmentType::Tls,
        x => SegmentType::Other(x),
    }
}

fn section_type_from(v: u32) -> (t: SectionType)
    ensures
        t == spec_section_type(v),
{
    match v {
        0x00 => SectionType::Null,
        0x01 => SectionType::Progbits,
        0x02 => SectionType::Symtab,
        0x03 => SectionType::Strtab,
        0x04 => SectionType::Rela,
        0x05 => SectionType::Hash,
        0x06 => SectionType::Dynamic,
        0x07 => SectionType::Note,
        0x08 => SectionType::Nobits,
        0x09 => SectionType::Rel,
        0x0a => SectionType::Shlib,
        0x0b => SectionType::Dynsym,
        0x0e => SectionType::InitArray,
        0x0f => SectionType::FiniArray,
        0x10 => SectionType::PreinitArray,
        0x11 => SectionType::Group,
        0x12 => SectionType::SymtabShndx,
        0x13 => SectionType::Num,
        x => SectionType::Other(x),
    }
}

/// Read the file header of `bytes`.
fn parse_header(bytes: &[u8]) -> (r: Option<ElfHeader>)
    ensures
        r == header_spec(bytes@),
        r matches Some(h) ==> {
            &&& h.segment_entry_size <= 0xffff
            &&& h.segment_count <= 0xffff
            &&& h.section_entry_size <= 0xffff
            &&& h.section_count <= 0xffff
            &&& h.shstrndx <= 0xffff
        },
{
    proof {
        reveal_with_fuel(byte_bound, 3);
    }
    let ghost b = bytes@;
    if bytes.len() < 4 || bytes[0] != 0x7f || bytes[1] != 0x45 || bytes[2] != 0x4c || bytes[3]
        != 0x46 {
        return None;
    }
    if bytes.len() < 6 {
        return None;
    }
    let bitness = match bytes[4] {
        1 => Bitness::Bits32,
        2 => Bitness::Bits64,
        _ => return None,
    };
    let endianness = match bytes[5] {
        1 => Endianness::Little,
        2 => Endianness::Big,
        _ => return None,
    };

    let reader = Reader::new(bytes, endianness);

    let machine = match reader.read(0x12, 2) {
        Some(m) => machine_from(m as u16),
        None => return None,
    };

    // Offsets and widths of the header fields for this bitness.
    let (o_entry, w_entry, o_phoff, w_phoff, o_phent, o_phnum, o_shoff, w_shoff, o_shent, o_shnum, o_shstrndx) =
        match bitness {
        Bitness::Bits32 => (0x18u64, 4u64, 0x1cu64, 4u64, 0x2au64, 0x2cu64, 0x20u64, 4u64, 0x2eu64, 0x30u64, 0x32u64),
        Bitness::Bits64 => (0x18u64, 8u64, 0x20u64, 8u64, 0x36u64, 0x38u64, 0x28u64, 8u64, 0x3au64, 0x3cu64, 0x3eu64),
    };
    proof {
        let l = header_layout(bitness);
        assert(l[0] == (o_entry as int, w_entry as int));
        assert(l[1] == (o_phoff as int, w_phoff as int));
        assert(l[2] == (o_phent as int, 2int));
        assert(l[3] == (o_phnum as int, 2int));
        assert(l[4] == (o_shoff as int, w_shoff as int));
        assert(l[5] == (o_shent as int, 2int));
        assert(l[6] == (o_shnum as int, 2int));
        assert(l[7] == (o_shstrndx as int, 2int));
    }

    let entry = reader.read(o_entry, w_entry);
    let phoff = reader.read(o_phoff, w_phoff);
    let phent_size = reader.read(o_phent, 2);
    let phnum = reader.read(o_phnum, 2);
    let shoff = reader.read(o_shoff, w_shoff);
    let shent_size = reader.read(o_shent, 2);
    let shnum = reader.read(o_shnum, 2);
    let shstrndx = reader.read(o_shstrndx, 2);

    proof {
        assert(entry == header_field(b, bitness, endianness, 0));
        assert(phoff == header_field(b, bitness, endianness, 1));
        assert(phent_size == header_field(b, bitness, endianness, 2));
        assert(phnum == header_field(b, bitness, endianness, 3));
        assert(shoff == header_field(b, bitness, endianness, 4));
        assert(shent_size == header_field(b, bitness, endianness, 5));
        assert(shnum == header_field(b, bitness, endianness, 6));
        assert(shstrndx == header_field(b, bitness, endianness, 7));
    }

    match (entry, phoff, phent_size, phnum, shoff, shent_size, shnum, shstrndx) {
        (
            Some(entrypoint),
            Some(segment_table),
            Some(segment_entry_size),
            Some(segment_count),
            Some(section_table),
            Some(section_entry_size),
            Some(section_count),
            Some(shstrndx),
        ) => Some(
            ElfHeader {
                bitness,
                endianness,
                machine,
                entrypoint,
                segment_table,
                segment_entry_size,
                segment_count,
                section_table,
                section_entry_size,
                section_count,
                shstrndx,
            },
        ),
        _ => None,
    }
}

/// The name of the `index`th section header: `None` when the header or its name offset
/// cannot be read, otherwise the readable name (if any) at that offset of `strings`.
pub open spec fn header_name_spec(b: Seq<u8>, h: ElfHeader, strings: Option<Seq<u8>>, index: u64) -> Option<Option<Seq<u8>>> {
    match section_entry_spec(b, h, index) {
        None => None,
        Some(ent) => match section_field(ent, h, 0) {
            None => None,
            Some(off) => Some(name_spec(strings, off as u32 as int)),
        },
    }
}

/// Index of the first section from `index` on whose name is `name`, as `section_by_name`
/// scans for it: the scan gives up at a header whose name cannot be read.
pub open spec fn find_section(b: Seq<u8>, h: ElfHeader, strings: Option<Seq<u8>>, name: Seq<u8>, index: u64) -> Option<u64>
    decreases h.section_count - index,
{
    if index >= h.section_count {
        None
    } else {
        match header_name_spec(b, h, strings, index) {
            None => None,
            Some(n) => if n == Some(name) {
                Some(index)
            } else {
                find_section(b, h, strings, name, (index + 1) as u64)
            },
        }
    }
}

/// Compare two strings byte by byte.
fn str_eq(a: &str, b: &str) -> (r: bool)
    ensures
        r == (a.spec_bytes() == b.spec_bytes()),
{
    let x = a.as_bytes();
    let y = b.as_bytes();
    if x.len() != y.len() {
        return false;
    }
    let mut i: usize = 0;
    while i < x.len()
        invariant
            i <= x@.len(),
            x@.len() == y@.len(),
            x@ == a.spec_bytes(),
            y@ == b.spec_bytes(),
            forall|j: int| 0 <= j < i ==> x@[j] == y@[j],
        decreases x@.len() - i,
    {
        if x[i] != y[i] {
            return false;
        }
        i += 1;
    }
    assert(x@ =~= y@);
    true
}

/// `core::str::from_utf8`: borrows the bytes as a string slice exactly when they are
/// well-formed UTF-8.
#[verifier::external_body]
pub(crate) fn str_from_utf8<'b>(v: &'b [u8]) -> (r: Option<&'b str>)
    ensures
        r is Some <==> valid_utf8(v@),
        r matches Some(s) ==> s.spec_bytes() == v@,
{
    core::str::from_utf8(v).ok()
}

/// A loadable or informational segment described by a program header.
#[derive(Clone)]
pub struct Segment<'a> {
    pub bytes: &'a [u8],
    pub seg_type: SegmentType,
    pub virt_addr: u64,
    pub virt_size: u64,
    pub align: Option<u64>,
    pub read: bool,
    pub write: bool,
    pub execute: bool,
}

/// An alignment of 0 or 1 means that the segment has no alignment requirement.
pub open spec fn spec_align(a: u64) -> Option<u64> {
    if a == 0 || a == 1 {
        None
    } else {
        Some(a)
    }
}

/// `seg` is what `segment_by_index` builds from the program header fields `f` of image `b`.
pub open spec fn segment_from(seg: Segment, f: SegmentFields, b: Seq<u8>) -> bool {
    &&& slice_spec(b, f.raw_offset as int, f.raw_size as int) == Some(seg.bytes@)
    &&& seg.seg_type == f.seg_type
    &&& seg.virt_addr == f.virt_addr
    &&& seg.virt_size == f.virt_size
    &&& seg.align == spec_align(f.align)
    &&& seg.execute == (f.flags & 1 != 0)
    &&& seg.write == (f.flags & 2 != 0)
    &&& seg.read == (f.flags & 4 != 0)
}

/// A section described by a section header.
#[derive(Clone)]
pub struct Section<'a> {
    pub bytes: Option<&'a [u8]>,
    pub name: Option<&'a str>,
    pub sec_type: SectionType,
    pub virt_addr: u64,
    pub align: u64,
    pub flags: u64,
    pub alloc: bool,
    pub write: bool,
    pub execute: bool,
    pub info: u32,
    pub link: Option<u64>,
    pub entry_size: Option<u64>,
}

/// A zero link or entry size means "none".
pub open spec fn spec_nonzero(v: u64) -> Option<u64> {
    if v == 0 {
        None
    } else {
        Some(v)
    }
}

/// `sec` is what `section_by_index` builds from the section header fields `f` of image `b`
/// whose name string table is `strings`.
pub open spec fn section_from(sec: Section, f: SectionFields, b: Seq<u8>, strings: Option<Seq<u8>>) -> bool {
    &&& match slice_spec(b, f.raw_offset as int, f.raw_size as int) {
        Some(c) => sec.bytes is Some && sec.bytes.unwrap()@ == c,
        None => sec.bytes is None,
    }
    &&& match name_spec(strings, f.name_offset as int) {
        Some(n) => sec.name is Some && sec.name.unwrap().spec_bytes() == n,
        None => sec.name is None,
    }
    &&& sec.sec_type == f.sec_type
    &&& sec.virt_addr == f.virt_addr
    &&& sec.align == f.align
    &&& sec.flags == f.flags
    &&& sec.alloc == (f.flags & 2 != 0)
    &&& sec.write == (f.flags & 1 != 0)
    &&& sec.execute == (f.flags & 4 != 0)
    &&& sec.info == f.info
    &&& sec.link == spec_nonzero(f.link)
    &&& sec.entry_size == spec_nonzero(f.entry_size)
}

/// A parsed ELF image.
pub struct Elf<'a> {
    bytes: &'a [u8],
    strings: Option<&'a [u8]>,
    header: ElfHeader,
    base_address: u64,
}

impl<'a> Clone for Elf<'a> {
    fn clone(&self) -> (r: Self)
        ensures
            r == *self,
    {
        proof {
            use_type_invariant(self);
        }
        Elf { bytes: self.bytes, strings: self.strings, header: self.header, base_address: self.base_address }
    }
}

impl<'a> Elf<'a> {
    /// The header was read from the image itself.
    #[verifier::type_invariant]
    spec fn inv(self) -> bool {
        &&& header_spec(self.bytes@) == Some(self.header)
        &&& self.header.segment_entry_size <= 0xffff
        &&& self.header.segment_count <= 0xffff
        &&& self.header.section_entry_size <= 0xffff
        &&& self.header.section_count <= 0xffff
        &&& self.header.shstrndx <= 0xffff
    }

    /// The bytes of the image.
    pub closed spec fn image(&self) -> Seq<u8> {
        self.bytes@
    }

    /// The file header of the image.
    pub closed spec fn header(&self) -> ElfHeader {
        self.header
    }

    /// The section name string table, if the image has one.
    pub closed spec fn strings(&self) -> Option<Seq<u8>> {
        match self.strings {
            Some(s) => Some(s@),
            None => None,
        }
    }

    /// The lowest virtual address of a loadable segment.
    pub closed spec fn spec_base_address(&self) -> u64 {
        self.base_address
    }

    fn get_string(&self, offset: u64) -> (r: Option<&'a str>)
        ensures
            match name_spec(self.strings(), offset as int) {
                Some(n) => r is Some && r.unwrap().spec_bytes() == n,
                None => r is None,
            },
    {
        let strings = match self.strings {
            Some(strings) => strings,
            None => return None,
        };
        if offset > strings.len() as u64 {
            return None;
        }
        let start = offset as usize;
        let mut null = start;
        while null < strings.len()
            invariant
                start <= null <= strings@.len(),
                first_zero_from(strings@, start as int) == first_zero_from(strings@, null as int),
            ensures
                null == strings@.len() || strings@[null as int] == 0,
            decreases strings@.len() - null,
        {
            if strings[null] == 0 {
                break;
            }
            null += 1;
        }
        if null == strings.len() {
            assert(first_zero_from(strings@, null as int) is None);
            return None;
        }
        assert(first_zero_from(strings@, null as int) == Some(null as int));
        assert(self.strings() == Some(strings@));
        let string = vstd::slice::slice_subrange(strings, start, null);
        str_from_utf8(string)
    }

    fn segment_reader(&self, index: u64) -> (r: Option<Reader<'a>>)
        requires
            self.header.segment_entry_size <= 0xffff,
            self.header.segment_count <= 0xffff,
        ensures
            match segment_entry_spec(self.bytes@, self.header, index) {
                Some(ent) => r is Some && r.unwrap().bytes@ == ent && r.unwrap().endianness == self.header.endianness,
                None => r is None,
            },
    {
        if index >= self.header.segment_count {
            return None;
        }
        proof {
            let c = self.header.segment_count;
            let z = self.header.segment_entry_size;
            assert(index * z <= 0xffff * 0xffff) by (nonlinear_arith)
                requires
                    index < c,
                    c <= 0xffff,
                    z <= 0xffff,
            ;
        }
        let entry = (index * self.header.segment_entry_size).wrapping_add(self.header.segment_table);
        assert(entry as int == entry_offset(self.header.segment_table, self.header.segment_entry_size, index));
        Reader::partial(self.bytes, entry, self.header.segment_entry_size, self.header.endianness)
    }

    fn section_reader(&self, index: u64) -> (r: Option<Reader<'a>>)
        requires
            self.header.section_entry_size <= 0xffff,
            self.header.section_count <= 0xffff,
        ensures
            match section_entry_spec(self.bytes@, self.header, index) {
                Some(ent) => r is Some && r.unwrap().bytes@ == ent && r.unwrap().endianness == self.header.endianness,
                None => r is None,
            },
    {
        if index >= self.header.section_count {
            return None;
        }
        proof {
            let c = self.header.section_count;
            let z = self.header.section_entry_size;
            assert(index * z <= 0xffff * 0xffff) by (nonlinear_arith)
                requires
                    index < c,
                    c <= 0xffff,
                    z <= 0xffff,
            ;
        }
        let entry = (index * self.header.section_entry_size).wrapping_add(self.header.section_table);
        assert(entry as int == entry_offset(self.header.section_table, self.header.section_entry_size, index));
        Reader::partial(self.bytes, entry, self.header.section_entry_size, self.header.endianness)
    }

    /// Decode the `index`th program header.
    pub fn segment_by_index(&self, index: u64) -> (r: Option<Segment<'a>>)
        ensures
            r is Some <==> segment_ok(self.image(), self.header(), index),
            r matches Some(seg) ==> segment_from(
                seg,
                segment_fields_spec(self.image(), self.header(), index).unwrap(),
                self.image(),
            ),
    {
        proof {
            use_type_invariant(self);
        }
        let ghost b = self.bytes@;
        let ghost h = self.header;
        let reader = match self.segment_reader(index) {
            Some(reader) => reader,
            None => return None,
        };
        let ghost ent = reader.bytes@;

        let (o_va, w_va, o_vs, w_vs, o_off, w_off, o_sz, w_sz, o_fl, o_al, w_al) = match self.header.bitness {
            Bitness::Bits32 => (0x08u64, 4u64, 0x14u64, 4u64, 0x04u64, 4u64, 0x10u64, 4u64, 0x18u64, 0x1cu64, 4u64),
            Bitness::Bits64 => (0x10u64, 8u64, 0x28u64, 8u64, 0x08u64, 8u64, 0x20u64, 8u64, 0x04u64, 0x30u64, 8u64),
        };
        let typ = reader.read(0x00, 4);
        let virt_addr = reader.read(o_va, w_va);
        let virt_size = reader.read(o_vs, w_vs);
        let raw_offset = reader.read(o_off, w_off);
        let raw_size = reader.read(o_sz, w_sz);
        let flags = reader.read(o_fl, 4);
        let align = reader.read(o_al, w_al);
        proof {
            let l = segment_layout(h.bitness);
            assert(l[0] == (0int, 4int));
            assert(l[1] == (o_va as int, w_va as int));
            assert(l[2] == (o_vs as int, w_vs as int));
            assert(l[3] == (o_off as int, w_off as int));
            assert(l[4] == (o_sz as int, w_sz as int));
            assert(l[5] == (o_fl as int, 4int));
            assert(l[6] == (o_al as int, w_al as int));
            assert(typ == segment_field(ent, h, 0));
            assert(virt_addr == segment_field(ent, h, 1));
            assert(virt_size == segment_field(ent, h, 2));
            assert(raw_offset == segment_field(ent, h, 3));
            assert(raw_size == segment_field(ent, h, 4));
            assert(flags == segment_field(ent, h, 5));
            assert(align == segment_field(ent, h, 6));
        }
        match (typ, virt_addr, virt_size, raw_offset, raw_size, flags, align) {
            (Some(typ), Some(virt_addr), Some(virt_size), Some(raw_offset), Some(raw_size), Some(flags), Some(align)) => {
                let flags = flags as u32;
                let execute = flags & 1 != 0;
                let write = flags & 2 != 0;
                let read = flags & 4 != 0;

                let align = match align {
                    0 | 1 => None,
                    x => Some(x),
                };

                let bytes = match byte_slice(self.bytes, raw_offset, raw_size) {
                    Some(bytes) => bytes,
                    None => return None,
                };

                Some(
                    Segment {
                        bytes,
                        seg_type: segment_type_from(typ as u32),
                        virt_addr,
                        virt_size,
                        align,
                        read,
                        write,
                        execute,
                    },
                )
            },
            _ => None,
        }
    }

    /// Decode the `index`th section header.
    pub fn section_by_index(&self, index: u64) -> (r: Option<Section<'a>>)
        ensures
            r is Some <==> section_fields_spec(self.image(), self.header(), index) is Some,
            r matches Some(sec) ==> section_from(
                sec,
                section_fields_spec(self.image(), self.header(), index).unwrap(),
                self.image(),
                self.strings(),
            ),
    {
        proof {
            use_type_invariant(self);
        }
        let ghost h = self.header;
        let reader = match self.section_reader(index) {
            Some(reader) => reader,
            None => return None,
        };
        let ghost ent = reader.bytes@;

        let (o_va, w_va, o_off, w_off, o_sz, w_sz, o_link, o_info, o_ent, w_ent, o_fl, w_fl, o_al, w_al) =
            match self.header.bitness {
            Bitness::Bits32 => (0x0cu64, 4u64, 0x10u64, 4u64, 0x14u64, 4u64, 0x18u64, 0x1cu64, 0x24u64, 4u64, 0x08u64, 4u64, 0x20u64, 4u64),
            Bitness::Bits64 => (0x10u64, 8u64, 0x18u64, 8u64, 0x20u64, 8u64, 0x28u64, 0x2cu64, 0x38u64, 8u64, 0x08u64, 8u64, 0x30u64, 8u64),
        };
        let name_offset = reader.read(0x00, 4);
        let typ = reader.read(0x04, 4);
        let virt_addr = reader.read(o_va, w_va);
        let raw_offset = reader.read(o_off, w_off);
        let raw_size = reader.read(o_sz, w_sz);
        let link = reader.read(o_link, 4);
        let info = reader.read(o_info, 4);
        let entry_size = reader.read(o_ent, w_ent);
        let flags = reader.read(o_fl, w_fl);
        let align = reader.read(o_al, w_al);
        proof {
            let l = section_layout(h.bitness);
            assert(l[0] == (0int, 4int));
            assert(l[1] == (4int, 4int));
            assert(l[2] == (o_va as int, w_va as int));
            assert(l[3] == (o_off as int, w_off as int));
            assert(l[4] == (o_sz as int, w_sz as int));
            assert(l[5] == (o_link as int, 4int));
            assert(l[6] == (o_info as int, 4int));
            assert(l[7] == (o_ent as int, w_ent as int));
            assert(l[8] == (o_fl as int, w_fl as int));
            assert(l[9] == (o_al as int, w_al as int));
            assert(name_offset == section_field(ent, h, 0));
            assert(typ == section_field(ent, h, 1));
            assert(virt_addr == section_field(ent, h, 2));
            assert(raw_offset == section_field(ent, h, 3));
            assert(raw_size == section_field(ent, h, 4));
            assert(link == section_field(ent, h, 5));
            assert(info == section_field(ent, h, 6));
            assert(entry_size == section_field(ent, h, 7));
            assert(flags == section_field(ent, h, 8));
            assert(align == section_field(ent, h, 9));
        }
        match (name_offset, typ, virt_addr, raw_offset, raw_size, link, info, entry_size, flags, align) {
            (
                Some(name_offset),
                Some(typ),
                Some(virt_addr),
                Some(raw_offset),
                Some(raw_size),
                Some(link),
                Some(info),
                Some(entry_size),
                Some(flags),
                Some(align),
            ) => {
                let name = self.get_string((name_offset as u32) as u64);

                let alloc = flags & 2 != 0;
                let write = flags & 1 != 0;
                let execute = flags & 4 != 0;

                let link = match link {
                    0 => None,
                    x => Some(x),
                };

                let entry_size = match entry_size {
                    0 => None,
                    x => Some(x),
                };

                Some(
                    Section {
                        bytes: byte_slice(self.bytes, raw_offset, raw_size),
                        name,
                        sec_type: section_type_from(typ as u32),
                        virt_addr,
                        align,
                        flags,
                        alloc,
                        write,
                        execute,
                        info: info as u32,
                        link,
                        entry_size,
                    },
                )
            },
            _ => None,
        }
    }

    /// Parse an ELF image. The image must have a readable file header, every program
    /// header must decode with its contents inside the image, and at least one segment must
    /// be loadable; the base address is the lowest virtual address of a loadable segment.
    pub fn parse(bytes: &'a [u8]) -> (r: Option<Self>)
        ensures
            r is Some <==> parse_ok(bytes@),
            r matches Some(elf) ==> {
                &&& elf.image() == bytes@
                &&& header_spec(bytes@) == Some(elf.header())
                &&& elf.strings() == strings_spec(bytes@, elf.header())
                &&& min_load_addr(bytes@, elf.header(), elf.header().segment_count) == Some(
                    elf.spec_base_address(),
                )
            },
    {
        let ghost b = bytes@;
        let header = match parse_header(bytes) {
            Some(header) => header,
            None => return None,
        };

        let mut elf = Elf { bytes, strings: None, header, base_address: 0 };

        if let Some(string_section) = elf.section_by_index(header.shstrndx) {
            elf.strings = string_section.bytes;
        }
        assert(elf.strings() == strings_spec(b, header));

        let mut base_address: Option<u64> = None;
        let mut index: u64 = 0;
        while index < header.segment_count
            invariant
                index <= header.segment_count,
                elf.image() == b,
                b == bytes@,
                elf.header() == header,
                header_spec(b) == Some(header),
                base_address == min_load_addr(b, header, index),
                forall|i: u64| i < index ==> #[trigger] segment_ok(b, header, i),
            decreases header.segment_count - index,
        {
            let segment = match elf.segment_by_index(index) {
                Some(segment) => segment,
                None => {
                    assert(!segment_ok(b, header, index));
                    return None;
                },
            };
            proof {
                let f = segment_fields_spec(b, header, index).unwrap();
                assert(segment.seg_type == f.seg_type);
                assert(segment.virt_addr == f.virt_addr);
                assert(min_load_addr(b, header, (index + 1) as u64) == {
                    let prev = min_load_addr(b, header, index);
                    if f.seg_type == SegmentType::Load {
                        match prev {
                            Some(p) => Some(if p < f.virt_addr { p } else { f.virt_addr }),
                            None => Some(f.virt_addr),
                        }
                    } else {
                        prev
                    }
                });
            }

            if matches!(segment.seg_type, SegmentType::Load) {
                let new_base = match base_address {
                    Some(base) => if base < segment.virt_addr { base } else { segment.virt_addr },
                    None => segment.virt_addr,
                };
                base_address = Some(new_base);
            }
            index += 1;
            proof {
                assert forall|i: u64| i < index implies #[trigger] segment_ok(b, header, i) by {}
            }
        }

        elf.base_address = match base_address {
            Some(base) => base,
            None => return None,
        };

        Some(elf)
    }

    /// Find the first section called `name`. Stops with `None` at a section header before
    /// it whose name cannot be read.
    pub fn section_by_name(&self, name: &str) -> (r: Option<Section<'a>>)
        ensures
            match find_section(self.image(), self.header(), self.strings(), name.spec_bytes(), 0) {
                Some(i) => {
                    &&& r is Some <==> section_fields_spec(self.image(), self.header(), i) is Some
                    &&& r matches Some(sec) ==> section_from(
                        sec,
                        section_fields_spec(self.image(), self.header(), i).unwrap(),
                        self.image(),
                        self.strings(),
                    )
                },
                None => r is None,
            },
    {
        proof {
            use_type_invariant(self);
        }
        let mut index: u64 = 0;
        while index < self.header.section_count
            invariant
                index <= self.header.section_count,
                self.header.section_entry_size <= 0xffff,
                self.header.section_count <= 0xffff,
                find_section(self.image(), self.header(), self.strings(), name.spec_bytes(), 0)
                    == find_section(self.image(), self.header(), self.strings(), name.spec_bytes(), index),
            decreases self.header.section_count - index,
        {
            let reader = match self.section_reader(index) {
                Some(reader) => reader,
                None => return None,
            };
            let name_offset = match reader.read(0x00, 4) {
                Some(o) => o,
                None => return None,
            };
            proof {
                assert(section_layout(self.header.bitness)[0] == (0int, 4int));
            }
            let section_name = self.get_string((name_offset as u32) as u64);

            let same = match section_name {
                Some(n) => str_eq(n, name),
                None => false,
            };
            if same {
                return self.section_by_index(index);
            }
            index += 1;
        }

        None
    }

    /// The segments in program header order, as far as they decode: the first component
    /// holds every segment before the first header that fails, the second is `Some` when
    /// none fails.
    pub fn segments(&self) -> (r: (Vec<Segment<'a>>, Option<()>))
        ensures
            r.0@.len() <= self.header().segment_count,
            forall|i: u64| i < r.0@.len() ==> #[trigger] segment_ok(self.image(), self.header(), i),
            r.0@.len() < self.header().segment_count ==> !segment_ok(
                self.image(),
                self.header(),
                r.0@.len() as u64,
            ),
            r.1 is Some <==> r.0@.len() == self.header().segment_count,
            forall|i: int| 0 <= i < r.0@.len() ==> segment_from(
                #[trigger] r.0@[i],
                segment_fields_spec(self.image(), self.header(), i as u64).unwrap(),
                self.image(),
            ),
    {
        let mut v: Vec<Segment<'a>> = Vec::new();
        let mut index: u64 = 0;
        while index < self.segment_count()
            invariant
                index <= self.header().segment_count,
                v@.len() == index,
                forall|i: u64| i < index ==> #[trigger] segment_ok(self.image(), self.header(), i),
                forall|i: int| 0 <= i < v@.len() ==> segment_from(
                    #[trigger] v@[i],
                    segment_fields_spec(self.image(), self.header(), i as u64).unwrap(),
                    self.image(),
                ),
            decreases self.header().segment_count - index,
        {
            match self.segment_by_index(index) {
                Some(segment) => v.push(segment),
                None => return (v, None),
            }
            index += 1;
        }
        (v, Some(()))
    }

    /// The sections in section header order, as far as they decode: the first component
    /// holds every section before the first header that fails, the second is `Some` when
    /// none fails.
    pub fn sections(&self) -> (r: (Vec<Section<'a>>, Option<()>))
        ensures
            r.0@.len() <= self.header().section_count,
            forall|i: u64| i < r.0@.len() ==> (#[trigger] section_fields_spec(self.image(), self.header(), i)) is Some,
            r.0@.len() < self.header().section_count ==> section_fields_spec(
                self.image(),
                self.header(),
                r.0@.len() as u64,
            ) is None,
            r.1 is Some <==> r.0@.len() == self.header().section_count,
            forall|i: int| 0 <= i < r.0@.len() ==> section_from(
                #[trigger] r.0@[i],
                section_fields_spec(self.image(), self.header(), i as u64).unwrap(),
                self.image(),
                self.strings(),
            ),
    {
        let mut v: Vec<Section<'a>> = Vec::new();
        let mut index: u64 = 0;
        while index < self.section_count()
            invariant
                index <= self.header().section_count,
                v@.len() == index,
                forall|i: u64| i < index ==> (#[trigger] section_fields_spec(self.image(), self.header(), i)) is Some,
                forall|i: int| 0 <= i < v@.len() ==> section_from(
                    #[trigger] v@[i],
                    section_fields_spec(self.image(), self.header(), i as u64).unwrap(),
                    self.image(),
                    self.strings(),
                ),
            decreases self.header().section_count - index,
        {
            match self.section_by_index(index) {
                Some(section) => v.push(section),
                None => return (v, None),
            }
            index += 1;
        }
        (v, Some(()))
    }

    fn segment_count(&self) -> (r: u64)
        ensures
            r == self.header().segment_count,
    {
        self.header.segment_count
    }

    fn section_count(&self) -> (r: u64)
        ensures
            r == self.header().section_count,
    {
        self.header.section_count
    }

    pub fn base_address(&self) -> (r: u64)
        ensures
            r == self.spec_base_address(),
    {
        self.base_address
    }

    pub fn entrypoint(&self) -> (r: u64)
        ensures
            r == self.header().entrypoint,
    {
        self.header.entrypoint
    }

    pub fn bitness(&self) -> (r: Bitness)
        ensures
            r == self.header().bitness,
    {
        self.header.bitness
    }

    pub fn endianness(&self) -> (r: Endianness)
        ensures
            r == self.header().endianness,
    {
        self.header.endianness
    }

    pub fn machine(&self) -> (r: Machine)
        ensures
            r == self.header().machine,
    {
        self.header.machine
    }
}

} // verus!
