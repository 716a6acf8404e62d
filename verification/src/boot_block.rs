//! Data shared between the bootloader and the kernel.
use vstd::prelude::*;
use crate::lock::{Lock, NO_CORE};
use crate::page_table::PageTable;
use crate::rangeset::RangeSet;
use crate::serial_port::SerialPort;

verus! {

// 0xffff_8000_0000_0000 - 0xffff_a000_0000_0000      - stacks (32 TB)
// 0xffff_a000_0000_0000 - 0xffff_f000_0000_0000      - heap (80 TB)
// 0xffff_f000_0000_0000 - 0xffff_ffff_8000_0000      - physical region (~16 TB)
// 0xffff_ffff_8000_0000 - 0xffff_ffff_ff00_0000      - kernel area (~2 GB)
// 0xffff_ffff_ff00_0000 - 0xffff_ffff_ffff_ffff + 1  - unused (16 MB)
/// A region which is used to allocate unique stacks for each core.
pub const KERNEL_STACK_BASE: u64 = 0xffff_8000_0000_0000;

pub const KERNEL_STACK_SIZE: u64 = 4 * 1024 * 1024;

pub const KERNEL_STACK_PADDING: u64 = 64 * 1024 * 1024;

/// A region which allows kernel (which uses paging) to access raw physical memory.
pub const KERNEL_PHYSICAL_REGION_BASE: u64 = 0xffff_f000_0000_0000;

pub const KERNEL_PHYSICAL_REGION_SIZE: u64 = 1024 * 1024 * 1024 * 1024;

/// A region which is used by dynamic allocations in the kernel.
pub const KERNEL_HEAP_BASE: u64 = 0xffff_a000_0000_0000;

pub const KERNEL_HEAP_PADDING: u64 = 4096;

/// Base address of the kernel. As required by System V ABI, image must be between
/// 0xffff_ffff_8000_0000 and 0xffff_ffff_ff00_0000.
pub const KERNEL_BASE: u64 = 0xffff_ffff_8000_0000;

pub const MAX_SUPPORTED_MODES: usize = 128;

#[derive(Copy, Clone)]
pub struct AcpiTables {
    pub rsdt: Option<u64>,
    pub xsdt: Option<u64>,
}

#[derive(Copy, Clone, PartialEq, Eq, Structural)]
pub struct PixelFormat {
    pub red: u32,
    pub green: u32,
    pub blue: u32,
}

#[derive(Copy, Clone)]
pub struct FramebufferInfo {
    pub width: u32,
    pub height: u32,
    pub pixel_format: PixelFormat,
    pub pixels_per_scanline: u32,
    pub fb_base: u64,
    pub fb_size: u64,
}

#[derive(Clone)]
pub struct SupportedModes {
    pub modes: [(u32, u32); MAX_SUPPORTED_MODES],
    pub count: u32,
    pub overflow: bool,
}

/// Data shared between the bootloader and the kernel. Allows for concurrent access.
pub struct BootBlock {
    /// Size of the `BootBlock` used to make sure that the shape of the structure is the same
    /// in 32 bit mode and 64 bit mode.
    pub size: u64,
    /// Free physical memory ranges available on the system.
    pub free_memory: Lock<RangeSet>,
    /// Physical memory ranges used by the bootloader.
    pub boot_memory: Lock<RangeSet>,
    /// Serial port connection which allows for `print!` macros.
    pub serial_port: Lock<Option<SerialPort>>,
    /// Page tables created by the bootloader and used by the kernel.
    pub page_table: Lock<Option<PageTable>>,
    pub physical_map_page_size: Lock<Option<u64>>,
    pub ap_entrypoint: Lock<Option<u64>>,
    pub acpi_tables: Lock<AcpiTables>,
    pub framebuffer: Lock<Option<FramebufferInfo>>,
    pub supported_modes: Lock<Option<SupportedModes>>,
}

impl BootBlock {
    /// Create an empty `BootBlock` that records the size of its layout in the current
    /// processor mode.
    pub fn new() -> (r: Self)
        ensures
            r.size == vstd::layout::size_of::<BootBlock>(),
            r.free_memory.value().wf(),
            r.free_memory.value()@ == Set::<u64>::empty(),
            r.boot_memory.value().wf(),
            r.boot_memory.value()@ == Set::<u64>::empty(),
            r.serial_port.value() is None,
            r.page_table.value() is None,
            r.physical_map_page_size.value() is None,
            r.ap_entrypoint.value() is None,
            r.acpi_tables.value().rsdt is None,
            r.acpi_tables.value().xsdt is None,
            r.framebuffer.value() is None,
            r.supported_modes.value() is None,
            !r.free_memory.is_locked_spec(),
            !r.boot_memory.is_locked_spec(),
            !r.page_table.is_locked_spec(),
            !r.serial_port.is_locked_spec(),
            !r.physical_map_page_size.is_locked_spec(),
            !r.ap_entrypoint.is_locked_spec(),
            !r.acpi_tables.is_locked_spec(),
            !r.framebuffer.is_locked_spec(),
            !r.supported_modes.is_locked_spec(),
            r.free_memory.holder() == NO_CORE && r.boot_memory.holder() == NO_CORE
                && r.page_table.holder() == NO_CORE && r.serial_port.holder() == NO_CORE
                && r.physical_map_page_size.holder() == NO_CORE && r.ap_entrypoint.holder()
                == NO_CORE && r.acpi_tables.holder() == NO_CORE && r.framebuffer.holder() == NO_CORE
                && r.supported_modes.holder() == NO_CORE,
    {
        let size = core::mem::size_of::<BootBlock>() as u64;
        Self {
            size,
            free_memory: Lock::new(RangeSet::new()),
            boot_memory: Lock::new(RangeSet::new()),
            serial_port: Lock::new(None),
            page_table: Lock::new(None),
            physical_map_page_size: Lock::new(None),
            ap_entrypoint: Lock::new(None),
            acpi_tables: Lock::new(AcpiTables { rsdt: None, xsdt: None }),
            framebuffer: Lock::new(None),
            supported_modes: Lock::new(None),
        }
    }
}

} // verus!
