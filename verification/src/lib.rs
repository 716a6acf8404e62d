use vstd::prelude::*;

pub mod acpi;
pub mod apic;
pub mod bdd;
pub mod disk;
pub mod boot_image;
pub mod kernel_loader;
pub mod boot_block;
pub mod lock;
pub mod mm;
pub mod once;
pub mod serial_port;
pub mod rangeset;
pub mod e820;
pub mod elf;
pub mod page_table;
pub mod pci;
pub mod pci_ids;
pub mod processors;
pub mod core_locals;
pub mod cpu;
pub mod framebuffer;
pub mod hpet;
pub mod interrupts;
pub mod svm;
pub mod vkernel;
