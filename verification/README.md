# flugzeug

The verified core of a small x86-64 operating system and hypervisor: the data
structures, parsers and decisions of its bootloaders, kernel and build tool,
written in Verus with their contracts proved.

## Layout

- `src/` — the library, verified by Verus.
  - Memory: `rangeset` (sets of physical ranges and allocation from them), `e820`
    (free memory from the BIOS memory map), `page_table` (x86-64 page tables over
    an abstract physical memory: walking, mapping, destroying), `mm` (kernel
    memory decisions: the linear physical region, PAT, MMIO, heap addresses and
    the free lists of the kernel heap).
  - Images: `elf` (ELF parsing), `bdd` (boot disk descriptor and its checksum),
    `disk` (the BIOS extended read of a boot disk sector and its retries),
    `boot_image` (laying out the BIOS boot image), `kernel_loader` (checking the
    kernel image and building its page tables in the bootloader).
  - Platform: `acpi` (RSDP search, table headers and checksums, RSDT/XSDT),
    `processors` (MADT parsing, core states), `apic`, `hpet`, `interrupts`,
    `cpu` (CPUID features), `core_locals`, `lock`, `once`, `serial_port`,
    `framebuffer` (pixel framebuffer, bitmap font, text console), `pci` and
    `pci_ids` (the PCI ID database file and its lookup).
  - Virtualization: `svm` (VMCB, intercepts, event injection, exit decoding,
    ASIDs, nested page tables) and `vkernel` (the VM started with the VKernel and
    its page fault handling).
- `tests/` — tests of the library on concrete values.
- `app/` — the build tool: compiles the parts, writes the UEFI (FAT32) and BIOS
  disk images, and generates the PCI lookup tables from the downloaded database.
