use flugzeug::interrupts::{
    classify_fatal, exception_name, page_fault_action, page_fault_reason, FatalInterrupt,
};
use flugzeug::apic::{Apic, ApicMode, Register};
use flugzeug::bdd::{checksum, SIGNATURE};
use flugzeug::core_locals::{max_page_type, xsave_area_size, CoreLocals, DepthCounter};
use flugzeug::cpu::{get_features, Cpuid};
use flugzeug::page_table::PageType;
use flugzeug::hpet::Hpet;
use flugzeug::interrupts::IdtGate;
use flugzeug::lock::{Lock, LockError, LockGuard, NO_CORE};
use flugzeug::once::Once;
use flugzeug::serial_port::{SerialPort, COM1};

#[test]
fn fnv1a_checksum() {
    assert_eq!(checksum(&[]), 0x811c_9dc5);
    assert_eq!(checksum(b"a"), 0xe40c_292c);
    assert_eq!(checksum(b"foobar"), 0xbf9c_f968);
    assert_ne!(SIGNATURE, 0);
}

#[test]
fn once_runs_once() {
    let mut once = Once::new();
    assert!(once.exec());
    assert!(!once.exec());
    assert!(!once.exec());
}

#[test]
fn serial_port_programming() {
    let port = SerialPort::new();
    assert_eq!(port.port(), COM1);
    assert_eq!(
        port.init_sequence(),
        vec![
            (0x3f9, 0x00),
            (0x3fb, 0x80),
            (0x3f8, 0x01),
            (0x3f9, 0x00),
            (0x3fb, 0x03),
            (0x3fc, 0x03),
        ]
    );
    assert_eq!(port.line_status_port(), 0x3fd);
    assert_eq!(port.encode(b"ab\ncd\n"), b"ab\r\ncd\r\n".to_vec());
    assert_eq!(port.encode(b""), Vec::<u8>::new());
    assert_eq!(port.encode(b"x\r\n"), b"x\r\r\n".to_vec());
}

#[test]
fn lock_protocol() {
    let mut lock = Lock::new(5u32);
    assert!(!lock.is_locked());
    assert_eq!(lock.pre_lock(true, 0), Err(LockError::InInterrupt));
    assert_eq!(lock.pre_lock(false, 0), Ok(false));
    assert!(lock.try_acquire(0));
    assert!(lock.is_locked());
    assert_eq!(lock.pre_lock(false, 0), Err(LockError::Deadlock));
    assert!(!lock.try_acquire(1));
    *lock.get_mut() += 1;
    assert_eq!(*lock.get_mut(), 6);
    let guard = lock.guard();
    assert!(!lock.unlock(guard));
    assert!(!lock.is_locked());
    assert_eq!(lock.pre_lock(false, 0), Ok(false));

    let mut np = Lock::new_non_preemptible(());
    assert_eq!(np.pre_lock(true, 3), Ok(true));
    assert!(np.try_acquire(3));
    let guard = np.guard();
    assert!(np.unlock(guard));

    let forced = np.force_lock_unsafe();
    assert_eq!(forced, LockGuard { force_taken: true, unsafe_locked: true });
    assert!(np.try_lock_unsafe(7).is_some());
    assert!(np.try_lock_unsafe(8).is_none());
    assert!(!np.unlock(forced));
    assert!(np.is_locked());
    assert!(!np.unlock(LockGuard { force_taken: false, unsafe_locked: true }));
    assert!(!np.is_locked());
    assert_ne!(NO_CORE, 0);
}

#[test]
fn depth_counter() {
    let mut c = DepthCounter::new(0);
    assert!(c.enter());
    assert!(!c.enter());
    assert_eq!(c.depth(), 2);
    assert!(!c.exit());
    assert!(c.exit());
    assert_eq!(c.depth(), 0);
}

#[test]
fn core_interrupt_state() {
    let mut core = CoreLocals::new(0, 1234, PageType::Page1G);
    assert!(!core.interrupts_enabled());
    assert!(core.enable_interrupts());
    assert!(core.interrupts_enabled());
    core.disable_interrupts();
    core.enter_interrupt();
    assert!(core.in_interrupt());
    assert!(!core.enable_interrupts());
    core.exit_interrupt();
    assert!(!core.in_interrupt());
    assert!(core.interrupts_enabled());
    core.enter_exception();
    assert!(core.in_exception());
    core.exit_exception();
    assert!(!core.in_exception());
}

#[test]
fn core_cached_values() {
    let mut core = CoreLocals::new(1, 0, PageType::Page2M);
    assert_eq!(core.apic_id(), None);
    core.set_apic_id(7);
    assert_eq!(core.apic_id(), Some(7));
    core.set_xsave_size(576);
    assert_eq!(core.xsave_size(), 576);
    core.apic = Some(Apic::X2Apic);
    assert_eq!(core.apic_mode(), ApicMode::X2Apic);
    assert_eq!(core.max_page_type, PageType::Page2M);
}

fn cpuid(eax: u32, ebx: u32, ecx: u32, edx: u32) -> Cpuid {
    Cpuid { eax, ebx, ecx, edx }
}

#[test]
fn largest_page_type() {
    let none = cpuid(0, 0, 0, 0);
    let ext_max = cpuid(0x8000_0001, 0, 0, 0);
    // Leaf 1 EDX bit 3 is PSE (2M pages); extended leaf 1 EDX bit 26 is 1G pages.
    let leaf_0 = cpuid(7, 0, 0, 0);
    let both = get_features(leaf_0, cpuid(0, 0, 0, 1 << 3), none, ext_max, cpuid(0, 0, 0, 1 << 26));
    let only_2m = get_features(leaf_0, cpuid(0, 0, 0, 1 << 3), none, ext_max, none);
    let neither = get_features(leaf_0, none, none, ext_max, none);
    assert_eq!(max_page_type(&both), Some(PageType::Page1G));
    assert_eq!(max_page_type(&only_2m), Some(PageType::Page2M));
    assert_eq!(max_page_type(&neither), None);
}

#[test]
fn xsave_area_sizes() {
    let mut components = vec![cpuid(0, 0, 0, 0); 64];
    // AVX state: 256 bytes at offset 576.
    components[2] = cpuid(256, 576, 0, 0);
    // AVX-512 state components.
    components[5] = cpuid(64, 1088, 0, 0);
    components[6] = cpuid(512, 1152, 0, 0);
    components[7] = cpuid(1024, 1664, 0, 0);
    // x87 and SSE live in the legacy area.
    assert_eq!(xsave_area_size(0b11, &components), 576);
    assert_eq!(xsave_area_size(0b111, &components), 832);
    assert_eq!(xsave_area_size(0b1110_0111, &components), 2688);
    // Order of the components does not matter, only which one ends last.
    assert_eq!(xsave_area_size(0b0110_0111, &components), 1664);
    // Components that are not enabled are not counted.
    assert_eq!(xsave_area_size(0b1000_0011, &components), 2688);
    assert_eq!(xsave_area_size(0, &components), 576);
}

#[test]
fn free_list_selection() {
    let core = CoreLocals::new(0, 0, PageType::Page1G);
    assert_eq!(core.free_list(1, 1), Some(0));
    assert_eq!(core.free_list(8, 8), Some(0));
    assert_eq!(core.free_list(9, 1), Some(1));
    assert_eq!(core.free_list(16, 32), None);
    assert_eq!(core.free_list(4096, 4096), Some(9));
    assert_eq!(core.free_list(4097, 4096), Some(10));
    assert_eq!(core.free_list(8192, 8192), None);
}

#[test]
fn apic_registers() {
    assert_eq!(Register::ApicID.offset(), 0x20);
    assert_eq!(Register::Eoi.msr(), 0x80b);
    assert_eq!(Register::TimerDivideConfiguration.msr(), 0x83e);
    assert_eq!(Apic::XApic.apic_id_from_register(0x0300_0000), 3);
    assert_eq!(Apic::X2Apic.apic_id_from_register(0x0300_0000), 0x0300_0000);
    assert_eq!(Apic::XApic.mode(), ApicMode::XApic);
}

#[test]
fn hpet_registers() {
    // Period 10 ns, 64 bit counter, three timers.
    let caps = (10_000_000u64 << 32) | (1 << 13) | (2 << 8);
    let hpet = Hpet::from_capabilities(caps);
    assert_eq!(hpet.period(), 10_000_000);
    assert!(hpet.is_64bit());
    assert_eq!(hpet.timers(), 3);
    assert_eq!(Hpet::initial_configuration(0xff), 0xfc);
    assert_eq!(hpet.cleared_interrupt_status(0xff), 0xf8);
    assert_eq!(hpet.timer_config_register(2), 0x140);
    assert_eq!(Hpet::timer_configuration(0xffff), 0xbffb);
    assert_eq!(hpet.enable(0x10), 0x11);
    assert_eq!(hpet.disable(0x11), 0x10);
}

#[test]
fn idt_gate_layout() {
    let gate = IdtGate::new(true, 0x08, 0xffff_ffff_8012_3456, 0xe, 0, 1);
    assert_eq!(gate.data, [0x0008_3456, 0x8012_8e01, 0xffff_ffff, 0]);
    let gate = IdtGate::new(false, 0x10, 0x1234, 0xf, 3, 0);
    assert_eq!(gate.data, [0x0010_1234, 0x0000_6f00, 0, 0]);
}

#[test]
fn fatal_interrupt_reports() {
    assert_eq!(classify_fatal(40, 0), FatalInterrupt::Irq { vector: 40 });
    assert_eq!(classify_fatal(13, 0x10), FatalInterrupt::Exception { vector: 13 });
    assert_eq!(classify_fatal(25, 0), FatalInterrupt::UnknownException { vector: 25 });
    assert_eq!(
        classify_fatal(14, 0b11011),
        FatalInterrupt::PageFault { present: true, write: true, reserved: true, execute: true }
    );
    assert_eq!(
        classify_fatal(14, 0b00010),
        FatalInterrupt::PageFault { present: false, write: true, reserved: false, execute: false }
    );
    assert_eq!(exception_name(13), "#GP");
    assert_eq!(exception_name(9), "Coprocessor Segment Overrun");
    assert_eq!(exception_name(20), "#VE");
    assert_eq!(page_fault_action(true, false), "write to");
    assert_eq!(page_fault_action(true, true), "execute");
    assert_eq!(page_fault_action(false, false), "read");
    assert_eq!(page_fault_reason(false, true, false, false), "Page was not present.");
    assert_eq!(page_fault_reason(true, true, false, false), "Page was not writable.");
    assert_eq!(page_fault_reason(true, false, false, true), "Page was not executable.");
    assert_eq!(page_fault_reason(true, false, false, false), "Unknown reason for page fault.");
}
