use flugzeug::cpu::Cpuid;
use flugzeug::page_table::{PageTable, PhysAddr, VirtAddr};
use flugzeug::svm::npt::Npt;
use flugzeug::svm::utils::{check_svm, Asid, AsidBitmap, SvmFeatures, SvmSupport};
use flugzeug::svm::guest::{gdt_segment, guest_page_entry, guest_start, guest_step, load_segment, GuestStep, SegmentError};
use flugzeug::svm::{
    decode_event, decode_exit, encode_event, Event, Exception, GuestAddr, Intercept, Interrupt,
    Register, Segment, SegmentRegister, Vm, VmError, VmExit,
};

fn features(edx: u32) -> SvmFeatures {
    SvmFeatures::get(true, Cpuid { eax: 1, ebx: 64, ecx: 0, edx })
}

fn amd() -> SvmSupport {
    SvmSupport { already_enabled: false, vendor: *b"AuthenticAMD", svm: true, vm_cr: 0 }
}

fn vm(bitmap: &mut AsidBitmap) -> Vm {
    let npt = Npt::new(PageTable::from_table(PhysAddr(0x10_0000), false));
    Vm::new(&amd(), &features(0xff), bitmap, npt, 0x20_0000, 0x30_0000).ok().unwrap()
}

#[test]
fn svm_feature_bits() {
    let f = features(0b1110_1001);
    assert_eq!(f.nr_asids, 64);
    assert!(f.nested_paging && f.nrip_save && f.vmcb_clean && f.flush_by_asid && f.decode_assists);
    let none = SvmFeatures::get(false, Cpuid { eax: 1, ebx: 64, ecx: 0, edx: 0xff });
    assert_eq!(none.nr_asids, 0);
    assert!(!none.nested_paging);
}

#[test]
fn event_injection_roundtrip() {
    let events = [
        Event::Intr(0x20),
        Event::Nmi,
        Event::SoftwareInterrupt(0x80),
        Event::Exception(Exception::Ud),
        Event::Exception(Exception::Gp(0x10)),
        Event::Exception(Exception::Df(0)),
        Event::Exception(Exception::Pf { address: VirtAddr(0xdead_b000), error_code: 2 }),
    ];
    for ev in events {
        let (injection, cr2) = encode_event(ev);
        assert_ne!(injection & (1 << 31), 0);
        assert_eq!(decode_event(injection, cr2.unwrap_or(0)), ev);
    }
    let (injection, cr2) = encode_event(Event::Exception(Exception::Gp(0x10)));
    assert_eq!(injection, 0x0000_0010_8000_0b0d);
    assert_eq!(cr2, None);
    let (_, cr2) = encode_event(Event::Exception(Exception::Pf {
        address: VirtAddr(0x1000),
        error_code: 0,
    }));
    assert_eq!(cr2, Some(0x1000));
}

#[test]
fn exit_decoding() {
    assert_eq!(decode_exit(0x72, 0, 0, 0), VmExit::Cpuid);
    assert_eq!(decode_exit(0x78, 0, 0, 0), VmExit::Hlt);
    assert_eq!(decode_exit(0x13, 0, 0, 0), VmExit::CrAccess { n: 3, write: true });
    assert_eq!(decode_exit(0x7c, 1, 0, 0xc000_0080), VmExit::Msr { write: true, msr: 0xc000_0080 });
    assert_eq!(
        decode_exit(0x400, 0b10011, 0x1234_5000, 0),
        VmExit::NestedPageFault {
            address: GuestAddr(0x1234_5000),
            present: true,
            write: true,
            execute: true,
        }
    );
}

#[test]
fn asid_allocation() {
    let mut bitmap = AsidBitmap::new();
    let a = Asid::new(&mut bitmap, 4).unwrap();
    let b = Asid::new(&mut bitmap, 4).unwrap();
    let c = Asid::new(&mut bitmap, 4).unwrap();
    assert_eq!((a.get(), b.get(), c.get()), (1, 2, 3));
    assert!(Asid::new(&mut bitmap, 4).is_none());
    b.release(&mut bitmap);
    assert_eq!(Asid::new(&mut bitmap, 4).unwrap().get(), 2);
}

#[test]
fn vm_requires_features() {
    let mut bitmap = AsidBitmap::new();
    let npt = Npt::new(PageTable::from_table(PhysAddr(0x10_0000), false));
    match Vm::new(&amd(), &features(0), &mut bitmap, npt, 0, 0) {
        Err(e) => assert_eq!(e, VmError::NPNotSupported),
        Ok(_) => panic!("nested paging is required"),
    }
    let npt = Npt::new(PageTable::from_table(PhysAddr(0x10_0000), false));
    match Vm::new(&amd(), &features(1), &mut bitmap, npt, 0, 0) {
        Err(e) => assert_eq!(e, VmError::NRipSaveNotSupported),
        Ok(_) => panic!("next RIP saving is required"),
    }
    // A failed VM gives its ASID back: the first ASID is still free.
    assert_eq!(Asid::new(&mut bitmap, 64).unwrap().get(), 1);
}

#[test]
fn svm_must_be_usable() {
    let intel = SvmSupport { vendor: *b"GenuineIntel", ..amd() };
    assert_eq!(check_svm(&intel), Err(VmError::NonAmdCpu));
    assert_eq!(check_svm(&SvmSupport { svm: false, ..amd() }), Err(VmError::SvmNotSupported));
    assert_eq!(check_svm(&SvmSupport { vm_cr: 0x10, ..amd() }), Err(VmError::SvmDisabled));
    assert_eq!(check_svm(&amd()), Ok(()));
    assert_eq!(check_svm(&SvmSupport { already_enabled: true, ..intel }), Ok(()));
    let mut bitmap = AsidBitmap::new();
    let npt = Npt::new(PageTable::from_table(PhysAddr(0x10_0000), false));
    match Vm::new(&intel, &features(0xff), &mut bitmap, npt, 0, 0) {
        Err(e) => assert_eq!(e, VmError::NonAmdCpu),
        Ok(_) => panic!("SVM needs an AMD CPU"),
    }
    // With 2 ASIDs only ASID 1 can be handed out.
    let few = SvmFeatures::get(true, Cpuid { eax: 1, ebx: 2, ecx: 0, edx: 0xff });
    let npt = Npt::new(PageTable::from_table(PhysAddr(0x10_0000), false));
    let mut first = Vm::new(&amd(), &few, &mut bitmap, npt, 0, 0).ok().unwrap();
    let npt = Npt::new(PageTable::from_table(PhysAddr(0x10_0000), false));
    match Vm::new(&amd(), &few, &mut bitmap, npt, 0, 0) {
        Err(e) => assert_eq!(e, VmError::OutOfAsids),
        Ok(_) => panic!("no ASID is left"),
    }
    assert_eq!(first.npt_mut().table(), PhysAddr(0x10_0000));
}

#[test]
fn vm_registers() {
    let mut bitmap = AsidBitmap::new();
    let mut vm = vm(&mut bitmap);
    assert_eq!(vm.reg(Register::Rax), 0);
    vm.set_reg(Register::Rax, 0x1234);
    vm.set_reg(Register::R15, 7);
    vm.set_reg(Register::Rip, 0x7c00);
    vm.set_reg(Register::Cr3, 0x5000);
    assert_eq!(vm.reg(Register::Rax), 0x1234);
    assert_eq!(vm.reg(Register::R15), 7);
    assert_eq!(vm.reg(Register::Rip), 0x7c00);
    assert_eq!(vm.reg(Register::Cr3), 0x5000);
    vm.set_tsc_offset(100);
    assert_eq!(vm.tsc_offset(), 100);
    vm.intercept(&[Intercept::Cpuid, Intercept::Hlt], true);
    vm.intercept_msr(0xc000_0080, true, true);
    vm.intercept_port(0x3f8, true);
    vm.intercept_all_ports(false);
    vm.intercept_all_msrs(false, false);
    assert_eq!(vm.intercepted_delivery(), None);
}

const CODE64: u64 = 0x00af_9a00_0000_ffff;
const TSS_LOW: u64 = 0x1200_8934_5678_0067;
const TSS_HIGH: u64 = 0xffff_8000;

fn host_gdt() -> [u64; 4] {
    [0, CODE64, TSS_LOW, TSS_HIGH]
}

#[test]
fn gdt_code_and_system_segments() {
    let gdt = host_gdt();
    assert_eq!(
        gdt_segment(0x08, &gdt, 31),
        Ok(Segment { selector: 0x08, attrib: 0xa9a, limit: 0xfffff, base: 0 })
    );
    assert_eq!(
        gdt_segment(0x10, &gdt, 31),
        Ok(Segment { selector: 0x10, attrib: 0x89, limit: 0x67, base: 0xffff_8000_1234_5678 })
    );
    // RPL bits are kept in the selector, ignored for the lookup.
    assert_eq!(
        gdt_segment(0x0b, &gdt, 31),
        Ok(Segment { selector: 0x0b, attrib: 0xa9a, limit: 0xfffff, base: 0 })
    );
    assert_eq!(gdt_segment(0, &gdt, 31), Ok(Segment::null(0)));
    assert_eq!(gdt_segment(3, &gdt, 31), Ok(Segment::null(3)));
}

#[test]
fn gdt_segment_errors() {
    let gdt = host_gdt();
    assert_eq!(gdt_segment(0x0c, &gdt, 31), Err(SegmentError::InLdt));
    assert_eq!(gdt_segment(0x20, &gdt, 31), Err(SegmentError::OutsideGdt));
    assert_eq!(gdt_segment(0x10, &gdt, 15), Err(SegmentError::OutsideGdt));
    // A system descriptor in the last slot has no room for its upper half.
    assert_eq!(gdt_segment(0x18, &gdt, 31), Err(SegmentError::OutsideGdt));
    assert_eq!(SegmentError::InLdt.message(), "Segments in LDT are not supported.");
}

#[test]
fn load_segment_from_host_gdt() {
    let mut bitmap = AsidBitmap::new();
    let mut vm = vm(&mut bitmap);
    let gdt = host_gdt();
    assert_eq!(load_segment(&mut vm, SegmentRegister::Cs, 0x08, &gdt, 31, 0x1111, 0x2222), Ok(()));
    assert_eq!(
        vm.segment_reg(SegmentRegister::Cs),
        Segment { selector: 0x08, attrib: 0xa9a, limit: 0xfffff, base: 0 }
    );
    assert_eq!(load_segment(&mut vm, SegmentRegister::Fs, 0x08, &gdt, 31, 0x1111, 0x2222), Ok(()));
    assert_eq!(vm.segment_reg(SegmentRegister::Fs).base, 0x1111);
    assert_eq!(load_segment(&mut vm, SegmentRegister::Gs, 0, &gdt, 31, 0x1111, 0x2222), Ok(()));
    assert_eq!(vm.segment_reg(SegmentRegister::Gs), Segment { selector: 0, attrib: 0, limit: 0, base: 0x2222 });
    let before = vm.segment_reg(SegmentRegister::Ds);
    assert_eq!(
        load_segment(&mut vm, SegmentRegister::Ds, 0x0c, &gdt, 31, 0, 0),
        Err(SegmentError::InLdt)
    );
    assert_eq!(vm.segment_reg(SegmentRegister::Ds), before);
}

#[test]
fn guest_exit_steps() {
    let fault = VmExit::NestedPageFault {
        address: GuestAddr(0x1234_5678),
        present: false,
        write: true,
        execute: false,
    };
    assert_eq!(guest_step(fault, None), (GuestStep::MapPage { page: 0x1234_5000 }, false));
    assert_eq!(guest_step(fault, Some(Event::Nmi)).1, true);
    assert_eq!(guest_step(VmExit::Vmmcall, None), (GuestStep::Vmmcall, false));
    assert_eq!(guest_step(VmExit::Hlt, Some(Event::Nmi)), (GuestStep::Halt, false));
    assert_eq!(guest_step(VmExit::Shutdown, None), (GuestStep::Shutdown, true));
    assert_eq!(guest_step(VmExit::Interrupt(Interrupt::Intr), None), (GuestStep::Resume, false));
    assert_eq!(guest_step(VmExit::Interrupt(Interrupt::Nmi), None), (GuestStep::Unhandled, true));
    assert_eq!(guest_page_entry(0x1234_5000), 0x1234_5003);
}

#[test]
fn guest_start_state() {
    let start = guest_start(0x7fff_1234_5677);
    assert_eq!(start.dr6, 0xffff_0ff0);
    assert_eq!(start.dr7, 0x400);
    assert_eq!(start.rflags, 2);
    assert_eq!(start.rsp, 0x7fff_1234_5670 - 0x48);
    assert_eq!(start.rsp % 16, 8);
    assert_eq!(start.intercepts, [Intercept::Vmmcall, Intercept::Hlt, Intercept::FerrFreeze]);
}
