use flugzeug::cpu::Cpuid;
use flugzeug::page_table::{PageTable, PhysAddr, VirtAddr};
use flugzeug::svm::npt::Npt;
use flugzeug::svm::utils::{AsidBitmap, SvmFeatures, SvmSupport};
use flugzeug::svm::{Event, Exception, Interrupt, Register, SegmentRegister, Vm, VmExit};
use flugzeug::vkernel::{configure, exit_step, PageFaultAction, RunStep, VKernelError, VKernelImage};

fn image(base: u64, rsp: u64, len: usize) -> Vec<u8> {
    let mut v = vec![0xaau8; len];
    v[..8].copy_from_slice(&base.to_le_bytes());
    v[8..16].copy_from_slice(&rsp.to_le_bytes());
    v
}

#[test]
fn image_header() {
    let k = VKernelImage::parse(image(0x40_0000, 0x50_0000, 0x1800)).ok().unwrap();
    assert_eq!(k.base, 0x40_0000);
    assert_eq!(k.rsp, 0x50_0000);
    assert_eq!(k.entrypoint, 0x40_0010);
    assert_eq!(k.permissions.len(), (0x2000 + 3) / 4);
    assert!(k.permissions.iter().all(|p| *p == 3));
    assert_eq!(k.image_byte(16), 0xaa);
    assert_eq!(k.image_byte(0x1800), 0);
    match VKernelImage::parse(image(0x40_0800, 0, 64)) {
        Err(e) => assert_eq!(e, VKernelError::UnalignedBase),
        Ok(_) => panic!("unaligned base accepted"),
    }
}

#[test]
fn page_fault_decisions() {
    let k = VKernelImage::parse(image(0x40_0000, 0x50_0000, 0x1800)).ok().unwrap();
    // Each permission byte holds two bits for each of four pages; the image's bitmap is
    // filled with 0b11, which marks only the first page of every four.
    assert_eq!(
        k.page_fault_action(0x40_0fff, 0),
        Ok(PageFaultAction::MapKernel { page: 0x40_0000, offset: 0, write: true, execute: true })
    );
    assert_eq!(
        k.page_fault_action(0x40_1234, 0),
        Ok(PageFaultAction::MapKernel { page: 0x40_1000, offset: 0x1000, write: false, execute: false })
    );
    // The image spans two pages; the third one is ordinary memory.
    assert_eq!(k.page_fault_action(0x40_2000, 2), Ok(PageFaultAction::MapZeroed { page: 0x40_2000 }));
    assert_eq!(k.page_fault_action(0x3f_ffff, 0), Ok(PageFaultAction::MapZeroed { page: 0x3f_f000 }));
    assert_eq!(k.page_fault_action(0x40_0000, 1), Err(VKernelError::NotMissingPage));
    assert_eq!(VKernelError::NotMissingPage.message(), "Page fault not due to missing page.");
}

#[test]
fn exit_decisions() {
    assert_eq!(exit_step(VmExit::Interrupt(Interrupt::Intr), None), RunStep::Resume);
    assert_eq!(
        exit_step(
            VmExit::Exception(Exception::Pf { address: VirtAddr(0x1000), error_code: 4 }),
            None
        ),
        RunStep::PageFault { address: 0x1000, error_code: 4 }
    );
    assert_eq!(exit_step(VmExit::Hlt, None), RunStep::Exit(VmExit::Hlt));
    assert_eq!(
        exit_step(VmExit::Hlt, Some(Event::Nmi)),
        RunStep::UnexpectedDelivery(Event::Nmi)
    );
}

#[test]
fn vm_start_state() {
    let mut bitmap = AsidBitmap::new();
    let features = SvmFeatures::get(true, Cpuid { eax: 1, ebx: 16, ecx: 0, edx: 0xff });
    let npt = Npt::new(PageTable::from_table(PhysAddr(0x10_0000), false));
    let support = SvmSupport { already_enabled: false, vendor: *b"AuthenticAMD", svm: true, vm_cr: 0 };
    let mut vm = Vm::new(&support, &features, &mut bitmap, npt, 0x20_0000, 0x30_0000).ok().unwrap();
    let k = VKernelImage::parse(image(0x40_0000, 0x50_0000, 0x1800)).ok().unwrap();
    configure(&mut vm, 0x7000, &k);
    assert_eq!(vm.reg(Register::Efer), 0x1d00);
    assert_eq!(vm.reg(Register::Cr0), 0x8001_0003);
    assert_eq!(vm.reg(Register::Cr3), 0x7000);
    assert_eq!(vm.reg(Register::Rip), 0x40_0010);
    assert_eq!(vm.reg(Register::Rsp), 0x50_0000);
    assert_eq!(vm.reg(Register::Rflags), 0x202);
    assert_eq!(vm.segment_reg(SegmentRegister::Cs).selector, 0x8);
    assert_eq!(vm.segment_reg(SegmentRegister::Ds).attrib, 0x90);
    assert_eq!(vm.cpl(), 0);
}
