use vmcore::frame::Frame;
use vmcore::ipi::{ipi, IpiKind, IpiTarget};
use vmcore::start::{KernelArgs, KernelArgsAp};
use vmcore::syscall::{efer_with_syscall, star, SYSCALL_FLAG_MASK};

#[test]
fn ipi_command_words() {
    assert_eq!(ipi(IpiKind::Wakeup, IpiTarget::Current), (1 << 18) | (1 << 14) | 0x40);
    assert_eq!(ipi(IpiKind::Tlb, IpiTarget::Other), (3 << 18) | (1 << 14) | 0x41);
    assert_eq!(ipi(IpiKind::Switch, IpiTarget::All), (2 << 18) | (1 << 14) | 0x42);
    assert_eq!(ipi(IpiKind::Pit, IpiTarget::Other), 0xc4043);
    assert_eq!(
        ipi(IpiKind::Profile, IpiTarget::Other),
        (3 << 18) | (1 << 14) | (0b100 << 8)
    );
}

#[test]
fn ipi_vectors_and_shorthands() {
    assert_eq!(IpiKind::Wakeup.vector(), 0x40);
    assert_eq!(IpiKind::Profile.vector(), 0x44);
    assert_eq!(IpiTarget::Current.shorthand(), 1);
    assert_eq!(IpiTarget::All.shorthand(), 2);
    assert_eq!(IpiTarget::Other.shorthand(), 3);
}

#[test]
fn star_register_value() {
    // Kernel code at index 1, unused 32-bit user code at index 4.
    let kernel = 1u64 << 3;
    let user = (4u64 << 3) | 3;
    assert_eq!(star(1, 4), (kernel | (user << 16)) << 32);
    assert_eq!(star(1, 4), 0x0023_0008_0000_0000);
    assert_eq!(star(0, 0), 0x0003_0000_0000_0000);
}

#[test]
fn efer_gets_the_enable_bit() {
    assert_eq!(efer_with_syscall(0), 1);
    assert_eq!(efer_with_syscall(0xd00), 0xd01);
    assert_eq!(efer_with_syscall(0xd01), 0xd01);
    assert_eq!(SYSCALL_FLAG_MASK, 0x300);
}

fn args() -> KernelArgs {
    KernelArgs {
        kernel_base: 0x10_0000,
        kernel_size: 0x20_0000,
        stack_base: 0x40_0000,
        stack_size: 0x1_0000,
        env_base: 0x50_0000,
        env_size: 0x100,
        dtb_base: 0x4000_0000,
        dtb_size: 0x8000,
        areas_base: 0x60_0000,
        areas_size: 0x200,
        bootstrap_base: 0x80_0123,
        bootstrap_size: 0x5fff,
        bootstrap_entry: 0x1000,
    }
}

#[test]
fn bootstrap_from_kernel_arguments() {
    let bootstrap = args().bootstrap();
    assert_eq!(bootstrap.base, Frame { number: 0x800 });
    assert_eq!(bootstrap.page_count, 5);
    assert_eq!(bootstrap.entry, 0x1000);
}

#[test]
fn device_tree_from_kernel_arguments() {
    assert_eq!(
        args().device_tree(0xffff_8000_0000_0000),
        Some((0xffff_8000_4000_0000, 0x8000))
    );
    let mut none = args();
    none.dtb_base = 0;
    assert_eq!(none.device_tree(0xffff_8000_0000_0000), None);
}

#[test]
fn application_processor_arguments_hold_their_fields() {
    let ap = KernelArgsAp { cpu_id: 1, page_table: 0x1000, stack_start: 0x2000, stack_end: 0x3000 };
    assert_eq!(ap.cpu_id, 1);
    assert_eq!(ap.stack_end - ap.stack_start, 0x1000);
}
