use rusty_os::allocator::{Dummy, HEAP_SIZE, HEAP_START};
use rusty_os::interrupts::{
    init_idt, HandlerKind, InterruptIndex, DOUBLE_FAULT_IST_INDEX, PIC_1_OFFSET, PIC_2_OFFSET,
};
use rusty_os::QemuExitCode;

#[test]
fn heap_region_constants() {
    assert_eq!(HEAP_START, 0x4444_4444_0000);
    assert_eq!(HEAP_SIZE, 100 * 1024);
}

#[test]
fn interrupt_vectors_follow_the_controller_offset() {
    assert_eq!(PIC_1_OFFSET, 32);
    assert_eq!(PIC_2_OFFSET, 40);
    assert_eq!(InterruptIndex::Timer.as_u8(), 32);
    assert_eq!(InterruptIndex::Keyboard.as_u8(), 33);
    assert_eq!(InterruptIndex::Timer.as_usize(), 32);
    assert_eq!(InterruptIndex::Keyboard.as_usize(), 33);
}

#[test]
fn descriptor_table_layout() {
    let idt = init_idt();
    assert_eq!(idt.len(), 5);
    assert_eq!(idt[0].vector, 3);
    assert_eq!(idt[0].handler, HandlerKind::Breakpoint);
    assert_eq!(idt[0].stack_index, None);
    assert_eq!(idt[1].vector, 8);
    assert_eq!(idt[1].handler, HandlerKind::DoubleFault);
    // The double fault always runs on the dedicated fault-safe stack.
    assert_eq!(idt[1].stack_index, Some(DOUBLE_FAULT_IST_INDEX));
    assert_eq!(idt[2].vector, 14);
    assert_eq!(idt[2].handler, HandlerKind::PageFault);
    assert_eq!(idt[3].vector, 32);
    assert_eq!(idt[3].handler, HandlerKind::Timer);
    assert_eq!(idt[4].vector, 33);
    assert_eq!(idt[4].handler, HandlerKind::Keyboard);
}

#[test]
fn qemu_exit_codes() {
    assert_eq!(QemuExitCode::Success.code(), 0x10);
    assert_eq!(QemuExitCode::Failed.code(), 0x11);
}

#[test]
fn dummy_allocator_always_fails() {
    let d = Dummy;
    assert_eq!(d.allocate(1, 1), None);
    assert_eq!(d.allocate(4096, 4096), None);
}
