use rustboot::exception::{exception_handler, exception_name, page_fault_report, Fault};
use rustboot::idt::{IdtEntry, IdtFlags};

#[test]
fn idt_entry_splits_the_handler_address() {
    let flags = IdtFlags::present().union(IdtFlags::intr_gate());
    let e = IdtEntry::new(0x0012_3456, 0x08, flags);
    assert_eq!(e.addr_lo, 0x3456);
    assert_eq!(e.addr_hi, 0x0012);
    assert_eq!(e.sel, 0x08);
    assert_eq!(e.zero, 0);
    assert_eq!(e.flags, IdtFlags(0x8E));
    assert_eq!(e.handler(), 0x0012_3456);
}

#[test]
fn idt_entry_extremes() {
    let e = IdtEntry::new(0xFFFF_FFFF, 0x10, IdtFlags::trap_gate());
    assert_eq!((e.addr_hi, e.addr_lo), (0xFFFF, 0xFFFF));
    assert_eq!(e.flags, IdtFlags(0x0F));
    assert_eq!(IdtEntry::new(0, 0, IdtFlags(0)).handler(), 0);
}

#[test]
fn fault_codes() {
    assert_eq!(Fault::DivideError.code(), 0);
    assert_eq!(Fault::PageFault.code(), 14);
    assert_eq!(Fault::SimdFpException.code(), 19);
    assert_eq!(Fault::from_code(13), Some(Fault::GeneralProtection));
    assert_eq!(Fault::from_code(1), None);
    assert_eq!(Fault::from_code(15), None);
    assert_eq!(Fault::from_code(200), None);
    for c in 0..=255u8 {
        if let Some(f) = Fault::from_code(c) {
            assert_eq!(f.code(), c);
        }
    }
}

#[test]
fn exception_names() {
    assert_eq!(exception_name(0), "Divide-by-zero Error");
    assert_eq!(exception_name(14), "Page Fault");
    assert_eq!(exception_name(15), "Reserved");
    assert_eq!(exception_name(20), "Virtualization Exception");
}

#[test]
fn page_fault_reports_address_and_halts() {
    let r = exception_handler(14, 0x1234_5678, 0xC010_0000);
    assert_eq!(r.page_fault, Some((0x0012_3456, 0xC010_0000)));
    assert_eq!(r.blue_screen, Some("Page Fault"));
}

#[test]
fn breakpoint_returns_to_the_debugger() {
    let r = exception_handler(3, 0, 0);
    assert_eq!(r.page_fault, None);
    assert_eq!(r.blue_screen, None);
    // Only the low byte of the vector number decides.
    let r = exception_handler(0x103, 0, 0);
    assert_eq!(r.blue_screen, None);
}

#[test]
fn other_exceptions_show_the_blue_screen() {
    let r = exception_handler(13, 0xAAAA, 0xBBBB);
    assert_eq!(r.page_fault, None);
    assert_eq!(r.blue_screen, Some("General Protection Fault"));
}

#[test]
fn idt_entry_bytes() {
    let e = IdtEntry::new(0x1234_5678, 0x0008, IdtFlags(0x8E));
    assert_eq!(e.to_bytes(), [0x78, 0x56, 0x08, 0x00, 0x00, 0x8E, 0x34, 0x12]);
}

#[test]
fn page_fault_report_looks_at_the_low_byte_only() {
    assert_eq!(page_fault_report(14, 0xABCD_EF01, 0x10), Some((0x00AB_CDEF, 0x10)));
    // 0x10E has the low byte 14 too.
    assert_eq!(page_fault_report(0x10E, 0x100, 0x20), Some((0x1, 0x20)));
    assert_eq!(page_fault_report(13, 0x100, 0x20), None);
}
