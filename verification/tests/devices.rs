//! Device drivers, firmware calls, traps, the console and backtraces.

use alexos::arch::{self, int_bits, sstatus_bits, Hart};
use alexos::backtrace::{Walk, MAX_FRAMES};
use alexos::config::{PLIC_BASE, UART_IRQ, USER_MAX_ADDR, VIRT_OFFSET};
use alexos::console::{self, Console, Output};
use alexos::drivers;
use alexos::drivers::plic::{self, Access, Service};
use alexos::drivers::uart::{self, RxRing, Uart};
use alexos::sbi::{self, ResetType, SbiRet};
use alexos::test_device;
use alexos::trap::{self, AddressNote, Cause, FaultKind, Response, TrapFrame};

#[test]
fn ring_keeps_the_oldest() {
    let mut r = RxRing::new();
    assert!(r.is_empty());
    for i in 0..255u32 {
        assert!(r.push(i as u8));
    }
    assert!(!r.push(99), "the newest byte is dropped");
    for i in 0..255u32 {
        assert_eq!(r.pop(), Some(i as u8));
    }
    assert_eq!(r.pop(), None);
    // Around the end of the buffer.
    for round in 0..10u8 {
        for i in 0..100u8 {
            assert!(r.push(i ^ round));
        }
        for i in 0..100u8 {
            assert_eq!(r.pop(), Some(i ^ round));
        }
    }
}

#[test]
fn uart_comes_up() {
    let mut u = Uart::new();
    let mut c = Console::new();
    assert!(!uart::is_initialised(&u));
    let writes = drivers::init_early(&mut u, &mut c);
    assert_eq!(writes, vec![(1, 0), (3, 0x80), (0, 3), (1, 0), (3, 3), (2, 7), (4, 3), (1, 1)]);
    assert!(uart::is_initialised(&u));
    assert!(c.uart_ready);
}

#[test]
fn uart_status_bits() {
    assert!(uart::can_put(0x20));
    assert!(!uart::can_put(0xdf));
    assert!(uart::can_get(0x01));
    assert!(!uart::can_get(0xfe));
}

#[test]
fn line_feeds_become_crlf() {
    assert_eq!(uart::write_bytes(b"a\nb\n\n"), b"a\r\nb\r\n\r\n");
    assert_eq!(uart::write_bytes(b""), b"");
}

#[test]
fn interrupts_fill_the_ring() {
    let mut u = Uart::new();
    assert!(!uart::handle_interrupt(&mut u, None));
    assert!(uart::handle_interrupt(&mut u, Some(b'k')));
    assert!(uart::has_input(&u));
    assert_eq!(uart::read_byte(&mut u), Some(b'k'));
    assert_eq!(uart::read_byte(&mut u), None);
    for _ in 0..255 {
        assert!(uart::handle_interrupt(&mut u, Some(1)));
    }
    assert!(!uart::handle_interrupt(&mut u, Some(2)));
}

#[test]
fn draining_drops_what_does_not_fit() {
    let mut u = Uart::new();
    assert_eq!(uart::drain(&mut u, &[]), 0);
    assert_eq!(uart::drain(&mut u, b"first"), 5);
    let fifo: Vec<u8> = (0..=255).collect();
    assert_eq!(uart::drain(&mut u, &fifo), 250);
    assert_eq!(uart::drain(&mut u, b"more"), 0);
    for b in b"first" {
        assert_eq!(uart::read_byte(&mut u), Some(*b));
    }
    for b in 0..250u32 {
        assert_eq!(uart::read_byte(&mut u), Some(b as u8));
    }
    assert_eq!(uart::read_byte(&mut u), None);
}

#[test]
fn plic_routes_the_uart() {
    assert_eq!(
        drivers::init_interrupts(0),
        vec![
            Access::Write(PLIC_BASE + 0x20_1000, 0),
            Access::Write(PLIC_BASE + 40, 1),
            Access::SetBits(PLIC_BASE + 0x2080, 1 << 10),
        ]
    );
    assert_eq!(plic::context(3), 7);
    assert_eq!(plic::claim_register(1), PLIC_BASE + 0x20_3004);
}

#[test]
fn every_claim_is_completed() {
    let done = Access::Write(PLIC_BASE + 0x20_1004, UART_IRQ);
    assert_eq!(plic::handle_external_interrupt(0, 0), Service::Finished);
    assert_eq!(plic::handle_external_interrupt(0, UART_IRQ), Service::Uart(done));
    assert_eq!(
        plic::handle_external_interrupt(0, 3),
        Service::Unhandled(3, Access::Write(PLIC_BASE + 0x20_1004, 3))
    );
    assert_eq!(plic::claim(0), None);
    assert_eq!(plic::claim(8), Some(8));
}

#[test]
fn console_switches_backends() {
    let mut c = Console::new();
    match c.write_str(b"x\n") {
        Output::Firmware(b) => assert_eq!(b, b"x\n"),
        Output::Uart(_) => panic!("not bound yet"),
    }
    console::use_uart_backend(&mut c);
    match c.write_str(b"x\n") {
        Output::Uart(b) => assert_eq!(b, b"x\r\n"),
        Output::Firmware(_) => panic!("bound"),
    }
}

#[test]
fn typed_characters_are_echoed() {
    assert_eq!(console::echo(b'\r'), b"\n");
    assert_eq!(console::echo(b'\n'), b"\n");
    assert_eq!(console::echo(0x7f), b"\x08 \x08");
    assert_eq!(console::echo(8), b"\x08 \x08");
    assert_eq!(console::echo(b'q'), b"q");
    assert_eq!(console::echo(0xe9), "\u{e9}".as_bytes());
}

#[test]
fn firmware_calls() {
    let c = sbi::set_timer(77);
    assert_eq!((c.eid, c.fid, c.arg0), (0x5449_4D45, 0, 77));
    let c = sbi::send_ipi(5, 1);
    assert_eq!((c.eid, c.arg0, c.arg1), (0x0073_5049, 5, 1));
    let c = sbi::remote_sfence_vma(5, 1);
    assert_eq!((c.eid, c.fid, c.arg0, c.arg1), (0x5246_4E43, 1, 5, 1));
    let c = sbi::hart_start(2, 0x8020_0000, 9);
    assert_eq!((c.eid, c.fid, c.arg0, c.arg1, c.arg2), (0x0048_534D, 0, 2, 0x8020_0000, 9));
    let c = sbi::hart_status(2);
    assert_eq!((c.eid, c.fid, c.arg0), (0x0048_534D, 2, 2));
    let (srst, legacy) = sbi::shutdown(ResetType::WarmReboot);
    assert_eq!((srst.eid, srst.arg0, legacy.eid), (0x5352_5354, 2, 8));
    assert_eq!(sbi::shutdown(ResetType::Shutdown).0.arg0, 0);
    assert_eq!(sbi::shutdown(ResetType::ColdReboot).0.arg0, 1);
}

#[test]
fn firmware_console() {
    assert!(SbiRet { error: 0, value: 3 }.is_ok());
    assert!(!SbiRet { error: -2, value: 0 }.is_ok());
    assert_eq!(sbi::getchar_call().eid, 2);
    assert_eq!(sbi::console_getchar(SbiRet { error: -1, value: 0 }), None);
    assert_eq!(sbi::console_getchar(SbiRet { error: 65, value: 0 }), Some(65));
    assert_eq!(sbi::write_call(3, 0x8000_0000).arg1, 0x8000_0000);
    assert!(sbi::console_write(b"abc", SbiRet { error: 0, value: 3 }).is_empty());
    let slow = sbi::console_write(b"abc", SbiRet { error: -2, value: 0 });
    assert_eq!(slow.len(), 3);
    assert_eq!((slow[1].eid, slow[1].arg0), (1, 98));
    assert_eq!(sbi::console_putchar(7).arg0, 7);
}

#[test]
fn finisher_values() {
    assert_eq!(test_device::exit_success(), 0x5555);
    assert_eq!(test_device::exit_failure(), 0x1_3333);
}

#[test]
fn causes_decode() {
    let intr = 1u64 << 63;
    assert_eq!(Cause::decode(intr | 1), Cause::SoftwareInterrupt);
    assert_eq!(Cause::decode(intr | 5), Cause::TimerInterrupt);
    assert_eq!(Cause::decode(intr | 9), Cause::ExternalInterrupt);
    assert_eq!(Cause::decode(8), Cause::UserEcall);
    assert_eq!(Cause::decode(2), Cause::IllegalInstruction);
    assert_eq!(Cause::decode(3), Cause::Breakpoint);
    assert_eq!(Cause::decode(5), Cause::AccessFault(FaultKind::Load));
    assert_eq!(Cause::decode(7), Cause::AccessFault(FaultKind::Store));
    assert_eq!(Cause::decode(12), Cause::PageFault(FaultKind::Fetch));
    assert_eq!(Cause::decode(13), Cause::PageFault(FaultKind::Load));
    assert_eq!(Cause::decode(15), Cause::PageFault(FaultKind::Store));
    assert_eq!(Cause::decode(intr | 2), Cause::Unknown(intr | 2));
    assert_eq!(Cause::decode(99), Cause::Unknown(99));
}

#[test]
fn kernel_traps_are_answered() {
    let mut h = Hart { id: 0, sstatus: 0, sie: 0, sip: 0x222, satp: 0 };
    assert_eq!(trap::kernel_trap_handler(&mut h, Cause::TimerInterrupt), Response::Tick);
    assert_eq!(trap::kernel_trap_handler(&mut h, Cause::ExternalInterrupt), Response::External);
    assert_eq!(h.sip, 0x222);
    assert_eq!(trap::kernel_trap_handler(&mut h, Cause::SoftwareInterrupt), Response::Acknowledged);
    assert_eq!(h.sip, 0x220);
    assert_eq!(trap::kernel_trap_handler(&mut h, Cause::Breakpoint), Response::Fatal);
    trap::enable_interrupts(&mut h);
    assert_eq!(h.sie, int_bits::STIE | int_bits::SEIE | int_bits::SSIE);
    assert!(arch::intr_enabled(&h));
    arch::intr_disable(&mut h);
    assert!(!arch::intr_enabled(&h));
    assert!(trap::was_user(0));
    assert!(!trap::was_user(sstatus_bits::SPP));
}

#[test]
fn fault_addresses_are_placed() {
    assert_eq!(trap::describe_address(8), AddressNote::Null);
    assert_eq!(trap::describe_address(0x1_0000), AddressNote::User);
    assert_eq!(trap::describe_address(USER_MAX_ADDR), AddressNote::NonCanonical);
    assert_eq!(trap::describe_address(VIRT_OFFSET), AddressNote::Kernel);
}

#[test]
fn trap_frames_carry_registers() {
    let mut f = TrapFrame::default();
    f.set_sp(16);
    f.set_arg(3, 5);
    f.set_return(9);
    assert_eq!((f.sp(), f.arg(3), f.arg(0), f.ra()), (16, 5, 9, 0));
    let u = TrapFrame::new_user(0x1000, 0x2000, 3, 4, sstatus_bits::SPP | sstatus_bits::SIE);
    assert_eq!((u.sepc, u.sp(), u.kernel_sp, u.kernel_satp), (0x1000, 0x2000, 3, 4));
    assert!(u.from_user());
    assert_eq!(u.sstatus, sstatus_bits::SPIE);
}

#[test]
fn backtraces_stop() {
    let base = VIRT_OFFSET + 0x8000_0000;
    let mut w = Walk::new(base);
    assert_eq!(w.next(), Some((base - 8, base - 16)));
    assert!(w.visit(0x1234, base + 64));
    assert_eq!(w.next(), Some((base + 56, base + 48)));
    assert!(w.visit(0x5678, base + 64), "a frame that does not move upward is the last");
    assert_eq!(w.next(), None);
    let mut w = Walk::new(base);
    assert!(!w.visit(0, base + 64));
    assert_eq!(w.next(), None);
    assert_eq!(Walk::new(base + 4).next(), None);
    assert_eq!(Walk::new(0x1000).next(), None);
    let mut w = Walk::new(base);
    let mut n = 0;
    while let Some(_) = w.next() {
        n += 1;
        assert!(w.visit(1, base + 8 * n));
    }
    assert_eq!(n, MAX_FRAMES);
    assert!(w.truncated());
}

#[test]
fn sections_without_interrupts() {
    let mut h = Hart { id: 2, sstatus: 0, sie: 0, sip: 0, satp: 0 };
    arch::intr_enable(&mut h);
    let r = arch::without_interrupts(&mut h, |inside| {
        assert!(!arch::intr_enabled(inside));
        7u64
    });
    assert_eq!(r, 7);
    assert!(arch::intr_enabled(&h));
    assert_eq!(arch::hart_id(&h), 2);
}
