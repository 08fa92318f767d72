//! Kernel console: which backend output goes to, and how a log line is dressed.
//!
//! Output has two backends. Before the UART driver binds, writes go through the
//! firmware, which costs a trap per byte but is available from the first
//! instruction of the kernel. Afterwards the real driver takes over. Panics always
//! use the firmware regardless, because the reason for the panic may well be the
//! driver.

use vstd::prelude::*;
use crate::drivers::uart;

verus! {

/// The console's state.
#[derive(Debug, Clone, Copy, PartialEq, Eq, Structural)]
pub struct Console {
    /// Set once the UART driver is ready to take writes.
    pub uart_ready: bool,
}

/// Output for one of the backends.
pub enum Output {
    /// Bytes to transmit through the UART.
    Uart(Vec<u8>),
    /// Bytes to hand to the firmware.
    Firmware(Vec<u8>),
}

/// Hand console output to the UART driver. Called once the driver is mapped and
/// its FIFOs are configured.
pub fn use_uart_backend(console: &mut Console)
    ensures
        final(console).uart_ready,
{
    console.uart_ready = true;
}

impl Console {
    /// The console at boot.
    pub fn new() -> (r: Console)
        ensures
            !r.uart_ready,
    {
        Console { uart_ready: false }
    }

    /// Where `s` goes, and as which bytes.
    pub fn write_str(&self, s: &[u8]) -> (r: Output)
        ensures
            self.uart_ready ==> (r matches Output::Uart(b) && b@ == uart::crlf(s@)),
            !self.uart_ready ==> (r matches Output::Firmware(b) && b@ == s@),
    {
        if self.uart_ready {
            Output::Uart(uart::write_bytes(s))
        } else {
            Output::Firmware(crate::task::copy_bytes(s))
        }
    }
}

/// The UTF-8 encoding of the character whose number is `byte`.
pub open spec fn utf8(byte: u8) -> Seq<u8> {
    if byte < 0x80 {
        seq![byte]
    } else {
        seq![(0xc0 + byte / 64) as u8, (0x80 + byte % 64) as u8]
    }
}

/// What to print for a character typed at the idle console.
pub open spec fn echoed(byte: u8) -> Seq<u8> {
    if byte == 13 || byte == 10 {
        seq![10u8]
    } else if byte == 0x7f || byte == 0x08 {
        seq![8u8, 32, 8]
    } else {
        utf8(byte)
    }
}

/// What to print for a character typed at the idle console: a line break for either
/// line terminator, an erased character for either backspace, and anything else as it
/// is.
pub fn echo(byte: u8) -> (r: Vec<u8>)
    ensures
        r@ == echoed(byte),
{
    let mut out: Vec<u8> = Vec::new();
    if byte == 13 || byte == 10 {
        out.push(10);
    } else if byte == 0x7f || byte == 0x08 {
        out.push(8);
        out.push(32);
        out.push(8);
    } else if byte < 0x80 {
        out.push(byte);
    } else {
        out.push(0xc0 + byte / 64);
        out.push(0x80 + byte % 64);
    }
    assert(out@ =~= echoed(byte));
    out
}

/// What the idle console shows of a key: a new line for either line terminator, a character
/// wiped out for either backspace, and for any other key the character with its number.
pub proof fn law_keys_are_echoed(byte: u8)
    ensures
        byte == 13 || byte == 10 ==> echoed(byte) == seq![10u8],
        byte == 8 || byte == 0x7f ==> echoed(byte) == seq![8u8, 32u8, 8u8],
        byte < 0x80 && byte != 13 && byte != 10 && byte != 8 && byte != 0x7f ==> echoed(byte) == seq![byte],
        byte >= 0x80 ==> echoed(byte).len() == 2 && echoed(byte)[0] / 4 == 0x30 && echoed(byte)[1] / 64 == 2 && (
        echoed(byte)[0] % 4) * 64 + echoed(byte)[1] % 64 == byte,
{
}

} // verus!
