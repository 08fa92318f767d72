//! NS16550A UART driver.
//!
//! Transmit is polled: the FIFO drains in well under a scheduling quantum.
//! Receive is interrupt driven through the PLIC, because the alternative is
//! spinning a whole hart waiting for a keystroke.

use vstd::prelude::*;
use crate::console::Console;
use crate::sync::WaitQueue;

verus! {

/// Receive buffer (read) / transmit holding (write), or divisor low if DLAB.
pub const RBR_THR_DLL: u64 = 0;

/// Interrupt enable, or divisor high if DLAB.
pub const IER_DLM: u64 = 1;

/// Interrupt identification (read) / FIFO control (write).
pub const IIR_FCR: u64 = 2;

/// Line control.
pub const LCR: u64 = 3;

/// Modem control.
pub const MCR: u64 = 4;

/// Line status.
pub const LSR: u64 = 5;

/// Line status: a byte is waiting in the receive buffer.
pub const DATA_READY: u8 = 1;

/// Line status: the transmit holding register will accept a byte.
pub const THR_EMPTY: u8 = 32;

/// Line control: 8 data bits.
pub const WORD_LEN_8: u8 = 3;

/// Line control: divisor latch access, which remaps registers 0 and 1 onto the
/// baud divisor.
pub const DLAB: u8 = 128;

/// Interrupt enable: raise an interrupt when a byte arrives.
pub const RX_AVAILABLE: u8 = 1;

/// FIFO control: enable both FIFOs, and flush them.
pub const FIFO_RESET: u8 = 7;

/// Modem control: DTR and RTS.
pub const MODEM_READY: u8 = 3;

/// Divisor for 38400 baud from a 1.8432 MHz clock.
pub const DIVISOR_38400: u8 = 3;

/// Slots of the receive ring. One stays empty, to tell a full ring from an empty
/// one.
pub const RX_SLOTS: usize = 256;

/// Fixed-capacity byte ring for received characters.
///
/// Overflow drops the newest byte rather than overwriting the oldest: a user
/// who types faster than the shell reads would otherwise see their line
/// silently rewritten from the middle.
pub struct RxRing {
    buf: [u8; 256],
    head: usize,
    tail: usize,
}

/// Index `i`, wrapped around once.
spec fn wrap(i: int) -> int {
    if i < RX_SLOTS {
        i
    } else {
        i - RX_SLOTS
    }
}

impl View for RxRing {
    type V = Seq<u8>;

    closed spec fn view(&self) -> Seq<u8> {
        Seq::new(self.count() as nat, |i: int| self.buf@[wrap(self.head + i)])
    }
}

impl RxRing {
    /// The indices are inside the buffer.
    pub closed spec fn wf(&self) -> bool {
        self.head < RX_SLOTS && self.tail < RX_SLOTS
    }

    spec fn count(&self) -> int {
        if self.head <= self.tail {
            self.tail - self.head
        } else {
            self.tail + RX_SLOTS - self.head
        }
    }

    /// A ring never holds more than it has room for.
    pub proof fn lemma_room(&self)
        requires
            self.wf(),
        ensures
            self@.len() <= RX_SLOTS - 1,
    {
    }

    /// An empty ring.
    pub fn new() -> (r: RxRing)
        ensures
            r.wf(),
            r@ == Seq::<u8>::empty(),
    {
        let r = RxRing { buf: [0u8; 256], head: 0, tail: 0 };
        assert(r@ =~= Seq::<u8>::empty());
        r
    }

    /// Add `byte`, or say that there is no room.
    pub fn push(&mut self, byte: u8) -> (r: bool)
        requires
            old(self).wf(),
        ensures
            final(self).wf(),
            r == (old(self)@.len() < RX_SLOTS - 1),
            final(self)@ == (if r {
                old(self)@.push(byte)
            } else {
                old(self)@
            }),
    {
        let next: usize = (self.tail + 1) % RX_SLOTS;
        if next == self.head {
            return false;
        }
        let ghost before = *self;
        self.buf[self.tail] = byte;
        self.tail = next;
        proof {
            let n = before@.len() as int;
            assert(wrap(before.head + n) == before.tail);
            assert(self@ =~= before@.push(byte)) by {
                assert forall|i: int| 0 <= i < n implies #[trigger] self@[i] == before@[i] by {
                    assert(wrap(before.head + i) != before.tail);
                }
            }
        }
        true
    }

    /// Take the oldest byte, if there is one.
    pub fn pop(&mut self) -> (r: Option<u8>)
        requires
            old(self).wf(),
        ensures
            final(self).wf(),
            match r {
                Some(b) => old(self)@.len() > 0 && b == old(self)@[0] && final(self)@ == old(self)@.skip(1),
                None => old(self)@.len() == 0 && final(self)@ == old(self)@,
            },
    {
        if self.head == self.tail {
            return None;
        }
        let ghost before = *self;
        let byte: u8 = self.buf[self.head];
        self.head = (self.head + 1) % RX_SLOTS;
        proof {
            assert(before@[0] == byte);
            assert(self@ =~= before@.skip(1)) by {
                assert forall|i: int| 0 <= i < self@.len() implies #[trigger] self@[i] == before@[i + 1] by {
                    assert(wrap(self.head + i) == wrap(before.head + (i + 1)));
                }
            }
        }
        Some(byte)
    }

    /// Is there nothing to read?
    pub fn is_empty(&self) -> (r: bool)
        requires
            self.wf(),
        ensures
            r == (self@.len() == 0),
    {
        self.head == self.tail
    }
}

/// The driver's state.
pub struct Uart {
    /// Has [`init`] run?
    pub ready: bool,
    /// Bytes received by the interrupt handler, waiting to be read.
    pub rx: RxRing,
    /// Tasks waiting for input.
    pub readers: WaitQueue,
}

impl Uart {
    /// The driver before it is brought up.
    pub fn new() -> (r: Uart)
        ensures
            !r.ready,
            r.rx.wf(),
            r.rx@ == Seq::<u8>::empty(),
            r.readers@ == Seq::<u64>::empty(),
    {
        Uart { ready: false, rx: RxRing::new(), readers: WaitQueue::new() }
    }
}

/// The register writes, as offsets and values, that configure 8N1 at 38400 baud
/// with FIFOs on and receive interrupts armed. Interrupts are masked while the
/// divisor latch is exposed.
pub open spec fn bring_up() -> Seq<(u64, u8)> {
    seq![
        (IER_DLM, 0u8),
        (LCR, DLAB),
        (RBR_THR_DLL, DIVISOR_38400),
        (IER_DLM, 0u8),
        (LCR, WORD_LEN_8),
        (IIR_FCR, FIFO_RESET),
        (MCR, MODEM_READY),
        (IER_DLM, RX_AVAILABLE),
    ]
}

/// Bring the UART up and route console output through it: the register writes to
/// make, in order.
pub fn init(uart: &mut Uart, console: &mut Console) -> (r: Vec<(u64, u8)>)
    ensures
        r@ == bring_up(),
        final(uart).ready,
        final(uart).rx == old(uart).rx,
        final(uart).readers == old(uart).readers,
        final(console).uart_ready,
{
    let mut w: Vec<(u64, u8)> = Vec::new();
    w.push((IER_DLM, 0));
    w.push((LCR, DLAB));
    w.push((RBR_THR_DLL, DIVISOR_38400));
    w.push((IER_DLM, 0));
    w.push((LCR, WORD_LEN_8));
    w.push((IIR_FCR, FIFO_RESET));
    w.push((MCR, MODEM_READY));
    w.push((IER_DLM, RX_AVAILABLE));
    uart.ready = true;
    crate::console::use_uart_backend(console);
    assert(w@ =~= bring_up());
    w
}

/// Is bit `k` of a status register set?
pub open spec fn status_bit(status: u8, k: u8) -> bool {
    (status >> k) % 2 == 1
}

proof fn lemma_status(status: u8)
    by (bit_vector)
    ensures
        (status & 1 != 0) == ((status >> 0u8) % 2 == 1),
        (status & 32 != 0) == ((status >> 5u8) % 2 == 1),
{
}

/// May a byte be written to the transmit register, where `status` was read from
/// the line status register? If not, it is to be read again.
pub fn can_put(status: u8) -> (r: bool)
    ensures
        r == status_bit(status, 5),
{
    proof {
        lemma_status(status);
    }
    status & THR_EMPTY != 0
}

/// Is there a byte to read from the receive register, where `status` was read
/// from the line status register?
pub fn can_get(status: u8) -> (r: bool)
    ensures
        r == status_bit(status, 0),
{
    proof {
        lemma_status(status);
    }
    status & DATA_READY != 0
}

/// `bytes` with a carriage return before each line feed.
pub open spec fn crlf(bytes: Seq<u8>) -> Seq<u8>
    decreases bytes.len(),
{
    if bytes.len() == 0 {
        bytes
    } else if bytes.last() == 10 {
        crlf(bytes.drop_last()).push(13).push(10)
    } else {
        crlf(bytes.drop_last()).push(bytes.last())
    }
}

/// What to transmit for a byte slice, translating LF to CRLF so terminals do not
/// stair-step.
pub fn write_bytes(bytes: &[u8]) -> (r: Vec<u8>)
    ensures
        r@ == crlf(bytes@),
{
    let mut out: Vec<u8> = Vec::new();
    let mut i: usize = 0;
    while i < bytes.len()
        invariant
            i <= bytes@.len(),
            out@ == crlf(bytes@.take(i as int)),
        decreases bytes@.len() - i,
    {
        let b: u8 = bytes[i];
        proof {
            assert(bytes@.take(i + 1).drop_last() =~= bytes@.take(i as int));
        }
        if b == 10 {
            out.push(13);
        }
        out.push(b);
        i = i + 1;
    }
    assert(bytes@.take(i as int) =~= bytes@);
    out
}

/// Pop one received byte, or `None` if nothing has arrived.
pub fn read_byte(uart: &mut Uart) -> (r: Option<u8>)
    requires
        old(uart).rx.wf(),
    ensures
        final(uart).rx.wf(),
        final(uart).ready == old(uart).ready,
        final(uart).readers == old(uart).readers,
        match r {
            Some(b) => old(uart).rx@.len() > 0 && b == old(uart).rx@[0] && final(uart).rx@ == old(uart).rx@.skip(1),
            None => old(uart).rx@.len() == 0 && final(uart).rx@ == old(uart).rx@,
        },
{
    uart.rx.pop()
}

/// Is at least one byte available to read?
pub fn has_input(uart: &Uart) -> (r: bool)
    requires
        uart.rx.wf(),
    ensures
        r == (uart.rx@.len() > 0),
{
    !uart.rx.is_empty()
}

/// The PLIC interrupt handler drains the receive FIFO into the ring, byte by byte:
/// `received` is what the receiver had, and the answer is whether it was queued. As
/// long as the receiver has a byte, the next one is to be read, queued or not.
///
/// It must not block, so a full ring drops the byte. Waking blocked readers is the
/// caller's job.
pub fn handle_interrupt(uart: &mut Uart, received: Option<u8>) -> (r: bool)
    requires
        old(uart).rx.wf(),
    ensures
        final(uart).rx.wf(),
        final(uart).ready == old(uart).ready,
        final(uart).readers == old(uart).readers,
        r == (received is Some && old(uart).rx@.len() < RX_SLOTS - 1),
        final(uart).rx@ == (if r {
            old(uart).rx@.push(received->0)
        } else {
            old(uart).rx@
        }),
{
    match received {
        Some(byte) => uart.rx.push(byte),
        None => false,
    }
}

/// Has `init` run? The console backend switch depends on it.
pub fn is_initialised(uart: &Uart) -> (r: bool)
    ensures
        r == uart.ready,
{
    uart.ready
}

/// The ring after `fifo` was drained into it: a byte that finds no room is dropped.
pub open spec fn drained(ring: Seq<u8>, fifo: Seq<u8>) -> Seq<u8>
    decreases fifo.len(),
{
    if fifo.len() == 0 {
        ring
    } else if ring.len() < RX_SLOTS - 1 {
        drained(ring.push(fifo[0]), fifo.skip(1))
    } else {
        drained(ring, fifo.skip(1))
    }
}

/// How many of `n` bytes a ring that holds `used` has room for.
pub open spec fn fits(used: int, n: int) -> int {
    if used + n <= RX_SLOTS - 1 {
        n
    } else {
        RX_SLOTS - 1 - used
    }
}

/// Queue all that the receiver had, `fifo`, in the order in which it was read, and
/// return how many bytes were queued: none if the interrupt was spurious.
pub fn drain(uart: &mut Uart, fifo: &[u8]) -> (queued: usize)
    requires
        old(uart).rx.wf(),
    ensures
        final(uart).rx.wf(),
        final(uart).ready == old(uart).ready,
        final(uart).readers == old(uart).readers,
        final(uart).rx@ == drained(old(uart).rx@, fifo@),
        queued == fits(old(uart).rx@.len() as int, fifo@.len() as int),
        final(uart).rx@ == old(uart).rx@ + fifo@.take(queued as int),
{
    let ghost r0 = uart.rx@;
    let mut queued: usize = 0;
    let mut i: usize = 0;
    proof {
        uart.rx.lemma_room();
        assert(fifo@.skip(0) =~= fifo@);
    }
    while i < fifo.len()
        invariant
            i <= fifo@.len(),
            queued <= i,
            uart.rx.wf(),
            uart.ready == old(uart).ready,
            uart.readers == old(uart).readers,
            r0.len() <= RX_SLOTS - 1,
            r0 == old(uart).rx@,
            uart.rx@.len() == r0.len() + queued,
            queued == fits(r0.len() as int, i as int),
            drained(r0, fifo@) == drained(uart.rx@, fifo@.skip(i as int)),
        decreases fifo@.len() - i,
    {
        proof {
            assert(fifo@.skip(i as int)[0] == fifo@[i as int]);
            assert(fifo@.skip(i as int).skip(1) =~= fifo@.skip(i + 1));
        }
        if handle_interrupt(uart, Some(fifo[i])) {
            queued = queued + 1;
        }
        i = i + 1;
    }
    proof {
        law_overflow_drops_the_newest(r0, fifo@);
    }
    queued
}

/// What was received first stays, in order, and what does not fit is dropped:
/// nothing that is buffered is ever overwritten.
pub proof fn law_overflow_drops_the_newest(ring: Seq<u8>, fifo: Seq<u8>)
    requires
        ring.len() <= RX_SLOTS - 1,
    ensures
        drained(ring, fifo) == ring + fifo.take(fits(ring.len() as int, fifo.len() as int)),
    decreases fifo.len(),
{
    let n = fits(ring.len() as int, fifo.len() as int);
    if fifo.len() == 0 {
        assert(ring + fifo.take(n) =~= ring);
    } else if ring.len() < RX_SLOTS - 1 {
        law_overflow_drops_the_newest(ring.push(fifo[0]), fifo.skip(1));
        assert(ring + fifo.take(n) =~= ring.push(fifo[0]) + fifo.skip(1).take(n - 1));
    } else {
        law_overflow_drops_the_newest(ring, fifo.skip(1));
        assert(ring + fifo.take(n) =~= ring + fifo.skip(1).take(0));
    }
}

/// Every line feed on the wire follows a carriage return.
pub proof fn law_terminals_do_not_stair_step(bytes: Seq<u8>, i: int)
    requires
        0 <= i < crlf(bytes).len(),
        crlf(bytes)[i] == 10,
    ensures
        i > 0,
        crlf(bytes)[i - 1] == 13,
    decreases bytes.len(),
{
    if bytes.len() > 0 {
        let rest = crlf(bytes.drop_last());
        if i < rest.len() {
            assert(rest[i] == crlf(bytes)[i]);
            law_terminals_do_not_stair_step(bytes.drop_last(), i);
            assert(crlf(bytes)[i - 1] == rest[i - 1]);
        } else if bytes.last() == 10 {
            assert(crlf(bytes) =~= rest.push(13).push(10));
        }
    }
}

/// Each byte is sent for itself, in order, and nothing but a line feed is sent as anything
/// else: as a carriage return and a line feed.
pub proof fn law_output_is_sent_byte_by_byte(a: Seq<u8>, b: Seq<u8>, c: u8)
    ensures
        crlf(Seq::empty()) == Seq::<u8>::empty(),
        crlf(a + b) == crlf(a) + crlf(b),
        c != 10 ==> crlf(seq![c]) == seq![c],
        crlf(seq![10u8]) == seq![13u8, 10],
    decreases b.len(),
{
    reveal_with_fuel(crlf, 2);
    assert(seq![c].drop_last() =~= Seq::empty());
    assert(seq![10u8].drop_last() =~= Seq::empty());
    assert(crlf(seq![10u8]) =~= seq![13u8, 10]);
    if c != 10 {
        assert(crlf(seq![c]) =~= seq![c]);
    }
    if b.len() == 0 {
        assert(a + b =~= a);
        assert(crlf(a) + crlf(b) =~= crlf(a));
    } else {
        law_output_is_sent_byte_by_byte(a, b.drop_last(), c);
        assert((a + b).drop_last() =~= a + b.drop_last());
        assert((a + b).last() == b.last());
        assert(crlf(a + b) =~= crlf(a) + crlf(b));
    }
}

/// The ring has room for 255 bytes.
pub proof fn law_ring_has_room_for_255(used: int, n: int)
    requires
        0 <= used <= 255,
        0 <= n,
    ensures
        fits(used, n) == (if used + n <= 255 {
            n
        } else {
            255 - used
        }),
{
}

/// The device is brought up with the divisor latch open while the rate is set and closed
/// after, for 8 data bits at 38400 baud (divisor 3), with both queues on and emptied, and
/// with interrupts for received bytes on only at the end.
pub proof fn law_uart_is_brought_up_in_order()
    ensures
        bring_up() == seq![
            (1u64, 0u8),
            (3u64, 0x80u8),
            (0u64, 3u8),
            (1u64, 0u8),
            (3u64, 3u8),
            (2u64, 7u8),
            (4u64, 3u8),
            (1u64, 1u8),
        ],
{
    assert(bring_up() =~= seq![
        (1u64, 0u8),
        (3u64, 0x80u8),
        (0u64, 3u8),
        (1u64, 0u8),
        (3u64, 3u8),
        (2u64, 7u8),
        (4u64, 3u8),
        (1u64, 1u8),
    ]);
}

/// Bit 0 of the line status is about receiving and bit 5 about sending.
pub proof fn law_status_bits(status: u8)
    ensures
        status_bit(status, 0) == (status % 2 == 1),
        status_bit(status, 5) == ((status / 32) % 2 == 1),
{
    assert((status >> 0u8) % 2 == status % 2 && (status >> 5u8) % 2 == (status / 32) % 2) by (bit_vector);
}

} // verus!
