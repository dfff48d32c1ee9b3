//! UART: bit-banged (8 data bits, least significant first, one stop bit, no
//! parity) and routed to UART0.
use vstd::prelude::*;
use crate::bits::{bit_is_set, byte_from_lsb_first, byte_lsb, lsb_first};
use crate::gpio_mux::{bank_bit, in_reg, pin_bit, select_bank, GPIO_IN, GPIO_IN1};
use crate::io_mux::has_pad;
use crate::ops::{emit, Op};
use crate::periph::{input_signal_ops, output_signal_ops, peripheral_input_signal, peripheral_output_signal};
use crate::protocols::CPU_FREQ_HZ;
use crate::{
    config_input_ops, config_output_ops, drive_ops, sample_ops, set_high_ops, set_pull_ops,
    Input, Output, Pin, Pull,
};

verus! {

/// Bit-banged UART.
pub struct UartBitBang {
    tx: Pin<Output>,
    rx: Pin<Input>,
    bit_delay_cycles: u32,
}

impl UartBitBang {
    pub closed spec fn tx_pin(&self) -> u8 {
        self.tx.number()
    }

    pub closed spec fn rx_pin(&self) -> u8 {
        self.rx.number()
    }

    /// Spin iterations of one bit time.
    pub closed spec fn delay_cycles(&self) -> u32 {
        self.bit_delay_cycles
    }

    pub open spec fn delay_ops(&self) -> Seq<Op> {
        seq![Op::Delay { cycles: self.delay_cycles() }]
    }

    /// The rest of a bit time after a half delay: `c - c / 2` iterations, so
    /// that the two halves make a whole bit time also when `c` is odd.
    pub open spec fn rest_delay_ops(&self) -> Seq<Op> {
        seq![Op::Delay { cycles: (self.delay_cycles() - self.delay_cycles() / 2) as u32 }]
    }

    pub open spec fn half_delay_ops(&self) -> Seq<Op> {
        seq![Op::Delay { cycles: (self.delay_cycles() / 2) as u32 }]
    }

    /// The first `n` data bits of `b` on TX, least significant first, one bit
    /// time each.
    pub open spec fn data_ops(&self, b: u8, n: nat) -> Seq<Op>
        decreases n,
    {
        if n == 0 {
            Seq::empty()
        } else {
            self.data_ops(b, (n - 1) as nat) + drive_ops(self.tx_pin(), lsb_first(b)[n - 1])
                + self.delay_ops()
        }
    }

    /// The frame of `b` on TX: start bit (low), eight data bits, stop bit (high).
    pub open spec fn write_byte_ops(&self, b: u8) -> Seq<Op> {
        drive_ops(self.tx_pin(), false) + self.delay_ops() + self.data_ops(b, 8) + drive_ops(
            self.tx_pin(),
            true,
        ) + self.delay_ops()
    }

    /// `n` bit times, each followed by a sample of RX.
    pub open spec fn receive_bits_ops(&self, n: nat) -> Seq<Op>
        decreases n,
    {
        if n == 0 {
            Seq::empty()
        } else {
            self.receive_bits_ops((n - 1) as nat) + self.delay_ops() + sample_ops(self.rx_pin())
        }
    }

    /// Reception of a frame: wait for the start bit (RX low), half a bit time,
    /// then eight data bits sampled one bit time apart, then the stop bit.
    pub open spec fn read_byte_ops(&self) -> Seq<Op> {
        seq![Op::WaitFor { addr: in_reg(self.rx_pin()), mask: bank_bit(self.rx_pin()), high: false }]
            + self.half_delay_ops() + self.receive_bits_ops(8) + self.delay_ops()
    }

    /// The first `n` data bits of a full-duplex frame: drive TX, wait half a
    /// bit time, sample RX in the middle of the bit, wait the other half.
    pub open spec fn exchange_bits_ops(&self, b: u8, n: nat) -> Seq<Op>
        decreases n,
    {
        if n == 0 {
            Seq::empty()
        } else {
            self.exchange_bits_ops(b, (n - 1) as nat) + drive_ops(self.tx_pin(), lsb_first(b)[n - 1])
                + self.half_delay_ops() + sample_ops(self.rx_pin()) + self.rest_delay_ops()
        }
    }

    /// A full-duplex frame: start bit, eight exchanged data bits, stop bit.
    pub open spec fn transfer_byte_ops(&self, b: u8) -> Seq<Op> {
        drive_ops(self.tx_pin(), false) + self.delay_ops() + self.exchange_bits_ops(b, 8)
            + drive_ops(self.tx_pin(), true) + self.delay_ops()
    }

    /// Takes the pins: TX as an output idling high, RX as an input with its
    /// pull-up on. A bit lasts `CPU_FREQ_HZ / baud_rate` spin iterations.
    pub fn new(tx_pin: u8, rx_pin: u8, baud_rate: u32, prog: &mut Vec<Op>) -> (s: Self)
        requires
            has_pad(tx_pin),
            has_pad(rx_pin),
            baud_rate > 0,
        ensures
            s.tx_pin() == tx_pin,
            s.rx_pin() == rx_pin,
            s.delay_cycles() == CPU_FREQ_HZ / baud_rate,
            final(prog)@ == old(prog)@ + config_output_ops(tx_pin) + set_high_ops(tx_pin)
                + config_input_ops(rx_pin) + set_pull_ops(rx_pin, Pull::Up),
    {
        let cycles = CPU_FREQ_HZ / baud_rate;
        let tx = Pin::<Output>::new(tx_pin, prog);
        tx.set_high(prog);
        let rx = Pin::<Input>::new(rx_pin, prog);
        rx.set_pull(Pull::Up, prog);
        UartBitBang { tx, rx, bit_delay_cycles: cycles }
    }

    fn bit_delay(&self, prog: &mut Vec<Op>)
        ensures
            final(prog)@ == old(prog)@ + self.delay_ops(),
    {
        emit(prog, Op::Delay { cycles: self.bit_delay_cycles });
        assert(final(prog)@ =~= old(prog)@ + self.delay_ops());
    }

    fn rest_bit_delay(&self, prog: &mut Vec<Op>)
        ensures
            final(prog)@ == old(prog)@ + self.rest_delay_ops(),
    {
        emit(prog, Op::Delay { cycles: self.bit_delay_cycles - self.bit_delay_cycles / 2 });
        assert(final(prog)@ =~= old(prog)@ + self.rest_delay_ops());
    }

    fn half_bit_delay(&self, prog: &mut Vec<Op>)
        ensures
            final(prog)@ == old(prog)@ + self.half_delay_ops(),
    {
        emit(prog, Op::Delay { cycles: self.bit_delay_cycles / 2 });
        assert(final(prog)@ =~= old(prog)@ + self.half_delay_ops());
    }

    /// Sends `byte` as one frame.
    pub fn write_byte(&self, byte: u8, prog: &mut Vec<Op>)
        ensures
            final(prog)@ == old(prog)@ + self.write_byte_ops(byte),
    {
        let ghost start = prog@;
        self.tx.set_low(prog);
        self.bit_delay(prog);
        let ghost head = prog@;
        for i in 0..8u8
            invariant
                prog@ == head + self.data_ops(byte, i as nat),
        {
            let ghost p0 = prog@;
            let high = bit_is_set(byte, i);
            self.tx.drive(high, prog);
            self.bit_delay(prog);
            assert(lsb_first(byte)[i as int] == high);
            assert(prog@ =~= head + self.data_ops(byte, (i + 1) as nat));
        }
        self.tx.set_high(prog);
        self.bit_delay(prog);
        assert(prog@ =~= start + self.write_byte_ops(byte));
    }

    /// Receives one frame; the program samples the eight data bits, which
    /// [`Self::received_byte`] turns into the byte.
    pub fn read_byte(&self, prog: &mut Vec<Op>)
        ensures
            final(prog)@ == old(prog)@ + self.read_byte_ops(),
    {
        let ghost start = prog@;
        let rx = self.rx.pin();
        emit(prog, Op::WaitFor { addr: select_bank(rx, GPIO_IN, GPIO_IN1), mask: pin_bit(rx), high: false });
        self.half_bit_delay(prog);
        let ghost head = prog@;
        for i in 0..8u32
            invariant
                prog@ == head + self.receive_bits_ops(i as nat),
        {
            self.bit_delay(prog);
            self.rx.is_high(prog);
            assert(prog@ =~= head + self.receive_bits_ops((i + 1) as nat));
        }
        self.bit_delay(prog);
        assert(prog@ =~= start + self.read_byte_ops());
    }

    /// The byte of a frame from its eight sampled data bits, least significant first.
    pub fn received_byte(samples: &[bool]) -> (byte: u8)
        requires
            samples@.len() >= 8,
        ensures
            byte == byte_lsb(samples@),
    {
        let b = byte_from_lsb_first(samples, 0);
        assert(samples@.subrange(0, 8) =~= samples@.take(8));
        b
    }

    /// Sends `tx_byte` while sampling RX in the middle of each data bit (a data
    /// bit lasts one bit time: half of it, the sample, then the rest); the
    /// eight samples, least significant bit first, make the byte received.
    pub fn transfer_byte(&self, tx_byte: u8, prog: &mut Vec<Op>)
        ensures
            final(prog)@ == old(prog)@ + self.transfer_byte_ops(tx_byte),
    {
        let ghost start = prog@;
        self.tx.set_low(prog);
        self.bit_delay(prog);
        let ghost head = prog@;
        for i in 0..8u8
            invariant
                prog@ == head + self.exchange_bits_ops(tx_byte, i as nat),
        {
            let high = bit_is_set(tx_byte, i);
            self.tx.drive(high, prog);
            self.half_bit_delay(prog);
            self.rx.is_high(prog);
            self.rest_bit_delay(prog);
            assert(lsb_first(tx_byte)[i as int] == high);
            assert(prog@ =~= head + self.exchange_bits_ops(tx_byte, (i + 1) as nat));
        }
        self.tx.set_high(prog);
        self.bit_delay(prog);
        assert(prog@ =~= start + self.transfer_byte_ops(tx_byte));
    }
}

/// Program of [`UartPeriph::init`].
pub open spec fn uart_periph_ops(tx_pin: u8, rx_pin: u8, pull: Pull) -> Seq<Op> {
    output_signal_ops(tx_pin, 14, false, 0) + input_signal_ops(rx_pin, 14, pull)
}

/// UART routed to UART0 through the GPIO matrix.
pub struct UartPeriph;

impl UartPeriph {
    /// Routes UART0 signal 14 to `tx_pin` (push-pull, drive strength 0) and
    /// from `rx_pin` (with `pull`).
    pub fn init(tx_pin: u8, rx_pin: u8, pull: Pull, prog: &mut Vec<Op>)
        requires
            has_pad(tx_pin),
            has_pad(rx_pin),
        ensures
            final(prog)@ == old(prog)@ + uart_periph_ops(tx_pin, rx_pin, pull),
    {
        let u0rxd_signal: u8 = 14;
        peripheral_output_signal(tx_pin, u0rxd_signal, false, 0, prog);
        peripheral_input_signal(rx_pin, u0rxd_signal, pull, prog);
        assert(final(prog)@ =~= old(prog)@ + uart_periph_ops(tx_pin, rx_pin, pull));
    }
}

} // verus!
