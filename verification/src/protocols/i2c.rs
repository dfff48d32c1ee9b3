//! I2C: bit-banged master and slave (most significant bit first, ninth clock
//! for the acknowledge), and routing to an I2C peripheral.
use vstd::prelude::*;
use crate::bits::{bit_is_set, byte_from_msb_first, byte_msb, msb_first};
use crate::gpio_mux::{
    bank_bit, enable_set_reg, in_reg, pin_bit, select_bank, GPIO_ENABLE1_W1TS, GPIO_ENABLE_W1TS,
    GPIO_IN, GPIO_IN1,
};
use crate::io_mux::has_pad;
use crate::ops::{emit, Op};
use crate::periph::{input_signal_ops, output_signal_ops, peripheral_input_signal, peripheral_output_signal};
use crate::protocols::CPU_FREQ_HZ;
use crate::{
    config_input_ops, config_output_ops, drive_ops, sample_ops, set_high_ops, set_pull_ops,
    Input, Output, Pin, Pull,
};

verus! {

/// Role marker: bus master.
pub struct Master;

/// Role marker: bus slave.
pub struct Slave;

/// Bit-banged I2C master.
pub struct I2cMasterBitBang {
    sda_pin: u8,
    scl_pin: u8,
    sda: Pin<Output>,
    scl: Pin<Output>,
    bit_delay_cycles: u32,
}

impl I2cMasterBitBang {
    #[verifier::type_invariant]
    spec fn wf(self) -> bool {
        &&& self.sda_pin == self.sda.number()
        &&& self.scl_pin == self.scl.number()
        &&& has_pad(self.sda_pin)
        &&& has_pad(self.scl_pin)
    }

    pub closed spec fn sda_pin(&self) -> u8 {
        self.sda.number()
    }

    pub closed spec fn scl_pin(&self) -> u8 {
        self.scl.number()
    }

    pub closed spec fn delay_cycles(&self) -> u32 {
        self.bit_delay_cycles
    }

    pub open spec fn delay_ops(&self) -> Seq<Op> {
        seq![Op::Delay { cycles: self.delay_cycles() }]
    }

    /// START condition: SDA falls while SCL is high, then SCL falls.
    pub open spec fn start_ops(&self) -> Seq<Op> {
        drive_ops(self.sda_pin(), true) + self.delay_ops() + drive_ops(self.scl_pin(), true)
            + self.delay_ops() + drive_ops(self.sda_pin(), false) + self.delay_ops() + drive_ops(
            self.scl_pin(),
            false,
        ) + self.delay_ops()
    }

    /// STOP condition: SDA rises while SCL is high.
    pub open spec fn stop_ops(&self) -> Seq<Op> {
        drive_ops(self.sda_pin(), false) + self.delay_ops() + drive_ops(self.scl_pin(), true)
            + self.delay_ops() + drive_ops(self.sda_pin(), true) + self.delay_ops()
    }

    /// One clock pulse with SCL high for a delay and low for a delay.
    pub open spec fn pulse_ops(&self) -> Seq<Op> {
        drive_ops(self.scl_pin(), true) + self.delay_ops() + drive_ops(self.scl_pin(), false)
            + self.delay_ops()
    }

    /// The first `n` bits of `b` sent on SDA, most significant first.
    pub open spec fn send_bits_ops(&self, b: u8, n: nat) -> Seq<Op>
        decreases n,
    {
        if n == 0 {
            Seq::empty()
        } else {
            self.send_bits_ops(b, (n - 1) as nat) + drive_ops(self.sda_pin(), msb_first(b)[n - 1])
                + self.delay_ops() + self.pulse_ops()
        }
    }

    /// Sending `b`: eight bits, then SDA turned into an input with its
    /// pull-up, a ninth clock during which SDA is sampled, and, once SCL is
    /// low again, SDA turned back into an output.
    pub open spec fn write_byte_ops(&self, b: u8) -> Seq<Op> {
        self.send_bits_ops(b, 8) + config_input_ops(self.sda_pin()) + set_pull_ops(
            self.sda_pin(),
            Pull::Up,
        ) + self.delay_ops() + drive_ops(self.scl_pin(), true) + self.delay_ops() + sample_ops(
            self.sda_pin(),
        ) + drive_ops(self.scl_pin(), false) + config_output_ops(self.sda_pin())
            + self.delay_ops()
    }

    /// `n` clocks, SDA sampled while SCL is high.
    pub open spec fn receive_bits_ops(&self, n: nat) -> Seq<Op>
        decreases n,
    {
        if n == 0 {
            Seq::empty()
        } else {
            self.receive_bits_ops((n - 1) as nat) + drive_ops(self.scl_pin(), true)
                + self.delay_ops() + sample_ops(self.sda_pin()) + drive_ops(self.scl_pin(), false)
                + self.delay_ops()
        }
    }

    /// Receiving a byte: SDA turned into an input with its pull-up, eight
    /// sampled clocks, then SDA set low to acknowledge (or high not to),
    /// turned back into an output so that the level is driven, and a ninth
    /// clock.
    pub open spec fn read_byte_ops(&self, ack: bool) -> Seq<Op> {
        config_input_ops(self.sda_pin()) + set_pull_ops(self.sda_pin(), Pull::Up)
            + self.receive_bits_ops(8) + drive_ops(self.sda_pin(), !ack) + config_output_ops(
            self.sda_pin(),
        ) + self.delay_ops() + self.pulse_ops()
    }

    /// Takes SDA and SCL as outputs and lets both idle high.
    pub fn new(sda_pin: u8, scl_pin: u8, freq: u32, prog: &mut Vec<Op>) -> (s: Self)
        requires
            has_pad(sda_pin),
            has_pad(scl_pin),
            freq > 0,
        ensures
            s.sda_pin() == sda_pin,
            s.scl_pin() == scl_pin,
            s.delay_cycles() == CPU_FREQ_HZ / freq,
            final(prog)@ == old(prog)@ + config_output_ops(sda_pin) + config_output_ops(scl_pin)
                + set_high_ops(sda_pin) + set_high_ops(scl_pin),
    {
        let cycles = CPU_FREQ_HZ / freq;
        let sda = Pin::<Output>::new(sda_pin, prog);
        let scl = Pin::<Output>::new(scl_pin, prog);
        sda.set_high(prog);
        scl.set_high(prog);
        I2cMasterBitBang { sda_pin, scl_pin, sda, scl, bit_delay_cycles: cycles }
    }

    fn bit_delay(&self, prog: &mut Vec<Op>)
        ensures
            final(prog)@ == old(prog)@ + self.delay_ops(),
    {
        emit(prog, Op::Delay { cycles: self.bit_delay_cycles });
        assert(final(prog)@ =~= old(prog)@ + self.delay_ops());
    }

    /// Emits a START condition.
    pub fn start(&self, prog: &mut Vec<Op>)
        ensures
            final(prog)@ == old(prog)@ + self.start_ops(),
    {
        let ghost p0 = prog@;
        self.sda.set_high(prog);
        self.bit_delay(prog);
        self.scl.set_high(prog);
        self.bit_delay(prog);
        self.sda.set_low(prog);
        self.bit_delay(prog);
        self.scl.set_low(prog);
        self.bit_delay(prog);
        assert(prog@ =~= p0 + self.start_ops());
    }

    /// Emits a STOP condition.
    pub fn stop(&self, prog: &mut Vec<Op>)
        ensures
            final(prog)@ == old(prog)@ + self.stop_ops(),
    {
        let ghost p0 = prog@;
        self.sda.set_low(prog);
        self.bit_delay(prog);
        self.scl.set_high(prog);
        self.bit_delay(prog);
        self.sda.set_high(prog);
        self.bit_delay(prog);
        assert(prog@ =~= p0 + self.stop_ops());
    }

    /// Sends `byte` and samples the acknowledge bit; [`Self::acknowledged`]
    /// reads the answer from that sample.
    pub fn write_byte(&self, byte: u8, prog: &mut Vec<Op>)
        ensures
            final(prog)@ == old(prog)@ + self.write_byte_ops(byte),
    {
        proof {
            use_type_invariant(self);
        }
        let ghost p0 = prog@;
        for i in 0..8u8
            invariant
                prog@ == p0 + self.send_bits_ops(byte, i as nat),
        {
            let high = bit_is_set(byte, 7 - i);
            self.sda.drive(high, prog);
            self.bit_delay(prog);
            self.scl.set_high(prog);
            self.bit_delay(prog);
            self.scl.set_low(prog);
            self.bit_delay(prog);
            assert(msb_first(byte)[i as int] == high);
            assert(prog@ =~= p0 + self.send_bits_ops(byte, (i + 1) as nat));
        }
        let sda_in = Pin::<Input>::new(self.sda_pin, prog);
        sda_in.set_pull(Pull::Up, prog);
        self.bit_delay(prog);
        self.scl.set_high(prog);
        self.bit_delay(prog);
        sda_in.is_high(prog);
        self.scl.set_low(prog);
        self.sda.config_output(prog);
        self.bit_delay(prog);
        assert(prog@ =~= p0 + self.write_byte_ops(byte));
    }

    /// Whether the receiver acknowledged, from the level sampled during the
    /// ninth clock: it acknowledges by holding SDA low.
    pub fn acknowledged(samples: &[bool]) -> (ack: bool)
        requires
            samples@.len() >= 1,
        ensures
            ack == !samples@[0],
    {
        !samples[0]
    }

    /// Receives a byte and answers with an acknowledge (`ack`) or not;
    /// [`Self::received_byte`] assembles the byte from the eight samples.
    pub fn read_byte(&self, ack: bool, prog: &mut Vec<Op>)
        ensures
            final(prog)@ == old(prog)@ + self.read_byte_ops(ack),
    {
        proof {
            use_type_invariant(self);
        }
        let ghost p0 = prog@;
        let sda_in = Pin::<Input>::new(self.sda_pin, prog);
        sda_in.set_pull(Pull::Up, prog);
        let ghost head = prog@;
        for i in 0..8u8
            invariant
                prog@ == head + self.receive_bits_ops(i as nat),
                sda_in.number() == self.sda_pin(),
        {
            self.scl.set_high(prog);
            self.bit_delay(prog);
            sda_in.is_high(prog);
            self.scl.set_low(prog);
            self.bit_delay(prog);
            assert(prog@ =~= head + self.receive_bits_ops((i + 1) as nat));
        }
        if ack {
            self.sda.set_low(prog);
        } else {
            self.sda.set_high(prog);
        }
        self.sda.config_output(prog);
        self.bit_delay(prog);
        self.scl.set_high(prog);
        self.bit_delay(prog);
        self.scl.set_low(prog);
        self.bit_delay(prog);
        assert(prog@ =~= p0 + self.read_byte_ops(ack));
    }

    /// The byte received, most significant bit first, from its eight samples.
    pub fn received_byte(samples: &[bool]) -> (byte: u8)
        requires
            samples@.len() >= 8,
        ensures
            byte == byte_msb(samples@),
    {
        let b = byte_from_msb_first(samples, 0);
        assert(samples@.subrange(0, 8) =~= samples@.take(8));
        b
    }
}

/// Whether the first byte of a transfer, `recv`, addresses a slave at
/// `address` for writing: address in the upper seven bits, direction bit
/// (bit 0) clear.
pub open spec fn address_matches(recv: u8, address: u8) -> bool {
    recv & 1 == 0 && recv >> 1 == address
}

/// A slave acknowledges exactly one first byte: its address shifted into
/// the upper seven bits with the write direction, `2 * address`; a slave
/// whose address does not fit in seven bits is never addressed.
pub proof fn lemma_address_matches(recv: u8, address: u8)
    ensures
        address_matches(recv, address) <==> (address < 128 && recv == 2 * address),
{
    assert((recv & 1 == 0 && recv >> 1 == address) <==> (address < 128 && recv == 2 * address))
        by (bit_vector);
}

/// Bit-banged I2C slave.
pub struct I2cSlaveBitBang {
    address: u8,
    sda_pin: u8,
    scl_pin: u8,
    sda: Pin<Output>,
    scl: Pin<Input>,
    bit_delay_cycles: u32,
}

impl I2cSlaveBitBang {
    #[verifier::type_invariant]
    spec fn wf(self) -> bool {
        &&& self.sda_pin == self.sda.number()
        &&& self.scl_pin == self.scl.number()
        &&& has_pad(self.sda_pin)
        &&& has_pad(self.scl_pin)
    }

    pub closed spec fn address(&self) -> u8 {
        self.address
    }

    pub closed spec fn sda_pin(&self) -> u8 {
        self.sda.number()
    }

    pub closed spec fn scl_pin(&self) -> u8 {
        self.scl.number()
    }

    pub closed spec fn delay_cycles(&self) -> u32 {
        self.bit_delay_cycles
    }

    pub open spec fn delay_ops(&self) -> Seq<Op> {
        seq![Op::Delay { cycles: self.delay_cycles() }]
    }

    pub open spec fn wait_scl_ops(&self, high: bool) -> Seq<Op> {
        seq![Op::WaitFor { addr: in_reg(self.scl_pin()), mask: bank_bit(self.scl_pin()), high }]
    }

    /// `n` bits: wait for SCL high, wait a delay, sample SDA (through the pad
    /// configured as input), wait for SCL low.
    pub open spec fn receive_bits_ops(&self, n: nat) -> Seq<Op>
        decreases n,
    {
        if n == 0 {
            Seq::empty()
        } else {
            self.receive_bits_ops((n - 1) as nat) + self.wait_scl_ops(true) + self.delay_ops()
                + config_input_ops(self.sda_pin()) + sample_ops(self.sda_pin())
                + self.wait_scl_ops(false)
        }
    }

    /// Waiting for the bus to be addressed: SDA configured as input; a wait
    /// until SDA and SCL are both high (idle bus), then for SDA to fall (the
    /// START condition, SCL still high), then for SCL to fall; a delay; and
    /// the eight bits of the address byte.
    pub open spec fn await_address_ops(&self) -> Seq<Op> {
        config_input_ops(self.sda_pin()) + seq![
            Op::WaitForBoth {
                addr_a: in_reg(self.sda_pin()),
                mask_a: bank_bit(self.sda_pin()),
                addr_b: in_reg(self.scl_pin()),
                mask_b: bank_bit(self.scl_pin()),
            },
            Op::WaitFor { addr: in_reg(self.sda_pin()), mask: bank_bit(self.sda_pin()), high: false },
        ] + self.wait_scl_ops(false) + self.delay_ops() + self.receive_bits_ops(8)
    }

    /// Acknowledge: SDA set low and turned into an output (the sampling left
    /// it an input), a delay, one SCL high phase, then SDA set high.
    pub open spec fn acknowledge_ops(&self) -> Seq<Op> {
        drive_ops(self.sda_pin(), false) + config_output_ops(self.sda_pin()) + self.delay_ops()
            + self.wait_scl_ops(true) + self.delay_ops() + self.wait_scl_ops(false) + drive_ops(
            self.sda_pin(),
            true,
        )
    }

    /// Takes SDA as an output idling high (for acknowledging) and SCL as an input.
    pub fn new(address: u8, sda_pin: u8, scl_pin: u8, freq: u32, prog: &mut Vec<Op>) -> (s: Self)
        requires
            has_pad(sda_pin),
            has_pad(scl_pin),
            freq > 0,
        ensures
            s.address() == address,
            s.sda_pin() == sda_pin,
            s.scl_pin() == scl_pin,
            s.delay_cycles() == CPU_FREQ_HZ / freq,
            final(prog)@ == old(prog)@ + config_output_ops(sda_pin) + set_high_ops(sda_pin)
                + config_input_ops(scl_pin),
    {
        let cycle = CPU_FREQ_HZ / freq;
        let sda = Pin::<Output>::new(sda_pin, prog);
        sda.set_high(prog);
        let scl = Pin::<Input>::new(scl_pin, prog);
        I2cSlaveBitBang { address, sda_pin, scl_pin, sda, scl, bit_delay_cycles: cycle }
    }

    fn bit_delay(&self, prog: &mut Vec<Op>)
        ensures
            final(prog)@ == old(prog)@ + self.delay_ops(),
    {
        emit(prog, Op::Delay { cycles: self.bit_delay_cycles });
        assert(final(prog)@ =~= old(prog)@ + self.delay_ops());
    }

    fn wait_scl(&self, high: bool, prog: &mut Vec<Op>)
        ensures
            final(prog)@ == old(prog)@ + self.wait_scl_ops(high),
    {
        proof {
            use_type_invariant(self);
        }
        let scl = self.scl_pin;
        emit(prog, Op::WaitFor { addr: select_bank(scl, GPIO_IN, GPIO_IN1), mask: pin_bit(scl), high });
        assert(final(prog)@ =~= old(prog)@ + self.wait_scl_ops(high));
    }

    fn receive_bits(&self, prog: &mut Vec<Op>)
        ensures
            final(prog)@ == old(prog)@ + self.receive_bits_ops(8),
    {
        proof {
            use_type_invariant(self);
        }
        let ghost p0 = prog@;
        let sda_pin = self.sda_pin;
        for i in 0..8u8
            invariant
                prog@ == p0 + self.receive_bits_ops(i as nat),
                sda_pin == self.sda_pin(),
                has_pad(sda_pin),
        {
            self.wait_scl(true, prog);
            self.bit_delay(prog);
            let sda_in = Pin::<Input>::new(sda_pin, prog);
            sda_in.is_high(prog);
            self.wait_scl(false, prog);
            assert(prog@ =~= p0 + self.receive_bits_ops((i + 1) as nat));
        }
    }

    /// Waits for the bus to be addressed and samples the address byte;
    /// [`Self::check_address`] decides on it.
    pub fn await_address(&self, prog: &mut Vec<Op>)
        ensures
            final(prog)@ == old(prog)@ + self.await_address_ops(),
    {
        let ghost p0 = prog@;
        proof {
            use_type_invariant(self);
        }
        let sda_pin = self.sda_pin;
        let scl_pin = self.scl_pin;
        Pin::<Input>::new(sda_pin, prog);
        emit(
            prog,
            Op::WaitForBoth {
                addr_a: select_bank(sda_pin, GPIO_IN, GPIO_IN1),
                mask_a: pin_bit(sda_pin),
                addr_b: select_bank(scl_pin, GPIO_IN, GPIO_IN1),
                mask_b: pin_bit(scl_pin),
            },
        );
        emit(
            prog,
            Op::WaitFor { addr: select_bank(sda_pin, GPIO_IN, GPIO_IN1), mask: pin_bit(sda_pin), high: false },
        );
        self.wait_scl(false, prog);
        self.bit_delay(prog);
        self.receive_bits(prog);
        assert(prog@ =~= p0 + self.await_address_ops());
    }

    /// Decides on the address byte, assembled most significant bit first from
    /// the eight samples of [`Self::await_address`]: when it addresses this
    /// slave for writing, appends the acknowledge and answers `true`;
    /// otherwise appends nothing and answers `false`.
    pub fn check_address(&self, samples: &[bool], prog: &mut Vec<Op>) -> (matched: bool)
        requires
            samples@.len() >= 8,
        ensures
            matched == address_matches(byte_msb(samples@), self.address()),
            final(prog)@ == old(prog)@ + if matched {
                self.acknowledge_ops()
            } else {
                Seq::empty()
            },
    {
        let recv = byte_from_msb_first(samples, 0);
        assert(samples@.subrange(0, 8) =~= samples@.take(8));
        let addr = recv >> 1;
        let is_write = (recv & 1) == 0;
        if is_write && addr == self.address {
            let ghost p0 = prog@;
            self.sda.set_low(prog);
            self.sda.config_output(prog);
            self.bit_delay(prog);
            self.wait_scl(true, prog);
            self.bit_delay(prog);
            self.wait_scl(false, prog);
            self.sda.set_high(prog);
            assert(prog@ =~= p0 + self.acknowledge_ops());
            true
        } else {
            assert(prog@ =~= old(prog)@ + Seq::<Op>::empty());
            false
        }
    }

    /// Samples one data byte after the address was acknowledged;
    /// [`Self::data_byte`] assembles it.
    pub fn read_data(&self, prog: &mut Vec<Op>)
        ensures
            final(prog)@ == old(prog)@ + self.receive_bits_ops(8),
    {
        self.receive_bits(prog);
    }

    /// The data byte, most significant bit first, from its eight samples.
    pub fn data_byte(samples: &[bool]) -> (byte: u8)
        requires
            samples@.len() >= 8,
        ensures
            byte == byte_msb(samples@),
    {
        let b = byte_from_msb_first(samples, 0);
        assert(samples@.subrange(0, 8) =~= samples@.take(8));
        b
    }
}

/// Program of [`I2cPeriph::init`].
pub open spec fn i2c_periph_ops(sda_pin: u8, scl_pin: u8, per_sda_sig: u8, per_scl_sig: u8, pull: Pull) -> Seq<Op> {
    output_signal_ops(sda_pin, per_sda_sig, true, 0) + output_signal_ops(scl_pin, per_scl_sig, false, 0)
        + input_signal_ops(sda_pin, per_sda_sig, pull) + seq![
        Op::Write { addr: enable_set_reg(sda_pin), value: bank_bit(sda_pin) },
    ]
}

/// I2C routed to an I2C peripheral through the GPIO matrix.
pub struct I2cPeriph;

impl I2cPeriph {
    /// Routes `per_sda_sig` to `sda_pin` as an open-drain output and back in
    /// from it with `pull`, and `per_scl_sig` to `scl_pin` as a push-pull output.
    /// Routing the input turns SDA's output driver off, so it is turned back on
    /// last: the open-drain output stays driven.
    pub fn init(sda_pin: u8, scl_pin: u8, per_sda_sig: u8, per_scl_sig: u8, pull: Pull, prog: &mut Vec<Op>)
        requires
            has_pad(sda_pin),
            has_pad(scl_pin),
        ensures
            final(prog)@ == old(prog)@ + i2c_periph_ops(sda_pin, scl_pin, per_sda_sig, per_scl_sig, pull),
    {
        peripheral_output_signal(sda_pin, per_sda_sig, true, 0, prog);
        peripheral_output_signal(scl_pin, per_scl_sig, false, 0, prog);
        peripheral_input_signal(sda_pin, per_sda_sig, pull, prog);
        emit(prog, Op::Write { addr: select_bank(sda_pin, GPIO_ENABLE_W1TS, GPIO_ENABLE1_W1TS), value: pin_bit(sda_pin) });
        assert(final(prog)@ =~= old(prog)@ + i2c_periph_ops(
            sda_pin,
            scl_pin,
            per_sda_sig,
            per_scl_sig,
            pull,
        ));
    }
}

} // verus!
