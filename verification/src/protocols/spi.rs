//! SPI master: bit-banged (mode 0, most significant bit first) and routed to
//! the SPI peripheral.
use vstd::prelude::*;
use crate::bits::{bytes_from_msb_first, bytes_msb, msb_first};
use crate::io_mux::has_pad;
use crate::ops::{emit, Op};
use crate::periph::{input_signal_ops, output_signal_ops, peripheral_input_signal, peripheral_output_signal};
use crate::protocols::CPU_FREQ_HZ;
use crate::{
    config_input_ops, config_output_ops, drive_ops, sample_ops, set_high_ops, set_low_ops, Input,
    Output, Pin, Pull,
};

verus! {

/// Bit-banged SPI master.
pub struct SpiBitBang {
    mosi: Pin<Output>,
    miso: Pin<Input>,
    clk: Pin<Output>,
    cs: Pin<Output>,
    bit_delay_cycles: u32,
}

impl SpiBitBang {
    pub closed spec fn mosi_pin(&self) -> u8 {
        self.mosi.number()
    }

    pub closed spec fn miso_pin(&self) -> u8 {
        self.miso.number()
    }

    pub closed spec fn clk_pin(&self) -> u8 {
        self.clk.number()
    }

    pub closed spec fn cs_pin(&self) -> u8 {
        self.cs.number()
    }

    /// Spin iterations of half a clock period.
    pub closed spec fn delay_cycles(&self) -> u32 {
        self.bit_delay_cycles
    }

    pub open spec fn delay_ops(&self) -> Seq<Op> {
        seq![Op::Delay { cycles: self.delay_cycles() }]
    }

    /// One clock period: MOSI to `level`, wait, rising edge, wait, sample
    /// MISO, falling edge.
    pub open spec fn bit_ops(&self, level: bool) -> Seq<Op> {
        drive_ops(self.mosi_pin(), level) + self.delay_ops() + set_high_ops(self.clk_pin())
            + self.delay_ops() + sample_ops(self.miso_pin()) + set_low_ops(self.clk_pin())
    }

    /// The first `n` clock periods of byte `b`, most significant bit first.
    pub open spec fn byte_ops(&self, b: u8, n: nat) -> Seq<Op>
        decreases n,
    {
        if n == 0 {
            Seq::empty()
        } else {
            self.byte_ops(b, (n - 1) as nat) + self.bit_ops(msb_first(b)[n - 1])
        }
    }

    /// The clock periods of all bytes of `w`, in order.
    pub open spec fn bytes_ops(&self, w: Seq<u8>) -> Seq<Op>
        decreases w.len(),
    {
        if w.len() == 0 {
            Seq::empty()
        } else {
            self.bytes_ops(w.drop_last()) + self.byte_ops(w.last(), 8)
        }
    }

    /// A whole transfer of `w`: chip select low, the bytes, chip select high.
    pub open spec fn transfer_ops(&self, w: Seq<u8>) -> Seq<Op> {
        set_low_ops(self.cs_pin()) + self.delay_ops() + self.bytes_ops(w) + self.delay_ops()
            + set_high_ops(self.cs_pin()) + self.delay_ops()
    }

    /// Takes the four pins, configures them, and idles the bus (chip select
    /// high, MOSI and clock low). A clock period lasts `2 * delay_cycles()`
    /// spin iterations, for a bus clock of about `freq` hertz.
    pub fn new(mosi_pin: u8, miso_pin: u8, clk_pin: u8, cs_pin: u8, freq: u32, prog: &mut Vec<Op>) -> (s: Self)
        requires
            has_pad(mosi_pin),
            has_pad(miso_pin),
            has_pad(clk_pin),
            has_pad(cs_pin),
            freq > 0,
        ensures
            s.mosi_pin() == mosi_pin,
            s.miso_pin() == miso_pin,
            s.clk_pin() == clk_pin,
            s.cs_pin() == cs_pin,
            s.delay_cycles() == CPU_FREQ_HZ / freq / 2,
            final(prog)@ == old(prog)@ + config_output_ops(mosi_pin) + config_input_ops(miso_pin)
                + config_output_ops(clk_pin) + config_output_ops(cs_pin) + set_high_ops(cs_pin)
                + set_low_ops(mosi_pin) + set_low_ops(clk_pin),
    {
        let cycles = CPU_FREQ_HZ / freq / 2;
        let mosi = Pin::<Output>::new(mosi_pin, prog);
        let miso = Pin::<Input>::new(miso_pin, prog);
        let clk = Pin::<Output>::new(clk_pin, prog);
        let cs = Pin::<Output>::new(cs_pin, prog);
        cs.set_high(prog);
        mosi.set_low(prog);
        clk.set_low(prog);
        SpiBitBang { mosi, miso, clk, cs, bit_delay_cycles: cycles }
    }

    fn bit_delay(&self, prog: &mut Vec<Op>)
        ensures
            final(prog)@ == old(prog)@ + self.delay_ops(),
    {
        emit(prog, Op::Delay { cycles: self.bit_delay_cycles });
        assert(final(prog)@ =~= old(prog)@ + self.delay_ops());
    }

    /// Full-duplex transfer of `write`: for each byte, eight clock periods,
    /// most significant bit first; MISO is sampled once per period, so the
    /// program samples `8 * write.len()` levels, which [`Self::received`]
    /// turns into the bytes read.
    pub fn transfer_bytes(&self, write: &[u8], prog: &mut Vec<Op>)
        ensures
            final(prog)@ == old(prog)@ + self.transfer_ops(write@),
    {
        let ghost start = prog@;
        self.cs.set_low(prog);
        self.bit_delay(prog);
        let ghost head = prog@;
        let n = write.len();
        let mut j: usize = 0;
        while j < n
            invariant
                n == write@.len(),
                j <= n,
                prog@ == head + self.bytes_ops(write@.take(j as int)),
            decreases n - j,
        {
            let b = write[j];
            let mut tx: u8 = b;
            let ghost before = prog@;
            assert(b << 0u8 == b) by (bit_vector);
            for i in 0..8u8
                invariant
                    prog@ == before + self.byte_ops(b, i as nat),
                    tx == b << i,
            {
                let ghost p0 = prog@;
                let high = (tx & 0x80) != 0;
                assert(((b << i) & 0x80u8 != 0) == ((b >> ((7 - i) as u8)) & 1 == 1)) by (bit_vector)
                    requires
                        i < 8,
                ;
                assert((b << i) << 1u8 == b << ((i + 1) as u8)) by (bit_vector)
                    requires
                        i < 8,
                ;
                self.mosi.drive(high, prog);
                tx = tx << 1u8;
                self.bit_delay(prog);
                self.clk.set_high(prog);
                self.bit_delay(prog);
                self.miso.is_high(prog);
                self.clk.set_low(prog);
                assert(msb_first(b)[i as int] == high);
                assert(prog@ =~= p0 + self.bit_ops(high));
                assert(self.byte_ops(b, (i + 1) as nat) == self.byte_ops(b, i as nat) + self.bit_ops(
                    msb_first(b)[i as int],
                ));
                assert(prog@ =~= before + self.byte_ops(b, (i + 1) as nat));
            }
            assert(write@.take(j + 1).drop_last() =~= write@.take(j as int));
            assert(write@.take(j + 1).last() == b);
            assert(prog@ =~= head + self.bytes_ops(write@.take(j + 1)));
            j = j + 1;
        }
        assert(write@.take(n as int) =~= write@);
        self.bit_delay(prog);
        self.cs.set_high(prog);
        self.bit_delay(prog);
        assert(prog@ =~= start + self.transfer_ops(write@));
    }

    /// The bytes read during a transfer, from the levels that its program
    /// sampled, in order: byte `j` is assembled, most significant bit first,
    /// from samples `8 * j .. 8 * j + 8`.
    pub fn received(samples: &[bool]) -> (read: Vec<u8>)
        ensures
            read@ == bytes_msb(samples@),
    {
        bytes_from_msb_first(samples)
    }

    /// Writes `val` to register `reg` of the device: a two-byte transfer of
    /// the register address with its top bit cleared, then the value.
    pub fn write_reg(&self, reg: u8, val: u8, prog: &mut Vec<Op>)
        ensures
            final(prog)@ == old(prog)@ + self.transfer_ops(seq![reg & 0x7F, val]),
            final(prog)@ == old(prog)@ + self.transfer_ops(write_reg_bytes(reg, val)),
    {
        let mut tx: Vec<u8> = Vec::new();
        tx.push(reg & 0x7F);
        tx.push(val);
        assert(tx@ =~= seq![reg & 0x7F, val]);
        self.transfer_bytes(tx.as_slice(), prog);
    }

    /// Reads `len` consecutive registers from `start_reg` on: a transfer of
    /// the start address with its top bit set, followed by `len` zero bytes.
    /// At most 32 registers are read at once.
    pub fn read_regs(&self, start_reg: u8, len: usize, prog: &mut Vec<Op>)
        requires
            len <= 32,
        ensures
            final(prog)@ == old(prog)@ + self.transfer_ops(
                seq![start_reg | 0x80] + Seq::new(len as nat, |i: int| 0u8),
            ),
            final(prog)@ == old(prog)@ + self.transfer_ops(read_regs_bytes(start_reg, len as nat)),
    {
        let mut tx: Vec<u8> = Vec::new();
        tx.push(start_reg | 0x80);
        for i in 0..len
            invariant
                tx@ == seq![start_reg | 0x80] + Seq::new(i as nat, |k: int| 0u8),
        {
            tx.push(0u8);
            assert(tx@ =~= seq![start_reg | 0x80] + Seq::new((i + 1) as nat, |k: int| 0u8));
        }
        self.transfer_bytes(tx.as_slice(), prog);
    }

    /// The register values of a [`Self::read_regs`] transfer: the bytes read
    /// after the address byte.
    pub fn register_values(samples: &[bool]) -> (values: Vec<u8>)
        ensures
            bytes_msb(samples@).len() > 0 ==> values@ == bytes_msb(samples@).skip(1),
            bytes_msb(samples@).len() == 0 ==> values@.len() == 0,
    {
        let all = bytes_from_msb_first(samples);
        let mut values: Vec<u8> = Vec::new();
        let n = all.len();
        if n == 0 {
            return values;
        }
        for k in 1..n
            invariant
                n == all@.len(),
                1 <= k <= n,
                all@ == bytes_msb(samples@),
                values@ == all@.subrange(1, k as int),
        {
            values.push(all[k]);
            assert(values@ =~= all@.subrange(1, k + 1));
        }
        assert(values@ =~= bytes_msb(samples@).skip(1));
        values
    }
}

/// The bytes of a register write: the register address with its top (read)
/// bit cleared, then the value.
pub open spec fn write_reg_bytes(reg: u8, val: u8) -> Seq<u8> {
    seq![reg & 0x7F, val]
}

/// The bytes of a read of `len` registers: the start address with its top
/// (read) bit set, then `len` zero bytes clocked out while the values come in.
pub open spec fn read_regs_bytes(start_reg: u8, len: nat) -> Seq<u8> {
    seq![start_reg | 0x80] + Seq::new(len, |i: int| 0u8)
}

/// Program of [`SpiPeriph::init`].
pub open spec fn spi_periph_ops(mosi_pin: u8, miso_pin: u8, clk_pin: u8, cs_pin: u8, pull: Pull) -> Seq<Op> {
    output_signal_ops(mosi_pin, 1, false, 0) + output_signal_ops(clk_pin, 0, false, 0)
        + output_signal_ops(cs_pin, 5, false, 0) + input_signal_ops(miso_pin, 2, pull)
}

/// SPI routed to the SPI peripheral through the GPIO matrix.
pub struct SpiPeriph;

impl SpiPeriph {
    /// Routes the SPI peripheral's signals: SPIQ (signal 1) to `mosi_pin`,
    /// SPICLK (0) to `clk_pin` and SPICS0 (5) to `cs_pin`, all push-pull with
    /// drive strength 0, and `miso_pin` to SPID (2) with `pull`.
    pub fn init(mosi_pin: u8, miso_pin: u8, clk_pin: u8, cs_pin: u8, pull: Pull, prog: &mut Vec<Op>)
        requires
            has_pad(mosi_pin),
            has_pad(miso_pin),
            has_pad(clk_pin),
            has_pad(cs_pin),
        ensures
            final(prog)@ == old(prog)@ + spi_periph_ops(mosi_pin, miso_pin, clk_pin, cs_pin, pull),
    {
        let spiclk_sig: u8 = 0;
        let spiq_sig: u8 = 1;
        let spid_sig: u8 = 2;
        let spics0_sig: u8 = 5;
        peripheral_output_signal(mosi_pin, spiq_sig, false, 0, prog);
        peripheral_output_signal(clk_pin, spiclk_sig, false, 0, prog);
        peripheral_output_signal(cs_pin, spics0_sig, false, 0, prog);
        peripheral_input_signal(miso_pin, spid_sig, pull, prog);
        assert(final(prog)@ =~= old(prog)@ + spi_periph_ops(mosi_pin, miso_pin, clk_pin, cs_pin, pull));
    }
}

} // verus!
