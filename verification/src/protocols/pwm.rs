//! PWM: bit-banged on a GPIO, or routed to the LED PWM controller.
use vstd::prelude::*;
use crate::io_mux::has_pad;
use crate::ops::{emit, Op};
use crate::periph::{output_signal_ops, peripheral_output_signal};
use crate::protocols::CPU_FREQ_HZ;
use crate::{config_output_ops, set_high_ops, set_low_ops, Output, Pin};

verus! {

/// Bit-banged PWM on one pin; one call of [`PwmBitBang::tick`] produces one period.
pub struct PwmBitBang {
    pin: u8,
    period_cycles: u32,
    high_cycles: u32,
}

impl PwmBitBang {
    #[verifier::type_invariant]
    spec fn wf(self) -> bool {
        has_pad(self.pin)
    }

    pub closed spec fn pin(&self) -> u8 {
        self.pin
    }

    /// Spin iterations of one period.
    pub closed spec fn period_cycles(&self) -> u32 {
        self.period_cycles
    }

    /// Spin iterations of the high phase of a period.
    pub closed spec fn high_cycles(&self) -> u32 {
        self.high_cycles
    }

    /// One period: the pin configured as output, driven high for the high
    /// phase, then low for the rest of the period.
    pub open spec fn tick_ops(&self) -> Seq<Op> {
        config_output_ops(self.pin()) + set_high_ops(self.pin()) + seq![
            Op::Delay { cycles: self.high_cycles() },
        ] + set_low_ops(self.pin()) + seq![
            Op::Delay { cycles: (self.period_cycles() - self.high_cycles()) as u32 },
        ]
    }

    /// Spin iterations of one period at `freq` hertz.
    pub fn period_cycles_for(freq: u32) -> (cycles: u32)
        requires
            freq > 0,
        ensures
            cycles == CPU_FREQ_HZ / freq,
    {
        CPU_FREQ_HZ / freq
    }

    /// A PWM of frequency `freq` whose high phase lasts `high_cycles` spin
    /// iterations; takes the pin as an output idling low.
    pub fn with_high_cycles(pin: u8, freq: u32, high_cycles: u32, prog: &mut Vec<Op>) -> (p: Self)
        requires
            has_pad(pin),
            freq > 0,
        ensures
            p.pin() == pin,
            p.period_cycles() == CPU_FREQ_HZ / freq,
            p.high_cycles() == high_cycles,
            final(prog)@ == old(prog)@ + config_output_ops(pin) + set_low_ops(pin),
    {
        let period = CPU_FREQ_HZ / freq;
        let gpio = Pin::<Output>::new(pin, prog);
        gpio.set_low(prog);
        PwmBitBang { pin, period_cycles: period, high_cycles: high_cycles }
    }

    /// Produces one period. The high phase must not be longer than the period.
    pub fn tick(&self, prog: &mut Vec<Op>)
        requires
            self.high_cycles() <= self.period_cycles(),
        ensures
            final(prog)@ == old(prog)@ + self.tick_ops(),
    {
        proof {
            use_type_invariant(self);
        }
        let ghost p0 = prog@;
        let gpio = Pin::<Output>::new(self.pin, prog);
        gpio.set_high(prog);
        emit(prog, Op::Delay { cycles: self.high_cycles });
        gpio.set_low(prog);
        emit(prog, Op::Delay { cycles: self.period_cycles - self.high_cycles });
        assert(prog@ =~= p0 + self.tick_ops());
    }
}

/// PWM routed to the LED PWM controller through the GPIO matrix.
pub struct PwmPeriph;

impl PwmPeriph {
    /// Routes LEDC channel 0 (signal 32) to `pin`, push-pull with drive
    /// strength 0. The LEDC timer and channel registers are left to the caller.
    pub fn init(pin: u8, prog: &mut Vec<Op>)
        requires
            has_pad(pin),
        ensures
            final(prog)@ == old(prog)@ + output_signal_ops(pin, 32, false, 0),
    {
        let ledc_ch0_out_sig: u8 = 32;
        peripheral_output_signal(pin, ledc_ch0_out_sig, false, 0, prog);
    }
}

} // verus!
