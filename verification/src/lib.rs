//! Register-level GPIO, peripheral-routing and bit-banged protocol drivers for
//! the ESP32, whose hardware accesses are produced as verified register
//! programs (see [`ops`]).

pub mod bits;
pub mod bmp280;
pub mod bus;
pub mod gpio_mux;
pub mod io_mux;
pub mod model;
pub mod ops;
pub mod periph;
pub mod protocols;

use core::marker::PhantomData;
use vstd::prelude::*;
use crate::gpio_mux::{
    bank_bit, enable_clear_reg, enable_set_reg, in_reg, out_clear_reg, out_set_reg, pin_bit,
    select_bank, GPIO_ENABLE1_W1TC, GPIO_ENABLE1_W1TS, GPIO_ENABLE_W1TC, GPIO_ENABLE_W1TS,
    GPIO_IN, GPIO_IN1, GPIO_OUT1_W1TC, GPIO_OUT1_W1TS, GPIO_OUT_W1TC, GPIO_OUT_W1TS,
};
use crate::io_mux::{
    has_pad, io_mux_reg, pad_addr, FUN_IE, FUN_WPD, FUN_WPU, MCU_SEL_GPIO, MCU_SEL_MASK,
};
use crate::ops::{emit, Op};

verus! {

/// Type-state marker of a pin configured as input.
pub struct Input;

/// Type-state marker of a pin configured as output.
pub struct Output;

/// Pull resistor of a pad.
#[derive(Clone, Copy, PartialEq, Eq, Debug)]
pub enum Pull {
    /// Neither pull-up nor pull-down.
    Floating,
    Up,
    Down,
}

/// The communication protocols that this crate drives.
pub enum Protocols {
    SPI,
    UART,
    I2C,
    PWM,
}

/// Pad-register bits that select `pull`.
pub open spec fn pull_bits(pull: Pull) -> u32 {
    match pull {
        Pull::Up => FUN_WPU,
        Pull::Down => FUN_WPD,
        Pull::Floating => 0,
    }
}

/// Program that makes `pin` a GPIO input: output driver off, pad routed to
/// the GPIO matrix with its input buffer on and no pull resistor.
pub open spec fn config_input_ops(pin: u8) -> Seq<Op> {
    seq![
        Op::Write { addr: enable_clear_reg(pin), value: bank_bit(pin) },
        Op::Modify {
            addr: pad_addr(pin),
            clear: MCU_SEL_MASK | FUN_WPU | FUN_WPD,
            set: MCU_SEL_GPIO | FUN_IE,
        },
    ]
}

/// Program that makes `pin` a GPIO output: output driver on, pad routed to
/// the GPIO matrix with its input buffer off and no pull resistor.
pub open spec fn config_output_ops(pin: u8) -> Seq<Op> {
    seq![
        Op::Write { addr: enable_set_reg(pin), value: bank_bit(pin) },
        Op::Modify {
            addr: pad_addr(pin),
            clear: MCU_SEL_MASK | FUN_IE | FUN_WPU | FUN_WPD,
            set: MCU_SEL_GPIO,
        },
    ]
}

/// Program that selects `pull` on the pad of `pin`.
pub open spec fn set_pull_ops(pin: u8, pull: Pull) -> Seq<Op> {
    seq![Op::Modify { addr: pad_addr(pin), clear: FUN_WPD | FUN_WPU, set: pull_bits(pull) }]
}

/// Program that drives `pin` high.
pub open spec fn set_high_ops(pin: u8) -> Seq<Op> {
    seq![Op::Write { addr: out_set_reg(pin), value: bank_bit(pin) }]
}

/// Program that drives `pin` low.
pub open spec fn set_low_ops(pin: u8) -> Seq<Op> {
    seq![Op::Write { addr: out_clear_reg(pin), value: bank_bit(pin) }]
}

/// Program that drives `pin` to `high`.
pub open spec fn drive_ops(pin: u8, high: bool) -> Seq<Op> {
    if high {
        set_high_ops(pin)
    } else {
        set_low_ops(pin)
    }
}

/// Program that samples the input level of `pin`.
pub open spec fn sample_ops(pin: u8) -> Seq<Op> {
    seq![Op::Sample { addr: in_reg(pin), mask: bank_bit(pin) }]
}

/// A GPIO pin with a pad register, typed by its configuration.
pub struct Pin<MODE> {
    pin: u8,
    _mode: PhantomData<MODE>,
}

impl<MODE> Pin<MODE> {
    #[verifier::type_invariant]
    spec fn wf(self) -> bool {
        has_pad(self.pin)
    }

    /// The pin's number.
    pub closed spec fn number(self) -> u8 {
        self.pin
    }

    /// The pin's number.
    pub fn pin(&self) -> (n: u8)
        ensures
            n == self.number(),
            has_pad(n),
    {
        proof {
            use_type_invariant(self);
        }
        self.pin
    }

    /// Selects `pull` on the pad: one read-modify-write of the pad register.
    pub fn set_pull(&self, pull: Pull, prog: &mut Vec<Op>)
        ensures
            final(prog)@ == old(prog)@ + set_pull_ops(self.number(), pull),
    {
        proof {
            use_type_invariant(self);
        }
        let io_pin = io_mux_reg(self.pin);
        let set = match pull {
            Pull::Up => FUN_WPU,
            Pull::Down => FUN_WPD,
            Pull::Floating => 0,
        };
        emit(prog, Op::Modify { addr: io_pin, clear: FUN_WPD | FUN_WPU, set });
        assert(final(prog)@ =~= old(prog)@ + set_pull_ops(self.number(), pull));
    }

    /// Samples the pin's input level (bit of the pin in its bank's input register).
    pub fn is_high(&self, prog: &mut Vec<Op>)
        ensures
            final(prog)@ == old(prog)@ + sample_ops(self.number()),
    {
        proof {
            use_type_invariant(self);
        }
        let addr = select_bank(self.pin, GPIO_IN, GPIO_IN1);
        let mask = pin_bit(self.pin);
        emit(prog, Op::Sample { addr, mask });
        assert(final(prog)@ =~= old(prog)@ + sample_ops(self.number()));
    }
}

impl Pin<Input> {
    /// Takes `pin` as an input and configures it so.
    pub fn new(pin: u8, prog: &mut Vec<Op>) -> (p: Self)
        requires
            has_pad(pin),
        ensures
            p.number() == pin,
            final(prog)@ == old(prog)@ + config_input_ops(pin),
    {
        let p = Pin { pin, _mode: PhantomData };
        p.config_input(prog);
        p
    }

    fn config_input(&self, prog: &mut Vec<Op>)
        ensures
            final(prog)@ == old(prog)@ + config_input_ops(self.number()),
    {
        proof {
            use_type_invariant(self);
        }
        let en = select_bank(self.pin, GPIO_ENABLE_W1TC, GPIO_ENABLE1_W1TC);
        let bit = pin_bit(self.pin);
        emit(prog, Op::Write { addr: en, value: bit });
        let io_pin = io_mux_reg(self.pin);
        emit(
            prog,
            Op::Modify {
                addr: io_pin,
                clear: MCU_SEL_MASK | FUN_WPU | FUN_WPD,
                set: MCU_SEL_GPIO | FUN_IE,
            },
        );
        assert(final(prog)@ =~= old(prog)@ + config_input_ops(self.number()));
    }

    /// Reconfigures the pin as an output.
    pub fn into_output(self, prog: &mut Vec<Op>) -> (out: Pin<Output>)
        ensures
            out.number() == self.number(),
            final(prog)@ == old(prog)@ + config_output_ops(self.number()),
    {
        proof {
            use_type_invariant(&self);
        }
        let out = Pin { pin: self.pin, _mode: PhantomData };
        out.config_output(prog);
        out
    }
}

impl Pin<Output> {
    /// Takes `pin` as an output and configures it so.
    pub fn new(pin: u8, prog: &mut Vec<Op>) -> (p: Self)
        requires
            has_pad(pin),
        ensures
            p.number() == pin,
            final(prog)@ == old(prog)@ + config_output_ops(pin),
    {
        let p = Pin { pin, _mode: PhantomData };
        p.config_output(prog);
        p
    }

    /// (Re)configures the pad of this pin as a GPIO output.
    pub(crate) fn config_output(&self, prog: &mut Vec<Op>)
        ensures
            final(prog)@ == old(prog)@ + config_output_ops(self.number()),
    {
        proof {
            use_type_invariant(self);
        }
        let en = select_bank(self.pin, GPIO_ENABLE_W1TS, GPIO_ENABLE1_W1TS);
        let bit = pin_bit(self.pin);
        emit(prog, Op::Write { addr: en, value: bit });
        let io_pin = io_mux_reg(self.pin);
        emit(
            prog,
            Op::Modify {
                addr: io_pin,
                clear: MCU_SEL_MASK | FUN_IE | FUN_WPU | FUN_WPD,
                set: MCU_SEL_GPIO,
            },
        );
        assert(final(prog)@ =~= old(prog)@ + config_output_ops(self.number()));
    }

    /// Drives the pin high through the write-1-to-set alias of its bank.
    pub fn set_high(&self, prog: &mut Vec<Op>)
        ensures
            final(prog)@ == old(prog)@ + set_high_ops(self.number()),
    {
        proof {
            use_type_invariant(self);
        }
        let addr = select_bank(self.pin, GPIO_OUT_W1TS, GPIO_OUT1_W1TS);
        let bit = pin_bit(self.pin);
        emit(prog, Op::Write { addr, value: bit });
        assert(final(prog)@ =~= old(prog)@ + set_high_ops(self.number()));
    }

    /// Drives the pin low through the write-1-to-clear alias of its bank.
    pub fn set_low(&self, prog: &mut Vec<Op>)
        ensures
            final(prog)@ == old(prog)@ + set_low_ops(self.number()),
    {
        proof {
            use_type_invariant(self);
        }
        let addr = select_bank(self.pin, GPIO_OUT_W1TC, GPIO_OUT1_W1TC);
        let bit = pin_bit(self.pin);
        emit(prog, Op::Write { addr, value: bit });
        assert(final(prog)@ =~= old(prog)@ + set_low_ops(self.number()));
    }

    /// Drives the pin high or low.
    pub(crate) fn drive(&self, high: bool, prog: &mut Vec<Op>)
        ensures
            final(prog)@ == old(prog)@ + drive_ops(self.number(), high),
    {
        if high {
            self.set_high(prog);
        } else {
            self.set_low(prog);
        }
    }

    /// Reconfigures the pin as an input.
    pub fn into_input(self, prog: &mut Vec<Op>) -> (inp: Pin<Input>)
        ensures
            inp.number() == self.number(),
            final(prog)@ == old(prog)@ + config_input_ops(self.number()),
    {
        proof {
            use_type_invariant(&self);
        }
        let inp = Pin { pin: self.pin, _mode: PhantomData };
        inp.config_input(prog);
        inp
    }
}

} // verus!
