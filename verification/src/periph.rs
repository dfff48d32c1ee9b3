//! Routing of peripheral signals through the GPIO matrix.
use vstd::prelude::*;
use crate::gpio_mux::{
    bank_bit, enable_clear_reg, enable_set_reg, pin_bit, select_bank, GPIO_BASE,
    GPIO_ENABLE1_W1TC, GPIO_ENABLE1_W1TS, GPIO_ENABLE_W1TC, GPIO_ENABLE_W1TS,
};
use crate::io_mux::{
    has_pad, io_mux_reg, lemma_pad_addr_facts, pad_addr, FUN_IE, FUN_WPD, FUN_WPU, MCU_SEL_GPIO,
    MCU_SEL_MASK,
};
use crate::ops::{emit, Op};
use crate::{pull_bits, Pull};

verus! {

pub const IN_SEL_REG_BASE: u32 = 0x3FF4_4130;
pub const OUT_SEL_REG_BASE: u32 = 0x3FF4_4530;
/// Pin-configuration registers (`GPIO_PINn_REG`) start here.
pub const PIN_REG_BASE: u32 = GPIO_BASE + 0x88;
/// Selects the GPIO matrix (rather than the IO_MUX) for a peripheral input.
pub const IN_SEL_MATRIX: u32 = 0x8000_0000;
/// Output-enable-select bit of an OUT_SEL register.
pub const OEN_SEL: u32 = 0x400;
/// Peripheral-signal field of an OUT_SEL register.
pub const OUT_SIGNAL_MASK: u32 = 0x1FF;
/// Open-drain (pad driver) bit of a pin-configuration register.
pub const PAD_DRIVER: u32 = 0x4;
/// Drive-strength field of a pad register, bits 10..=12.
pub const DRIVE_MASK: u32 = 0x1C00;

/// Input-select register of peripheral input signal `sig`.
pub open spec fn in_sel_reg(sig: u8) -> u32 {
    (IN_SEL_REG_BASE + 4 * sig) as u32
}

/// Output-select register of `pin`.
pub open spec fn out_sel_reg(pin: u8) -> u32 {
    (OUT_SEL_REG_BASE + 4 * pin) as u32
}

/// Pin-configuration register of `pin`.
pub open spec fn pin_reg(pin: u8) -> u32 {
    (PIN_REG_BASE + 4 * pin) as u32
}

/// Drive-strength field value of the pad register: the low three bits of the
/// requested strength, placed in bits 10..=12.
pub open spec fn drive_bits(drive_strength: u8) -> u32 {
    ((drive_strength as u32) & 7) << 10
}

/// Program that connects peripheral input signal `sig` to `pin`: the signal
/// reads the pin through the GPIO matrix, the pin's OUT_SEL register gets its
/// output-enable-select bit, the pin's output driver is turned off, and its
/// pad is routed to the GPIO matrix with the input buffer on and `pull`.
pub open spec fn input_signal_ops(pin: u8, sig: u8, pull: Pull) -> Seq<Op> {
    seq![
        Op::Write { addr: in_sel_reg(sig), value: IN_SEL_MATRIX | ((pin as u32) & 0x3F) },
        Op::Modify { addr: out_sel_reg(pin), clear: 0, set: OEN_SEL },
        Op::Write { addr: enable_clear_reg(pin), value: bank_bit(pin) },
        Op::Modify {
            addr: pad_addr(pin),
            clear: MCU_SEL_MASK | FUN_WPU | FUN_WPD,
            set: MCU_SEL_GPIO | FUN_IE | pull_bits(pull),
        },
    ]
}

/// Program that connects peripheral output signal `sig` to `pin`: the pin's
/// OUT_SEL register selects `sig` with its output-enable-select bit, the
/// output driver is turned on, the pad driver is set to open drain or push-pull,
/// and the pad is routed to the GPIO matrix with its drive-strength field
/// replaced by the requested strength and, for open drain, the pull-up on
/// (for push-pull, no pull resistor).
pub open spec fn output_signal_ops(pin: u8, sig: u8, open_drain: bool, drive_strength: u8) -> Seq<Op> {
    seq![
        Op::Modify {
            addr: out_sel_reg(pin),
            clear: OUT_SIGNAL_MASK,
            set: ((sig as u32) & OUT_SIGNAL_MASK) | OEN_SEL,
        },
        Op::Write { addr: enable_set_reg(pin), value: bank_bit(pin) },
        Op::Modify {
            addr: pin_reg(pin),
            clear: if open_drain { 0 } else { PAD_DRIVER },
            set: if open_drain { PAD_DRIVER } else { 0 },
        },
        Op::Modify {
            addr: pad_addr(pin),
            clear: MCU_SEL_MASK | DRIVE_MASK | FUN_WPU | FUN_WPD,
            set: MCU_SEL_GPIO | drive_bits(drive_strength) | if open_drain { FUN_WPU } else { 0 },
        },
    ]
}

/// Connects peripheral input signal `per_sig` to `pin`.
pub fn peripheral_input_signal(pin: u8, per_sig: u8, pull: Pull, prog: &mut Vec<Op>)
    requires
        has_pad(pin),
    ensures
        final(prog)@ == old(prog)@ + input_signal_ops(pin, per_sig, pull),
{
    proof {
        lemma_pad_addr_facts(pin);
    }
    let in_sel_reg = IN_SEL_REG_BASE + 4 * (per_sig as u32);
    emit(prog, Op::Write { addr: in_sel_reg, value: IN_SEL_MATRIX | ((pin as u32) & 0x3F) });
    let out_sel_reg = OUT_SEL_REG_BASE + 4 * (pin as u32);
    emit(prog, Op::Modify { addr: out_sel_reg, clear: 0, set: OEN_SEL });
    let en = select_bank(pin, GPIO_ENABLE_W1TC, GPIO_ENABLE1_W1TC);
    emit(prog, Op::Write { addr: en, value: pin_bit(pin) });
    let io_mux_reg = io_mux_reg(pin);
    let pull_set = match pull {
        Pull::Up => FUN_WPU,
        Pull::Down => FUN_WPD,
        Pull::Floating => 0,
    };
    emit(
        prog,
        Op::Modify {
            addr: io_mux_reg,
            clear: MCU_SEL_MASK | FUN_WPU | FUN_WPD,
            set: MCU_SEL_GPIO | FUN_IE | pull_set,
        },
    );
    assert(final(prog)@ =~= old(prog)@ + input_signal_ops(pin, per_sig, pull));
}

/// Connects peripheral output signal `per_sig` to `pin`.
pub fn peripheral_output_signal(
    pin: u8,
    per_sig: u8,
    open_drain: bool,
    drive_strenght: u8,
    prog: &mut Vec<Op>,
)
    requires
        has_pad(pin),
    ensures
        final(prog)@ == old(prog)@ + output_signal_ops(pin, per_sig, open_drain, drive_strenght),
{
    proof {
        lemma_pad_addr_facts(pin);
    }
    let out_sel_reg = OUT_SEL_REG_BASE + (pin as u32) * 4;
    emit(
        prog,
        Op::Modify {
            addr: out_sel_reg,
            clear: OUT_SIGNAL_MASK,
            set: ((per_sig as u32) & OUT_SIGNAL_MASK) | OEN_SEL,
        },
    );
    let en = select_bank(pin, GPIO_ENABLE_W1TS, GPIO_ENABLE1_W1TS);
    emit(prog, Op::Write { addr: en, value: pin_bit(pin) });
    let pin_reg = PIN_REG_BASE + (pin as u32) * 4;
    if open_drain {
        emit(prog, Op::Modify { addr: pin_reg, clear: 0, set: PAD_DRIVER });
    } else {
        emit(prog, Op::Modify { addr: pin_reg, clear: PAD_DRIVER, set: 0 });
    }
    let io_mux_reg = io_mux_reg(pin);
    let drive = ((drive_strenght as u32) & 0b111) << 10;
    let pull_set = if open_drain { FUN_WPU } else { 0 };
    emit(
        prog,
        Op::Modify {
            addr: io_mux_reg,
            clear: MCU_SEL_MASK | DRIVE_MASK | FUN_WPU | FUN_WPD,
            set: MCU_SEL_GPIO | drive | pull_set,
        },
    );
    assert(final(prog)@ =~= old(prog)@ + output_signal_ops(
        pin,
        per_sig,
        open_drain,
        drive_strenght,
    ));
}

} // verus!
