//! GPIO matrix register addresses of the ESP32 and the per-pin bit layout
//! of the banked GPIO registers (bank 0 holds pins 0..=31, bank 1 pins 32..=39).
use vstd::prelude::*;

verus! {

pub const GPIO_BASE: u32 = 0x3FF4_4000;

/// Output level of pins 0..=31 (target of the set/clear aliases below).
pub const GPIO_OUT: u32 = GPIO_BASE + 0x04;
/// Write-1-to-set alias of `GPIO_OUT`.
pub const GPIO_OUT_W1TS: u32 = GPIO_BASE + 0x08;
/// Write-1-to-clear alias of `GPIO_OUT`.
pub const GPIO_OUT_W1TC: u32 = GPIO_BASE + 0x0C;
/// Output level of pins 32..=39.
pub const GPIO_OUT1: u32 = GPIO_BASE + 0x10;
pub const GPIO_OUT1_W1TS: u32 = GPIO_BASE + 0x14;
pub const GPIO_OUT1_W1TC: u32 = GPIO_BASE + 0x18;
/// Output-driver enable of pins 0..=31.
pub const GPIO_ENABLE: u32 = GPIO_BASE + 0x20;
pub const GPIO_ENABLE_W1TS: u32 = GPIO_BASE + 0x24;
pub const GPIO_ENABLE_W1TC: u32 = GPIO_BASE + 0x28;
/// Output-driver enable of pins 32..=39.
pub const GPIO_ENABLE1: u32 = GPIO_BASE + 0x2C;
pub const GPIO_ENABLE1_W1TS: u32 = GPIO_BASE + 0x30;
pub const GPIO_ENABLE1_W1TC: u32 = GPIO_BASE + 0x34;
/// Input level of pins 0..=31.
pub const GPIO_IN: u32 = GPIO_BASE + 0x3C;
/// Input level of pins 32..=39.
pub const GPIO_IN1: u32 = GPIO_BASE + 0x40;

/// The bit that stands for `pin` in the register of its bank.
pub open spec fn bank_bit(pin: u8) -> u32 {
    if pin < 32 {
        1u32 << pin
    } else {
        1u32 << ((pin - 32) as u8)
    }
}

/// Register chosen by bank: `low` for pins 0..=31, `high` for the others.
pub open spec fn by_bank(pin: u8, low: u32, high: u32) -> u32 {
    if pin < 32 {
        low
    } else {
        high
    }
}

pub open spec fn out_set_reg(pin: u8) -> u32 {
    by_bank(pin, GPIO_OUT_W1TS, GPIO_OUT1_W1TS)
}

pub open spec fn out_clear_reg(pin: u8) -> u32 {
    by_bank(pin, GPIO_OUT_W1TC, GPIO_OUT1_W1TC)
}

pub open spec fn enable_set_reg(pin: u8) -> u32 {
    by_bank(pin, GPIO_ENABLE_W1TS, GPIO_ENABLE1_W1TS)
}

pub open spec fn enable_clear_reg(pin: u8) -> u32 {
    by_bank(pin, GPIO_ENABLE_W1TC, GPIO_ENABLE1_W1TC)
}

pub open spec fn in_reg(pin: u8) -> u32 {
    by_bank(pin, GPIO_IN, GPIO_IN1)
}

/// Bit of `pin` in its bank register; `pin` must lie below 64.
pub fn pin_bit(pin: u8) -> (m: u32)
    requires
        pin < 64,
    ensures
        m == bank_bit(pin),
{
    if pin < 32 {
        1u32 << pin
    } else {
        1u32 << (pin - 32)
    }
}

/// Picks the bank-0 register for pins 0..=31 and the bank-1 register otherwise.
pub fn select_bank(pin: u8, low: u32, high: u32) -> (r: u32)
    ensures
        r == by_bank(pin, low, high),
{
    if pin < 32 {
        low
    } else {
        high
    }
}

} // verus!
