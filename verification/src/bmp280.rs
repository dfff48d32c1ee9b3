//! BMP280 temperature readout: calibration parsing, raw-value assembly,
//! the integer temperature compensation of the BMP280 datasheet, and the
//! three-LED temperature indicator.
use vstd::prelude::*;
use crate::ops::Op;
use crate::{drive_ops, Output, Pin};

verus! {

/// Register holding the chip identifier (0x58 on a BMP280).
pub const REG_ID: u8 = 0xD0;
/// First temperature calibration register (dig_T1 low byte).
pub const REG_CALIB: u8 = 0x88;
/// Measurement control register.
pub const REG_CTRL_MEAS: u8 = 0xF4;
/// Configuration register.
pub const REG_CONFIG: u8 = 0xF5;
/// First raw temperature register (temp_msb).
pub const REG_TEMP: u8 = 0xFA;

/// Temperature trimming parameters of a BMP280.
pub struct Calibration {
    pub dig_t1: u16,
    pub dig_t2: i16,
    pub dig_t3: i16,
}

/// Unsigned little-endian 16-bit value of two bytes.
pub open spec fn le_unsigned(lo: u8, hi: u8) -> int {
    lo + 256 * hi
}

/// Two's-complement little-endian 16-bit value of two bytes.
pub open spec fn le_signed(lo: u8, hi: u8) -> int {
    if hi < 128 {
        lo + 256 * hi
    } else {
        lo + 256 * hi - 65536
    }
}

/// Reads dig_T1, dig_T2 and dig_T3 from the first six calibration bytes
/// (little endian; T1 unsigned, T2 and T3 signed).
pub fn parse_calibration(calib: &[u8]) -> (c: Calibration)
    requires
        calib@.len() >= 6,
    ensures
        c.dig_t1 == le_unsigned(calib@[0], calib@[1]),
        c.dig_t2 == le_signed(calib@[2], calib@[3]),
        c.dig_t3 == le_signed(calib@[4], calib@[5]),
{
    let dig_t1 = (calib[0] as u16) + (calib[1] as u16) * 256;
    let dig_t2 = signed_le(calib[2], calib[3]);
    let dig_t3 = signed_le(calib[4], calib[5]);
    Calibration { dig_t1, dig_t2, dig_t3 }
}

fn signed_le(lo: u8, hi: u8) -> (v: i16)
    ensures
        v == le_signed(lo, hi),
{
    let u: i32 = (lo as i32) + (hi as i32) * 256;
    if u >= 32768 {
        (u - 65536) as i16
    } else {
        u as i16
    }
}

/// The 20-bit raw temperature of the three bytes temp_msb, temp_lsb, temp_xlsb
/// (the upper four bits of the last one).
pub open spec fn raw_value(msb: u8, lsb: u8, xlsb: u8) -> int {
    msb * 4096 + lsb * 16 + xlsb / 16
}

/// Assembles the raw temperature from the first three bytes of `raw`.
pub fn raw_temperature(raw: &[u8]) -> (adc_t: i32)
    requires
        raw@.len() >= 3,
    ensures
        adc_t == raw_value(raw@[0], raw@[1], raw@[2]),
{
    let a = raw[0] as i32;
    let b = raw[1] as i32;
    let c = raw[2] as i32;
    assert(((a << 12u32) | (b << 4u32) | (c >> 4u32)) == a * 4096 + b * 16 + c / 16) by (bit_vector)
        requires
            0 <= a < 256,
            0 <= b < 256,
            0 <= c < 256,
    ;
    (a << 12u32) | (b << 4u32) | (c >> 4u32)
}

/// Arithmetic right shifts by the amounts that the compensation uses round
/// down, as division by the matching power of two does.
proof fn lemma_shifts_i32(x: i32)
    ensures
        x >> 3u32 == x / 8,
        x >> 4u32 == x / 16,
        x >> 8u32 == x / 256,
        x >> 11u32 == x / 2048,
        x >> 12u32 == x / 4096,
        x >> 14u32 == x / 16384,
{
    assert({
        &&& x >> 3u32 == x / 8
        &&& x >> 4u32 == x / 16
        &&& x >> 8u32 == x / 256
        &&& x >> 11u32 == x / 2048
        &&& x >> 12u32 == x / 4096
        &&& x >> 14u32 == x / 16384
    }) by (bit_vector);
}

proof fn lemma_shifts_i64(x: i64)
    ensures
        x >> 3u32 == x / 8,
        x >> 4u32 == x / 16,
        x >> 11u32 == x / 2048,
        x >> 14u32 == x / 16384,
{
    assert({
        &&& x >> 3u32 == x / 8
        &&& x >> 4u32 == x / 16
        &&& x >> 11u32 == x / 2048
        &&& x >> 14u32 == x / 16384
    }) by (bit_vector);
}

/// First term of the compensation; divisions round down, as the arithmetic
/// shifts of the datasheet formula do.
pub open spec fn var1(adc: int, c: Calibration) -> int {
    ((adc / 8 - c.dig_t1 * 2) * c.dig_t2) / 2048
}

/// Second term of the compensation.
pub open spec fn var2(adc: int, c: Calibration) -> int {
    let d = adc / 16 - c.dig_t1;
    ((d * d) / 4096 * c.dig_t3) / 16384
}

/// The fine-resolution temperature t_fine.
pub open spec fn t_fine(adc: int, c: Calibration) -> int {
    var1(adc, c) + var2(adc, c)
}

/// Compensated temperature in hundredths of a degree Celsius.
pub open spec fn temperature(adc: int, c: Calibration) -> int {
    (t_fine(adc, c) * 5 + 128) / 256
}

pub open spec fn in_i32(x: int) -> bool {
    i32::MIN <= x <= i32::MAX
}

/// Every intermediate value of the compensation, computed in 32-bit signed
/// arithmetic, fits in 32 bits.
pub open spec fn compensation_fits(adc: int, c: Calibration) -> bool {
    let d = adc / 16 - c.dig_t1;
    &&& in_i32((adc / 8 - c.dig_t1 * 2) * c.dig_t2)
    &&& in_i32(d * d)
    &&& in_i32((d * d) / 4096 * c.dig_t3)
    &&& in_i32(t_fine(adc, c))
    &&& in_i32(t_fine(adc, c) * 5 + 128)
}

/// The first term moves with the raw value in the direction of dig_T2: it
/// never decreases as the raw value grows when dig_T2 is positive or zero,
/// and never increases when dig_T2 is negative or zero.
pub proof fn lemma_var1_monotonic(adc1: int, adc2: int, c: Calibration)
    requires
        adc1 <= adc2,
    ensures
        c.dig_t2 >= 0 ==> var1(adc1, c) <= var1(adc2, c),
        c.dig_t2 <= 0 ==> var1(adc1, c) >= var1(adc2, c),
{
    let k = c.dig_t1 * 2;
    let t2 = c.dig_t2 as int;
    vstd::arithmetic::div_mod::lemma_div_is_ordered(adc1, adc2, 8);
    let x1 = adc1 / 8 - k;
    let x2 = adc2 / 8 - k;
    if t2 >= 0 {
        vstd::arithmetic::mul::lemma_mul_inequality(x1, x2, t2);
        vstd::arithmetic::div_mod::lemma_div_is_ordered(x1 * t2, x2 * t2, 2048);
    }
    if t2 <= 0 {
        vstd::arithmetic::mul::lemma_mul_inequality(x1, x2, -t2);
        assert(x2 * t2 <= x1 * t2) by (nonlinear_arith)
            requires
                x1 * -t2 <= x2 * -t2,
        ;
        vstd::arithmetic::div_mod::lemma_div_is_ordered(x2 * t2, x1 * t2, 2048);
    }
}

/// Raising the raw value by 16384 (2048 steps of the eight-count resolution
/// of the first term) raises the first term by exactly dig_T2.
pub proof fn lemma_var1_step(adc: int, c: Calibration)
    ensures
        var1(adc + 16384, c) == var1(adc, c) + c.dig_t2,
{
    let k = c.dig_t1 * 2;
    let t2 = c.dig_t2 as int;
    assert((adc + 16384) / 8 == adc / 8 + 2048);
    let x = adc / 8 - k;
    assert((x + 2048) * t2 == x * t2 + 2048 * t2) by (nonlinear_arith);
    assert((x * t2 + 2048 * t2) / 2048 == (x * t2) / 2048 + t2);
}

/// With no quadratic term (dig_T3 zero) and dig_T2 positive or zero, the
/// compensated temperature never decreases as the raw value grows.
pub proof fn lemma_temperature_monotonic(adc1: int, adc2: int, c: Calibration)
    requires
        adc1 <= adc2,
        c.dig_t2 >= 0,
        c.dig_t3 == 0,
    ensures
        temperature(adc1, c) <= temperature(adc2, c),
{
    lemma_var1_monotonic(adc1, adc2, c);
    let d1 = adc1 / 16 - c.dig_t1;
    let d2 = adc2 / 16 - c.dig_t1;
    assert((d1 * d1) / 4096 * c.dig_t3 == 0);
    assert((d2 * d2) / 4096 * c.dig_t3 == 0);
    assert(var2(adc1, c) == 0 && var2(adc2, c) == 0);
    vstd::arithmetic::div_mod::lemma_div_is_ordered(
        t_fine(adc1, c) * 5 + 128,
        t_fine(adc2, c) * 5 + 128,
        256,
    );
}

/// The two bytes come back out of the unsigned value: the low byte is its
/// remainder by 256 and the high byte its quotient; the value is a 16-bit
/// one.
pub proof fn lemma_le_unsigned_bytes(lo: u8, hi: u8)
    ensures
        0 <= le_unsigned(lo, hi) < 65536,
        le_unsigned(lo, hi) % 256 == lo,
        le_unsigned(lo, hi) / 256 == hi,
{
}

/// The signed value is the two's-complement reading of the unsigned one:
/// equal to it below 32768, 65536 less from there on, and always within the
/// 16-bit signed range.
pub proof fn lemma_le_signed_twos_complement(lo: u8, hi: u8)
    ensures
        -32768 <= le_signed(lo, hi) < 32768,
        le_unsigned(lo, hi) < 32768 ==> le_signed(lo, hi) == le_unsigned(lo, hi),
        le_unsigned(lo, hi) >= 32768 ==> le_signed(lo, hi) == le_unsigned(lo, hi) - 65536,
{
}

/// The 20-bit raw value holds temp_msb in its top eight bits, temp_lsb in
/// the eight below, and the upper four bits of temp_xlsb at the bottom.
pub proof fn lemma_raw_value_fields(msb: u8, lsb: u8, xlsb: u8)
    ensures
        0 <= raw_value(msb, lsb, xlsb) < 0x10_0000,
        raw_value(msb, lsb, xlsb) / 4096 == msb,
        (raw_value(msb, lsb, xlsb) / 16) % 256 == lsb,
        raw_value(msb, lsb, xlsb) % 16 == xlsb / 16,
{
    let r = raw_value(msb, lsb, xlsb);
    let x: int = (xlsb / 16) as int;
    assert(0 <= x < 16);
    assert(r == (msb * 256 + lsb) * 16 + x);
    vstd::arithmetic::div_mod::lemma_fundamental_div_mod_converse(r, 16, msb * 256 + lsb, x as int);
    vstd::arithmetic::div_mod::lemma_fundamental_div_mod_converse(
        msb * 256 + lsb,
        256,
        msb as int,
        lsb as int,
    );
    vstd::arithmetic::div_mod::lemma_fundamental_div_mod_converse(r, 4096, msb as int, lsb * 16 + x);
}

/// The second term depends on the raw value only through its distance from
/// dig_T1 (in steps of sixteen counts): raw values at the same distance on
/// either side give the same term, which vanishes at dig_T1 itself and has
/// the sign of dig_T3.
pub proof fn lemma_var2_shape(adc1: int, adc2: int, c: Calibration)
    ensures
        adc1 / 16 - c.dig_t1 == c.dig_t1 - adc2 / 16 ==> var2(adc1, c) == var2(adc2, c),
        adc1 / 16 == c.dig_t1 ==> var2(adc1, c) == 0,
        c.dig_t3 >= 0 ==> var2(adc1, c) >= 0,
        c.dig_t3 <= 0 ==> var2(adc1, c) <= 0,
{
    let d1 = adc1 / 16 - c.dig_t1;
    let d2 = adc2 / 16 - c.dig_t1;
    let t3 = c.dig_t3 as int;
    if d1 == -d2 {
        assert(d1 * d1 == d2 * d2) by (nonlinear_arith)
            requires
                d1 == -d2,
        ;
    }
    if d1 == 0 {
        assert(d1 * d1 == 0);
        assert((d1 * d1) / 4096 == 0);
        assert(0 * t3 == 0);
    }
    assert(d1 * d1 >= 0) by (nonlinear_arith);
    let q = (d1 * d1) / 4096;
    assert(q >= 0);
    assert(t3 >= 0 ==> q * t3 >= 0) by (nonlinear_arith)
        requires
            q >= 0,
    ;
    assert(t3 <= 0 ==> q * t3 <= 0) by (nonlinear_arith)
        requires
            q >= 0,
    ;
}

/// The compensated temperature is t_fine (in units of 1/5120 of a degree)
/// rounded to the nearest hundredth of a degree, halves rounded up.
pub proof fn lemma_temperature_rounds_t_fine(adc: int, c: Calibration)
    ensures
        t_fine(adc, c) * 5 - 128 < temperature(adc, c) * 256 <= t_fine(adc, c) * 5 + 128,
{
}

/// dig_T1 is the reading, in steps of sixteen counts, at zero degrees: the
/// raw values from `16 * dig_T1` up to `16 * dig_T1 + 7` give a t_fine of 0
/// and a temperature of exactly 0.00 °C, whatever dig_T2 and dig_T3.
pub proof fn lemma_temperature_zero_point(r: int, c: Calibration)
    requires
        0 <= r < 8,
    ensures
        var1(16 * c.dig_t1 + r, c) == 0,
        var2(16 * c.dig_t1 + r, c) == 0,
        t_fine(16 * c.dig_t1 + r, c) == 0,
        temperature(16 * c.dig_t1 + r, c) == 0,
{
    let adc = 16 * c.dig_t1 + r;
    assert(adc / 8 == 2 * c.dig_t1);
    assert(adc / 16 == c.dig_t1);
    assert(0 * (c.dig_t2 as int) == 0);
    lemma_var2_shape(adc, adc, c);
}

/// Compensated temperature, in hundredths of a degree Celsius, of the raw
/// value `adc_t`, by the 32-bit integer formula of the BMP280 datasheet.
pub fn compensate_temperature(adc_t: i32, cal: &Calibration) -> (temp: i32)
    requires
        compensation_fits(adc_t as int, *cal),
    ensures
        temp == temperature(adc_t as int, *cal),
{
    let t1 = cal.dig_t1 as i32;
    let t2 = cal.dig_t2 as i32;
    let t3 = cal.dig_t3 as i32;
    proof {
        lemma_shifts_i32(adc_t);
    }
    assert(t1 << 1u32 == t1 * 2) by (bit_vector)
        requires
            0 <= t1 < 65536,
    ;
    let d1: i32 = (adc_t >> 3u32) - (t1 << 1u32);
    let p1: i32 = d1 * t2;
    proof {
        lemma_shifts_i32(p1);
    }
    let var1: i32 = p1 >> 11u32;
    let d: i32 = (adc_t >> 4u32) - t1;
    let sq: i32 = d * d;
    proof {
        lemma_shifts_i32(sq);
    }
    let p2: i32 = (sq >> 12u32) * t3;
    proof {
        lemma_shifts_i32(p2);
    }
    let var2: i32 = p2 >> 14u32;
    let t_fine: i32 = var1 + var2;
    let s: i32 = t_fine * 5 + 128;
    proof {
        lemma_shifts_i32(s);
    }
    s >> 8u32
}

/// Reports whether [`compensate_temperature`] can compute the temperature
/// of `adc_t` without leaving 32-bit arithmetic.
pub fn compensation_in_range(adc_t: i32, cal: &Calibration) -> (ok: bool)
    ensures
        ok == compensation_fits(adc_t as int, *cal),
{
    let t1 = cal.dig_t1 as i64;
    let t2 = cal.dig_t2 as i64;
    let t3 = cal.dig_t3 as i64;
    let a = adc_t as i64;
    let min = i32::MIN as i64;
    let max = i32::MAX as i64;
    proof {
        lemma_shifts_i64(a);
    }
    let d1: i64 = (a >> 3u32) - t1 * 2;
    assert(-0x1000_0000 - 0x2_0000 <= d1 <= 0x1000_0000);
    assert(-0x8000 <= t2 <= 0x7FFF);
    assert(-0x4000_0000_0000 <= d1 * t2 <= 0x4000_0000_0000) by (nonlinear_arith)
        requires
            -0x1000_0000 - 0x2_0000 <= d1 <= 0x1000_0000,
            -0x8000 <= t2 <= 0x7FFF,
    ;
    let p1: i64 = d1 * t2;
    if p1 < min || p1 > max {
        return false;
    }
    let d: i64 = (a >> 4u32) - t1;
    assert(-0x1000_0000 <= d <= 0x1000_0000);
    assert(0 <= d * d <= 0x100_0000_0000_0000) by (nonlinear_arith)
        requires
            -0x1000_0000 <= d <= 0x1000_0000,
    ;
    let sq: i64 = d * d;
    if sq < min || sq > max {
        return false;
    }
    let q = sq / 4096;
    assert(-0x8000 <= t3 <= 0x7FFF);
    assert(-0x4_0000_0000_0000 <= q * t3 <= 0x4_0000_0000_0000) by (nonlinear_arith)
        requires
            0 <= q <= 0x80_0000,
            -0x8000 <= t3 <= 0x7FFF,
    ;
    let p2: i64 = q * t3;
    if p2 < min || p2 > max {
        return false;
    }
    proof {
        lemma_shifts_i64(p1);
        lemma_shifts_i64(p2);
    }
    let t_fine: i64 = (p1 >> 11u32) + (p2 >> 14u32);
    if t_fine < min || t_fine > max {
        return false;
    }
    let s: i64 = t_fine * 5 + 128;
    s >= min && s <= max
}

/// The LED that the indicator lights.
#[derive(Clone, Copy, PartialEq, Eq, Debug)]
pub enum Indicator {
    /// At most 27.00 °C: blue.
    Cold,
    /// Between: green.
    Normal,
    /// At least 32.00 °C: red.
    Hot,
}

pub open spec fn indicator_for(temp: int) -> Indicator {
    if temp <= 2700 {
        Indicator::Cold
    } else if temp >= 3200 {
        Indicator::Hot
    } else {
        Indicator::Normal
    }
}

/// The indicator state for a temperature in hundredths of a degree Celsius.
pub fn indicator(temp: i32) -> (ind: Indicator)
    ensures
        ind == indicator_for(temp as int),
{
    if temp <= 2700 {
        Indicator::Cold
    } else if temp >= 3200 {
        Indicator::Hot
    } else {
        Indicator::Normal
    }
}

/// The levels of the blue, green and red LEDs for an indicator state: only
/// the LED of the state is lit.
pub open spec fn indicator_ops(ind: Indicator, blue: u8, green: u8, red: u8) -> Seq<Op> {
    match ind {
        Indicator::Cold => drive_ops(blue, true) + drive_ops(green, false) + drive_ops(red, false),
        Indicator::Hot => drive_ops(blue, false) + drive_ops(green, false) + drive_ops(red, true),
        Indicator::Normal => drive_ops(blue, false) + drive_ops(green, true) + drive_ops(red, false),
    }
}

/// Lights the LED of `ind` and turns the other two off.
pub fn show_indicator(ind: Indicator, blue: &Pin<Output>, green: &Pin<Output>, red: &Pin<Output>, prog: &mut Vec<Op>)
    ensures
        final(prog)@ == old(prog)@ + indicator_ops(ind, blue.number(), green.number(), red.number()),
{
    let ghost p0 = prog@;
    match ind {
        Indicator::Cold => {
            blue.set_high(prog);
            green.set_low(prog);
            red.set_low(prog);
        },
        Indicator::Hot => {
            blue.set_low(prog);
            green.set_low(prog);
            red.set_high(prog);
        },
        Indicator::Normal => {
            blue.set_low(prog);
            green.set_high(prog);
            red.set_low(prog);
        },
    }
    assert(prog@ =~= p0 + indicator_ops(ind, blue.number(), green.number(), red.number()));
}

} // verus!
