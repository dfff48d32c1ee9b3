//! What the programs of this crate do, stated over the register semantics of
//! [`crate::ops::run`]: the effect of pin configuration, pulls, levels and
//! signal routing on the register file, and what a receiver on the other end
//! of a bit-banged line reads.
use vstd::prelude::*;
use crate::bits::{
    byte_lsb, byte_msb, bytes_msb, lemma_bytes_round_trip, lemma_lsb_round_trip,
    lemma_msb_round_trip, levels_msb, lsb_first, msb_first,
};
use crate::gpio_mux::{
    bank_bit, by_bank, enable_set_reg, in_reg, GPIO_ENABLE, GPIO_ENABLE1, GPIO_ENABLE1_W1TC, GPIO_ENABLE1_W1TS,
    GPIO_ENABLE_W1TC, GPIO_ENABLE_W1TS, GPIO_OUT, GPIO_OUT1, GPIO_OUT1_W1TC, GPIO_OUT1_W1TS,
    GPIO_OUT_W1TC, GPIO_OUT_W1TS,
};
use crate::io_mux::{
    has_pad, lemma_pad_addr_facts, pad_addr, FUN_IE, FUN_WPD, FUN_WPU, MCU_SEL_GPIO, MCU_SEL_MASK,
};
use crate::ops::{apply_op, lemma_run_append, run, Op};
use crate::periph::{
    drive_bits, in_sel_reg, input_signal_ops, out_sel_reg, output_signal_ops, pin_reg,
};
use crate::bmp280::{indicator_for, indicator_ops, Indicator};
use crate::protocols::i2c::{i2c_periph_ops, I2cMasterBitBang};
use crate::protocols::pwm::PwmBitBang;
use crate::protocols::spi::{read_regs_bytes, spi_periph_ops, write_reg_bytes, SpiBitBang};
use crate::protocols::uart::{uart_periph_ops, UartBitBang};
use crate::{
    config_input_ops, config_output_ops, drive_ops, pull_bits, sample_ops, set_high_ops,
    set_low_ops, set_pull_ops, Pull,
};

verus! {

/// Output-level register of the bank of `pin`.
pub open spec fn out_reg(pin: u8) -> u32 {
    by_bank(pin, GPIO_OUT, GPIO_OUT1)
}

/// Output-enable register of the bank of `pin`.
pub open spec fn enable_reg(pin: u8) -> u32 {
    by_bank(pin, GPIO_ENABLE, GPIO_ENABLE1)
}

/// The level that `pin` is driven to.
pub open spec fn output_level(regs: Map<u32, u32>, pin: u8) -> bool {
    regs[out_reg(pin)] & bank_bit(pin) != 0
}

/// Whether the output driver of `pin` is on.
pub open spec fn output_enabled(regs: Map<u32, u32>, pin: u8) -> bool {
    regs[enable_reg(pin)] & bank_bit(pin) != 0
}

/// Content of the pad register of `pin`.
pub open spec fn pad(regs: Map<u32, u32>, pin: u8) -> u32 {
    regs[pad_addr(pin)]
}

/// Pad-register bits that the pin configurations set or clear: function
/// select, input enable, pull-up and pull-down.
pub open spec fn config_bits() -> u32 {
    0x387
}

/// Pad-register bits of the pull resistors.
pub open spec fn pull_mask() -> u32 {
    0x180
}

/// Position of `pin`'s bit in the register of its bank.
pub open spec fn bank_index(pin: u8) -> u32 {
    if pin < 32 {
        pin as u32
    } else {
        (pin - 32) as u32
    }
}

pub(crate) proof fn lemma_bank_bit(pin: u8)
    requires
        pin < 64,
    ensures
        bank_index(pin) < 32,
        bank_bit(pin) == 1u32 << bank_index(pin),
{
    let p: u8 = if pin < 32 { pin } else { (pin - 32) as u8 };
    assert(1u32 << p == 1u32 << (p as u32)) by (bit_vector)
        requires
            p < 32,
    ;
}

pub(crate) proof fn lemma_bit_ops(e: u32, a: u32, b: u32)
    requires
        a < 32,
        b < 32,
    ensures
        (e & !(1u32 << a)) & (1u32 << a) == 0,
        (e | (1u32 << a)) & (1u32 << a) != 0,
        a != b ==> (e & !(1u32 << a)) & (1u32 << b) == e & (1u32 << b),
        a != b ==> (e | (1u32 << a)) & (1u32 << b) == e & (1u32 << b),
        (e & !(1u32 << a)) | (1u32 << a) == e | (1u32 << a),
        (e | (1u32 << a)) & !(1u32 << a) == e & !(1u32 << a),
        (e & !(1u32 << a)) & !(1u32 << a) == e & !(1u32 << a),
        (e | (1u32 << a)) | (1u32 << a) == e | (1u32 << a),
        a != b ==> (1u32 << a) != (1u32 << b),
{
    assert({
        &&& (e & !(1u32 << a)) & (1u32 << a) == 0
        &&& (e | (1u32 << a)) & (1u32 << a) != 0
        &&& a != b ==> (e & !(1u32 << a)) & (1u32 << b) == e & (1u32 << b)
        &&& a != b ==> (e | (1u32 << a)) & (1u32 << b) == e & (1u32 << b)
        &&& (e & !(1u32 << a)) | (1u32 << a) == e | (1u32 << a)
        &&& (e | (1u32 << a)) & !(1u32 << a) == e & !(1u32 << a)
        &&& (e & !(1u32 << a)) & !(1u32 << a) == e & !(1u32 << a)
        &&& (e | (1u32 << a)) | (1u32 << a) == e | (1u32 << a)
        &&& a != b ==> (1u32 << a) != (1u32 << b)
    }) by (bit_vector)
        requires
            a < 32,
    ;
}

proof fn lemma_constants()
    ensures
        MCU_SEL_MASK | FUN_WPU | FUN_WPD == 0x187u32,
        MCU_SEL_MASK | FUN_IE | FUN_WPU | FUN_WPD == 0x387u32,
        MCU_SEL_GPIO | FUN_IE == 0x202u32,
        FUN_WPD | FUN_WPU == 0x180u32,
        pull_bits(Pull::Up) & 0x180u32 == pull_bits(Pull::Up),
        pull_bits(Pull::Down) & 0x180u32 == pull_bits(Pull::Down),
        pull_bits(Pull::Floating) == 0,
        0u32 & 0x180u32 == 0u32,
        MCU_SEL_MASK | 0x1C00u32 | FUN_WPU | FUN_WPD == 0x1D87u32,
{
    assert({
        &&& 0u32 & 0x180u32 == 0u32
        &&& 7u32 | 0x100u32 | 0x80u32 == 0x187u32
        &&& 7u32 | 0x200u32 | 0x100u32 | 0x80u32 == 0x387u32
        &&& 2u32 | 0x200u32 == 0x202u32
        &&& 0x80u32 | 0x100u32 == 0x180u32
        &&& 0x100u32 & 0x180u32 == 0x100u32
        &&& 0x80u32 & 0x180u32 == 0x80u32
        &&& 7u32 | 0x1C00u32 | 0x100u32 | 0x80u32 == 0x1D87u32
    }) by (bit_vector);
}

proof fn lemma_pull_bits(pull: Pull)
    ensures
        pull_bits(pull) & 0x180u32 == pull_bits(pull),
{
    lemma_constants();
    match pull {
        Pull::Up => {},
        Pull::Down => {},
        Pull::Floating => {},
    }
}

proof fn lemma_run_two(regs: Map<u32, u32>, ops: Seq<Op>)
    requires
        ops.len() == 2,
    ensures
        run(regs, ops) == apply_op(apply_op(regs, ops[0]), ops[1]),
{
    reveal_with_fuel(run, 3);
    assert(ops.drop_last().drop_last() =~= Seq::<Op>::empty());
    assert(ops.drop_last().last() == ops[0]);
}

proof fn lemma_run_one(regs: Map<u32, u32>, ops: Seq<Op>)
    requires
        ops.len() == 1,
    ensures
        run(regs, ops) == apply_op(regs, ops[0]),
{
    reveal_with_fuel(run, 2);
    assert(ops.drop_last() =~= Seq::<Op>::empty());
}

/// Facts about the GPIO and pad register addresses that the laws rely on.
pub(crate) proof fn lemma_addresses(pin: u8)
    requires
        has_pad(pin),
    ensures
        pin <= 39,
        0x3FF4_9004 <= pad_addr(pin) <= 0x3FF4_908C,
        GPIO_OUT == 0x3FF4_4004u32,
        GPIO_OUT_W1TS == 0x3FF4_4008u32,
        GPIO_OUT_W1TC == 0x3FF4_400Cu32,
        GPIO_OUT1 == 0x3FF4_4010u32,
        GPIO_OUT1_W1TS == 0x3FF4_4014u32,
        GPIO_OUT1_W1TC == 0x3FF4_4018u32,
        GPIO_ENABLE == 0x3FF4_4020u32,
        GPIO_ENABLE_W1TS == 0x3FF4_4024u32,
        GPIO_ENABLE_W1TC == 0x3FF4_4028u32,
        GPIO_ENABLE1 == 0x3FF4_402Cu32,
        GPIO_ENABLE1_W1TS == 0x3FF4_4030u32,
        GPIO_ENABLE1_W1TC == 0x3FF4_4034u32,
{
    lemma_pad_addr_facts(pin);
}

/// Configuring a pin as input routes its pad to the GPIO matrix, turns the
/// input buffer on and both pull resistors off, keeps every other pad bit,
/// turns the pin's output driver off, and touches no other pin.
pub proof fn lemma_config_input(regs: Map<u32, u32>, pin: u8)
    requires
        has_pad(pin),
    ensures
        ({
            let t = run(regs, config_input_ops(pin));
            &&& pad(t, pin) & MCU_SEL_MASK == MCU_SEL_GPIO
            &&& pad(t, pin) & FUN_IE == FUN_IE
            &&& pad(t, pin) & pull_mask() == 0
            &&& pad(t, pin) & !config_bits() == pad(regs, pin) & !config_bits()
            &&& !output_enabled(t, pin)
            &&& output_level(t, pin) == output_level(regs, pin)
            &&& forall|q: u8|
                #![trigger has_pad(q)]
                has_pad(q) && q != pin ==> {
                    &&& pad(t, q) == pad(regs, q)
                    &&& output_enabled(t, q) == output_enabled(regs, q)
                    &&& output_level(t, q) == output_level(regs, q)
                }
        }),
{
    let ops = config_input_ops(pin);
    lemma_run_two(regs, ops);
    lemma_addresses(pin);
    lemma_constants();
    lemma_bank_bit(pin);
    let t = run(regs, ops);
    let v = pad(regs, pin);
    assert(pad(t, pin) == (v & !0x187u32) | 0x202u32);
    assert({
        &&& ((v & !0x187u32) | 0x202u32) & 7u32 == 2u32
        &&& ((v & !0x187u32) | 0x202u32) & 0x200u32 == 0x200u32
        &&& ((v & !0x187u32) | 0x202u32) & 0x180u32 == 0
        &&& ((v & !0x187u32) | 0x202u32) & !0x387u32 == v & !0x387u32
    }) by (bit_vector);
    let e = regs[enable_reg(pin)];
    lemma_bit_ops(e, bank_index(pin), 0);
    assert forall|q: u8| #![trigger has_pad(q)] has_pad(q) && q != pin implies {
        &&& pad(t, q) == pad(regs, q)
        &&& output_enabled(t, q) == output_enabled(regs, q)
        &&& output_level(t, q) == output_level(regs, q)
    } by {
        lemma_addresses(q);
        lemma_pad_addr_facts(pin);
        lemma_bank_bit(q);
        lemma_bit_ops(e, bank_index(pin), bank_index(q));
    }
}

/// Configuring a pin as output routes its pad to the GPIO matrix, turns the
/// input buffer and both pull resistors off, keeps every other pad bit, turns
/// the pin's output driver on, and touches no other pin.
pub proof fn lemma_config_output(regs: Map<u32, u32>, pin: u8)
    requires
        has_pad(pin),
    ensures
        ({
            let t = run(regs, config_output_ops(pin));
            &&& pad(t, pin) & MCU_SEL_MASK == MCU_SEL_GPIO
            &&& pad(t, pin) & FUN_IE == 0
            &&& pad(t, pin) & pull_mask() == 0
            &&& pad(t, pin) & !config_bits() == pad(regs, pin) & !config_bits()
            &&& output_enabled(t, pin)
            &&& output_level(t, pin) == output_level(regs, pin)
            &&& forall|q: u8|
                #![trigger has_pad(q)]
                has_pad(q) && q != pin ==> {
                    &&& pad(t, q) == pad(regs, q)
                    &&& output_enabled(t, q) == output_enabled(regs, q)
                    &&& output_level(t, q) == output_level(regs, q)
                }
        }),
{
    let ops = config_output_ops(pin);
    lemma_run_two(regs, ops);
    lemma_addresses(pin);
    lemma_constants();
    lemma_bank_bit(pin);
    let t = run(regs, ops);
    let v = pad(regs, pin);
    assert(pad(t, pin) == (v & !0x387u32) | 2u32);
    assert({
        &&& ((v & !0x387u32) | 2u32) & 7u32 == 2u32
        &&& ((v & !0x387u32) | 2u32) & 0x200u32 == 0
        &&& ((v & !0x387u32) | 2u32) & 0x180u32 == 0
        &&& ((v & !0x387u32) | 2u32) & !0x387u32 == v & !0x387u32
    }) by (bit_vector);
    let e = regs[enable_reg(pin)];
    lemma_bit_ops(e, bank_index(pin), 0);
    assert forall|q: u8| #![trigger has_pad(q)] has_pad(q) && q != pin implies {
        &&& pad(t, q) == pad(regs, q)
        &&& output_enabled(t, q) == output_enabled(regs, q)
        &&& output_level(t, q) == output_level(regs, q)
    } by {
        lemma_addresses(q);
        lemma_pad_addr_facts(pin);
        lemma_bank_bit(q);
        lemma_bit_ops(e, bank_index(pin), bank_index(q));
    }
}

/// Only the last configuration of a pin counts: configuring a pin as input or
/// as output, and then again as input or as output, leaves the register file
/// as the second configuration alone would. In particular a round trip
/// output -> input -> output is the same as configuring the output once, and
/// configuring twice the same way is the same as configuring once.
pub proof fn lemma_last_configuration_wins(regs: Map<u32, u32>, pin: u8)
    requires
        has_pad(pin),
    ensures
        run(regs, config_input_ops(pin) + config_output_ops(pin)) == run(regs, config_output_ops(pin)),
        run(regs, config_output_ops(pin) + config_input_ops(pin)) == run(regs, config_input_ops(pin)),
        run(regs, config_input_ops(pin) + config_input_ops(pin)) == run(regs, config_input_ops(pin)),
        run(regs, config_output_ops(pin) + config_output_ops(pin)) == run(regs, config_output_ops(pin)),
{
    let ci = config_input_ops(pin);
    let co = config_output_ops(pin);
    lemma_addresses(pin);
    lemma_constants();
    lemma_bank_bit(pin);
    let v = pad(regs, pin);
    let e = regs[enable_reg(pin)];
    lemma_bit_ops(e, bank_index(pin), 0);
    let ri = run(regs, ci);
    let ro = run(regs, co);
    lemma_run_two(regs, ci);
    lemma_run_two(regs, co);
    lemma_run_two(ri, co);
    lemma_run_two(ri, ci);
    lemma_run_two(ro, co);
    lemma_run_two(ro, ci);
    lemma_run_append(regs, ci, co);
    lemma_run_append(regs, co, ci);
    lemma_run_append(regs, ci, ci);
    lemma_run_append(regs, co, co);
    let vi = (v & !0x187u32) | 0x202u32;
    let vo = (v & !0x387u32) | 2u32;
    assert({
        &&& (vi & !0x387u32) | 2u32 == vo
        &&& (vo & !0x187u32) | 0x202u32 == vi
        &&& (vi & !0x187u32) | 0x202u32 == vi
        &&& (vo & !0x387u32) | 2u32 == vo
    }) by (bit_vector)
        requires
            vi == (v & !0x187u32) | 0x202u32,
            vo == (v & !0x387u32) | 2u32,
    ;
    assert(run(ri, co) =~= ro);
    assert(run(ro, ci) =~= ri);
    assert(run(ri, ci) =~= ri);
    assert(run(ro, co) =~= ro);
}

/// Selecting a pull resistor sets the pull bits of the pad to exactly the
/// chosen resistor, keeps every other pad bit, and changes no other register.
pub proof fn lemma_set_pull(regs: Map<u32, u32>, pin: u8, pull: Pull)
    requires
        has_pad(pin),
    ensures
        ({
            let t = run(regs, set_pull_ops(pin, pull));
            &&& pad(t, pin) & pull_mask() == pull_bits(pull)
            &&& pad(t, pin) & !pull_mask() == pad(regs, pin) & !pull_mask()
            &&& forall|a: u32|
                a != pad_addr(pin) && regs.dom().contains(a) ==> #[trigger] t[a] == regs[a]
            &&& t.dom() == regs.dom().insert(pad_addr(pin))
        }),
{
    let ops = set_pull_ops(pin, pull);
    lemma_run_one(regs, ops);
    lemma_addresses(pin);
    lemma_constants();
    let v = pad(regs, pin);
    let b = pull_bits(pull);
    lemma_pull_bits(pull);
    assert(b & 0x180u32 == b ==> ((v & !0x180u32) | b) & 0x180u32 == b && ((v & !0x180u32) | b)
        & !0x180u32 == v & !0x180u32) by (bit_vector);
}

/// Only the last pull selection counts.
pub proof fn lemma_last_pull_wins(regs: Map<u32, u32>, pin: u8, first: Pull, second: Pull)
    requires
        has_pad(pin),
    ensures
        run(regs, set_pull_ops(pin, first) + set_pull_ops(pin, second))
            == run(regs, set_pull_ops(pin, second)),
{
    let a = set_pull_ops(pin, first);
    let b = set_pull_ops(pin, second);
    lemma_run_append(regs, a, b);
    lemma_run_one(regs, a);
    lemma_run_one(regs, b);
    lemma_run_one(run(regs, a), b);
    lemma_addresses(pin);
    lemma_constants();
    let v = pad(regs, pin);
    let x = pull_bits(first);
    let y = pull_bits(second);
    lemma_pull_bits(first);
    assert((((v & !0x180u32) | x) & !0x180u32) | y == (v & !0x180u32) | y || x & 0x180u32 != x)
        by (bit_vector);
    assert(run(run(regs, a), b) =~= run(regs, b));
}

/// Driving a pin high or low sets exactly that pin's output level and leaves
/// every other pin's level, every output enable and every pad alone.
pub proof fn lemma_drive(regs: Map<u32, u32>, pin: u8, high: bool)
    requires
        has_pad(pin),
    ensures
        ({
            let t = run(regs, if high { set_high_ops(pin) } else { set_low_ops(pin) });
            &&& output_level(t, pin) == high
            &&& forall|q: u8|
                #![trigger has_pad(q)]
                has_pad(q) ==> {
                    &&& pad(t, q) == pad(regs, q)
                    &&& output_enabled(t, q) == output_enabled(regs, q)
                    &&& q != pin ==> output_level(t, q) == output_level(regs, q)
                }
        }),
{
    let ops = if high { set_high_ops(pin) } else { set_low_ops(pin) };
    lemma_run_one(regs, ops);
    lemma_addresses(pin);
    lemma_bank_bit(pin);
    let o = regs[out_reg(pin)];
    lemma_bit_ops(o, bank_index(pin), 0);
    let t = run(regs, ops);
    assert forall|q: u8| #![trigger has_pad(q)] has_pad(q) implies {
        &&& pad(t, q) == pad(regs, q)
        &&& output_enabled(t, q) == output_enabled(regs, q)
        &&& q != pin ==> output_level(t, q) == output_level(regs, q)
    } by {
        lemma_addresses(q);
        lemma_bank_bit(q);
        lemma_bit_ops(o, bank_index(pin), bank_index(q));
    }
}

/// Only the last level driven onto a pin counts.
pub proof fn lemma_last_level_wins(regs: Map<u32, u32>, pin: u8)
    requires
        has_pad(pin),
    ensures
        run(regs, set_high_ops(pin) + set_low_ops(pin)) == run(regs, set_low_ops(pin)),
        run(regs, set_low_ops(pin) + set_high_ops(pin)) == run(regs, set_high_ops(pin)),
{
    let h = set_high_ops(pin);
    let l = set_low_ops(pin);
    lemma_run_append(regs, h, l);
    lemma_run_append(regs, l, h);
    lemma_run_one(regs, h);
    lemma_run_one(regs, l);
    lemma_run_one(run(regs, h), l);
    lemma_run_one(run(regs, l), h);
    lemma_addresses(pin);
    lemma_bank_bit(pin);
    let o = regs[out_reg(pin)];
    lemma_bit_ops(o, bank_index(pin), 0);
    assert(run(run(regs, h), l) =~= run(regs, l));
    assert(run(run(regs, l), h) =~= run(regs, h));
}

/// The levels that the `Sample` operations of `ops`, run from `regs`, record
/// when every sampled input is wired to the output of `pin`: each records the
/// level `pin` is driven to at that point of the program.
pub open spec fn echo_samples(regs: Map<u32, u32>, ops: Seq<Op>, pin: u8) -> Seq<bool>
    decreases ops.len(),
{
    if ops.len() == 0 {
        Seq::empty()
    } else {
        let prev = ops.drop_last();
        echo_samples(regs, prev, pin) + match ops.last() {
            Op::Sample { .. } => seq![output_level(run(regs, prev), pin)],
            _ => Seq::empty(),
        }
    }
}

proof fn lemma_echo_append(regs: Map<u32, u32>, a: Seq<Op>, b: Seq<Op>, pin: u8)
    ensures
        echo_samples(regs, a + b, pin) == echo_samples(regs, a, pin) + echo_samples(
            run(regs, a),
            b,
            pin,
        ),
    decreases b.len(),
{
    if b.len() == 0 {
        assert(a + b =~= a);
        assert(echo_samples(regs, a, pin) + echo_samples(run(regs, a), b, pin) =~= echo_samples(
            regs,
            a,
            pin,
        ));
    } else {
        assert((a + b).drop_last() =~= a + b.drop_last());
        lemma_echo_append(regs, a, b.drop_last(), pin);
        lemma_run_append(regs, a, b.drop_last());
        assert(echo_samples(regs, a + b, pin) =~= echo_samples(regs, a, pin) + echo_samples(
            run(regs, a),
            b,
            pin,
        ));
    }
}

/// A program without samples records nothing.
proof fn lemma_echo_no_samples(regs: Map<u32, u32>, ops: Seq<Op>, pin: u8)
    requires
        forall|i: int| 0 <= i < ops.len() ==> !(#[trigger] ops[i] is Sample),
    ensures
        echo_samples(regs, ops, pin) == Seq::<bool>::empty(),
    decreases ops.len(),
{
    if ops.len() > 0 {
        lemma_echo_no_samples(regs, ops.drop_last(), pin);
        assert(!(ops[ops.len() - 1] is Sample));
        assert(echo_samples(regs, ops, pin) =~= Seq::<bool>::empty());
    }
}

proof fn lemma_echo_push(regs: Map<u32, u32>, ops: Seq<Op>, op: Op, pin: u8)
    ensures
        ops.push(op).drop_last() == ops,
        run(regs, ops.push(op)) == apply_op(run(regs, ops), op),
        echo_samples(regs, ops.push(op), pin) == echo_samples(regs, ops, pin) + match op {
            Op::Sample { .. } => seq![output_level(run(regs, ops), pin)],
            _ => Seq::<bool>::empty(),
        },
{
    assert(ops.push(op).drop_last() =~= ops);
}

/// Level of `pin` after driving `driven` to `high`.
proof fn lemma_level_after_drive(regs: Map<u32, u32>, driven: u8, high: bool, pin: u8)
    requires
        has_pad(driven),
        has_pad(pin),
    ensures
        output_level(run(regs, drive_ops(driven, high)), pin) == if pin == driven {
            high
        } else {
            output_level(regs, pin)
        },
{
    lemma_drive(regs, driven, high);
}

/// One SPI clock period, with MISO wired to MOSI, samples the level put on MOSI.
proof fn lemma_spi_bit_echo(regs: Map<u32, u32>, spi: SpiBitBang, level: bool)
    requires
        has_pad(spi.mosi_pin()),
        has_pad(spi.clk_pin()),
        spi.mosi_pin() != spi.clk_pin(),
    ensures
        echo_samples(regs, spi.bit_ops(level), spi.mosi_pin()) == seq![level],
{
    let mosi = spi.mosi_pin();
    let clk = spi.clk_pin();
    let d = Op::Delay { cycles: spi.delay_cycles() };
    let o0 = drive_ops(mosi, level)[0];
    let o2 = set_high_ops(clk)[0];
    let o4 = sample_ops(spi.miso_pin())[0];
    let o5 = set_low_ops(clk)[0];
    let s0 = Seq::<Op>::empty();
    let s1 = s0.push(o0);
    let s2 = s1.push(d);
    let s3 = s2.push(o2);
    let s4 = s3.push(d);
    let s5 = s4.push(o4);
    let s6 = s5.push(o5);
    assert(spi.bit_ops(level) =~= s6);
    lemma_echo_push(regs, s0, o0, mosi);
    lemma_echo_push(regs, s1, d, mosi);
    lemma_echo_push(regs, s2, o2, mosi);
    lemma_echo_push(regs, s3, d, mosi);
    lemma_echo_push(regs, s4, o4, mosi);
    lemma_echo_push(regs, s5, o5, mosi);
    reveal_with_fuel(run, 1);
    assert(s1 =~= drive_ops(mosi, level));
    lemma_level_after_drive(regs, mosi, level, mosi);
    let r2 = run(regs, s2);
    assert(seq![o2] =~= drive_ops(clk, true));
    lemma_run_one(r2, seq![o2]);
    lemma_level_after_drive(r2, clk, true, mosi);
    assert(echo_samples(regs, s6, mosi) =~= seq![level]);
}

/// Eight SPI clock periods of a byte, with MISO wired to MOSI, sample the
/// byte's bits most significant first.
proof fn lemma_spi_byte_echo(regs: Map<u32, u32>, spi: SpiBitBang, b: u8, n: nat)
    requires
        has_pad(spi.mosi_pin()),
        has_pad(spi.clk_pin()),
        spi.mosi_pin() != spi.clk_pin(),
        n <= 8,
    ensures
        echo_samples(regs, spi.byte_ops(b, n), spi.mosi_pin()) == msb_first(b).take(n as int),
    decreases n,
{
    if n == 0 {
        assert(spi.byte_ops(b, 0) =~= Seq::<Op>::empty());
        assert(msb_first(b).take(0) =~= Seq::<bool>::empty());
    } else {
        let prev = spi.byte_ops(b, (n - 1) as nat);
        lemma_spi_byte_echo(regs, spi, b, (n - 1) as nat);
        lemma_echo_append(regs, prev, spi.bit_ops(msb_first(b)[n - 1]), spi.mosi_pin());
        lemma_spi_bit_echo(run(regs, prev), spi, msb_first(b)[n - 1]);
        assert(msb_first(b).take(n as int) =~= msb_first(b).take(n - 1).push(msb_first(b)[n - 1]));
    }
}

proof fn lemma_spi_bytes_echo(regs: Map<u32, u32>, spi: SpiBitBang, w: Seq<u8>)
    requires
        has_pad(spi.mosi_pin()),
        has_pad(spi.clk_pin()),
        spi.mosi_pin() != spi.clk_pin(),
    ensures
        echo_samples(regs, spi.bytes_ops(w), spi.mosi_pin()) == levels_msb(w),
    decreases w.len(),
{
    if w.len() == 0 {
        assert(spi.bytes_ops(w) =~= Seq::<Op>::empty());
    } else {
        let prev = spi.bytes_ops(w.drop_last());
        lemma_spi_bytes_echo(regs, spi, w.drop_last());
        lemma_echo_append(regs, prev, spi.byte_ops(w.last(), 8), spi.mosi_pin());
        lemma_spi_byte_echo(run(regs, prev), spi, w.last(), 8);
        assert(msb_first(w.last()).take(8) =~= msb_first(w.last()));
    }
}

/// SPI loopback: with MISO wired to MOSI, and the MOSI pin distinct from the
/// clock pin, the bytes that a transfer of `w` reads are `w`, whatever the
/// register file it starts from.
pub proof fn lemma_spi_loopback(regs: Map<u32, u32>, spi: SpiBitBang, w: Seq<u8>)
    requires
        has_pad(spi.mosi_pin()),
        has_pad(spi.clk_pin()),
        spi.mosi_pin() != spi.clk_pin(),
    ensures
        bytes_msb(echo_samples(regs, spi.transfer_ops(w), spi.mosi_pin())) == w,
{
    let mosi = spi.mosi_pin();
    let head = set_low_ops(spi.cs_pin()) + spi.delay_ops();
    let body = spi.bytes_ops(w);
    let tail = spi.delay_ops() + set_high_ops(spi.cs_pin()) + spi.delay_ops();
    assert(spi.transfer_ops(w) =~= head + body + tail);
    lemma_echo_append(regs, head + body, tail, mosi);
    lemma_echo_append(regs, head, body, mosi);
    lemma_echo_no_samples(regs, head, mosi);
    lemma_echo_no_samples(run(regs, head + body), tail, mosi);
    lemma_spi_bytes_echo(run(regs, head), spi, w);
    assert(echo_samples(regs, spi.transfer_ops(w), mosi) =~= levels_msb(w));
    lemma_bytes_round_trip(w);
}

/// One full-duplex UART data bit, with RX wired to TX, samples the level put on TX.
proof fn lemma_uart_bit_echo(regs: Map<u32, u32>, uart: UartBitBang, level: bool)
    requires
        has_pad(uart.tx_pin()),
    ensures
        echo_samples(
            regs,
            drive_ops(uart.tx_pin(), level) + uart.half_delay_ops() + sample_ops(uart.rx_pin())
                + uart.rest_delay_ops(),
            uart.tx_pin(),
        ) == seq![level],
{
    let tx = uart.tx_pin();
    let o0 = drive_ops(tx, level)[0];
    let o1 = uart.half_delay_ops()[0];
    let o2 = sample_ops(uart.rx_pin())[0];
    let o3 = uart.rest_delay_ops()[0];
    let s0 = Seq::<Op>::empty();
    let s1 = s0.push(o0);
    let s2 = s1.push(o1);
    let s3 = s2.push(o2);
    let s4 = s3.push(o3);
    assert(drive_ops(tx, level) + uart.half_delay_ops() + sample_ops(uart.rx_pin())
        + uart.rest_delay_ops() =~= s4);
    lemma_echo_push(regs, s0, o0, tx);
    lemma_echo_push(regs, s1, o1, tx);
    lemma_echo_push(regs, s2, o2, tx);
    lemma_echo_push(regs, s3, o3, tx);
    reveal_with_fuel(run, 1);
    assert(s1 =~= drive_ops(tx, level));
    lemma_level_after_drive(regs, tx, level, tx);
    assert(echo_samples(regs, s4, tx) =~= seq![level]);
}

proof fn lemma_uart_bits_echo(regs: Map<u32, u32>, uart: UartBitBang, b: u8, n: nat)
    requires
        has_pad(uart.tx_pin()),
        n <= 8,
    ensures
        echo_samples(regs, uart.exchange_bits_ops(b, n), uart.tx_pin()) == lsb_first(b).take(
            n as int,
        ),
    decreases n,
{
    if n == 0 {
        assert(uart.exchange_bits_ops(b, 0) =~= Seq::<Op>::empty());
        assert(lsb_first(b).take(0) =~= Seq::<bool>::empty());
    } else {
        let prev = uart.exchange_bits_ops(b, (n - 1) as nat);
        let level = lsb_first(b)[n - 1];
        let bit = drive_ops(uart.tx_pin(), level) + uart.half_delay_ops() + sample_ops(
            uart.rx_pin(),
        ) + uart.rest_delay_ops();
        lemma_uart_bits_echo(regs, uart, b, (n - 1) as nat);
        assert(uart.exchange_bits_ops(b, n) =~= prev + bit);
        lemma_echo_append(regs, prev, bit, uart.tx_pin());
        lemma_uart_bit_echo(run(regs, prev), uart, level);
        assert(lsb_first(b).take(n as int) =~= lsb_first(b).take(n - 1).push(level));
    }
}

/// UART loopback: with RX wired to TX, the eight data-bit samples of a
/// full-duplex frame of `b` read back `b`.
pub proof fn lemma_uart_loopback(regs: Map<u32, u32>, uart: UartBitBang, b: u8)
    requires
        has_pad(uart.tx_pin()),
    ensures
        echo_samples(regs, uart.transfer_byte_ops(b), uart.tx_pin()).len() == 8,
        byte_lsb(echo_samples(regs, uart.transfer_byte_ops(b), uart.tx_pin())) == b,
{
    let tx = uart.tx_pin();
    let head = drive_ops(tx, false) + uart.delay_ops();
    let body = uart.exchange_bits_ops(b, 8);
    let tail = drive_ops(tx, true) + uart.delay_ops();
    assert(uart.transfer_byte_ops(b) =~= head + body + tail);
    lemma_echo_append(regs, head + body, tail, tx);
    lemma_echo_append(regs, head, body, tx);
    lemma_echo_no_samples(regs, head, tx);
    lemma_echo_no_samples(run(regs, head + body), tail, tx);
    lemma_uart_bits_echo(run(regs, head), uart, b, 8);
    assert(lsb_first(b).take(8) =~= lsb_first(b));
    assert(echo_samples(regs, uart.transfer_byte_ops(b), tx) =~= lsb_first(b));
    lemma_lsb_round_trip(b);
}

proof fn lemma_run_four(regs: Map<u32, u32>, ops: Seq<Op>)
    requires
        ops.len() == 4,
    ensures
        run(regs, ops) == apply_op(apply_op(apply_op(apply_op(regs, ops[0]), ops[1]), ops[2]), ops[3]),
{
    let s0 = Seq::<Op>::empty();
    let s1 = s0.push(ops[0]);
    let s2 = s1.push(ops[1]);
    let s3 = s2.push(ops[2]);
    let s4 = s3.push(ops[3]);
    assert(ops =~= s4);
    lemma_echo_push(regs, s0, ops[0], 0);
    lemma_echo_push(regs, s1, ops[1], 0);
    lemma_echo_push(regs, s2, ops[2], 0);
    lemma_echo_push(regs, s3, ops[3], 0);
    reveal_with_fuel(run, 1);
}

/// Connecting a peripheral input signal to a pin makes the signal's
/// input-select register read that pin through the GPIO matrix, sets the
/// output-enable-select bit of the pin's OUT_SEL register (keeping its other
/// bits), turns the pin's output driver off, and routes its pad to the GPIO
/// matrix with the input buffer on and exactly the requested pull, keeping
/// every other pad bit.
pub proof fn lemma_peripheral_input(regs: Map<u32, u32>, pin: u8, sig: u8, pull: Pull)
    requires
        has_pad(pin),
    ensures
        ({
            let t = run(regs, input_signal_ops(pin, sig, pull));
            &&& t[in_sel_reg(sig)] == 0x8000_0000u32 | (pin as u32)
            &&& t[out_sel_reg(pin)] == regs[out_sel_reg(pin)] | 0x400u32
            &&& !output_enabled(t, pin)
            &&& pad(t, pin) & MCU_SEL_MASK == MCU_SEL_GPIO
            &&& pad(t, pin) & FUN_IE == FUN_IE
            &&& pad(t, pin) & pull_mask() == pull_bits(pull)
            &&& pad(t, pin) & !config_bits() == pad(regs, pin) & !config_bits()
        }),
{
    let ops = input_signal_ops(pin, sig, pull);
    lemma_run_four(regs, ops);
    lemma_addresses(pin);
    lemma_constants();
    lemma_bank_bit(pin);
    lemma_pull_bits(pull);
    let t = run(regs, ops);
    let p = pin as u32;
    let o = regs[out_sel_reg(pin)];
    let e = regs[enable_reg(pin)];
    lemma_bit_ops(e, bank_index(pin), 0);
    let v = pad(regs, pin);
    let b = pull_bits(pull);
    assert(pad(t, pin) == (v & !0x187u32) | (0x202u32 | b));
    assert(p <= 39 && b & 0x180u32 == b ==> {
        &&& p & 0x3Fu32 == p
        &&& (o & !0u32) | 0x400u32 == o | 0x400u32
        &&& ((v & !0x187u32) | (0x202u32 | b)) & 7u32 == 2u32
        &&& ((v & !0x187u32) | (0x202u32 | b)) & 0x200u32 == 0x200u32
        &&& ((v & !0x187u32) | (0x202u32 | b)) & 0x180u32 == b
        &&& ((v & !0x187u32) | (0x202u32 | b)) & !0x387u32 == v & !0x387u32
    }) by (bit_vector);
}

/// Connecting a peripheral output signal to a pin makes the pin's OUT_SEL
/// register select the signal with its output-enable-select bit (keeping
/// its other bits), turns the pin's output driver on, sets the pad driver
/// to open drain exactly when asked (keeping the other bits of the
/// pin-configuration register), and routes the pad to the GPIO matrix with
/// the pull-up on exactly for open drain, the pull-down off, the
/// drive-strength field (bits 10..=12) holding the requested strength, and
/// every other pad bit kept.
pub proof fn lemma_peripheral_output(regs: Map<u32, u32>, pin: u8, sig: u8, open_drain: bool, drive_strength: u8)
    requires
        has_pad(pin),
    ensures
        ({
            let t = run(regs, output_signal_ops(pin, sig, open_drain, drive_strength));
            &&& t[out_sel_reg(pin)] & 0x1FFu32 == sig as u32
            &&& t[out_sel_reg(pin)] & 0x400u32 == 0x400u32
            &&& t[out_sel_reg(pin)] & !0x5FFu32 == regs[out_sel_reg(pin)] & !0x5FFu32
            &&& output_enabled(t, pin)
            &&& (t[pin_reg(pin)] & 4u32 != 0) == open_drain
            &&& t[pin_reg(pin)] & !4u32 == regs[pin_reg(pin)] & !4u32
            &&& pad(t, pin) & MCU_SEL_MASK == MCU_SEL_GPIO
            &&& (pad(t, pin) & FUN_WPU != 0) == open_drain
            &&& pad(t, pin) & FUN_WPD == 0
            &&& pad(t, pin) & 0x1C00u32 == drive_bits(drive_strength)
            &&& (pad(t, pin) >> 10u32) & 7u32 == (drive_strength as u32) & 7u32
            &&& pad(t, pin) & !0x1D87u32 == pad(regs, pin) & !0x1D87u32
        }),
{
    let ops = output_signal_ops(pin, sig, open_drain, drive_strength);
    lemma_run_four(regs, ops);
    lemma_addresses(pin);
    lemma_constants();
    lemma_bank_bit(pin);
    let t = run(regs, ops);
    let sg = sig as u32;
    let o = regs[out_sel_reg(pin)];
    assert(sg < 256 ==> {
        &&& ((o & !0x1FFu32) | ((sg & 0x1FFu32) | 0x400u32)) & 0x1FFu32 == sg
        &&& ((o & !0x1FFu32) | ((sg & 0x1FFu32) | 0x400u32)) & 0x400u32 == 0x400u32
        &&& ((o & !0x1FFu32) | ((sg & 0x1FFu32) | 0x400u32)) & !0x5FFu32 == o & !0x5FFu32
    }) by (bit_vector);
    let e = regs[enable_reg(pin)];
    lemma_bit_ops(e, bank_index(pin), 0);
    let c = regs[pin_reg(pin)];
    let v = pad(regs, pin);
    let ds = drive_bits(drive_strength);
    let x = drive_strength as u32;
    assert(ds == (x & 7u32) << 10u32);
    assert(x < 256 ==> {
        &&& ((c & !0u32) | 4u32) & 4u32 != 0
        &&& ((c & !0u32) | 4u32) & !4u32 == c & !4u32
        &&& ((c & !4u32) | 0u32) & 4u32 == 0
        &&& ((c & !4u32) | 0u32) & !4u32 == c & !4u32
        &&& ((v & !0x1D87u32) | (2u32 | ((x & 7u32) << 10u32) | 0x100u32)) & 7u32 == 2u32
        &&& (((v & !0x1D87u32) | (2u32 | ((x & 7u32) << 10u32) | 0x100u32)) & 0x100u32 != 0) == (0x100u32 != 0u32)
        &&& ((v & !0x1D87u32) | (2u32 | ((x & 7u32) << 10u32) | 0x100u32)) & 0x80u32 == 0
        &&& ((v & !0x1D87u32) | (2u32 | ((x & 7u32) << 10u32) | 0x100u32)) & 0x1C00u32 == (x & 7u32) << 10u32
        &&& (((v & !0x1D87u32) | (2u32 | ((x & 7u32) << 10u32) | 0x100u32)) >> 10u32) & 7u32 == x & 7u32
        &&& ((v & !0x1D87u32) | (2u32 | ((x & 7u32) << 10u32) | 0x100u32)) & !0x1D87u32 == v & !0x1D87u32
        &&& ((v & !0x1D87u32) | (2u32 | ((x & 7u32) << 10u32) | 0u32)) & 7u32 == 2u32
        &&& (((v & !0x1D87u32) | (2u32 | ((x & 7u32) << 10u32) | 0u32)) & 0x100u32 != 0) == (0u32 != 0u32)
        &&& ((v & !0x1D87u32) | (2u32 | ((x & 7u32) << 10u32) | 0u32)) & 0x80u32 == 0
        &&& ((v & !0x1D87u32) | (2u32 | ((x & 7u32) << 10u32) | 0u32)) & 0x1C00u32 == (x & 7u32) << 10u32
        &&& (((v & !0x1D87u32) | (2u32 | ((x & 7u32) << 10u32) | 0u32)) >> 10u32) & 7u32 == x & 7u32
        &&& ((v & !0x1D87u32) | (2u32 | ((x & 7u32) << 10u32) | 0u32)) & !0x1D87u32 == v & !0x1D87u32
    }) by (bit_vector);
}

/// The operation that raises the clock line `clk`.
pub open spec fn rising_edge(clk: u8) -> Op {
    set_high_ops(clk)[0]
}

/// The levels of `data` that a receiver clocked by `clk` latches while `ops`
/// run from `regs`: at each raising of `clk`, the level `data` is driven to.
pub open spec fn edge_levels(regs: Map<u32, u32>, ops: Seq<Op>, clk: u8, data: u8) -> Seq<bool>
    decreases ops.len(),
{
    if ops.len() == 0 {
        Seq::empty()
    } else {
        let prev = ops.drop_last();
        edge_levels(regs, prev, clk, data) + if ops.last() == rising_edge(clk) {
            seq![output_level(run(regs, prev), data)]
        } else {
            Seq::empty()
        }
    }
}

proof fn lemma_edge_append(regs: Map<u32, u32>, a: Seq<Op>, b: Seq<Op>, clk: u8, data: u8)
    ensures
        edge_levels(regs, a + b, clk, data) == edge_levels(regs, a, clk, data) + edge_levels(
            run(regs, a),
            b,
            clk,
            data,
        ),
    decreases b.len(),
{
    if b.len() == 0 {
        assert(a + b =~= a);
        assert(edge_levels(regs, a, clk, data) + edge_levels(run(regs, a), b, clk, data)
            =~= edge_levels(regs, a, clk, data));
    } else {
        assert((a + b).drop_last() =~= a + b.drop_last());
        lemma_edge_append(regs, a, b.drop_last(), clk, data);
        lemma_run_append(regs, a, b.drop_last());
        assert(edge_levels(regs, a + b, clk, data) =~= edge_levels(regs, a, clk, data)
            + edge_levels(run(regs, a), b, clk, data));
    }
}

/// A program that never raises the clock latches nothing.
proof fn lemma_edge_none(regs: Map<u32, u32>, ops: Seq<Op>, clk: u8, data: u8)
    requires
        forall|i: int| 0 <= i < ops.len() ==> #[trigger] ops[i] != rising_edge(clk),
    ensures
        edge_levels(regs, ops, clk, data) == Seq::<bool>::empty(),
    decreases ops.len(),
{
    if ops.len() > 0 {
        lemma_edge_none(regs, ops.drop_last(), clk, data);
        assert(ops[ops.len() - 1] != rising_edge(clk));
        assert(edge_levels(regs, ops, clk, data) =~= Seq::<bool>::empty());
    }
}

/// Raising a clock is not driving another pin, clearing any output, or
/// touching a pad or an output enable.
proof fn lemma_not_rising(clk: u8, pin: u8)
    requires
        has_pad(clk),
        has_pad(pin),
    ensures
        pin != clk ==> drive_ops(pin, true)[0] != rising_edge(clk),
        drive_ops(pin, false)[0] != rising_edge(clk),
        config_input_ops(pin)[0] != rising_edge(clk),
        config_input_ops(pin)[1] != rising_edge(clk),
        config_output_ops(pin)[0] != rising_edge(clk),
        config_output_ops(pin)[1] != rising_edge(clk),
        forall|p: Pull| #[trigger] set_pull_ops(pin, p)[0] != rising_edge(clk),
{
    lemma_addresses(clk);
    lemma_addresses(pin);
    lemma_bank_bit(clk);
    lemma_bank_bit(pin);
    lemma_bit_ops(0, bank_index(clk), bank_index(pin));
}

/// One clock period whose data level is set before the clock rises: the
/// receiver latches that level.
proof fn lemma_period_edge(regs: Map<u32, u32>, data: u8, clk: u8, level: bool, d: Op, rest: Seq<Op>)
    requires
        has_pad(data),
        has_pad(clk),
        data != clk,
        d is Delay,
        forall|i: int| 0 <= i < rest.len() ==> #[trigger] rest[i] != rising_edge(clk),
    ensures
        edge_levels(regs, drive_ops(data, level) + seq![d] + drive_ops(clk, true) + rest, clk, data)
            == seq![level],
{
    let o0 = drive_ops(data, level)[0];
    let o2 = rising_edge(clk);
    let s1 = seq![o0];
    let s2 = s1.push(d);
    let s3 = s2.push(o2);
    assert(drive_ops(data, level) + seq![d] + drive_ops(clk, true) + rest =~= s3 + rest);
    lemma_edge_append(regs, s3, rest, clk, data);
    lemma_edge_none(run(regs, s3), rest, clk, data);
    lemma_not_rising(clk, data);
    assert(s2.drop_last() =~= s1);
    assert(s3.drop_last() =~= s2);
    assert(s1.drop_last() =~= Seq::<Op>::empty());
    reveal_with_fuel(edge_levels, 4);
    reveal_with_fuel(run, 3);
    assert(s1 =~= drive_ops(data, level));
    lemma_level_after_drive(regs, data, level, data);
    assert(edge_levels(regs, s3, clk, data) =~= seq![level]);
}

proof fn lemma_spi_byte_edges(regs: Map<u32, u32>, spi: SpiBitBang, b: u8, n: nat)
    requires
        has_pad(spi.mosi_pin()),
        has_pad(spi.clk_pin()),
        has_pad(spi.miso_pin()),
        spi.mosi_pin() != spi.clk_pin(),
        n <= 8,
    ensures
        edge_levels(regs, spi.byte_ops(b, n), spi.clk_pin(), spi.mosi_pin()) == msb_first(b).take(
            n as int,
        ),
    decreases n,
{
    let clk = spi.clk_pin();
    let mosi = spi.mosi_pin();
    if n == 0 {
        assert(spi.byte_ops(b, 0) =~= Seq::<Op>::empty());
        assert(msb_first(b).take(0) =~= Seq::<bool>::empty());
    } else {
        let prev = spi.byte_ops(b, (n - 1) as nat);
        let level = msb_first(b)[n - 1];
        lemma_spi_byte_edges(regs, spi, b, (n - 1) as nat);
        lemma_edge_append(regs, prev, spi.bit_ops(level), clk, mosi);
        let rest = spi.delay_ops() + sample_ops(spi.miso_pin()) + set_low_ops(clk);
        lemma_not_rising(clk, clk);
        lemma_addresses(clk);
        assert(forall|i: int| 0 <= i < rest.len() ==> #[trigger] rest[i] != rising_edge(clk));
        assert(spi.bit_ops(level) =~= drive_ops(mosi, level) + seq![spi.delay_ops()[0]]
            + drive_ops(clk, true) + rest);
        lemma_period_edge(run(regs, prev), mosi, clk, level, spi.delay_ops()[0], rest);
        assert(msb_first(b).take(n as int) =~= msb_first(b).take(n - 1).push(level));
    }
}

proof fn lemma_spi_bytes_edges(regs: Map<u32, u32>, spi: SpiBitBang, w: Seq<u8>)
    requires
        has_pad(spi.mosi_pin()),
        has_pad(spi.clk_pin()),
        has_pad(spi.miso_pin()),
        spi.mosi_pin() != spi.clk_pin(),
    ensures
        edge_levels(regs, spi.bytes_ops(w), spi.clk_pin(), spi.mosi_pin()) == levels_msb(w),
    decreases w.len(),
{
    if w.len() == 0 {
        assert(spi.bytes_ops(w) =~= Seq::<Op>::empty());
    } else {
        let prev = spi.bytes_ops(w.drop_last());
        lemma_spi_bytes_edges(regs, spi, w.drop_last());
        lemma_edge_append(regs, prev, spi.byte_ops(w.last(), 8), spi.clk_pin(), spi.mosi_pin());
        lemma_spi_byte_edges(run(regs, prev), spi, w.last(), 8);
        assert(msb_first(w.last()).take(8) =~= msb_first(w.last()));
    }
}

/// SPI, device side: a device that latches MOSI on each rising clock edge
/// (mode 0) receives, most significant bit first, exactly the bytes of a
/// transfer, when MOSI, clock and chip select are distinct pins.
pub proof fn lemma_spi_device_receives(regs: Map<u32, u32>, spi: SpiBitBang, w: Seq<u8>)
    requires
        has_pad(spi.mosi_pin()),
        has_pad(spi.clk_pin()),
        has_pad(spi.miso_pin()),
        has_pad(spi.cs_pin()),
        spi.mosi_pin() != spi.clk_pin(),
        spi.cs_pin() != spi.clk_pin(),
    ensures
        edge_levels(regs, spi.transfer_ops(w), spi.clk_pin(), spi.mosi_pin()) == levels_msb(w),
        bytes_msb(edge_levels(regs, spi.transfer_ops(w), spi.clk_pin(), spi.mosi_pin())) == w,
{
    let clk = spi.clk_pin();
    let mosi = spi.mosi_pin();
    let head = set_low_ops(spi.cs_pin()) + spi.delay_ops();
    let body = spi.bytes_ops(w);
    let tail = spi.delay_ops() + set_high_ops(spi.cs_pin()) + spi.delay_ops();
    assert(spi.transfer_ops(w) =~= head + body + tail);
    lemma_not_rising(clk, spi.cs_pin());
    assert(forall|i: int| 0 <= i < head.len() ==> #[trigger] head[i] != rising_edge(clk));
    assert(forall|i: int| 0 <= i < tail.len() ==> #[trigger] tail[i] != rising_edge(clk));
    lemma_edge_append(regs, head + body, tail, clk, mosi);
    lemma_edge_append(regs, head, body, clk, mosi);
    lemma_edge_none(regs, head, clk, mosi);
    lemma_edge_none(run(regs, head + body), tail, clk, mosi);
    lemma_spi_bytes_edges(run(regs, head), spi, w);
    assert(edge_levels(regs, spi.transfer_ops(w), clk, mosi) =~= levels_msb(w));
    lemma_bytes_round_trip(w);
}

proof fn lemma_i2c_send_edges(regs: Map<u32, u32>, m: I2cMasterBitBang, b: u8, n: nat)
    requires
        has_pad(m.sda_pin()),
        has_pad(m.scl_pin()),
        m.sda_pin() != m.scl_pin(),
        n <= 8,
    ensures
        edge_levels(regs, m.send_bits_ops(b, n), m.scl_pin(), m.sda_pin()) == msb_first(b).take(
            n as int,
        ),
    decreases n,
{
    let scl = m.scl_pin();
    let sda = m.sda_pin();
    if n == 0 {
        assert(m.send_bits_ops(b, 0) =~= Seq::<Op>::empty());
        assert(msb_first(b).take(0) =~= Seq::<bool>::empty());
    } else {
        let prev = m.send_bits_ops(b, (n - 1) as nat);
        let level = msb_first(b)[n - 1];
        let bit = drive_ops(sda, level) + m.delay_ops() + m.pulse_ops();
        lemma_i2c_send_edges(regs, m, b, (n - 1) as nat);
        assert(m.send_bits_ops(b, n) =~= prev + bit);
        lemma_edge_append(regs, prev, bit, scl, sda);
        let rest = m.delay_ops() + drive_ops(scl, false) + m.delay_ops();
        lemma_not_rising(scl, scl);
        assert(forall|i: int| 0 <= i < rest.len() ==> #[trigger] rest[i] != rising_edge(scl));
        assert(bit =~= drive_ops(sda, level) + seq![m.delay_ops()[0]] + drive_ops(scl, true)
            + rest);
        lemma_period_edge(run(regs, prev), sda, scl, level, m.delay_ops()[0], rest);
        assert(msb_first(b).take(n as int) =~= msb_first(b).take(n - 1).push(level));
    }
}

/// I2C, master to receiver: a receiver that latches SDA on each rising SCL
/// edge sees nine clocks for a byte the master writes, and the first eight
/// carry the byte, most significant bit first.
pub proof fn lemma_i2c_write_byte_edges(regs: Map<u32, u32>, m: I2cMasterBitBang, b: u8)
    requires
        has_pad(m.sda_pin()),
        has_pad(m.scl_pin()),
        m.sda_pin() != m.scl_pin(),
    ensures
        edge_levels(regs, m.write_byte_ops(b), m.scl_pin(), m.sda_pin()).len() == 9,
        edge_levels(regs, m.write_byte_ops(b), m.scl_pin(), m.sda_pin()).take(8) == msb_first(b),
        byte_msb(edge_levels(regs, m.write_byte_ops(b), m.scl_pin(), m.sda_pin())) == b,
{
    let scl = m.scl_pin();
    let sda = m.sda_pin();
    let body = m.send_bits_ops(b, 8);
    let cfg = config_input_ops(sda) + set_pull_ops(sda, Pull::Up) + m.delay_ops();
    let ack = drive_ops(scl, true) + m.delay_ops() + sample_ops(sda) + drive_ops(scl, false)
        + config_output_ops(sda) + m.delay_ops();
    assert(m.write_byte_ops(b) =~= body + (cfg + ack));
    lemma_not_rising(scl, sda);
    lemma_not_rising(scl, scl);
    lemma_addresses(scl);
    assert(forall|i: int| 0 <= i < cfg.len() ==> #[trigger] cfg[i] != rising_edge(scl));
    let after = run(regs, body);
    lemma_edge_append(regs, body, cfg + ack, scl, sda);
    lemma_edge_append(after, cfg, ack, scl, sda);
    lemma_edge_none(after, cfg, scl, sda);
    let rest = m.delay_ops() + sample_ops(sda) + drive_ops(scl, false) + config_output_ops(sda)
        + m.delay_ops();
    assert(forall|i: int| 0 <= i < rest.len() ==> #[trigger] rest[i] != rising_edge(scl));
    assert(ack =~= seq![rising_edge(scl)] + rest);
    lemma_edge_append(run(after, cfg), seq![rising_edge(scl)], rest, scl, sda);
    lemma_edge_none(run(run(after, cfg), seq![rising_edge(scl)]), rest, scl, sda);
    reveal_with_fuel(edge_levels, 2);
    assert(seq![rising_edge(scl)].drop_last() =~= Seq::<Op>::empty());
    assert(edge_levels(run(after, cfg), seq![rising_edge(scl)], scl, sda).len() == 1);
    lemma_i2c_send_edges(regs, m, b, 8);
    assert(msb_first(b).take(8) =~= msb_first(b));
    let e = edge_levels(regs, m.write_byte_ops(b), scl, sda);
    assert(e.take(8) =~= msb_first(b));
    assert(e.len() == 9);
    lemma_msb_round_trip_prefix(e, b);
}

pub(crate) proof fn lemma_msb_round_trip_prefix(e: Seq<bool>, b: u8)
    requires
        e.len() >= 8,
        e.take(8) == msb_first(b),
    ensures
        byte_msb(e) == b,
{
    assert(e[0] == e.take(8)[0]);
    assert(e[1] == e.take(8)[1]);
    assert(e[2] == e.take(8)[2]);
    assert(e[3] == e.take(8)[3]);
    assert(e[4] == e.take(8)[4]);
    assert(e[5] == e.take(8)[5]);
    assert(e[6] == e.take(8)[6]);
    assert(e[7] == e.take(8)[7]);
    lemma_msb_round_trip(b);
}

proof fn lemma_i2c_receive_edges_len(regs: Map<u32, u32>, m: I2cMasterBitBang, n: nat)
    requires
        has_pad(m.sda_pin()),
        has_pad(m.scl_pin()),
    ensures
        edge_levels(regs, m.receive_bits_ops(n), m.scl_pin(), m.sda_pin()).len() == n,
    decreases n,
{
    let scl = m.scl_pin();
    let sda = m.sda_pin();
    if n == 0 {
        assert(m.receive_bits_ops(0) =~= Seq::<Op>::empty());
    } else {
        let prev = m.receive_bits_ops((n - 1) as nat);
        let rest = m.delay_ops() + sample_ops(sda) + drive_ops(scl, false) + m.delay_ops();
        let bit = seq![rising_edge(scl)] + rest;
        assert(m.receive_bits_ops(n) =~= prev + bit);
        lemma_i2c_receive_edges_len(regs, m, (n - 1) as nat);
        lemma_edge_append(regs, prev, bit, scl, sda);
        let r = run(regs, prev);
        lemma_edge_append(r, seq![rising_edge(scl)], rest, scl, sda);
        lemma_not_rising(scl, scl);
        lemma_addresses(scl);
        assert(forall|i: int| 0 <= i < rest.len() ==> #[trigger] rest[i] != rising_edge(scl));
        lemma_edge_none(run(r, seq![rising_edge(scl)]), rest, scl, sda);
        reveal_with_fuel(edge_levels, 2);
        assert(seq![rising_edge(scl)].drop_last() =~= Seq::<Op>::empty());
    }
}

/// I2C, master receiving: a transmitter that latches SDA on each rising SCL
/// edge sees nine clocks for a byte the master reads, and on the ninth the
/// master holds SDA low exactly when it acknowledges.
pub proof fn lemma_i2c_read_byte_acknowledge(regs: Map<u32, u32>, m: I2cMasterBitBang, ack: bool)
    requires
        has_pad(m.sda_pin()),
        has_pad(m.scl_pin()),
        m.sda_pin() != m.scl_pin(),
    ensures
        edge_levels(regs, m.read_byte_ops(ack), m.scl_pin(), m.sda_pin()).len() == 9,
        edge_levels(regs, m.read_byte_ops(ack), m.scl_pin(), m.sda_pin())[8] == !ack,
{
    let scl = m.scl_pin();
    let sda = m.sda_pin();
    let cfg = config_input_ops(sda) + set_pull_ops(sda, Pull::Up);
    let body = m.receive_bits_ops(8);
    let rest = m.delay_ops() + drive_ops(scl, false) + m.delay_ops();
    let last = drive_ops(sda, !ack) + config_output_ops(sda) + seq![m.delay_ops()[0]] + drive_ops(
        scl,
        true,
    ) + rest;
    assert(m.read_byte_ops(ack) =~= cfg + body + last);
    lemma_not_rising(scl, sda);
    lemma_not_rising(scl, scl);
    lemma_addresses(scl);
    assert(forall|i: int| 0 <= i < cfg.len() ==> #[trigger] cfg[i] != rising_edge(scl));
    assert(forall|i: int| 0 <= i < rest.len() ==> #[trigger] rest[i] != rising_edge(scl));
    lemma_edge_append(regs, cfg + body, last, scl, sda);
    lemma_edge_append(regs, cfg, body, scl, sda);
    lemma_edge_none(regs, cfg, scl, sda);
    lemma_i2c_receive_edges_len(run(regs, cfg), m, 8);
    lemma_output_period_edge(run(regs, cfg + body), sda, scl, !ack, m.delay_ops()[0], rest);
}

/// A clock period in which the data pin is set to `level`, turned into an
/// output, and a delay passes before the clock rises: the receiver latches
/// `level`.
proof fn lemma_output_period_edge(
    regs: Map<u32, u32>,
    data: u8,
    clk: u8,
    level: bool,
    d: Op,
    rest: Seq<Op>,
)
    requires
        has_pad(data),
        has_pad(clk),
        data != clk,
        d is Delay,
        forall|i: int| 0 <= i < rest.len() ==> #[trigger] rest[i] != rising_edge(clk),
    ensures
        edge_levels(
            regs,
            drive_ops(data, level) + config_output_ops(data) + seq![d] + drive_ops(clk, true) + rest,
            clk,
            data,
        ) == seq![level],
{
    let pre = drive_ops(data, level) + config_output_ops(data) + seq![d];
    let post = seq![rising_edge(clk)] + rest;
    assert(drive_ops(data, level) + config_output_ops(data) + seq![d] + drive_ops(clk, true) + rest
        =~= pre + post);
    lemma_not_rising(clk, data);
    assert(forall|i: int| 0 <= i < pre.len() ==> #[trigger] pre[i] != rising_edge(clk));
    lemma_edge_append(regs, pre, post, clk, data);
    lemma_edge_none(regs, pre, clk, data);
    let r = run(regs, pre);
    lemma_edge_append(r, seq![rising_edge(clk)], rest, clk, data);
    lemma_edge_none(run(r, seq![rising_edge(clk)]), rest, clk, data);
    reveal_with_fuel(edge_levels, 2);
    assert(seq![rising_edge(clk)].drop_last() =~= Seq::<Op>::empty());
    let r1 = run(regs, drive_ops(data, level));
    let r2 = run(r1, config_output_ops(data));
    lemma_run_append(regs, drive_ops(data, level) + config_output_ops(data), seq![d]);
    lemma_run_append(regs, drive_ops(data, level), config_output_ops(data));
    lemma_run_one(r2, seq![d]);
    lemma_level_after_drive(regs, data, level, data);
    lemma_config_output(r1, data);
    assert(output_level(r, data) == level);
}

/// I2C master: whatever it writes or reads, SDA, held as an output pin, is an
/// output again at the end: its output driver is on and its input buffer off.
pub proof fn lemma_i2c_sda_stays_output(regs: Map<u32, u32>, m: I2cMasterBitBang, b: u8, ack: bool)
    requires
        has_pad(m.sda_pin()),
        has_pad(m.scl_pin()),
        m.sda_pin() != m.scl_pin(),
    ensures
        output_enabled(run(regs, m.write_byte_ops(b)), m.sda_pin()),
        pad(run(regs, m.write_byte_ops(b)), m.sda_pin()) & FUN_IE == 0,
        output_enabled(run(regs, m.read_byte_ops(ack)), m.sda_pin()),
        pad(run(regs, m.read_byte_ops(ack)), m.sda_pin()) & FUN_IE == 0,
{
    let scl = m.scl_pin();
    let sda = m.sda_pin();
    let co = config_output_ops(sda);
    let d = m.delay_ops();
    // write_byte: everything before the final output configuration, then it, then a delay.
    let wx = m.send_bits_ops(b, 8) + config_input_ops(sda) + set_pull_ops(sda, Pull::Up)
        + d + drive_ops(scl, true) + d + sample_ops(sda) + drive_ops(scl, false);
    assert(m.write_byte_ops(b) =~= wx + co + d);
    lemma_run_append(regs, wx + co, d);
    lemma_run_append(regs, wx, co);
    lemma_config_output(run(regs, wx), sda);
    lemma_run_one(run(regs, wx + co), d);
    // read_byte: the output configuration, a delay, then one SCL pulse.
    let rx = config_input_ops(sda) + set_pull_ops(sda, Pull::Up) + m.receive_bits_ops(8)
        + drive_ops(sda, !ack);
    let r0 = run(regs, rx + co);
    lemma_run_append(regs, rx, co);
    lemma_config_output(run(regs, rx), sda);
    let h = drive_ops(scl, true);
    let l = drive_ops(scl, false);
    assert(m.read_byte_ops(ack) =~= (rx + co) + (((d + h) + d + l) + d));
    lemma_run_append(regs, rx + co, ((d + h) + d + l) + d);
    lemma_run_append(r0, (d + h) + d + l, d);
    lemma_run_append(r0, (d + h) + d, l);
    lemma_run_append(r0, d + h, d);
    lemma_run_append(r0, d, h);
    lemma_run_one(r0, d);
    let r1 = run(r0, d + h);
    lemma_drive(r0, scl, true);
    lemma_run_one(r1, d);
    lemma_drive(r1, scl, false);
    let r2 = run(r0, (d + h) + d + l);
    lemma_run_one(r2, d);
    assert(has_pad(sda));
}

/// The level that `op` drives `pin` to, if it drives it.
pub open spec fn driven_by(op: Op, pin: u8) -> Option<bool> {
    if op == set_high_ops(pin)[0] {
        Some(true)
    } else if op == set_low_ops(pin)[0] {
        Some(false)
    } else {
        None
    }
}

/// The levels that `ops` drive `pin` to, in order: the waveform of the pin.
pub open spec fn driven_levels(ops: Seq<Op>, pin: u8) -> Seq<bool>
    decreases ops.len(),
{
    if ops.len() == 0 {
        Seq::empty()
    } else {
        driven_levels(ops.drop_last(), pin) + match driven_by(ops.last(), pin) {
            Some(level) => seq![level],
            None => Seq::empty(),
        }
    }
}

proof fn lemma_driven_append(a: Seq<Op>, b: Seq<Op>, pin: u8)
    ensures
        driven_levels(a + b, pin) == driven_levels(a, pin) + driven_levels(b, pin),
    decreases b.len(),
{
    if b.len() == 0 {
        assert(a + b =~= a);
        assert(driven_levels(a, pin) + driven_levels(b, pin) =~= driven_levels(a, pin));
    } else {
        assert((a + b).drop_last() =~= a + b.drop_last());
        lemma_driven_append(a, b.drop_last(), pin);
        assert(driven_levels(a + b, pin) =~= driven_levels(a, pin) + driven_levels(b, pin));
    }
}

/// Driving a pin and then waiting shows exactly that level on the pin.
proof fn lemma_driven_step(pin: u8, level: bool, d: Seq<Op>)
    requires
        has_pad(pin),
        d.len() == 1,
        d[0] is Delay,
    ensures
        driven_levels(drive_ops(pin, level) + d, pin) == seq![level],
{
    lemma_addresses(pin);
    lemma_bank_bit(pin);
    lemma_driven_append(drive_ops(pin, level), d, pin);
    reveal_with_fuel(driven_levels, 2);
    assert(drive_ops(pin, level).drop_last() =~= Seq::<Op>::empty());
    assert(d.drop_last() =~= Seq::<Op>::empty());
    assert(driven_levels(drive_ops(pin, level) + d, pin) =~= seq![level]);
}

proof fn lemma_uart_data_levels(uart: UartBitBang, b: u8, n: nat)
    requires
        has_pad(uart.tx_pin()),
        n <= 8,
    ensures
        driven_levels(uart.data_ops(b, n), uart.tx_pin()) == lsb_first(b).take(n as int),
    decreases n,
{
    if n == 0 {
        assert(uart.data_ops(b, 0) =~= Seq::<Op>::empty());
        assert(lsb_first(b).take(0) =~= Seq::<bool>::empty());
    } else {
        let prev = uart.data_ops(b, (n - 1) as nat);
        let level = lsb_first(b)[n - 1];
        lemma_uart_data_levels(uart, b, (n - 1) as nat);
        assert(uart.data_ops(b, n) =~= prev + (drive_ops(uart.tx_pin(), level) + uart.delay_ops()));
        lemma_driven_append(prev, drive_ops(uart.tx_pin(), level) + uart.delay_ops(), uart.tx_pin());
        lemma_driven_step(uart.tx_pin(), level, uart.delay_ops());
        assert(lsb_first(b).take(n as int) =~= lsb_first(b).take(n - 1).push(level));
    }
}

/// UART frame: the levels that sending `b` puts on TX are a start bit (low),
/// the eight bits of `b` least significant first, and a stop bit (high); a
/// receiver reading the data bits least significant first gets `b`.
pub proof fn lemma_uart_frame(uart: UartBitBang, b: u8)
    requires
        has_pad(uart.tx_pin()),
    ensures
        driven_levels(uart.write_byte_ops(b), uart.tx_pin()) == seq![false] + lsb_first(b)
            + seq![true],
        byte_lsb(driven_levels(uart.write_byte_ops(b), uart.tx_pin()).subrange(1, 9)) == b,
{
    let tx = uart.tx_pin();
    let start = drive_ops(tx, false) + uart.delay_ops();
    let data = uart.data_ops(b, 8);
    let stop = drive_ops(tx, true) + uart.delay_ops();
    assert(uart.write_byte_ops(b) =~= start + data + stop);
    lemma_driven_append(start + data, stop, tx);
    lemma_driven_append(start, data, tx);
    lemma_driven_step(tx, false, uart.delay_ops());
    lemma_driven_step(tx, true, uart.delay_ops());
    lemma_uart_data_levels(uart, b, 8);
    assert(lsb_first(b).take(8) =~= lsb_first(b));
    let l = driven_levels(uart.write_byte_ops(b), tx);
    assert(l =~= seq![false] + lsb_first(b) + seq![true]);
    assert(l.subrange(1, 9) =~= lsb_first(b));
    lemma_lsb_round_trip(b);
}

/// Time that `ops` take, in spin iterations: the sum of their delays; the
/// other operations take no time, and a wait ends at the start of the event
/// it waits for.
pub open spec fn elapsed(ops: Seq<Op>) -> nat
    decreases ops.len(),
{
    if ops.len() == 0 {
        0
    } else {
        elapsed(ops.drop_last()) + match ops.last() {
            Op::Delay { cycles } => cycles as nat,
            _ => 0nat,
        }
    }
}

/// The times, from the start of `ops`, at which its samples are taken.
pub open spec fn sample_times(ops: Seq<Op>) -> Seq<nat>
    decreases ops.len(),
{
    if ops.len() == 0 {
        Seq::empty()
    } else {
        sample_times(ops.drop_last()) + match ops.last() {
            Op::Sample { .. } => seq![elapsed(ops.drop_last())],
            _ => Seq::empty(),
        }
    }
}

/// The waveform that `ops` put on `pin`: one segment per drive of the pin,
/// with its level and how long it lasts until the next drive or the end.
pub open spec fn segments(ops: Seq<Op>, pin: u8) -> Seq<(bool, nat)>
    decreases ops.len(),
{
    if ops.len() == 0 {
        Seq::empty()
    } else {
        let s = segments(ops.drop_last(), pin);
        match driven_by(ops.last(), pin) {
            Some(level) => s.push((level, 0nat)),
            None => match ops.last() {
                Op::Delay { cycles } => if s.len() > 0 {
                    s.update(s.len() - 1, (s.last().0, (s.last().1 + cycles) as nat))
                } else {
                    s
                },
                _ => s,
            },
        }
    }
}

/// The level of a waveform at time `t` from its start.
pub open spec fn level_at(segs: Seq<(bool, nat)>, t: nat) -> bool
    decreases segs.len(),
{
    if segs.len() == 0 {
        false
    } else if t < segs[0].1 {
        segs[0].0
    } else {
        level_at(segs.drop_first(), (t - segs[0].1) as nat)
    }
}

pub(crate) proof fn lemma_elapsed_append(a: Seq<Op>, b: Seq<Op>)
    ensures
        elapsed(a + b) == elapsed(a) + elapsed(b),
    decreases b.len(),
{
    if b.len() == 0 {
        assert(a + b =~= a);
    } else {
        assert((a + b).drop_last() =~= a + b.drop_last());
        lemma_elapsed_append(a, b.drop_last());
    }
}

proof fn lemma_sample_times_append(a: Seq<Op>, b: Seq<Op>)
    ensures
        sample_times(a + b) == sample_times(a) + sample_times(b).map_values(
            |x: nat| x + elapsed(a),
        ),
    decreases b.len(),
{
    if b.len() == 0 {
        assert(a + b =~= a);
        assert(sample_times(a) + sample_times(b).map_values(|x: nat| x + elapsed(a)) =~= sample_times(
            a,
        ));
    } else {
        assert((a + b).drop_last() =~= a + b.drop_last());
        lemma_sample_times_append(a, b.drop_last());
        lemma_elapsed_append(a, b.drop_last());
        assert(sample_times(a + b) =~= sample_times(a) + sample_times(b).map_values(
            |x: nat| x + elapsed(a),
        ));
    }
}

proof fn lemma_segments_nonempty(b: Seq<Op>, pin: u8)
    requires
        b.len() > 0,
        driven_by(b[0], pin) is Some,
    ensures
        segments(b, pin).len() > 0,
    decreases b.len(),
{
    if b.len() > 1 {
        lemma_segments_nonempty(b.drop_last(), pin);
    } else {
        assert(b.drop_last() =~= Seq::<Op>::empty());
    }
}

/// A program that starts by driving `pin` starts a new waveform segment.
proof fn lemma_segments_append(a: Seq<Op>, b: Seq<Op>, pin: u8)
    requires
        b.len() > 0,
        driven_by(b[0], pin) is Some,
    ensures
        segments(a + b, pin) == segments(a, pin) + segments(b, pin),
    decreases b.len(),
{
    if b.len() == 1 {
        assert((a + b).drop_last() =~= a);
        assert(b.drop_last() =~= Seq::<Op>::empty());
        assert(segments(a + b, pin) =~= segments(a, pin) + segments(b, pin));
    } else {
        let bp = b.drop_last();
        assert((a + b).drop_last() =~= a + bp);
        lemma_segments_append(a, bp, pin);
        lemma_segments_nonempty(bp, pin);
        assert(segments(a + b, pin) =~= segments(a, pin) + segments(b, pin));
    }
}

/// Driving `pin` to `level` and waiting `c` cycles is one segment.
proof fn lemma_segment_step(pin: u8, level: bool, c: u32)
    requires
        has_pad(pin),
    ensures
        segments(drive_ops(pin, level) + seq![Op::Delay { cycles: c }], pin) == seq![(level, c as nat)],
        driven_by((drive_ops(pin, level) + seq![Op::Delay { cycles: c }])[0], pin) == Some(level),
{
    lemma_addresses(pin);
    lemma_bank_bit(pin);
    let ops = drive_ops(pin, level) + seq![Op::Delay { cycles: c }];
    assert(ops.drop_last() =~= drive_ops(pin, level));
    assert(drive_ops(pin, level).drop_last() =~= Seq::<Op>::empty());
    reveal_with_fuel(segments, 3);
    assert(segments(ops, pin) =~= seq![(level, c as nat)]);
}

proof fn lemma_uart_data_segments(uart: UartBitBang, b: u8, n: nat)
    requires
        has_pad(uart.tx_pin()),
        1 <= n <= 8,
    ensures
        segments(uart.data_ops(b, n), uart.tx_pin()) == Seq::new(
            n,
            |k: int| (lsb_first(b)[k], uart.delay_cycles() as nat),
        ),
        driven_by(uart.data_ops(b, n)[0], uart.tx_pin()) is Some,
    decreases n,
{
    let tx = uart.tx_pin();
    let c = uart.delay_cycles();
    let level = lsb_first(b)[n - 1];
    let step = drive_ops(tx, level) + seq![Op::Delay { cycles: c }];
    lemma_segment_step(tx, level, c);
    assert(uart.delay_ops() =~= seq![Op::Delay { cycles: c }]);
    if n == 1 {
        assert(uart.data_ops(b, 0) =~= Seq::<Op>::empty());
        assert(uart.data_ops(b, 1) =~= step);
        assert(segments(uart.data_ops(b, n), tx) =~= Seq::new(
            n,
            |k: int| (lsb_first(b)[k], c as nat),
        ));
    } else {
        let prev = uart.data_ops(b, (n - 1) as nat);
        lemma_uart_data_segments(uart, b, (n - 1) as nat);
        assert(uart.data_ops(b, n) =~= prev + step);
        lemma_segments_append(prev, step, tx);
        assert(uart.data_ops(b, n)[0] == prev[0]);
        assert(segments(uart.data_ops(b, n), tx) =~= Seq::new(
            n,
            |k: int| (lsb_first(b)[k], c as nat),
        ));
    }
}

/// The waveform of a UART frame: ten segments of one bit time each, the
/// start bit, the data bits least significant first, and the stop bit.
pub open spec fn frame_waveform(b: u8, c: u32) -> Seq<(bool, nat)> {
    Seq::new(
        10,
        |k: int|
            (if k == 0 {
                false
            } else if k == 9 {
                true
            } else {
                lsb_first(b)[k - 1]
            }, c as nat),
    )
}

/// Sending `b` puts the frame waveform on TX.
pub proof fn lemma_uart_waveform(uart: UartBitBang, b: u8)
    requires
        has_pad(uart.tx_pin()),
    ensures
        segments(uart.write_byte_ops(b), uart.tx_pin()) == frame_waveform(b, uart.delay_cycles()),
{
    let tx = uart.tx_pin();
    let c = uart.delay_cycles();
    assert(uart.delay_ops() =~= seq![Op::Delay { cycles: c }]);
    let start = drive_ops(tx, false) + seq![Op::Delay { cycles: c }];
    let stop = drive_ops(tx, true) + seq![Op::Delay { cycles: c }];
    let data = uart.data_ops(b, 8);
    assert(uart.write_byte_ops(b) =~= start + data + stop);
    lemma_segment_step(tx, false, c);
    lemma_segment_step(tx, true, c);
    lemma_uart_data_segments(uart, b, 8);
    lemma_segments_append(start, data, tx);
    lemma_segments_append(start + data, stop, tx);
    assert(segments(uart.write_byte_ops(b), tx) =~= frame_waveform(b, c));
}

/// The level of a waveform of equal segments of `c` cycles at time `t` is the
/// level of segment `t / c`.
proof fn lemma_level_at_uniform(segs: Seq<(bool, nat)>, c: nat, t: nat)
    requires
        c > 0,
        t < segs.len() * c,
        forall|k: int| 0 <= k < segs.len() ==> #[trigger] segs[k].1 == c,
    ensures
        t / c < segs.len(),
        level_at(segs, t) == segs[(t / c) as int].0,
    decreases segs.len(),
{
    assert(segs.len() > 0) by (nonlinear_arith)
        requires
            t < segs.len() * c,
    ;
    if t < c {
        assert(t / c == 0) by (nonlinear_arith)
            requires
                t < c,
                c > 0,
        ;
    } else {
        let rest = segs.drop_first();
        assert(((t - c) as nat) < rest.len() * c) by (nonlinear_arith)
            requires
                t < segs.len() * c,
                rest.len() == segs.len() - 1,
                t >= c,
        ;
        lemma_level_at_uniform(rest, c, (t - c) as nat);
        assert(((t - c) as nat) / c + 1 == t / c) by (nonlinear_arith)
            requires
                t >= c,
                c > 0,
        ;
    }
}

proof fn lemma_receive_times(uart: UartBitBang, n: nat)
    ensures
        elapsed(uart.receive_bits_ops(n)) == n * uart.delay_cycles(),
        sample_times(uart.receive_bits_ops(n)) == Seq::new(
            n,
            |i: int| ((i + 1) * uart.delay_cycles()) as nat,
        ),
    decreases n,
{
    let c = uart.delay_cycles();
    if n == 0 {
        assert(uart.receive_bits_ops(0) =~= Seq::<Op>::empty());
        assert(sample_times(uart.receive_bits_ops(0)) =~= Seq::new(
            0,
            |i: int| ((i + 1) * c) as nat,
        ));
    } else {
        let prev = uart.receive_bits_ops((n - 1) as nat);
        let step = uart.delay_ops() + sample_ops(uart.rx_pin());
        lemma_receive_times(uart, (n - 1) as nat);
        assert(uart.receive_bits_ops(n) =~= prev + step);
        lemma_elapsed_append(prev, step);
        lemma_sample_times_append(prev, step);
        let s1 = uart.delay_ops();
        assert(step.drop_last() =~= s1);
        assert(s1.drop_last() =~= Seq::<Op>::empty());
        reveal_with_fuel(elapsed, 3);
        reveal_with_fuel(sample_times, 3);
        assert(elapsed(step) == c);
        assert(sample_times(step) =~= seq![c as nat]);
        assert((n - 1) * c + c == n * c) by (nonlinear_arith);
        assert(sample_times(uart.receive_bits_ops(n)) =~= Seq::new(
            n,
            |i: int| ((i + 1) * c) as nat,
        ));
    }
}

/// UART reception: when a receiver's wait for the start bit ends as a
/// sender's frame begins, and both have the same bit time of at least one
/// cycle, the receiver samples each data bit of the frame in it (half a bit
/// time after its start), so the byte it reads is the byte sent.
pub proof fn lemma_uart_receives_frame(sender: UartBitBang, receiver: UartBitBang, b: u8)
    requires
        has_pad(sender.tx_pin()),
        sender.delay_cycles() == receiver.delay_cycles(),
        sender.delay_cycles() > 0,
    ensures
        ({
            let w = segments(sender.write_byte_ops(b), sender.tx_pin());
            let ts = sample_times(receiver.read_byte_ops());
            &&& ts.len() == 8
            &&& forall|i: int| 0 <= i < 8 ==> level_at(w, #[trigger] ts[i]) == lsb_first(b)[i]
            &&& byte_lsb(Seq::new(8, |i: int| level_at(w, ts[i]))) == b
        }),
{
    let c = receiver.delay_cycles();
    let w = segments(sender.write_byte_ops(b), sender.tx_pin());
    lemma_uart_waveform(sender, b);
    let head = seq![
        Op::WaitFor {
            addr: in_reg(receiver.rx_pin()),
            mask: bank_bit(receiver.rx_pin()),
            high: false,
        },
    ] + receiver.half_delay_ops();
    let body = receiver.receive_bits_ops(8);
    let ops = receiver.read_byte_ops();
    assert(ops =~= head + body + receiver.delay_ops());
    lemma_sample_times_append(head + body, receiver.delay_ops());
    lemma_sample_times_append(head, body);
    lemma_elapsed_append(head, body);
    lemma_receive_times(receiver, 8);
    reveal_with_fuel(elapsed, 3);
    reveal_with_fuel(sample_times, 3);
    assert(head.drop_last().drop_last() =~= Seq::<Op>::empty());
    assert(receiver.delay_ops().drop_last() =~= Seq::<Op>::empty());
    assert(elapsed(head) == c / 2);
    assert(sample_times(head) =~= Seq::<nat>::empty());
    assert(sample_times(receiver.delay_ops()) =~= Seq::<nat>::empty());
    let ts = sample_times(ops);
    assert(ts =~= Seq::new(8, |i: int| (c / 2 + (i + 1) * c) as nat));
    assert forall|i: int| 0 <= i < 8 implies level_at(w, #[trigger] ts[i]) == lsb_first(b)[i] by {
        let t = (c / 2 + (i + 1) * c) as nat;
        assert(t < 10 * c && t / (c as nat) == i + 1) by (nonlinear_arith)
            requires
                t == c / 2 + (i + 1) * c,
                0 <= i < 8,
                c > 0,
        ;
        lemma_level_at_uniform(w, c as nat, t);
    }
    let got = Seq::new(8, |i: int| level_at(w, ts[i]));
    assert(got =~= lsb_first(b));
    lemma_lsb_round_trip(b);
}

/// The operation that lowers the clock line `clk`.
pub open spec fn falling_edge(clk: u8) -> Op {
    set_low_ops(clk)[0]
}

/// The levels that `data` is driven to at each lowering of `clk` while `ops`
/// run from `regs`: the end of each high phase of the clock.
pub open spec fn fall_levels(regs: Map<u32, u32>, ops: Seq<Op>, clk: u8, data: u8) -> Seq<bool>
    decreases ops.len(),
{
    if ops.len() == 0 {
        Seq::empty()
    } else {
        let prev = ops.drop_last();
        fall_levels(regs, prev, clk, data) + if ops.last() == falling_edge(clk) {
            seq![output_level(run(regs, prev), data)]
        } else {
            Seq::empty()
        }
    }
}

proof fn lemma_fall_append(regs: Map<u32, u32>, a: Seq<Op>, b: Seq<Op>, clk: u8, data: u8)
    ensures
        fall_levels(regs, a + b, clk, data) == fall_levels(regs, a, clk, data) + fall_levels(
            run(regs, a),
            b,
            clk,
            data,
        ),
    decreases b.len(),
{
    if b.len() == 0 {
        assert(a + b =~= a);
        assert(fall_levels(regs, a, clk, data) + fall_levels(run(regs, a), b, clk, data)
            =~= fall_levels(regs, a, clk, data));
    } else {
        assert((a + b).drop_last() =~= a + b.drop_last());
        lemma_fall_append(regs, a, b.drop_last(), clk, data);
        lemma_run_append(regs, a, b.drop_last());
        assert(fall_levels(regs, a + b, clk, data) =~= fall_levels(regs, a, clk, data)
            + fall_levels(run(regs, a), b, clk, data));
    }
}

proof fn lemma_fall_none(regs: Map<u32, u32>, ops: Seq<Op>, clk: u8, data: u8)
    requires
        forall|i: int| 0 <= i < ops.len() ==> #[trigger] ops[i] != falling_edge(clk),
    ensures
        fall_levels(regs, ops, clk, data) == Seq::<bool>::empty(),
    decreases ops.len(),
{
    if ops.len() > 0 {
        lemma_fall_none(regs, ops.drop_last(), clk, data);
        assert(ops[ops.len() - 1] != falling_edge(clk));
        assert(fall_levels(regs, ops, clk, data) =~= Seq::<bool>::empty());
    }
}

/// Lowering a clock is not driving another pin, raising any output, or
/// touching a pad or an output enable.
proof fn lemma_not_falling(clk: u8, pin: u8)
    requires
        has_pad(clk),
        has_pad(pin),
    ensures
        drive_ops(pin, true)[0] != falling_edge(clk),
        pin != clk ==> drive_ops(pin, false)[0] != falling_edge(clk),
        config_input_ops(pin)[0] != falling_edge(clk),
        config_input_ops(pin)[1] != falling_edge(clk),
        config_output_ops(pin)[0] != falling_edge(clk),
        config_output_ops(pin)[1] != falling_edge(clk),
        forall|p: Pull| #[trigger] set_pull_ops(pin, p)[0] != falling_edge(clk),
{
    lemma_addresses(clk);
    lemma_addresses(pin);
    lemma_bank_bit(clk);
    lemma_bank_bit(pin);
    lemma_bit_ops(0, bank_index(clk), bank_index(pin));
}

/// One sent bit: data set, a delay, clock high, a delay, clock low, a delay;
/// at the end of the high phase the data line still holds the bit.
proof fn lemma_send_bit_fall(regs: Map<u32, u32>, data: u8, clk: u8, level: bool, d: Op)
    requires
        has_pad(data),
        has_pad(clk),
        data != clk,
        d is Delay,
    ensures
        fall_levels(
            regs,
            drive_ops(data, level) + seq![d] + drive_ops(clk, true) + seq![d] + drive_ops(clk, false)
                + seq![d],
            clk,
            data,
        ) == seq![level],
{
    let pre = drive_ops(data, level) + seq![d] + drive_ops(clk, true) + seq![d];
    let post = seq![falling_edge(clk)] + seq![d];
    assert(drive_ops(data, level) + seq![d] + drive_ops(clk, true) + seq![d] + drive_ops(clk, false)
        + seq![d] =~= pre + post);
    lemma_not_falling(clk, data);
    lemma_not_falling(clk, clk);
    lemma_addresses(clk);
    assert(forall|i: int| 0 <= i < pre.len() ==> #[trigger] pre[i] != falling_edge(clk));
    assert(forall|i: int| 0 <= i < seq![d].len() ==> #[trigger] seq![d][i] != falling_edge(clk));
    lemma_fall_append(regs, pre, post, clk, data);
    lemma_fall_none(regs, pre, clk, data);
    let r = run(regs, pre);
    lemma_fall_append(r, seq![falling_edge(clk)], seq![d], clk, data);
    lemma_fall_none(run(r, seq![falling_edge(clk)]), seq![d], clk, data);
    reveal_with_fuel(fall_levels, 2);
    assert(seq![falling_edge(clk)].drop_last() =~= Seq::<Op>::empty());
    // The level of `data` along `pre`.
    let a = drive_ops(data, level);
    let r1 = run(regs, a);
    let r2 = run(r1, seq![d]);
    let r3 = run(r2, drive_ops(clk, true));
    lemma_run_append(regs, a + seq![d] + drive_ops(clk, true), seq![d]);
    lemma_run_append(regs, a + seq![d], drive_ops(clk, true));
    lemma_run_append(regs, a, seq![d]);
    lemma_run_one(r1, seq![d]);
    lemma_run_one(r3, seq![d]);
    lemma_level_after_drive(regs, data, level, data);
    lemma_level_after_drive(r2, clk, true, data);
    assert(output_level(r, data) == level);
}

proof fn lemma_i2c_send_falls(regs: Map<u32, u32>, m: I2cMasterBitBang, b: u8, n: nat)
    requires
        has_pad(m.sda_pin()),
        has_pad(m.scl_pin()),
        m.sda_pin() != m.scl_pin(),
        n <= 8,
    ensures
        fall_levels(regs, m.send_bits_ops(b, n), m.scl_pin(), m.sda_pin()) == msb_first(b).take(
            n as int,
        ),
    decreases n,
{
    let scl = m.scl_pin();
    let sda = m.sda_pin();
    if n == 0 {
        assert(m.send_bits_ops(b, 0) =~= Seq::<Op>::empty());
        assert(msb_first(b).take(0) =~= Seq::<bool>::empty());
    } else {
        let prev = m.send_bits_ops(b, (n - 1) as nat);
        let level = msb_first(b)[n - 1];
        let d = m.delay_ops()[0];
        let bit = drive_ops(sda, level) + seq![d] + drive_ops(scl, true) + seq![d] + drive_ops(
            scl,
            false,
        ) + seq![d];
        lemma_i2c_send_falls(regs, m, b, (n - 1) as nat);
        assert(m.send_bits_ops(b, n) =~= prev + bit);
        lemma_fall_append(regs, prev, bit, scl, sda);
        lemma_send_bit_fall(run(regs, prev), sda, scl, level, d);
        assert(msb_first(b).take(n as int) =~= msb_first(b).take(n - 1).push(level));
    }
}

/// I2C, master to slave: while the master writes `b`, SDA holds each data
/// bit through the whole high phase of its clock: the level at the rising
/// edge and the level at the falling edge of each of the first eight clocks
/// are the bits of `b`, most significant first (nothing drives SDA between
/// the two edges). A slave that samples SDA during each high phase, after SCL
/// rises and before it falls, as `I2cSlaveBitBang::read_data` does, reads `b`.
pub proof fn lemma_i2c_master_holds_bits(regs: Map<u32, u32>, m: I2cMasterBitBang, b: u8)
    requires
        has_pad(m.sda_pin()),
        has_pad(m.scl_pin()),
        m.sda_pin() != m.scl_pin(),
    ensures
        fall_levels(regs, m.write_byte_ops(b), m.scl_pin(), m.sda_pin()).len() == 9,
        fall_levels(regs, m.write_byte_ops(b), m.scl_pin(), m.sda_pin()).take(8) == msb_first(b),
        edge_levels(regs, m.write_byte_ops(b), m.scl_pin(), m.sda_pin()).take(8) == msb_first(b),
        byte_msb(fall_levels(regs, m.write_byte_ops(b), m.scl_pin(), m.sda_pin())) == b,
{
    let scl = m.scl_pin();
    let sda = m.sda_pin();
    lemma_i2c_write_byte_edges(regs, m, b);
    let body = m.send_bits_ops(b, 8);
    let cfg = config_input_ops(sda) + set_pull_ops(sda, Pull::Up) + m.delay_ops()
        + drive_ops(scl, true) + m.delay_ops() + sample_ops(sda);
    let rest = config_output_ops(sda) + m.delay_ops();
    let tail = cfg + (seq![falling_edge(scl)] + rest);
    assert(m.write_byte_ops(b) =~= body + tail);
    lemma_not_falling(scl, sda);
    lemma_not_falling(scl, scl);
    lemma_addresses(scl);
    lemma_addresses(sda);
    lemma_bank_bit(scl);
    assert(forall|i: int| 0 <= i < cfg.len() ==> #[trigger] cfg[i] != falling_edge(scl));
    assert(forall|i: int| 0 <= i < rest.len() ==> #[trigger] rest[i] != falling_edge(scl));
    let after = run(regs, body);
    lemma_fall_append(regs, body, tail, scl, sda);
    lemma_fall_append(after, cfg, seq![falling_edge(scl)] + rest, scl, sda);
    lemma_fall_none(after, cfg, scl, sda);
    let r = run(after, cfg);
    lemma_fall_append(r, seq![falling_edge(scl)], rest, scl, sda);
    lemma_fall_none(run(r, seq![falling_edge(scl)]), rest, scl, sda);
    reveal_with_fuel(fall_levels, 2);
    assert(seq![falling_edge(scl)].drop_last() =~= Seq::<Op>::empty());
    lemma_i2c_send_falls(regs, m, b, 8);
    assert(msb_first(b).take(8) =~= msb_first(b));
    let f = fall_levels(regs, m.write_byte_ops(b), scl, sda);
    assert(f.take(8) =~= msb_first(b));
    lemma_msb_round_trip_prefix(f, b);
}

/// Driving `pin`, waiting half a bit time, sampling, and waiting the rest of
/// the bit time is one segment of a whole bit time.
proof fn lemma_segment_exchange_step(uart: UartBitBang, level: bool)
    requires
        has_pad(uart.tx_pin()),
    ensures
        ({
            let step = drive_ops(uart.tx_pin(), level) + uart.half_delay_ops() + sample_ops(
                uart.rx_pin(),
            ) + uart.rest_delay_ops();
            &&& segments(step, uart.tx_pin()) == seq![(level, uart.delay_cycles() as nat)]
            &&& driven_by(step[0], uart.tx_pin()) == Some(level)
            &&& elapsed(step) == uart.delay_cycles()
            &&& sample_times(step) == seq![(uart.delay_cycles() / 2) as nat]
        }),
{
    let tx = uart.tx_pin();
    let c = uart.delay_cycles();
    lemma_addresses(tx);
    lemma_bank_bit(tx);
    let o0 = drive_ops(tx, level)[0];
    let o1 = uart.half_delay_ops()[0];
    let o2 = sample_ops(uart.rx_pin())[0];
    let o3 = uart.rest_delay_ops()[0];
    let s0 = Seq::<Op>::empty();
    let s1 = s0.push(o0);
    let s2 = s1.push(o1);
    let s3 = s2.push(o2);
    let s4 = s3.push(o3);
    let step = drive_ops(tx, level) + uart.half_delay_ops() + sample_ops(uart.rx_pin())
        + uart.rest_delay_ops();
    assert(step =~= s4);
    assert(s4.drop_last() =~= s3);
    assert(s3.drop_last() =~= s2);
    assert(s2.drop_last() =~= s1);
    assert(s1.drop_last() =~= s0);
    assert(driven_by(o0, tx) == Some(level));
    assert(driven_by(o1, tx) is None);
    assert(driven_by(o2, tx) is None);
    assert(driven_by(o3, tx) is None);
    reveal_with_fuel(segments, 5);
    reveal_with_fuel(elapsed, 5);
    reveal_with_fuel(sample_times, 5);
    assert(segments(s4, tx) =~= seq![(level, c as nat)]);
    assert(sample_times(s4) =~= seq![(c / 2) as nat]);
}

proof fn lemma_uart_exchange_segments(uart: UartBitBang, b: u8, n: nat)
    requires
        has_pad(uart.tx_pin()),
        1 <= n <= 8,
    ensures
        segments(uart.exchange_bits_ops(b, n), uart.tx_pin()) == Seq::new(
            n,
            |k: int| (lsb_first(b)[k], uart.delay_cycles() as nat),
        ),
        driven_by(uart.exchange_bits_ops(b, n)[0], uart.tx_pin()) is Some,
        elapsed(uart.exchange_bits_ops(b, n)) == n * uart.delay_cycles(),
        sample_times(uart.exchange_bits_ops(b, n)) == Seq::new(
            n,
            |k: int| (k * uart.delay_cycles() + uart.delay_cycles() / 2) as nat,
        ),
    decreases n,
{
    let tx = uart.tx_pin();
    let c = uart.delay_cycles();
    let level = lsb_first(b)[n - 1];
    let step = drive_ops(tx, level) + uart.half_delay_ops() + sample_ops(uart.rx_pin())
        + uart.rest_delay_ops();
    lemma_segment_exchange_step(uart, level);
    if n == 1 {
        assert(uart.exchange_bits_ops(b, 0) =~= Seq::<Op>::empty());
        assert(uart.exchange_bits_ops(b, 1) =~= step);
        assert(segments(uart.exchange_bits_ops(b, n), tx) =~= Seq::new(
            n,
            |k: int| (lsb_first(b)[k], c as nat),
        ));
        assert(sample_times(uart.exchange_bits_ops(b, n)) =~= Seq::new(
            n,
            |k: int| (k * c + c / 2) as nat,
        ));
    } else {
        let prev = uart.exchange_bits_ops(b, (n - 1) as nat);
        lemma_uart_exchange_segments(uart, b, (n - 1) as nat);
        assert(uart.exchange_bits_ops(b, n) =~= prev + step);
        lemma_segments_append(prev, step, tx);
        lemma_elapsed_append(prev, step);
        lemma_sample_times_append(prev, step);
        assert(uart.exchange_bits_ops(b, n)[0] == prev[0]);
        assert((n - 1) * c + c == n * c) by (nonlinear_arith);
        assert(segments(uart.exchange_bits_ops(b, n), tx) =~= Seq::new(
            n,
            |k: int| (lsb_first(b)[k], c as nat),
        ));
        assert(sample_times(uart.exchange_bits_ops(b, n)) =~= Seq::new(
            n,
            |k: int| (k * c + c / 2) as nat,
        ));
    }
}

/// UART full duplex: exchanging `b` puts the same frame waveform on TX as
/// sending it (every bit, start, data and stop, lasts one bit time), and RX
/// is sampled in the middle of each data bit: data bit `i` starts at
/// `(i + 1) * c` and is sampled half a bit time later.
pub proof fn lemma_uart_transfer_waveform(uart: UartBitBang, b: u8)
    requires
        has_pad(uart.tx_pin()),
    ensures
        segments(uart.transfer_byte_ops(b), uart.tx_pin()) == frame_waveform(
            b,
            uart.delay_cycles(),
        ),
        sample_times(uart.transfer_byte_ops(b)) == Seq::new(
            8,
            |i: int| ((i + 1) * uart.delay_cycles() + uart.delay_cycles() / 2) as nat,
        ),
{
    let tx = uart.tx_pin();
    let c = uart.delay_cycles();
    assert(uart.delay_ops() =~= seq![Op::Delay { cycles: c }]);
    let start = drive_ops(tx, false) + seq![Op::Delay { cycles: c }];
    let stop = drive_ops(tx, true) + seq![Op::Delay { cycles: c }];
    let data = uart.exchange_bits_ops(b, 8);
    assert(uart.transfer_byte_ops(b) =~= start + data + stop);
    lemma_segment_step(tx, false, c);
    lemma_segment_step(tx, true, c);
    lemma_uart_exchange_segments(uart, b, 8);
    lemma_segments_append(start, data, tx);
    lemma_segments_append(start + data, stop, tx);
    assert(segments(uart.transfer_byte_ops(b), tx) =~= frame_waveform(b, c));
    lemma_sample_times_append(start + data, stop);
    lemma_sample_times_append(start, data);
    lemma_elapsed_append(start, data);
    reveal_with_fuel(elapsed, 3);
    reveal_with_fuel(sample_times, 3);
    assert(start.drop_last().drop_last() =~= Seq::<Op>::empty());
    assert(stop.drop_last().drop_last() =~= Seq::<Op>::empty());
    assert(elapsed(start) == c);
    assert(sample_times(start) =~= Seq::<nat>::empty());
    assert(sample_times(stop) =~= Seq::<nat>::empty());
    let st = sample_times(uart.transfer_byte_ops(b));
    assert(st =~= sample_times(data).map_values(|x: nat| x + elapsed(start)));
    assert forall|i: int| 0 <= i < 8 implies #[trigger] st[i] == ((i + 1) * c + c / 2) as nat by {
        assert((i + 1) * c == i * c + c) by (nonlinear_arith);
    }
    assert(sample_times(uart.transfer_byte_ops(b)) =~= Seq::new(
        8,
        |i: int| ((i + 1) * c + c / 2) as nat,
    ));
}


/// The pull that an input routing leaves on its pad, spelled out: the
/// pull-up bit is on exactly for `Pull::Up`, the pull-down bit exactly for
/// `Pull::Down`.
proof fn lemma_pull_spelled_out(v: u32, pull: Pull)
    requires
        v & pull_mask() == pull_bits(pull),
    ensures
        (v & FUN_WPU != 0) <==> (pull is Up),
        (v & FUN_WPD != 0) <==> (pull is Down),
{
    lemma_pull_bits(pull);
    lemma_constants();
    assert(v & 0x180u32 == 0x100u32 ==> v & 0x100u32 != 0 && v & 0x80u32 == 0) by (bit_vector);
    assert(v & 0x180u32 == 0x80u32 ==> v & 0x100u32 == 0 && v & 0x80u32 != 0) by (bit_vector);
    assert(v & 0x180u32 == 0u32 ==> v & 0x100u32 == 0 && v & 0x80u32 == 0) by (bit_vector);
}

/// After the SPI peripheral routing has run, from any register file, the
/// MISO pad carries exactly the pull that was asked for (pull-up on exactly
/// for `Pull::Up`, pull-down on exactly for `Pull::Down`), has its input
/// buffer on and its output driver off, and SPID reads MISO.
pub proof fn lemma_spi_periph_miso(regs: Map<u32, u32>, mosi: u8, miso: u8, clk: u8, cs: u8, pull: Pull)
    requires
        has_pad(mosi),
        has_pad(miso),
        has_pad(clk),
        has_pad(cs),
    ensures
        ({
            let t = run(regs, spi_periph_ops(mosi, miso, clk, cs, pull));
            &&& pad(t, miso) & pull_mask() == pull_bits(pull)
            &&& (pad(t, miso) & FUN_WPU != 0) <==> (pull is Up)
            &&& (pad(t, miso) & FUN_WPD != 0) <==> (pull is Down)
            &&& pad(t, miso) & FUN_IE == FUN_IE
            &&& pad(t, miso) & MCU_SEL_MASK == MCU_SEL_GPIO
            &&& !output_enabled(t, miso)
            &&& t[in_sel_reg(2)] == 0x8000_0000u32 | (miso as u32)
        }),
{
    let outs = output_signal_ops(mosi, 1, false, 0) + output_signal_ops(clk, 0, false, 0)
        + output_signal_ops(cs, 5, false, 0);
    let input = input_signal_ops(miso, 2, pull);
    assert(spi_periph_ops(mosi, miso, clk, cs, pull) == outs + input);
    lemma_run_append(regs, outs, input);
    lemma_peripheral_input(run(regs, outs), miso, 2, pull);
    let t = run(regs, spi_periph_ops(mosi, miso, clk, cs, pull));
    lemma_pull_spelled_out(pad(t, miso), pull);
}

/// After the UART peripheral routing has run, from any register file, the RX
/// pad carries exactly the pull that was asked for, has its input buffer on
/// and its output driver off, and UART0's RX signal reads it.
pub proof fn lemma_uart_periph_rx(regs: Map<u32, u32>, tx: u8, rx: u8, pull: Pull)
    requires
        has_pad(tx),
        has_pad(rx),
    ensures
        ({
            let t = run(regs, uart_periph_ops(tx, rx, pull));
            &&& pad(t, rx) & pull_mask() == pull_bits(pull)
            &&& (pad(t, rx) & FUN_WPU != 0) <==> (pull is Up)
            &&& (pad(t, rx) & FUN_WPD != 0) <==> (pull is Down)
            &&& pad(t, rx) & FUN_IE == FUN_IE
            &&& pad(t, rx) & MCU_SEL_MASK == MCU_SEL_GPIO
            &&& !output_enabled(t, rx)
            &&& t[in_sel_reg(14)] == 0x8000_0000u32 | (rx as u32)
        }),
{
    let out = output_signal_ops(tx, 14, false, 0);
    let input = input_signal_ops(rx, 14, pull);
    lemma_run_append(regs, out, input);
    lemma_peripheral_input(run(regs, out), rx, 14, pull);
    let t = run(regs, uart_periph_ops(tx, rx, pull));
    lemma_pull_spelled_out(pad(t, rx), pull);
}

/// Driving three distinct pins one after the other leaves each at the level
/// it was driven to.
proof fn lemma_drive_three(regs: Map<u32, u32>, a: u8, b: u8, c: u8, x: bool, y: bool, z: bool)
    requires
        has_pad(a),
        has_pad(b),
        has_pad(c),
        a != b,
        a != c,
        b != c,
    ensures
        ({
            let t = run(regs, drive_ops(a, x) + drive_ops(b, y) + drive_ops(c, z));
            &&& output_level(t, a) == x
            &&& output_level(t, b) == y
            &&& output_level(t, c) == z
        }),
{
    let da = drive_ops(a, x);
    let db = drive_ops(b, y);
    let dc = drive_ops(c, z);
    lemma_run_append(regs, da, db);
    lemma_run_append(regs, da + db, dc);
    let r1 = run(regs, da);
    let r2 = run(r1, db);
    lemma_drive(regs, a, x);
    lemma_drive(r1, b, y);
    lemma_drive(r2, c, z);
    assert(has_pad(a) && has_pad(b));
}

/// The indicator lights exactly one LED, the one of its state: blue for
/// `Cold`, green for `Normal`, red for `Hot`; the other two are driven low.
pub proof fn lemma_indicator_lights_one(regs: Map<u32, u32>, ind: Indicator, blue: u8, green: u8, red: u8)
    requires
        has_pad(blue),
        has_pad(green),
        has_pad(red),
        blue != green,
        blue != red,
        green != red,
    ensures
        ({
            let t = run(regs, indicator_ops(ind, blue, green, red));
            &&& output_level(t, blue) == (ind is Cold)
            &&& output_level(t, green) == (ind is Normal)
            &&& output_level(t, red) == (ind is Hot)
        }),
{
    match ind {
        Indicator::Cold => lemma_drive_three(regs, blue, green, red, true, false, false),
        Indicator::Hot => lemma_drive_three(regs, blue, green, red, false, false, true),
        Indicator::Normal => lemma_drive_three(regs, blue, green, red, false, true, false),
    }
}

/// From a temperature in hundredths of a degree: the blue LED is lit exactly
/// at 27.00 °C and below, the red one exactly at 32.00 °C and above, the
/// green one exactly in between.
pub proof fn lemma_indicator_for_temperature(regs: Map<u32, u32>, temp: int, blue: u8, green: u8, red: u8)
    requires
        has_pad(blue),
        has_pad(green),
        has_pad(red),
        blue != green,
        blue != red,
        green != red,
    ensures
        ({
            let t = run(regs, indicator_ops(indicator_for(temp), blue, green, red));
            &&& output_level(t, blue) == (temp <= 2700)
            &&& output_level(t, green) == (2700 < temp < 3200)
            &&& output_level(t, red) == (temp >= 3200)
        }),
{
    lemma_indicator_lights_one(regs, indicator_for(temp), blue, green, red);
}

/// Routing a peripheral output signal to `pin` touches no other pin and no
/// input selection: the OUT_SEL register, pin-configuration register, pad and
/// output enable of every other pin, and every input-select register, keep
/// their values.
proof fn lemma_output_signal_frame(
    regs: Map<u32, u32>,
    pin: u8,
    sig: u8,
    open_drain: bool,
    drive_strength: u8,
    q: u8,
    s: u8,
)
    requires
        has_pad(pin),
        has_pad(q),
        q != pin,
    ensures
        ({
            let t = run(regs, output_signal_ops(pin, sig, open_drain, drive_strength));
            &&& t[out_sel_reg(q)] == regs[out_sel_reg(q)]
            &&& t[pin_reg(q)] == regs[pin_reg(q)]
            &&& pad(t, q) == pad(regs, q)
            &&& output_enabled(t, q) == output_enabled(regs, q)
            &&& t[in_sel_reg(s)] == regs[in_sel_reg(s)]
        }),
{
    let ops = output_signal_ops(pin, sig, open_drain, drive_strength);
    lemma_run_four(regs, ops);
    lemma_addresses(pin);
    lemma_addresses(q);
    lemma_pad_addr_facts(pin);
    lemma_bank_bit(pin);
    lemma_bank_bit(q);
    let e = regs[enable_reg(pin)];
    lemma_bit_ops(e, bank_index(pin), bank_index(q));
}

/// Routing a peripheral input signal from `pin` touches no other pin and no
/// other signal's input selection.
proof fn lemma_input_signal_frame(regs: Map<u32, u32>, pin: u8, sig: u8, pull: Pull, q: u8, s: u8)
    requires
        has_pad(pin),
        has_pad(q),
        q != pin,
    ensures
        ({
            let t = run(regs, input_signal_ops(pin, sig, pull));
            &&& t[out_sel_reg(q)] == regs[out_sel_reg(q)]
            &&& t[pin_reg(q)] == regs[pin_reg(q)]
            &&& t[pin_reg(pin)] == regs[pin_reg(pin)]
            &&& pad(t, q) == pad(regs, q)
            &&& output_enabled(t, q) == output_enabled(regs, q)
            &&& s != sig ==> t[in_sel_reg(s)] == regs[in_sel_reg(s)]
        }),
{
    let ops = input_signal_ops(pin, sig, pull);
    lemma_run_four(regs, ops);
    lemma_addresses(pin);
    lemma_addresses(q);
    lemma_pad_addr_facts(pin);
    lemma_bank_bit(pin);
    lemma_bank_bit(q);
    let e = regs[enable_reg(pin)];
    lemma_bit_ops(e, bank_index(pin), bank_index(q));
}

/// After the SPI peripheral routing has run, from any register file, with
/// four distinct pins: MOSI carries SPIQ (signal 1), CLK carries SPICLK
/// (signal 0) and CS carries SPICS0 (signal 5), each with its output driver
/// on and a push-pull pad driver; MISO has its output driver off and feeds
/// SPID (signal 2).
pub proof fn lemma_spi_periph_routing(regs: Map<u32, u32>, mosi: u8, miso: u8, clk: u8, cs: u8, pull: Pull)
    requires
        has_pad(mosi),
        has_pad(miso),
        has_pad(clk),
        has_pad(cs),
        mosi != miso,
        mosi != clk,
        mosi != cs,
        miso != clk,
        miso != cs,
        clk != cs,
    ensures
        ({
            let t = run(regs, spi_periph_ops(mosi, miso, clk, cs, pull));
            &&& t[out_sel_reg(mosi)] & 0x1FFu32 == 1
            &&& t[out_sel_reg(clk)] & 0x1FFu32 == 0
            &&& t[out_sel_reg(cs)] & 0x1FFu32 == 5
            &&& output_enabled(t, mosi)
            &&& output_enabled(t, clk)
            &&& output_enabled(t, cs)
            &&& t[pin_reg(mosi)] & 4u32 == 0
            &&& t[pin_reg(clk)] & 4u32 == 0
            &&& t[pin_reg(cs)] & 4u32 == 0
            &&& !output_enabled(t, miso)
            &&& t[in_sel_reg(2)] == 0x8000_0000u32 | (miso as u32)
        }),
{
    let o1 = output_signal_ops(mosi, 1, false, 0);
    let o2 = output_signal_ops(clk, 0, false, 0);
    let o3 = output_signal_ops(cs, 5, false, 0);
    let i = input_signal_ops(miso, 2, pull);
    lemma_run_append(regs, o1, o2);
    lemma_run_append(regs, o1 + o2, o3);
    lemma_run_append(regs, o1 + o2 + o3, i);
    let r1 = run(regs, o1);
    let r2 = run(r1, o2);
    let r3 = run(r2, o3);
    lemma_peripheral_output(regs, mosi, 1, false, 0);
    lemma_peripheral_output(r1, clk, 0, false, 0);
    lemma_peripheral_output(r2, cs, 5, false, 0);
    lemma_peripheral_input(r3, miso, 2, pull);
    lemma_output_signal_frame(r1, clk, 0, false, 0, mosi, 2);
    lemma_output_signal_frame(r2, cs, 5, false, 0, mosi, 2);
    lemma_output_signal_frame(r2, cs, 5, false, 0, clk, 2);
    lemma_input_signal_frame(r3, miso, 2, pull, mosi, 2);
    lemma_input_signal_frame(r3, miso, 2, pull, clk, 2);
    lemma_input_signal_frame(r3, miso, 2, pull, cs, 2);
}

/// After the UART peripheral routing has run, from any register file, with
/// distinct pins: TX carries UART0's TX signal (signal 14) with its output
/// driver on and a push-pull pad driver, and RX, output driver off, feeds
/// UART0's RX signal (signal 14).
pub proof fn lemma_uart_periph_routing(regs: Map<u32, u32>, tx: u8, rx: u8, pull: Pull)
    requires
        has_pad(tx),
        has_pad(rx),
        tx != rx,
    ensures
        ({
            let t = run(regs, uart_periph_ops(tx, rx, pull));
            &&& t[out_sel_reg(tx)] & 0x1FFu32 == 14
            &&& output_enabled(t, tx)
            &&& t[pin_reg(tx)] & 4u32 == 0
            &&& !output_enabled(t, rx)
            &&& t[in_sel_reg(14)] == 0x8000_0000u32 | (rx as u32)
        }),
{
    let o = output_signal_ops(tx, 14, false, 0);
    let i = input_signal_ops(rx, 14, pull);
    lemma_run_append(regs, o, i);
    let r1 = run(regs, o);
    lemma_peripheral_output(regs, tx, 14, false, 0);
    lemma_peripheral_input(r1, rx, 14, pull);
    lemma_input_signal_frame(r1, rx, 14, pull, tx, 14);
}

/// After the I2C peripheral routing has run, from any register file, with
/// distinct pins: SDA carries the peripheral's SDA signal out through an
/// open-drain pad driver with its output driver on, and feeds the same
/// signal back in, with its input buffer on and exactly the requested pull;
/// SCL carries the peripheral's SCL signal out through a push-pull pad
/// driver with its output driver on.
pub proof fn lemma_i2c_periph_routing(
    regs: Map<u32, u32>,
    sda: u8,
    scl: u8,
    sda_sig: u8,
    scl_sig: u8,
    pull: Pull,
)
    requires
        has_pad(sda),
        has_pad(scl),
        sda != scl,
    ensures
        ({
            let t = run(regs, i2c_periph_ops(sda, scl, sda_sig, scl_sig, pull));
            &&& t[out_sel_reg(sda)] & 0x1FFu32 == sda_sig as u32
            &&& t[out_sel_reg(scl)] & 0x1FFu32 == scl_sig as u32
            &&& t[pin_reg(sda)] & 4u32 != 0
            &&& t[pin_reg(scl)] & 4u32 == 0
            &&& output_enabled(t, sda)
            &&& output_enabled(t, scl)
            &&& t[in_sel_reg(sda_sig)] == 0x8000_0000u32 | (sda as u32)
            &&& pad(t, sda) & FUN_IE == FUN_IE
            &&& pad(t, sda) & pull_mask() == pull_bits(pull)
        }),
{
    let o1 = output_signal_ops(sda, sda_sig, true, 0);
    let o2 = output_signal_ops(scl, scl_sig, false, 0);
    let i = input_signal_ops(sda, sda_sig, pull);
    let en = seq![Op::Write { addr: enable_set_reg(sda), value: bank_bit(sda) }];
    lemma_run_append(regs, o1, o2);
    lemma_run_append(regs, o1 + o2, i);
    lemma_run_append(regs, o1 + o2 + i, en);
    let r1 = run(regs, o1);
    let r2 = run(r1, o2);
    let r3 = run(r2, i);
    lemma_peripheral_output(regs, sda, sda_sig, true, 0);
    lemma_peripheral_output(r1, scl, scl_sig, false, 0);
    lemma_peripheral_input(r2, sda, sda_sig, pull);
    lemma_output_signal_frame(r1, scl, scl_sig, false, 0, sda, sda_sig);
    lemma_input_signal_frame(r2, sda, sda_sig, pull, scl, sda_sig);
    let x = r2[out_sel_reg(sda)];
    assert((x | 0x400u32) & 0x1FFu32 == x & 0x1FFu32) by (bit_vector);
    lemma_run_one(r3, en);
    lemma_addresses(sda);
    lemma_addresses(scl);
    lemma_pad_addr_facts(sda);
    lemma_bank_bit(sda);
    lemma_bank_bit(scl);
    let e = r3[enable_reg(sda)];
    lemma_bit_ops(e, bank_index(sda), bank_index(scl));
}

/// One PWM period: after configuring its pin as an output, the pin is high
/// for exactly the high phase and then low for exactly the rest of the
/// period, and the period lasts exactly its length.
pub proof fn lemma_pwm_tick_waveform(p: PwmBitBang)
    requires
        has_pad(p.pin()),
        p.high_cycles() <= p.period_cycles(),
    ensures
        segments(p.tick_ops(), p.pin()) == seq![
            (true, p.high_cycles() as nat),
            (false, (p.period_cycles() - p.high_cycles()) as nat),
        ],
        elapsed(p.tick_ops()) == p.period_cycles(),
{
    let pin = p.pin();
    let h = p.high_cycles();
    let l = (p.period_cycles() - p.high_cycles()) as u32;
    let cfg = config_output_ops(pin);
    let hi = drive_ops(pin, true) + seq![Op::Delay { cycles: h }];
    let lo = drive_ops(pin, false) + seq![Op::Delay { cycles: l }];
    assert(p.tick_ops() =~= cfg + hi + lo);
    lemma_segment_step(pin, true, h);
    lemma_segment_step(pin, false, l);
    lemma_segments_append(cfg, hi, pin);
    lemma_segments_append(cfg + hi, lo, pin);
    lemma_addresses(pin);
    lemma_bank_bit(pin);
    assert(cfg.drop_last().drop_last() =~= Seq::<Op>::empty());
    assert(driven_by(cfg[0], pin) is None);
    assert(driven_by(cfg[1], pin) is None);
    reveal_with_fuel(segments, 3);
    assert(segments(cfg, pin) =~= Seq::<(bool, nat)>::empty());
    assert(segments(p.tick_ops(), pin) =~= seq![(true, h as nat), (false, l as nat)]);
    lemma_elapsed_append(cfg, hi);
    lemma_elapsed_append(cfg + hi, lo);
    reveal_with_fuel(elapsed, 3);
    assert(hi.drop_last().drop_last() =~= Seq::<Op>::empty());
    assert(lo.drop_last().drop_last() =~= Seq::<Op>::empty());
}

/// SPI register access as the device sees it: a register write delivers
/// two bytes, the register address (its low seven bits) with the read bit,
/// bit 7, clear, and then the value; a register read delivers the start
/// address with the read bit set and then `len` zero bytes.
pub proof fn lemma_spi_register_access(
    regs: Map<u32, u32>,
    spi: SpiBitBang,
    reg: u8,
    val: u8,
    start_reg: u8,
    len: nat,
)
    requires
        has_pad(spi.mosi_pin()),
        has_pad(spi.clk_pin()),
        has_pad(spi.miso_pin()),
        has_pad(spi.cs_pin()),
        spi.mosi_pin() != spi.clk_pin(),
        spi.cs_pin() != spi.clk_pin(),
    ensures
        ({
            let w = bytes_msb(
                edge_levels(
                    regs,
                    spi.transfer_ops(write_reg_bytes(reg, val)),
                    spi.clk_pin(),
                    spi.mosi_pin(),
                ),
            );
            &&& w.len() == 2
            &&& w[0] < 0x80
            &&& w[0] % 0x80 == reg % 0x80
            &&& w[1] == val
        }),
        ({
            let r = bytes_msb(
                edge_levels(
                    regs,
                    spi.transfer_ops(read_regs_bytes(start_reg, len)),
                    spi.clk_pin(),
                    spi.mosi_pin(),
                ),
            );
            &&& r.len() == len + 1
            &&& r[0] >= 0x80
            &&& r[0] % 0x80 == start_reg % 0x80
            &&& forall|i: int| 1 <= i <= len ==> #[trigger] r[i] == 0
        }),
{
    lemma_spi_device_receives(regs, spi, write_reg_bytes(reg, val));
    lemma_spi_device_receives(regs, spi, read_regs_bytes(start_reg, len));
    assert((reg & 0x7Fu8) < 0x80u8 && (reg & 0x7Fu8) % 0x80u8 == reg % 0x80u8) by (bit_vector);
    assert((start_reg | 0x80u8) >= 0x80u8 && (start_reg | 0x80u8) % 0x80u8 == start_reg % 0x80u8)
        by (bit_vector);
}

} // verus!
