//! Two programs on one I2C bus: a master program drives SCL and SDA, and a
//! slave program reads them, waiting for clock levels and sampling data.
//! Time is counted in spin iterations: delays take their cycles, every other
//! operation takes none, and a wait ends at the first moment its condition
//! holds.
use vstd::prelude::*;
use vstd::arithmetic::div_mod::lemma_fundamental_div_mod_converse;
use crate::bits::{byte_msb, msb_first};
use crate::gpio_mux::{bank_bit, in_reg};
use crate::io_mux::has_pad;
use crate::model::{
    bank_index, driven_by, elapsed, lemma_addresses, lemma_config_output, lemma_drive,
    lemma_elapsed_append, lemma_msb_round_trip_prefix, lemma_bank_bit, lemma_bit_ops,
    output_enabled, output_level,
};
use crate::ops::{lemma_run_append, run, Op};
use crate::protocols::i2c::{address_matches, I2cMasterBitBang, I2cSlaveBitBang};
use crate::{
    config_input_ops, config_output_ops, drive_ops, sample_ops, set_high_ops, set_low_ops,
    set_pull_ops, Pull,
};

verus! {

/// The level of `pin` at time `t` of `ops`: the level of the last drive of
/// `pin` that started at or before `t`, or `before` when there is none.
pub open spec fn line_level(ops: Seq<Op>, pin: u8, t: nat, before: bool) -> bool
    decreases ops.len(),
{
    if ops.len() == 0 {
        before
    } else {
        let prev = ops.drop_last();
        match driven_by(ops.last(), pin) {
            Some(level) => if elapsed(prev) <= t {
                level
            } else {
                line_level(prev, pin, t, before)
            },
            None => line_level(prev, pin, t, before),
        }
    }
}

/// Before `b` starts, `a + b` shows the levels of `a`; from then on, those of
/// `b`, starting from the level that `a` left.
pub proof fn lemma_line_level_append(a: Seq<Op>, b: Seq<Op>, pin: u8, t: nat, before: bool)
    ensures
        line_level(a + b, pin, t, before) == if t >= elapsed(a) {
            line_level(b, pin, (t - elapsed(a)) as nat, line_level(a, pin, t, before))
        } else {
            line_level(a, pin, t, before)
        },
    decreases b.len(),
{
    if b.len() == 0 {
        assert(a + b =~= a);
    } else {
        assert((a + b).drop_last() =~= a + b.drop_last());
        lemma_line_level_append(a, b.drop_last(), pin, t, before);
        lemma_elapsed_append(a, b.drop_last());
    }
}

/// One bit as the master sends it: SDA set, a delay, SCL high, a delay, SCL
/// low, a delay.
pub open spec fn chunk(m: I2cMasterBitBang, level: bool) -> Seq<Op> {
    drive_ops(m.sda_pin(), level) + m.delay_ops() + m.pulse_ops()
}

proof fn lemma_chunk_levels(m: I2cMasterBitBang, level: bool, r: nat, sda0: bool, scl0: bool)
    requires
        has_pad(m.sda_pin()),
        has_pad(m.scl_pin()),
        m.sda_pin() != m.scl_pin(),
    ensures
        elapsed(chunk(m, level)) == 3 * m.delay_cycles(),
        line_level(chunk(m, level), m.sda_pin(), r, sda0) == level,
        line_level(chunk(m, level), m.scl_pin(), r, scl0) == if r < m.delay_cycles() {
            scl0
        } else {
            r < 2 * m.delay_cycles()
        },
{
    let sda = m.sda_pin();
    let scl = m.scl_pin();
    let c = m.delay_cycles();
    lemma_addresses(sda);
    lemma_addresses(scl);
    lemma_bank_bit(sda);
    lemma_bank_bit(scl);
    lemma_bit_ops(0, bank_index(sda), bank_index(scl));
    let d = Op::Delay { cycles: c };
    let o0 = drive_ops(sda, level)[0];
    let o2 = set_high_ops(scl)[0];
    let o4 = set_low_ops(scl)[0];
    let s0 = Seq::<Op>::empty();
    let s1 = s0.push(o0);
    let s2 = s1.push(d);
    let s3 = s2.push(o2);
    let s4 = s3.push(d);
    let s5 = s4.push(o4);
    let s6 = s5.push(d);
    assert(chunk(m, level) =~= s6);
    assert(s6.drop_last() =~= s5);
    assert(s5.drop_last() =~= s4);
    assert(s4.drop_last() =~= s3);
    assert(s3.drop_last() =~= s2);
    assert(s2.drop_last() =~= s1);
    assert(s1.drop_last() =~= s0);
    assert(driven_by(o0, sda) == Some(level));
    assert(driven_by(o0, scl) is None);
    assert(driven_by(o2, sda) is None);
    assert(driven_by(o2, scl) == Some(true));
    assert(driven_by(o4, sda) is None);
    assert(driven_by(o4, scl) == Some(false));
    reveal_with_fuel(elapsed, 7);
    reveal_with_fuel(line_level, 7);
}

/// SCL level at time `t` of the first bits the master sends: each bit lasts
/// three delays `c`, low, high, low, and before the first clock SCL keeps
/// its level `scl0`.
pub open spec fn send_scl(t: nat, c: nat, scl0: bool) -> bool {
    let k = t / (3 * c);
    let r = t % (3 * c);
    if r < c {
        if k == 0 {
            scl0
        } else {
            false
        }
    } else {
        r < 2 * c
    }
}

proof fn lemma_send_levels(m: I2cMasterBitBang, b: u8, n: nat, t: nat, sda0: bool, scl0: bool)
    requires
        has_pad(m.sda_pin()),
        has_pad(m.scl_pin()),
        m.sda_pin() != m.scl_pin(),
        m.delay_cycles() > 0,
        n <= 8,
    ensures
        elapsed(m.send_bits_ops(b, n)) == 3 * n * m.delay_cycles(),
        t < 3 * n * m.delay_cycles() ==> {
            &&& t / (3 * m.delay_cycles() as nat) < n
            &&& line_level(m.send_bits_ops(b, n), m.sda_pin(), t, sda0) == msb_first(b)[(t / (3
                * m.delay_cycles() as nat)) as int]
            &&& line_level(m.send_bits_ops(b, n), m.scl_pin(), t, scl0) == send_scl(
                t,
                m.delay_cycles() as nat,
                scl0,
            )
        },
        t >= 3 * n * m.delay_cycles() ==> {
            &&& line_level(m.send_bits_ops(b, n), m.sda_pin(), t, sda0) == if n == 0 {
                sda0
            } else {
                msb_first(b)[n - 1]
            }
            &&& line_level(m.send_bits_ops(b, n), m.scl_pin(), t, scl0) == if n == 0 {
                scl0
            } else {
                false
            }
        },
    decreases n,
{
    let c = m.delay_cycles() as nat;
    let sda = m.sda_pin();
    let scl = m.scl_pin();
    if n == 0 {
        assert(m.send_bits_ops(b, 0) =~= Seq::<Op>::empty());
        assert(elapsed(Seq::<Op>::empty()) == 0);
        assert(3 * n * m.delay_cycles() == 0) by (nonlinear_arith)
            requires
                n == 0,
        ;
    } else {
        let prev = m.send_bits_ops(b, (n - 1) as nat);
        let level = msb_first(b)[n - 1];
        assert(m.send_bits_ops(b, n) =~= prev + chunk(m, level));
        lemma_send_levels(m, b, (n - 1) as nat, t, sda0, scl0);
        lemma_elapsed_append(prev, chunk(m, level));
        lemma_line_level_append(prev, chunk(m, level), sda, t, sda0);
        lemma_line_level_append(prev, chunk(m, level), scl, t, scl0);
        let p = 3 * (n - 1) * c;
        assert(3 * (n - 1) * c + 3 * c == 3 * n * c) by (nonlinear_arith);
        lemma_chunk_levels(m, level, 0, sda0, scl0);
        assert(elapsed(prev) == p);
        assert(elapsed(m.send_bits_ops(b, n)) == elapsed(prev) + elapsed(chunk(m, level)));
        assert(elapsed(m.send_bits_ops(b, n)) == 3 * n * c);
        if t < p {
            assert(t < 3 * (n - 1) * c);
        } else {
            let r = (t - p) as nat;
            lemma_chunk_levels(m, level, r, line_level(prev, sda, t, sda0), line_level(prev, scl, t, scl0));
            if t < 3 * n * c {
                assert(r < 3 * c);
                assert(t == (n - 1) * (3 * c) + r) by (nonlinear_arith)
                    requires
                        r == t - p,
                        p == 3 * (n - 1) * c,
                ;
                lemma_fundamental_div_mod_converse(t as int, (3 * c) as int, n - 1, r as int);
            }
        }
    }
}

/// How a slave is wired to a master: its SDA and SCL inputs read the lines
/// that the master's SDA and SCL pins drive; before the master first drives
/// a line, the line is at its `..._before` level.
pub struct Wiring {
    pub master_sda: u8,
    pub master_scl: u8,
    pub slave_sda: u8,
    pub slave_scl: u8,
    pub sda_before: bool,
    pub scl_before: bool,
}

/// What the slave reads at input `addr`/`mask` at time `t` of the master
/// program `m`.
pub open spec fn read_line(m: Seq<Op>, w: Wiring, addr: u32, mask: u32, t: nat) -> bool {
    if addr == in_reg(w.slave_sda) && mask == bank_bit(w.slave_sda) {
        line_level(m, w.master_sda, t, w.sda_before)
    } else if addr == in_reg(w.slave_scl) && mask == bank_bit(w.slave_scl) {
        line_level(m, w.master_scl, t, w.scl_before)
    } else {
        false
    }
}

/// A wait for input `addr`/`mask` to read `high`, begun at `t`, ends at `e`:
/// the first moment from `t` on at which it does.
pub open spec fn wait_ends_at(m: Seq<Op>, w: Wiring, addr: u32, mask: u32, high: bool, t: nat, e: nat) -> bool {
    &&& t <= e
    &&& read_line(m, w, addr, mask, e) == high
    &&& forall|u: nat| t <= u < e ==> #[trigger] read_line(m, w, addr, mask, u) != high
}

pub open spec fn wait_end(m: Seq<Op>, w: Wiring, addr: u32, mask: u32, high: bool, t: nat) -> nat {
    choose|e: nat| wait_ends_at(m, w, addr, mask, high, t, e)
}

/// A wait for both inputs to read high, begun at `t`, ends at `e`.
pub open spec fn wait_both_ends_at(
    m: Seq<Op>,
    w: Wiring,
    addr_a: u32,
    mask_a: u32,
    addr_b: u32,
    mask_b: u32,
    t: nat,
    e: nat,
) -> bool {
    &&& t <= e
    &&& read_line(m, w, addr_a, mask_a, e) && read_line(m, w, addr_b, mask_b, e)
    &&& forall|u: nat|
        t <= u < e ==> !(#[trigger] read_line(m, w, addr_a, mask_a, u) && read_line(
            m,
            w,
            addr_b,
            mask_b,
            u,
        ))
}

pub open spec fn wait_both_end(
    m: Seq<Op>,
    w: Wiring,
    addr_a: u32,
    mask_a: u32,
    addr_b: u32,
    mask_b: u32,
    t: nat,
) -> nat {
    choose|e: nat| wait_both_ends_at(m, w, addr_a, mask_a, addr_b, mask_b, t, e)
}

/// A slave program `ops` run from time `t0` against the master program `m`:
/// the time at which it ends and the levels it sampled.
pub open spec fn slave_run(m: Seq<Op>, w: Wiring, ops: Seq<Op>, t0: nat) -> (nat, Seq<bool>)
    decreases ops.len(),
{
    if ops.len() == 0 {
        (t0, Seq::empty())
    } else {
        let before = slave_run(m, w, ops.drop_last(), t0);
        let t = before.0;
        match ops.last() {
            Op::Delay { cycles } => ((t + cycles) as nat, before.1),
            Op::Sample { addr, mask } => (t, before.1.push(read_line(m, w, addr, mask, t))),
            Op::WaitFor { addr, mask, high } => (wait_end(m, w, addr, mask, high, t), before.1),
            Op::WaitForBoth { addr_a, mask_a, addr_b, mask_b } => (
                wait_both_end(m, w, addr_a, mask_a, addr_b, mask_b, t),
                before.1,
            ),
            _ => before,
        }
    }
}

proof fn lemma_wait_end(m: Seq<Op>, w: Wiring, addr: u32, mask: u32, high: bool, t: nat, e: nat)
    requires
        wait_ends_at(m, w, addr, mask, high, t, e),
    ensures
        wait_end(m, w, addr, mask, high, t) == e,
{
    let x = wait_end(m, w, addr, mask, high, t);
    assert(wait_ends_at(m, w, addr, mask, high, t, x));
    if x < e {
        assert(read_line(m, w, addr, mask, x) != high);
    }
    if x > e {
        assert(read_line(m, w, addr, mask, e) != high);
    }
}

proof fn lemma_wait_both_end(
    m: Seq<Op>,
    w: Wiring,
    addr_a: u32,
    mask_a: u32,
    addr_b: u32,
    mask_b: u32,
    t: nat,
    e: nat,
)
    requires
        wait_both_ends_at(m, w, addr_a, mask_a, addr_b, mask_b, t, e),
    ensures
        wait_both_end(m, w, addr_a, mask_a, addr_b, mask_b, t) == e,
{
    let x = wait_both_end(m, w, addr_a, mask_a, addr_b, mask_b, t);
    assert(wait_both_ends_at(m, w, addr_a, mask_a, addr_b, mask_b, t, x));
    if x < e {
        assert(!(read_line(m, w, addr_a, mask_a, x) && read_line(m, w, addr_b, mask_b, x)));
    }
    if x > e {
        assert(!(read_line(m, w, addr_a, mask_a, e) && read_line(m, w, addr_b, mask_b, e)));
    }
}

proof fn lemma_slave_run_append(m: Seq<Op>, w: Wiring, a: Seq<Op>, b: Seq<Op>, t0: nat)
    ensures
        slave_run(m, w, a + b, t0) == (
            slave_run(m, w, b, slave_run(m, w, a, t0).0).0,
            slave_run(m, w, a, t0).1 + slave_run(m, w, b, slave_run(m, w, a, t0).0).1,
        ),
    decreases b.len(),
{
    if b.len() == 0 {
        assert(a + b =~= a);
        assert(slave_run(m, w, a, t0).1 + Seq::<bool>::empty() =~= slave_run(m, w, a, t0).1);
    } else {
        assert((a + b).drop_last() =~= a + b.drop_last());
        lemma_slave_run_append(m, w, a, b.drop_last(), t0);
        let r = slave_run(m, w, a, t0);
        let rb = slave_run(m, w, b.drop_last(), r.0);
        match b.last() {
            Op::Sample { addr, mask } => {
                assert(r.1 + rb.1.push(read_line(m, w, addr, mask, rb.0)) =~= (r.1 + rb.1).push(
                    read_line(m, w, addr, mask, rb.0),
                ));
            },
            _ => {},
        }
    }
}

/// One bit as the slave receives it, begun at `t`: SCL reads low from `t`
/// until it rises at `e`, and still reads low once a delay after `e` has
/// passed; the slave samples SDA at that moment.
proof fn lemma_slave_bit(m: Seq<Op>, w: Wiring, sl: I2cSlaveBitBang, t: nat, e: nat)
    requires
        w.slave_sda == sl.sda_pin(),
        w.slave_scl == sl.scl_pin(),
        wait_ends_at(m, w, in_reg(sl.scl_pin()), bank_bit(sl.scl_pin()), true, t, e),
        read_line(m, w, in_reg(sl.scl_pin()), bank_bit(sl.scl_pin()), (e + sl.delay_cycles()) as nat)
            == false,
    ensures
        slave_run(m, w, sl.receive_bits_ops(1), t) == (
            (e + sl.delay_cycles()) as nat,
            seq![
                read_line(
                    m,
                    w,
                    in_reg(sl.sda_pin()),
                    bank_bit(sl.sda_pin()),
                    (e + sl.delay_cycles()) as nat,
                ),
            ],
        ),
{
    let scl = sl.scl_pin();
    let sda = sl.sda_pin();
    let e2 = (e + sl.delay_cycles()) as nat;
    let o0 = sl.wait_scl_ops(true)[0];
    let o1 = sl.delay_ops()[0];
    let o2 = config_input_ops(sda)[0];
    let o3 = config_input_ops(sda)[1];
    let o4 = sample_ops(sda)[0];
    let o5 = sl.wait_scl_ops(false)[0];
    let s0 = Seq::<Op>::empty();
    let s1 = s0.push(o0);
    let s2 = s1.push(o1);
    let s3 = s2.push(o2);
    let s4 = s3.push(o3);
    let s5 = s4.push(o4);
    let s6 = s5.push(o5);
    assert(sl.receive_bits_ops(0) =~= s0);
    assert(sl.receive_bits_ops(1) =~= s6);
    assert(s6.drop_last() =~= s5);
    assert(s5.drop_last() =~= s4);
    assert(s4.drop_last() =~= s3);
    assert(s3.drop_last() =~= s2);
    assert(s2.drop_last() =~= s1);
    assert(s1.drop_last() =~= s0);
    lemma_wait_end(m, w, in_reg(scl), bank_bit(scl), true, t, e);
    lemma_wait_end(m, w, in_reg(scl), bank_bit(scl), false, e2, e2);
    reveal_with_fuel(slave_run, 7);
    assert(slave_run(m, w, s6, t).1 =~= seq![read_line(m, w, in_reg(sda), bank_bit(sda), e2)]);
}

/// From time `p` on, for eight bit times of `3 * c` each, the master's lines
/// carry `b`: SDA holds bit `k` (most significant first) through bit time
/// `k`, and SCL is low, high, then low for a third of it each.
pub open spec fn sends_from(m: Seq<Op>, w: Wiring, b: u8, c: nat, p: nat) -> bool {
    forall|t: nat|
        #![trigger line_level(m, w.master_sda, t, w.sda_before)]
        #![trigger line_level(m, w.master_scl, t, w.scl_before)]
        p <= t < p + 24 * c ==> {
            &&& line_level(m, w.master_sda, t, w.sda_before) == msb_first(b)[(t - p) / (3 * c as int)]
            &&& line_level(m, w.master_scl, t, w.scl_before) == send_scl((t - p) as nat, c, false)
        }
}

proof fn lemma_inputs_distinct(a: u8, b: u8)
    requires
        has_pad(a),
        has_pad(b),
        a != b,
    ensures
        !(in_reg(a) == in_reg(b) && bank_bit(a) == bank_bit(b)),
{
    lemma_addresses(a);
    lemma_addresses(b);
    lemma_bank_bit(a);
    lemma_bank_bit(b);
    lemma_bit_ops(0, bank_index(a), bank_index(b));
}

proof fn lemma_bit_time(t: int, c: int, k: int, r: int)
    requires
        c > 0,
        0 <= r < 3 * c,
        t == 3 * k * c + r,
    ensures
        t / (3 * c) == k,
        t % (3 * c) == r,
{
    assert(t == k * (3 * c) + r) by (nonlinear_arith)
        requires
            t == 3 * k * c + r,
    ;
    lemma_fundamental_div_mod_converse(t, 3 * c, k, r);
}

/// A slave receiving while the master sends `b` from time `p` on, having
/// begun at `p` (with SCL low): after `n` bits it has sampled the first `n`
/// bits of `b`, and stands a bit time minus a delay after the start of bit
/// `n`.
proof fn lemma_slave_receives(m: Seq<Op>, w: Wiring, sl: I2cSlaveBitBang, b: u8, p: nat, n: nat)
    requires
        w.slave_sda == sl.sda_pin(),
        w.slave_scl == sl.scl_pin(),
        has_pad(sl.sda_pin()),
        has_pad(sl.scl_pin()),
        sl.sda_pin() != sl.scl_pin(),
        sl.delay_cycles() > 0,
        sends_from(m, w, b, sl.delay_cycles() as nat, p),
        n <= 8,
    ensures
        slave_run(m, w, sl.receive_bits_ops(n), p) == (
            if n == 0 {
                p
            } else {
                (p + 3 * n * sl.delay_cycles() - sl.delay_cycles()) as nat
            },
            msb_first(b).take(n as int),
        ),
    decreases n,
{
    let c = sl.delay_cycles() as nat;
    let scl = sl.scl_pin();
    let sda = sl.sda_pin();
    lemma_inputs_distinct(sda, scl);
    if n == 0 {
        assert(sl.receive_bits_ops(0) =~= Seq::<Op>::empty());
        assert(msb_first(b).take(0) =~= Seq::<bool>::empty());
    } else {
        let k = (n - 1) as nat;
        let prev = sl.receive_bits_ops(k);
        let bit = sl.receive_bits_ops(1);
        assert(sl.receive_bits_ops(0) =~= Seq::<Op>::empty());
        assert(sl.receive_bits_ops(n) =~= prev + bit);
        lemma_slave_receives(m, w, sl, b, p, k);
        lemma_slave_run_append(m, w, prev, bit, p);
        let t = slave_run(m, w, prev, p).0;
        let q: int = (3 * k * c) as int;
        assert(q >= 0 && q + 2 * c < 24 * c) by (nonlinear_arith)
            requires
                q == 3 * k * c,
                k <= 7,
                c > 0,
        ;
        assert(k > 0 ==> 3 * k * c - c == q - c && q >= 3 * c && 3 * (k - 1) * c == q - 3 * c)
            by (nonlinear_arith)
            requires
                q == 3 * k * c,
        ;
        assert(3 * n * c - c == q + 2 * c) by (nonlinear_arith)
            requires
                k == n - 1,
                q == 3 * k * c,
        ;
        let e = p + q + c;
        let e2 = p + q + 2 * c;
        assert(t == p || (k > 0 && t == p + q - c));
        assert(t <= e);
        // SCL is low from `t` until `e`.
        assert forall|u: nat| t <= u < e implies #[trigger] read_line(
            m,
            w,
            in_reg(scl),
            bank_bit(scl),
            u,
        ) != true by {
            let x = (u - p) as int;
            if x >= q {
                lemma_bit_time(x, c as int, k as int, x - q);
            } else {
                assert(k > 0);
                lemma_bit_time(x, c as int, k - 1, x - (q - 3 * c));
            }
        }
        lemma_bit_time(e - p, c as int, k as int, c as int);
        lemma_bit_time(e2 - p, c as int, k as int, 2 * c as int);
        assert(read_line(m, w, in_reg(scl), bank_bit(scl), e as nat));
        assert(wait_ends_at(m, w, in_reg(scl), bank_bit(scl), true, t, e as nat));
        assert(read_line(m, w, in_reg(scl), bank_bit(scl), e2 as nat) == false);
        lemma_slave_bit(m, w, sl, t, e as nat);
        assert(read_line(m, w, in_reg(sda), bank_bit(sda), e2 as nat) == msb_first(b)[k as int]);
        assert(msb_first(b).take(n as int) =~= msb_first(b).take(k as int).push(msb_first(b)[k as int]));
    }
}

/// I2C data from master to slave: a slave wired to a master's lines, with
/// the same bit delay, that starts `read_data` as the master starts
/// `write_byte(b)` (SCL low, as after the acknowledge clock) samples the
/// eight bits of `b`, most significant first, and so reads `b`.
pub proof fn lemma_slave_reads_master_byte(m: I2cMasterBitBang, sl: I2cSlaveBitBang, w: Wiring, b: u8)
    requires
        has_pad(m.sda_pin()),
        has_pad(m.scl_pin()),
        m.sda_pin() != m.scl_pin(),
        has_pad(sl.sda_pin()),
        has_pad(sl.scl_pin()),
        sl.sda_pin() != sl.scl_pin(),
        m.delay_cycles() == sl.delay_cycles(),
        m.delay_cycles() > 0,
        w.master_sda == m.sda_pin(),
        w.master_scl == m.scl_pin(),
        w.slave_sda == sl.sda_pin(),
        w.slave_scl == sl.scl_pin(),
        w.scl_before == false,
    ensures
        slave_run(m.write_byte_ops(b), w, sl.receive_bits_ops(8), 0).1 == msb_first(b),
        byte_msb(slave_run(m.write_byte_ops(b), w, sl.receive_bits_ops(8), 0).1) == b,
{
    let c = m.delay_cycles() as nat;
    let mw = m.write_byte_ops(b);
    let body = m.send_bits_ops(b, 8);
    let tail = mw.subrange(body.len() as int, mw.len() as int);
    assert(mw =~= body + tail);
    assert forall|t: nat|
        #![trigger line_level(mw, w.master_sda, t, w.sda_before)]
        #![trigger line_level(mw, w.master_scl, t, w.scl_before)]
        0 <= t < 0 + 24 * c implies {
        &&& line_level(mw, w.master_sda, t, w.sda_before) == msb_first(b)[(t - 0) / (3 * c as int)]
        &&& line_level(mw, w.master_scl, t, w.scl_before) == send_scl((t - 0) as nat, c, false)
    } by {
        lemma_send_levels(m, b, 8, t, w.sda_before, false);
        lemma_line_level_append(body, tail, w.master_sda, t, w.sda_before);
        lemma_line_level_append(body, tail, w.master_scl, t, w.scl_before);
    }
    assert(sends_from(mw, w, b, c, 0));
    lemma_slave_receives(mw, w, sl, b, 0, 8);
    assert(msb_first(b).take(8) =~= msb_first(b));
    lemma_msb_round_trip_prefix(msb_first(b), b);
}

/// I2C addressing: on an idle bus (both lines high), a slave wired to a
/// master's lines, with the same bit delay and starting `await_address` as
/// the master starts `start` followed by `write_byte(a)`, recognizes the
/// START condition, samples the eight bits of `a`, most significant first,
/// and so `check_address` on those samples decides on `a` itself.
pub proof fn lemma_slave_reads_address(
    m: I2cMasterBitBang,
    sl: I2cSlaveBitBang,
    w: Wiring,
    a: u8,
)
    requires
        has_pad(m.sda_pin()),
        has_pad(m.scl_pin()),
        m.sda_pin() != m.scl_pin(),
        has_pad(sl.sda_pin()),
        has_pad(sl.scl_pin()),
        sl.sda_pin() != sl.scl_pin(),
        m.delay_cycles() == sl.delay_cycles(),
        m.delay_cycles() > 0,
        w.master_sda == m.sda_pin(),
        w.master_scl == m.scl_pin(),
        w.slave_sda == sl.sda_pin(),
        w.slave_scl == sl.scl_pin(),
        w.sda_before == true,
        w.scl_before == true,
    ensures
        slave_run(m.start_ops() + m.write_byte_ops(a), w, sl.await_address_ops(), 0).1
            == msb_first(a),
        address_matches(
            byte_msb(slave_run(m.start_ops() + m.write_byte_ops(a), w, sl.await_address_ops(), 0).1),
            sl.address(),
        ) == address_matches(a, sl.address()),
        slave_run(m.start_ops() + m.write_byte_ops(a), w, sl.await_address_ops(), 0).0 == 27
            * m.delay_cycles(),
{
    let c = m.delay_cycles() as nat;
    let sda = sl.sda_pin();
    let scl = sl.scl_pin();
    lemma_inputs_distinct(sda, scl);
    let st = m.start_ops();
    let mw = m.write_byte_ops(a);
    let mm = st + mw;
    let body = m.send_bits_ops(a, 8);
    let tail = mw.subrange(body.len() as int, mw.len() as int);
    assert(mw =~= body + tail);
    lemma_start_condition(m, 0, true, true);
    // Before the byte: the lines are those of the START condition.
    assert forall|t: nat|
        #![trigger line_level(mm, w.master_sda, t, true)]
        #![trigger line_level(mm, w.master_scl, t, true)]
        t < 4 * c implies {
        &&& line_level(mm, w.master_sda, t, true) == (t < 2 * c)
        &&& line_level(mm, w.master_scl, t, true) == (t < 3 * c)
    } by {
        lemma_start_condition(m, t, true, true);
        lemma_line_level_append(st, mw, w.master_sda, t, true);
        lemma_line_level_append(st, mw, w.master_scl, t, true);
    }
    // During the byte: the lines carry `a`.
    assert forall|t: nat|
        #![trigger line_level(mm, w.master_sda, t, w.sda_before)]
        #![trigger line_level(mm, w.master_scl, t, w.scl_before)]
        4 * c <= t < 4 * c + 24 * c implies {
        &&& line_level(mm, w.master_sda, t, w.sda_before) == msb_first(a)[(t - 4 * c) / (3
            * c as int)]
        &&& line_level(mm, w.master_scl, t, w.scl_before) == send_scl((t - 4 * c) as nat, c, false)
    } by {
        lemma_start_condition(m, t, true, true);
        lemma_line_level_append(st, mw, w.master_sda, t, true);
        lemma_line_level_append(st, mw, w.master_scl, t, true);
        let r = (t - 4 * c) as nat;
        lemma_send_levels(m, a, 8, r, false, false);
        lemma_line_level_append(body, tail, w.master_sda, r, false);
        lemma_line_level_append(body, tail, w.master_scl, r, false);
    }
    assert(sends_from(mm, w, a, c, 4 * c));
    // The slave's program up to the first data bit.
    let ws = Op::WaitForBoth {
        addr_a: in_reg(sda),
        mask_a: bank_bit(sda),
        addr_b: in_reg(scl),
        mask_b: bank_bit(scl),
    };
    let wl = Op::WaitFor { addr: in_reg(sda), mask: bank_bit(sda), high: false };
    let o2 = sl.wait_scl_ops(false)[0];
    let o3 = sl.delay_ops()[0];
    let c0 = config_input_ops(sda)[0];
    let c1 = config_input_ops(sda)[1];
    let s0 = Seq::<Op>::empty();
    let s1 = s0.push(c0);
    let s2 = s1.push(c1);
    let s3 = s2.push(ws);
    let s4 = s3.push(wl);
    let s5 = s4.push(o2);
    let s6 = s5.push(o3);
    assert(sl.await_address_ops() =~= s6 + sl.receive_bits_ops(8));
    assert(s6.drop_last() =~= s5);
    assert(s5.drop_last() =~= s4);
    assert(s4.drop_last() =~= s3);
    assert(s3.drop_last() =~= s2);
    assert(s2.drop_last() =~= s1);
    assert(s1.drop_last() =~= s0);
    assert(read_line(mm, w, in_reg(sda), bank_bit(sda), 0));
    assert(read_line(mm, w, in_reg(scl), bank_bit(scl), 0));
    lemma_wait_both_end(mm, w, in_reg(sda), bank_bit(sda), in_reg(scl), bank_bit(scl), 0, 0);
    assert(2 * c < 4 * c && 3 * c < 4 * c);
    assert(read_line(mm, w, in_reg(sda), bank_bit(sda), 2 * c) == false);
    assert(wait_ends_at(mm, w, in_reg(sda), bank_bit(sda), false, 0, 2 * c));
    lemma_wait_end(mm, w, in_reg(sda), bank_bit(sda), false, 0, 2 * c);
    assert(read_line(mm, w, in_reg(scl), bank_bit(scl), 3 * c) == false);
    assert(wait_ends_at(mm, w, in_reg(scl), bank_bit(scl), false, 2 * c, 3 * c));
    lemma_wait_end(mm, w, in_reg(scl), bank_bit(scl), false, 2 * c, 3 * c);
    reveal_with_fuel(slave_run, 7);
    assert(slave_run(mm, w, s6, 0) == (4 * c, Seq::<bool>::empty()));
    lemma_slave_run_append(mm, w, s6, sl.receive_bits_ops(8), 0);
    lemma_slave_receives(mm, w, sl, a, 4 * c, 8);
    assert(msb_first(a).take(8) =~= msb_first(a));
    assert(Seq::<bool>::empty() + msb_first(a) =~= msb_first(a));
    lemma_msb_round_trip_prefix(msb_first(a), a);
}


/// The level that a slave program `ops`, run from time `t0` against the
/// master program `m`, drives `pin` to at time `t`: that of its last drive
/// of `pin` that the slave reached at or before `t`, or `before` when there
/// is none.
pub open spec fn slave_line_level(m: Seq<Op>, w: Wiring, ops: Seq<Op>, t0: nat, pin: u8, t: nat, before: bool) -> bool
    decreases ops.len(),
{
    if ops.len() == 0 {
        before
    } else {
        let prev = ops.drop_last();
        match driven_by(ops.last(), pin) {
            Some(level) => if slave_run(m, w, prev, t0).0 <= t {
                level
            } else {
                slave_line_level(m, w, prev, t0, pin, t, before)
            },
            None => slave_line_level(m, w, prev, t0, pin, t, before),
        }
    }
}

/// The drives of `a + b`: those of `b`, run from where `a` ends, over those
/// of `a`.
proof fn lemma_slave_line_level_append(
    m: Seq<Op>,
    w: Wiring,
    a: Seq<Op>,
    b: Seq<Op>,
    t0: nat,
    pin: u8,
    t: nat,
    before: bool,
)
    ensures
        slave_line_level(m, w, a + b, t0, pin, t, before) == slave_line_level(
            m,
            w,
            b,
            slave_run(m, w, a, t0).0,
            pin,
            t,
            slave_line_level(m, w, a, t0, pin, t, before),
        ),
    decreases b.len(),
{
    if b.len() == 0 {
        assert(a + b =~= a);
    } else {
        assert((a + b).drop_last() =~= a + b.drop_last());
        lemma_slave_line_level_append(m, w, a, b.drop_last(), t0, pin, t, before);
        lemma_slave_run_append(m, w, a, b.drop_last(), t0);
    }
}

/// The operations of `write_byte` after its eight data bits: SDA released
/// as an input with its pull-up, the ninth clock (SCL high for a delay, SDA
/// sampled, SCL low), SDA taken back as an output, a delay.
spec fn ack_clock_ops(m: I2cMasterBitBang) -> Seq<Op> {
    config_input_ops(m.sda_pin()) + set_pull_ops(m.sda_pin(), Pull::Up) + m.delay_ops()
        + drive_ops(m.scl_pin(), true) + m.delay_ops() + sample_ops(m.sda_pin()) + drive_ops(
        m.scl_pin(),
        false,
    ) + config_output_ops(m.sda_pin()) + m.delay_ops()
}

proof fn lemma_ack_clock_levels(m: I2cMasterBitBang, u: nat, scl0: bool)
    requires
        has_pad(m.sda_pin()),
        has_pad(m.scl_pin()),
        m.sda_pin() != m.scl_pin(),
    ensures
        line_level(ack_clock_ops(m), m.scl_pin(), u, scl0) == if u < m.delay_cycles() {
            scl0
        } else {
            u < 2 * m.delay_cycles()
        },
{
    let sda = m.sda_pin();
    let scl = m.scl_pin();
    let c = m.delay_cycles();
    lemma_addresses(sda);
    lemma_addresses(scl);
    lemma_bank_bit(sda);
    lemma_bank_bit(scl);
    lemma_bit_ops(0, bank_index(sda), bank_index(scl));
    let d = Op::Delay { cycles: c };
    let i0 = config_input_ops(sda)[0];
    let i1 = config_input_ops(sda)[1];
    let p0 = set_pull_ops(sda, Pull::Up)[0];
    let hi = set_high_ops(scl)[0];
    let sm = sample_ops(sda)[0];
    let lo = set_low_ops(scl)[0];
    let o0 = config_output_ops(sda)[0];
    let o1 = config_output_ops(sda)[1];
    let s0 = Seq::<Op>::empty();
    let s1 = s0.push(i0);
    let s2 = s1.push(i1);
    let s3 = s2.push(p0);
    let s4 = s3.push(d);
    let s5 = s4.push(hi);
    let s6 = s5.push(d);
    let s7 = s6.push(sm);
    let s8 = s7.push(lo);
    let s9 = s8.push(o0);
    let s10 = s9.push(o1);
    let s11 = s10.push(d);
    assert(ack_clock_ops(m) =~= s11);
    assert(s11.drop_last() =~= s10);
    assert(s10.drop_last() =~= s9);
    assert(s9.drop_last() =~= s8);
    assert(s8.drop_last() =~= s7);
    assert(s7.drop_last() =~= s6);
    assert(s6.drop_last() =~= s5);
    assert(s5.drop_last() =~= s4);
    assert(s4.drop_last() =~= s3);
    assert(s3.drop_last() =~= s2);
    assert(s2.drop_last() =~= s1);
    assert(s1.drop_last() =~= s0);
    assert(driven_by(i0, scl) is None);
    assert(driven_by(i1, scl) is None);
    assert(driven_by(p0, scl) is None);
    assert(driven_by(hi, scl) == Some(true));
    assert(driven_by(sm, scl) is None);
    assert(driven_by(lo, scl) == Some(false));
    assert(driven_by(o0, scl) is None);
    assert(driven_by(o1, scl) is None);
    reveal_with_fuel(elapsed, 12);
    reveal_with_fuel(line_level, 12);
}

/// SCL of a master that sends START and then an address byte, from the last
/// third of the eighth bit on: low until the ninth clock rises at `29 * c`,
/// high for one delay, low again from `30 * c`.
proof fn lemma_ninth_clock(m: I2cMasterBitBang, a: u8, t: nat)
    requires
        has_pad(m.sda_pin()),
        has_pad(m.scl_pin()),
        m.sda_pin() != m.scl_pin(),
        m.delay_cycles() > 0,
        t >= 27 * m.delay_cycles(),
    ensures
        line_level(m.start_ops() + m.write_byte_ops(a), m.scl_pin(), t, true) == (29
            * m.delay_cycles() <= t < 30 * m.delay_cycles()),
{
    let c = m.delay_cycles() as nat;
    let scl = m.scl_pin();
    let st = m.start_ops();
    let mw = m.write_byte_ops(a);
    let body = m.send_bits_ops(a, 8);
    let tail = ack_clock_ops(m);
    assert(mw =~= body + tail);
    lemma_start_condition(m, t, true, true);
    lemma_line_level_append(st, mw, scl, t, true);
    let r = (t - 4 * c) as nat;
    lemma_send_levels(m, a, 8, r, false, false);
    lemma_line_level_append(body, tail, scl, r, false);
    if r < 24 * c {
        lemma_bit_time(r as int, c as int, 7, r - 21 * c);
    } else {
        lemma_ack_clock_levels(m, (r - 24 * c) as nat, false);
    }
}

/// The slave's acknowledge, begun at `27 * c` (the slave's end of the
/// address byte) against a master that sends START and an address byte: SDA
/// driven low at once, a delay, the wait for the ninth clock's rise ends at
/// `29 * c`, a delay, the wait for its fall ends at `30 * c`, and SDA is
/// released there.
proof fn lemma_acknowledge_run(
    m: I2cMasterBitBang,
    sl: I2cSlaveBitBang,
    w: Wiring,
    a: u8,
    t: nat,
    before: bool,
)
    requires
        has_pad(m.sda_pin()),
        has_pad(m.scl_pin()),
        m.sda_pin() != m.scl_pin(),
        has_pad(sl.sda_pin()),
        has_pad(sl.scl_pin()),
        sl.sda_pin() != sl.scl_pin(),
        m.delay_cycles() == sl.delay_cycles(),
        m.delay_cycles() > 0,
        w.master_sda == m.sda_pin(),
        w.master_scl == m.scl_pin(),
        w.slave_sda == sl.sda_pin(),
        w.slave_scl == sl.scl_pin(),
        w.scl_before == true,
    ensures
        slave_run(
            m.start_ops() + m.write_byte_ops(a),
            w,
            sl.acknowledge_ops(),
            27 * m.delay_cycles() as nat,
        ).0 == 30 * m.delay_cycles(),
        t >= 27 * m.delay_cycles() ==> slave_line_level(
            m.start_ops() + m.write_byte_ops(a),
            w,
            sl.acknowledge_ops(),
            27 * m.delay_cycles() as nat,
            sl.sda_pin(),
            t,
            before,
        ) == (t >= 30 * m.delay_cycles()),
{
    let c = m.delay_cycles() as nat;
    let mm = m.start_ops() + m.write_byte_ops(a);
    let sda = sl.sda_pin();
    let scl = sl.scl_pin();
    lemma_inputs_distinct(sda, scl);
    lemma_addresses(sda);
    lemma_bank_bit(sda);
    let d = Op::Delay { cycles: sl.delay_cycles() };
    let a0 = set_low_ops(sda)[0];
    let a1 = config_output_ops(sda)[0];
    let a2 = config_output_ops(sda)[1];
    let wh = sl.wait_scl_ops(true)[0];
    let wl = sl.wait_scl_ops(false)[0];
    let a7 = set_high_ops(sda)[0];
    let s0 = Seq::<Op>::empty();
    let s1 = s0.push(a0);
    let s2 = s1.push(a1);
    let s3 = s2.push(a2);
    let s4 = s3.push(d);
    let s5 = s4.push(wh);
    let s6 = s5.push(d);
    let s7 = s6.push(wl);
    let s8 = s7.push(a7);
    assert(sl.acknowledge_ops() =~= s8);
    assert(s8.drop_last() =~= s7);
    assert(s7.drop_last() =~= s6);
    assert(s6.drop_last() =~= s5);
    assert(s5.drop_last() =~= s4);
    assert(s4.drop_last() =~= s3);
    assert(s3.drop_last() =~= s2);
    assert(s2.drop_last() =~= s1);
    assert(s1.drop_last() =~= s0);
    assert(driven_by(a0, sda) == Some(false));
    assert(driven_by(a1, sda) is None);
    assert(driven_by(a2, sda) is None);
    assert(driven_by(d, sda) is None);
    assert(driven_by(wh, sda) is None);
    assert(driven_by(wl, sda) is None);
    assert(driven_by(a7, sda) == Some(true));
    // SCL as the slave reads it.
    assert forall|u: nat| 28 * c <= u < 29 * c implies #[trigger] read_line(
        mm,
        w,
        in_reg(scl),
        bank_bit(scl),
        u,
    ) != true by {
        lemma_ninth_clock(m, a, u);
    }
    lemma_ninth_clock(m, a, 29 * c);
    lemma_ninth_clock(m, a, 30 * c);
    assert(read_line(mm, w, in_reg(scl), bank_bit(scl), 29 * c) == true);
    assert(read_line(mm, w, in_reg(scl), bank_bit(scl), 30 * c) == false);
    assert(wait_ends_at(mm, w, in_reg(scl), bank_bit(scl), true, 28 * c, 29 * c));
    lemma_wait_end(mm, w, in_reg(scl), bank_bit(scl), true, 28 * c, 29 * c);
    assert(wait_ends_at(mm, w, in_reg(scl), bank_bit(scl), false, 30 * c, 30 * c));
    lemma_wait_end(mm, w, in_reg(scl), bank_bit(scl), false, 30 * c, 30 * c);
    reveal_with_fuel(slave_run, 9);
    reveal_with_fuel(slave_line_level, 9);
    let t0 = 27 * c;
    assert(slave_run(mm, w, s3, t0).0 == 27 * c);
    assert(slave_run(mm, w, s4, t0).0 == 28 * c);
    assert(slave_run(mm, w, s5, t0).0 == 29 * c);
    assert(slave_run(mm, w, s6, t0).0 == 30 * c);
    assert(slave_run(mm, w, s7, t0).0 == 30 * c);
}

/// Whatever the registers held when the acknowledge starts, its first seven
/// operations (everything before SDA is let go) leave SDA an enabled output
/// driven low.
proof fn lemma_acknowledge_drives_low(regs: Map<u32, u32>, sl: I2cSlaveBitBang)
    requires
        has_pad(sl.sda_pin()),
    ensures
        output_enabled(run(regs, sl.acknowledge_ops().take(7)), sl.sda_pin()),
        !output_level(run(regs, sl.acknowledge_ops().take(7)), sl.sda_pin()),
{
    let sda = sl.sda_pin();
    let low = drive_ops(sda, false);
    let cfg = config_output_ops(sda);
    let waits = sl.delay_ops() + sl.wait_scl_ops(true) + sl.delay_ops() + sl.wait_scl_ops(false);
    assert(sl.acknowledge_ops().take(7) =~= low + cfg + waits);
    lemma_run_append(regs, low, cfg);
    lemma_run_append(regs, low + cfg, waits);
    lemma_drive(regs, sda, false);
    lemma_config_output(run(regs, low), sda);
    let r = run(regs, low + cfg);
    assert(waits.drop_last().drop_last().drop_last().drop_last() =~= Seq::<Op>::empty());
    reveal_with_fuel(run, 5);
    assert(run(r, waits) == r);
}

/// I2C acknowledge: on an idle bus, a slave wired to a master's lines, with
/// the same bit delay, runs `await_address` and then the acknowledge that
/// `check_address` appends for an address byte that addresses it, while the
/// master sends START and the address byte `a`. From the end of the eighth
/// bit on (time `27 * c`), SCL is high exactly during the ninth clock,
/// `29 * c` up to `30 * c`, and the slave holds SDA low from `27 * c` until
/// `30 * c`: through the whole high phase, at whose end the master samples
/// SDA, and it lets SDA go only once its wait has seen SCL low again, so it
/// neither answers NACK nor makes a STOP condition.
pub proof fn lemma_slave_acknowledges_address(m: I2cMasterBitBang, sl: I2cSlaveBitBang, w: Wiring, a: u8)
    requires
        has_pad(m.sda_pin()),
        has_pad(m.scl_pin()),
        m.sda_pin() != m.scl_pin(),
        has_pad(sl.sda_pin()),
        has_pad(sl.scl_pin()),
        sl.sda_pin() != sl.scl_pin(),
        m.delay_cycles() == sl.delay_cycles(),
        m.delay_cycles() > 0,
        w.master_sda == m.sda_pin(),
        w.master_scl == m.scl_pin(),
        w.slave_sda == sl.sda_pin(),
        w.slave_scl == sl.scl_pin(),
        w.sda_before == true,
        w.scl_before == true,
    ensures
        ({
            let mm = m.start_ops() + m.write_byte_ops(a);
            let ops = sl.await_address_ops() + sl.acknowledge_ops();
            let c = m.delay_cycles() as nat;
            &&& forall|t: nat|
                #![trigger line_level(mm, w.master_scl, t, w.scl_before)]
                t >= 27 * c ==> (line_level(mm, w.master_scl, t, w.scl_before) <==> 29 * c <= t < 30
                    * c)
            &&& forall|t: nat|
                #![trigger slave_line_level(mm, w, ops, 0, sl.sda_pin(), t, true)]
                t >= 27 * c ==> (slave_line_level(mm, w, ops, 0, sl.sda_pin(), t, true) <==> t >= 30
                    * c)
            &&& slave_run(mm, w, ops, 0).0 == 30 * c
            &&& slave_run(mm, w, sl.await_address_ops() + sl.acknowledge_ops().take(7), 0).0 == 30
                * c
            &&& forall|regs: Map<u32, u32>|
                #![trigger run(regs, sl.acknowledge_ops().take(7))]
                output_enabled(run(regs, sl.acknowledge_ops().take(7)), sl.sda_pin()) && !output_level(
                    run(regs, sl.acknowledge_ops().take(7)),
                    sl.sda_pin(),
                )
        }),
{
    let mm = m.start_ops() + m.write_byte_ops(a);
    let aw = sl.await_address_ops();
    let ack = sl.acknowledge_ops();
    let ops = aw + ack;
    let c = m.delay_cycles() as nat;
    lemma_slave_reads_address(m, sl, w, a);
    lemma_slave_run_append(mm, w, aw, ack, 0);
    lemma_acknowledge_run(m, sl, w, a, 0, true);
    assert forall|regs: Map<u32, u32>|
        #![trigger run(regs, sl.acknowledge_ops().take(7))]
        output_enabled(run(regs, sl.acknowledge_ops().take(7)), sl.sda_pin()) && !output_level(
            run(regs, sl.acknowledge_ops().take(7)),
            sl.sda_pin(),
        ) by {
        lemma_acknowledge_drives_low(regs, sl);
    }
    lemma_slave_run_append(mm, w, aw, ack.take(7), 0);
    lemma_acknowledge_run(m, sl, w, a, 0, true);
    assert forall|t: nat|
        #![trigger line_level(mm, w.master_scl, t, w.scl_before)]
        t >= 27 * c implies (line_level(mm, w.master_scl, t, w.scl_before) <==> 29 * c <= t < 30
            * c) by {
        lemma_ninth_clock(m, a, t);
    }
    assert forall|t: nat|
        #![trigger slave_line_level(mm, w, ops, 0, sl.sda_pin(), t, true)]
        t >= 27 * c implies (slave_line_level(mm, w, ops, 0, sl.sda_pin(), t, true) <==> t >= 30
            * c) by {
        lemma_slave_line_level_append(mm, w, aw, ack, 0, sl.sda_pin(), t, true);
        lemma_acknowledge_run(
            m,
            sl,
            w,
            a,
            t,
            slave_line_level(mm, w, aw, 0, sl.sda_pin(), t, true),
        );
    }
}

/// The START condition as the master puts it on the lines, whatever their
/// levels before: SDA is high until `2 * c` and low from then on; SCL keeps
/// its level for the first delay, is high from `c` until `3 * c` and low from
/// then on. So SDA falls while SCL is high, and SCL falls after it; the
/// whole condition lasts four delays.
pub proof fn lemma_start_condition(m: I2cMasterBitBang, t: nat, sda0: bool, scl0: bool)
    requires
        has_pad(m.sda_pin()),
        has_pad(m.scl_pin()),
        m.sda_pin() != m.scl_pin(),
    ensures
        elapsed(m.start_ops()) == 4 * m.delay_cycles(),
        line_level(m.start_ops(), m.sda_pin(), t, sda0) == (t < 2 * m.delay_cycles()),
        line_level(m.start_ops(), m.scl_pin(), t, scl0) == if t < m.delay_cycles() {
            scl0
        } else {
            t < 3 * m.delay_cycles()
        },
{
    let sda = m.sda_pin();
    let scl = m.scl_pin();
    let c = m.delay_cycles();
    lemma_addresses(sda);
    lemma_addresses(scl);
    lemma_bank_bit(sda);
    lemma_bank_bit(scl);
    lemma_bit_ops(0, bank_index(sda), bank_index(scl));
    let d = Op::Delay { cycles: c };
    let o0 = set_high_ops(sda)[0];
    let o2 = set_high_ops(scl)[0];
    let o4 = set_low_ops(sda)[0];
    let o6 = set_low_ops(scl)[0];
    let s0 = Seq::<Op>::empty();
    let s1 = s0.push(o0);
    let s2 = s1.push(d);
    let s3 = s2.push(o2);
    let s4 = s3.push(d);
    let s5 = s4.push(o4);
    let s6 = s5.push(d);
    let s7 = s6.push(o6);
    let s8 = s7.push(d);
    assert(m.start_ops() =~= s8);
    assert(s8.drop_last() =~= s7);
    assert(s7.drop_last() =~= s6);
    assert(s6.drop_last() =~= s5);
    assert(s5.drop_last() =~= s4);
    assert(s4.drop_last() =~= s3);
    assert(s3.drop_last() =~= s2);
    assert(s2.drop_last() =~= s1);
    assert(s1.drop_last() =~= s0);
    assert(driven_by(o0, sda) == Some(true));
    assert(driven_by(o0, scl) is None);
    assert(driven_by(o2, sda) is None);
    assert(driven_by(o2, scl) == Some(true));
    assert(driven_by(o4, sda) == Some(false));
    assert(driven_by(o4, scl) is None);
    assert(driven_by(o6, sda) is None);
    assert(driven_by(o6, scl) == Some(false));
    reveal_with_fuel(elapsed, 9);
    reveal_with_fuel(line_level, 9);
}

/// The STOP condition as the master puts it on the lines, whatever their
/// levels before: SDA is low until `2 * c` and high from then on; SCL keeps
/// its level for the first delay and is high from `c` on. So SDA rises while
/// SCL is high; the whole condition lasts three delays.
pub proof fn lemma_stop_condition(m: I2cMasterBitBang, t: nat, sda0: bool, scl0: bool)
    requires
        has_pad(m.sda_pin()),
        has_pad(m.scl_pin()),
        m.sda_pin() != m.scl_pin(),
    ensures
        elapsed(m.stop_ops()) == 3 * m.delay_cycles(),
        line_level(m.stop_ops(), m.sda_pin(), t, sda0) == (t >= 2 * m.delay_cycles()),
        line_level(m.stop_ops(), m.scl_pin(), t, scl0) == if t < m.delay_cycles() {
            scl0
        } else {
            true
        },
{
    let sda = m.sda_pin();
    let scl = m.scl_pin();
    let c = m.delay_cycles();
    lemma_addresses(sda);
    lemma_addresses(scl);
    lemma_bank_bit(sda);
    lemma_bank_bit(scl);
    lemma_bit_ops(0, bank_index(sda), bank_index(scl));
    let d = Op::Delay { cycles: c };
    let o0 = set_low_ops(sda)[0];
    let o2 = set_high_ops(scl)[0];
    let o4 = set_high_ops(sda)[0];
    let s0 = Seq::<Op>::empty();
    let s1 = s0.push(o0);
    let s2 = s1.push(d);
    let s3 = s2.push(o2);
    let s4 = s3.push(d);
    let s5 = s4.push(o4);
    let s6 = s5.push(d);
    assert(m.stop_ops() =~= s6);
    assert(s6.drop_last() =~= s5);
    assert(s5.drop_last() =~= s4);
    assert(s4.drop_last() =~= s3);
    assert(s3.drop_last() =~= s2);
    assert(s2.drop_last() =~= s1);
    assert(s1.drop_last() =~= s0);
    assert(driven_by(o0, sda) == Some(false));
    assert(driven_by(o0, scl) is None);
    assert(driven_by(o2, sda) is None);
    assert(driven_by(o2, scl) == Some(true));
    assert(driven_by(o4, sda) == Some(true));
    assert(driven_by(o4, scl) is None);
    reveal_with_fuel(elapsed, 7);
    reveal_with_fuel(line_level, 7);
}

} // verus!
