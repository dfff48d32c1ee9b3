//! Register programs.
//!
//! Every driver in this crate describes its hardware accesses as a sequence of
//! [`Op`]s, in the order in which they must happen. An executor that owns the
//! memory-mapped registers runs the sequence; the levels that it samples come
//! back to the drivers, which decode them.
//!
//! The spec functions [`apply_op`] and [`run`] give the effect of a program on
//! the register file: every register is plain storage, except the
//! write-1-to-set and write-1-to-clear aliases of the GPIO output and
//! output-enable registers, which set or clear bits of the register they alias.
use vstd::prelude::*;
use crate::gpio_mux::{
    GPIO_ENABLE, GPIO_ENABLE1, GPIO_ENABLE1_W1TC, GPIO_ENABLE1_W1TS, GPIO_ENABLE_W1TC,
    GPIO_ENABLE_W1TS, GPIO_OUT, GPIO_OUT1, GPIO_OUT1_W1TC, GPIO_OUT1_W1TS, GPIO_OUT_W1TC,
    GPIO_OUT_W1TS,
};

verus! {

/// One access to the memory-mapped registers.
#[derive(Clone, Copy, PartialEq, Eq, Debug)]
pub enum Op {
    /// Store `value` at `addr`.
    Write { addr: u32, value: u32 },
    /// Read `addr` once, clear the bits of `clear`, set the bits of `set`, and
    /// store the result back.
    Modify { addr: u32, clear: u32, set: u32 },
    /// Read `addr` once and record whether any bit of `mask` is set.
    Sample { addr: u32, mask: u32 },
    /// Spin for `cycles` iterations.
    Delay { cycles: u32 },
    /// Read `addr` until whether any bit of `mask` is set equals `high`.
    WaitFor { addr: u32, mask: u32, high: bool },
    /// Read until a bit of `mask_a` is set in `addr_a` and a bit of `mask_b`
    /// is set in `addr_b`, both in the same round.
    WaitForBoth { addr_a: u32, mask_a: u32, addr_b: u32, mask_b: u32 },
}

/// The value that a `Modify` with `clear` and `set` stores over `old`.
pub open spec fn modified(old: u32, clear: u32, set: u32) -> u32 {
    (old & !clear) | set
}

/// Whether a value read from a register has a bit of `mask` set.
pub open spec fn level(value: u32, mask: u32) -> bool {
    value & mask != 0
}

impl Op {
    /// The value that this operation stores when the register held `current`:
    /// the modified value for `Modify`, the given value for `Write`, and
    /// `current` itself for operations that store nothing.
    pub fn next_value(&self, current: u32) -> (v: u32)
        ensures
            v == match *self {
                Op::Write { value, .. } => value,
                Op::Modify { clear, set, .. } => modified(current, clear, set),
                _ => current,
            },
    {
        match self {
            Op::Write { value, .. } => *value,
            Op::Modify { clear, set, .. } => (current & !*clear) | *set,
            _ => current,
        }
    }
}

/// Whether `value`, read from a register, has a bit of `mask` set.
pub fn level_of(value: u32, mask: u32) -> (b: bool)
    ensures
        b == level(value, mask),
{
    value & mask != 0
}

/// The register that a store at `addr` finally changes: the aliased register
/// for the set/clear aliases, `addr` itself otherwise.
pub open spec fn alias_target(addr: u32) -> u32 {
    if addr == GPIO_OUT_W1TS || addr == GPIO_OUT_W1TC {
        GPIO_OUT
    } else if addr == GPIO_OUT1_W1TS || addr == GPIO_OUT1_W1TC {
        GPIO_OUT1
    } else if addr == GPIO_ENABLE_W1TS || addr == GPIO_ENABLE_W1TC {
        GPIO_ENABLE
    } else if addr == GPIO_ENABLE1_W1TS || addr == GPIO_ENABLE1_W1TC {
        GPIO_ENABLE1
    } else {
        addr
    }
}

pub open spec fn is_set_alias(addr: u32) -> bool {
    addr == GPIO_OUT_W1TS || addr == GPIO_OUT1_W1TS || addr == GPIO_ENABLE_W1TS
        || addr == GPIO_ENABLE1_W1TS
}

pub open spec fn is_clear_alias(addr: u32) -> bool {
    addr == GPIO_OUT_W1TC || addr == GPIO_OUT1_W1TC || addr == GPIO_ENABLE_W1TC
        || addr == GPIO_ENABLE1_W1TC
}

/// Register file after storing `value` at `addr`.
pub open spec fn store(regs: Map<u32, u32>, addr: u32, value: u32) -> Map<u32, u32> {
    let t = alias_target(addr);
    if is_set_alias(addr) {
        regs.insert(t, regs[t] | value)
    } else if is_clear_alias(addr) {
        regs.insert(t, regs[t] & !value)
    } else {
        regs.insert(addr, value)
    }
}

/// Register file after one operation; reads, delays and waits change nothing.
pub open spec fn apply_op(regs: Map<u32, u32>, op: Op) -> Map<u32, u32> {
    match op {
        Op::Write { addr, value } => store(regs, addr, value),
        Op::Modify { addr, clear, set } => store(regs, addr, modified(regs[addr], clear, set)),
        _ => regs,
    }
}

/// Register file after a whole program, run from the first operation on.
pub open spec fn run(regs: Map<u32, u32>, ops: Seq<Op>) -> Map<u32, u32>
    decreases ops.len(),
{
    if ops.len() == 0 {
        regs
    } else {
        apply_op(run(regs, ops.drop_last()), ops.last())
    }
}

/// Running two programs one after the other is running their concatenation.
pub proof fn lemma_run_append(regs: Map<u32, u32>, a: Seq<Op>, b: Seq<Op>)
    ensures
        run(regs, a + b) == run(run(regs, a), b),
    decreases b.len(),
{
    if b.len() == 0 {
        assert(a + b =~= a);
    } else {
        assert((a + b).drop_last() =~= a + b.drop_last());
        lemma_run_append(regs, a, b.drop_last());
    }
}

/// Appends `op` to `prog`.
pub(crate) fn emit(prog: &mut Vec<Op>, op: Op)
    ensures
        final(prog)@ == old(prog)@.push(op),
{
    prog.push(op);
}

} // verus!
