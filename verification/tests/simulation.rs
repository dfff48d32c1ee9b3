//! Runs register programs on a simulated register file.
use std::collections::HashMap;
use zavrad::ops::Op;
use zavrad::periph::peripheral_output_signal;
use zavrad::protocols::i2c::{I2cMasterBitBang, I2cPeriph, I2cSlaveBitBang};
use zavrad::protocols::spi::SpiBitBang;
use zavrad::protocols::uart::UartBitBang;
use zavrad::{Input, Output, Pin, Pull};

const OUT: u32 = 0x3FF4_4004;
const OUT1: u32 = 0x3FF4_4010;
const ENABLE: u32 = 0x3FF4_4020;
const ENABLE1: u32 = 0x3FF4_402C;

struct Sim {
    regs: HashMap<u32, u32>,
}

impl Sim {
    fn new(seed: u32) -> Sim {
        let mut regs = HashMap::new();
        let mut x = seed;
        for addr in (0x3FF4_4000u32..0x3FF4_4600).step_by(4).chain((0x3FF4_9000u32..0x3FF4_9090).step_by(4)) {
            x = x.wrapping_mul(1_664_525).wrapping_add(1_013_904_223);
            regs.insert(addr, x);
        }
        Sim { regs }
    }

    fn get(&self, addr: u32) -> u32 {
        *self.regs.get(&addr).unwrap_or(&0)
    }

    fn store(&mut self, addr: u32, value: u32) {
        let (target, set) = match addr {
            0x3FF4_4008 => (OUT, Some(true)),
            0x3FF4_400C => (OUT, Some(false)),
            0x3FF4_4014 => (OUT1, Some(true)),
            0x3FF4_4018 => (OUT1, Some(false)),
            0x3FF4_4024 => (ENABLE, Some(true)),
            0x3FF4_4028 => (ENABLE, Some(false)),
            0x3FF4_4030 => (ENABLE1, Some(true)),
            0x3FF4_4034 => (ENABLE1, Some(false)),
            _ => (addr, None),
        };
        let old = self.get(target);
        let new = match set {
            Some(true) => old | value,
            Some(false) => old & !value,
            None => value,
        };
        self.regs.insert(target, new);
    }

    fn out_level(&self, pin: u8) -> bool {
        if pin < 32 {
            self.get(OUT) & (1 << pin) != 0
        } else {
            self.get(OUT1) & (1 << (pin - 32)) != 0
        }
    }

    /// Runs `prog`; returns the output level of `data` at each raising of
    /// `clk` (a clock pin below 32).
    fn latch_on_rising(&mut self, prog: &[Op], clk: u8, data: u8) -> Vec<bool> {
        let mut latched = Vec::new();
        for op in prog {
            if *op == (Op::Write { addr: 0x3FF4_4008, value: 1 << clk }) {
                latched.push(self.out_level(data));
            }
            self.run(std::slice::from_ref(op), data);
        }
        latched
    }

    /// Runs `prog`; every sample reads the output level of `echo_pin`.
    fn run(&mut self, prog: &[Op], echo_pin: u8) -> Vec<bool> {
        let mut samples = Vec::new();
        for op in prog {
            match op {
                Op::Write { addr, .. } | Op::Modify { addr, .. } => {
                    let v = op.next_value(self.get(*addr));
                    self.store(*addr, v);
                }
                Op::Sample { .. } => samples.push(self.out_level(echo_pin)),
                _ => {}
            }
        }
        samples
    }
}

#[test]
fn last_configuration_wins_on_registers() {
    for seed in [1u32, 7, 12345] {
        for pin in [0u8, 5, 19, 27, 33, 39] {
            let mut a = Vec::new();
            let p = Pin::<Input>::new(pin, &mut a);
            let _o = p.into_output(&mut a);
            let mut b = Vec::new();
            let _q = Pin::<Output>::new(pin, &mut b);
            let mut sa = Sim::new(seed);
            let mut sb = Sim::new(seed);
            sa.run(&a, 0);
            sb.run(&b, 0);
            assert_eq!(sa.regs, sb.regs);
        }
    }
}

#[test]
fn input_configuration_fields() {
    let mut prog = Vec::new();
    let _p = Pin::<Input>::new(35, &mut prog);
    let mut s = Sim::new(99);
    let before = s.get(0x3FF4_9018);
    s.run(&prog, 0);
    let pad = s.get(0x3FF4_9018);
    assert_eq!(pad & 0x7, 2);
    assert_eq!(pad & 0x200, 0x200);
    assert_eq!(pad & 0x180, 0);
    assert_eq!(pad & !0x387, before & !0x387);
    assert_eq!(s.get(ENABLE1) & 0x8, 0);
}

#[test]
fn last_pull_wins_on_registers() {
    let mut prog = Vec::new();
    let p = Pin::<Input>::new(18, &mut prog);
    p.set_pull(Pull::Up, &mut prog);
    p.set_pull(Pull::Down, &mut prog);
    let mut s = Sim::new(3);
    s.run(&prog, 0);
    assert_eq!(s.get(0x3FF4_9070) & 0x180, 0x80);
}

#[test]
fn levels_of_other_pins_untouched() {
    let mut prog = Vec::new();
    let p = Pin::<Output>::new(4, &mut prog);
    let mut s = Sim::new(11);
    s.run(&prog, 0);
    let before: Vec<bool> = (0..40).map(|q| s.out_level(q)).collect();
    let mut prog = Vec::new();
    p.set_high(&mut prog);
    p.set_low(&mut prog);
    p.set_high(&mut prog);
    s.run(&prog, 0);
    for q in 0..40u8 {
        if q == 4 {
            assert!(s.out_level(q));
        } else {
            assert_eq!(s.out_level(q), before[q as usize]);
        }
    }
}

#[test]
fn spi_loopback_reads_what_it_writes() {
    let mut prog = Vec::new();
    let spi = SpiBitBang::new(23, 19, 18, 5, 1_000_000, &mut prog);
    let mut s = Sim::new(42);
    s.run(&prog, 23);
    let data = [0x00u8, 0xFF, 0xA5, 0x5A, 0x01, 0x80, 0xD0];
    let mut prog = Vec::new();
    spi.transfer_bytes(&data, &mut prog);
    let samples = s.run(&prog, 23);
    assert_eq!(samples.len(), 8 * data.len());
    assert_eq!(SpiBitBang::received(&samples), data.to_vec());
}

#[test]
fn uart_loopback_reads_what_it_sends() {
    let mut prog = Vec::new();
    let uart = UartBitBang::new(1, 3, 9600, &mut prog);
    let mut s = Sim::new(5);
    s.run(&prog, 1);
    for b in [0x00u8, 0x55, 0xAA, 0x81, 0xFF] {
        let mut prog = Vec::new();
        uart.transfer_byte(b, &mut prog);
        let samples = s.run(&prog, 1);
        assert_eq!(samples.len(), 8);
        assert_eq!(UartBitBang::received_byte(&samples), b);
    }
}

fn byte_of(bits: &[bool]) -> u8 {
    bits.iter().take(8).fold(0u8, |acc, b| (acc << 1) | (*b as u8))
}

#[test]
fn spi_device_latches_written_bytes() {
    let mut prog = Vec::new();
    let spi = SpiBitBang::new(23, 19, 18, 5, 1_000_000, &mut prog);
    let mut s = Sim::new(8);
    s.run(&prog, 23);
    let data = [0x3Cu8, 0xC3, 0x00, 0xFF];
    let mut prog = Vec::new();
    spi.transfer_bytes(&data, &mut prog);
    let latched = s.latch_on_rising(&prog, 18, 23);
    assert_eq!(latched.len(), 32);
    let bytes: Vec<u8> = latched.chunks(8).map(byte_of).collect();
    assert_eq!(bytes, data.to_vec());
}

#[test]
fn i2c_receiver_latches_written_byte() {
    let mut prog = Vec::new();
    let m = I2cMasterBitBang::new(21, 22, 100_000, &mut prog);
    let mut s = Sim::new(9);
    s.run(&prog, 21);
    for b in [0xECu8, 0x01, 0x80, 0x5A] {
        let mut prog = Vec::new();
        m.write_byte(b, &mut prog);
        let latched = s.latch_on_rising(&prog, 22, 21);
        assert_eq!(latched.len(), 9);
        assert_eq!(byte_of(&latched), b);
    }
}

#[test]
fn i2c_master_acknowledge_level() {
    let mut prog = Vec::new();
    let m = I2cMasterBitBang::new(21, 22, 100_000, &mut prog);
    let mut s = Sim::new(10);
    s.run(&prog, 21);
    for ack in [true, false] {
        let mut prog = Vec::new();
        m.read_byte(ack, &mut prog);
        let latched = s.latch_on_rising(&prog, 22, 21);
        assert_eq!(latched.len(), 9);
        assert_eq!(latched[8], !ack);
    }
}

#[test]
fn drive_strength_replaces_the_field() {
    let mut s = Sim::new(12);
    s.regs.insert(0x3FF4_9048, 0xFFFF_FFFF);
    let mut prog = Vec::new();
    peripheral_output_signal(4, 0, false, 1, &mut prog);
    s.run(&prog, 0);
    let pad = s.get(0x3FF4_9048);
    assert_eq!((pad >> 10) & 7, 1);
    assert_eq!(pad & 0x6000, 0x6000);
    assert_eq!(pad & 7, 2);
    assert_eq!(pad & 0x180, 0);
}

#[test]
fn i2c_sda_stays_an_output() {
    let mut prog = Vec::new();
    let m = I2cMasterBitBang::new(21, 22, 100_000, &mut prog);
    let mut s = Sim::new(13);
    s.run(&prog, 21);
    let mut prog = Vec::new();
    m.write_byte(0xA5, &mut prog);
    s.run(&prog, 21);
    assert_ne!(s.get(ENABLE) & (1 << 21), 0);
    assert_eq!(s.get(0x3FF4_907C) & 0x200, 0);
    let mut prog = Vec::new();
    m.read_byte(true, &mut prog);
    s.run(&prog, 21);
    assert_ne!(s.get(ENABLE) & (1 << 21), 0);
}

#[test]
fn i2c_peripheral_keeps_sda_driven() {
    let mut prog = Vec::new();
    I2cPeriph::init(21, 22, 30, 29, Pull::Down, &mut prog);
    let mut s = Sim::new(14);
    s.run(&prog, 0);
    assert_ne!(s.get(ENABLE) & (1 << 21), 0);
    assert_ne!(s.get(ENABLE) & (1 << 22), 0);
    assert_eq!(s.get(0x3FF4_4130 + 4 * 30), 0x8000_0015);
    assert_eq!(s.get(0x3FF4_4530 + 4 * 21) & 0x1FF, 30);
    assert_ne!(s.get(0x3FF4_4088 + 4 * 21) & 4, 0);
    assert_eq!(s.get(0x3FF4_907C) & 0x380, 0x280);
}

/// (level, start time) of each drive of `pin`, time counted in delay cycles.
fn waveform(prog: &[Op], set: Op, clear: Op) -> Vec<(bool, u64)> {
    let mut t = 0u64;
    let mut w = Vec::new();
    for op in prog {
        if *op == set {
            w.push((true, t));
        } else if *op == clear {
            w.push((false, t));
        } else if let Op::Delay { cycles } = op {
            t += *cycles as u64;
        }
    }
    w
}

fn sample_times(prog: &[Op]) -> Vec<u64> {
    let mut t = 0u64;
    let mut ts = Vec::new();
    for op in prog {
        match op {
            Op::Delay { cycles } => t += *cycles as u64,
            Op::Sample { .. } => ts.push(t),
            _ => {}
        }
    }
    ts
}

fn level_at(w: &[(bool, u64)], t: u64) -> bool {
    w.iter().filter(|(_, start)| *start <= t).last().unwrap().0
}

#[test]
fn uart_receiver_reads_sent_frame() {
    let mut prog = Vec::new();
    let sender = UartBitBang::new(1, 3, 115_200, &mut prog);
    let receiver = UartBitBang::new(17, 16, 115_200, &mut prog);
    for b in [0x00u8, 0x55, 0xA3, 0xFF] {
        let mut tx = Vec::new();
        sender.write_byte(b, &mut tx);
        let w = waveform(
            &tx,
            Op::Write { addr: 0x3FF4_4008, value: 2 },
            Op::Write { addr: 0x3FF4_400C, value: 2 },
        );
        let mut rx = Vec::new();
        receiver.read_byte(&mut rx);
        let samples: Vec<bool> = sample_times(&rx).iter().map(|t| level_at(&w, *t)).collect();
        assert_eq!(samples.len(), 8);
        assert_eq!(UartBitBang::received_byte(&samples), b);
    }
}

#[test]
fn i2c_sda_held_through_high_phase() {
    let mut prog = Vec::new();
    let m = I2cMasterBitBang::new(21, 22, 100_000, &mut prog);
    let mut s = Sim::new(15);
    s.run(&prog, 21);
    let mut prog = Vec::new();
    m.write_byte(0xC9, &mut prog);
    let mut at_fall = Vec::new();
    for op in &prog {
        if *op == (Op::Write { addr: 0x3FF4_400C, value: 1 << 22 }) {
            at_fall.push(s.out_level(21));
        }
        s.run(std::slice::from_ref(op), 21);
    }
    assert_eq!(at_fall.len(), 9);
    assert_eq!(byte_of(&at_fall), 0xC9);
}

/// Drive events (time, level) of a master pin below 32.
fn events(prog: &[Op], pin: u8) -> Vec<(u64, bool)> {
    waveform(
        prog,
        Op::Write { addr: 0x3FF4_4008, value: 1 << pin },
        Op::Write { addr: 0x3FF4_400C, value: 1 << pin },
    )
    .into_iter()
    .map(|(l, t)| (t, l))
    .collect()
}

fn line(ev: &[(u64, bool)], t: u64, before: bool) -> bool {
    ev.iter().filter(|(s, _)| *s <= t).last().map(|e| e.1).unwrap_or(before)
}

/// Runs a slave program whose SDA input (mask `sda_mask`) reads `sda` and
/// whose SCL input (`scl_mask`) reads `scl`; returns its samples.
fn run_slave(prog: &[Op], sda: &[(u64, bool)], scl: &[(u64, bool)], before: (bool, bool), sda_mask: u32, scl_mask: u32) -> Vec<bool> {
    let read = |mask: u32, t: u64| {
        if mask == sda_mask {
            line(sda, t, before.0)
        } else {
            assert_eq!(mask, scl_mask);
            line(scl, t, before.1)
        }
    };
    let mut times: Vec<u64> = sda.iter().chain(scl.iter()).map(|e| e.0).collect();
    times.sort();
    let next = |t: u64, cond: &dyn Fn(u64) -> bool| -> u64 {
        if cond(t) {
            return t;
        }
        *times.iter().find(|&&u| u > t && cond(u)).expect("wait never ends")
    };
    let mut t = 0u64;
    let mut samples = Vec::new();
    for op in prog {
        match *op {
            Op::Delay { cycles } => t += cycles as u64,
            Op::Sample { mask, .. } => samples.push(read(mask, t)),
            Op::WaitFor { mask, high, .. } => t = next(t, &|u| read(mask, u) == high),
            Op::WaitForBoth { mask_a, mask_b, .. } => {
                t = next(t, &|u| read(mask_a, u) && read(mask_b, u))
            }
            _ => {}
        }
    }
    samples
}

#[test]
fn slave_reads_address_and_data_from_master() {
    let mut prog = Vec::new();
    let m = I2cMasterBitBang::new(21, 22, 100_000, &mut prog);
    let sl = I2cSlaveBitBang::new(0x76, 18, 19, 100_000, &mut prog);
    let mut mp = Vec::new();
    m.start(&mut mp);
    m.write_byte(0xEC, &mut mp);
    let mut sp = Vec::new();
    sl.await_address(&mut sp);
    let samples = run_slave(&sp, &events(&mp, 21), &events(&mp, 22), (true, true), 1 << 18, 1 << 19);
    assert_eq!(I2cSlaveBitBang::data_byte(&samples), 0xEC);
    let mut ack = Vec::new();
    assert!(sl.check_address(&samples, &mut ack));

    let mut mp = Vec::new();
    m.write_byte(0x3A, &mut mp);
    let mut sp = Vec::new();
    sl.read_data(&mut sp);
    let samples = run_slave(&sp, &events(&mp, 21), &events(&mp, 22), (true, false), 1 << 18, 1 << 19);
    assert_eq!(I2cSlaveBitBang::data_byte(&samples), 0x3A);
}
