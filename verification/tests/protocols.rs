use zavrad::bits::{byte_from_lsb_first, byte_from_msb_first, bytes_from_msb_first};
use zavrad::ops::Op;
use zavrad::protocols::i2c::{I2cMasterBitBang, I2cSlaveBitBang};
use zavrad::protocols::pwm::PwmBitBang;
use zavrad::protocols::spi::SpiBitBang;
use zavrad::protocols::uart::UartBitBang;

fn msb_samples(b: u8) -> Vec<bool> {
    (0..8).map(|i| (b >> (7 - i)) & 1 == 1).collect()
}

fn count_samples(prog: &[Op]) -> usize {
    prog.iter().filter(|op| matches!(op, Op::Sample { .. })).count()
}

#[test]
fn byte_assembly() {
    let s = msb_samples(0xA5);
    assert_eq!(byte_from_msb_first(&s, 0), 0xA5);
    assert_eq!(byte_from_lsb_first(&s, 0), 0xA5);
    let one = [true, false, false, false, false, false, false, false];
    assert_eq!(byte_from_msb_first(&one, 0), 0x80);
    assert_eq!(byte_from_lsb_first(&one, 0), 0x01);
    let mut two = msb_samples(0x12);
    two.extend(msb_samples(0xF0));
    two.push(true);
    assert_eq!(bytes_from_msb_first(&two), vec![0x12, 0xF0]);
    assert_eq!(byte_from_msb_first(&two, 8), 0xF0);
}

#[test]
fn spi_setup() {
    let mut prog = Vec::new();
    let _spi = SpiBitBang::new(23, 19, 18, 5, 1_000_000, &mut prog);
    assert_eq!(
        prog,
        vec![
            Op::Write { addr: 0x3FF4_4024, value: 0x80_0000 },
            Op::Modify { addr: 0x3FF4_908C, clear: 0x387, set: 0x2 },
            Op::Write { addr: 0x3FF4_4028, value: 0x8_0000 },
            Op::Modify { addr: 0x3FF4_9074, clear: 0x187, set: 0x202 },
            Op::Write { addr: 0x3FF4_4024, value: 0x4_0000 },
            Op::Modify { addr: 0x3FF4_9070, clear: 0x387, set: 0x2 },
            Op::Write { addr: 0x3FF4_4024, value: 0x20 },
            Op::Modify { addr: 0x3FF4_906C, clear: 0x387, set: 0x2 },
            Op::Write { addr: 0x3FF4_4008, value: 0x20 },
            Op::Write { addr: 0x3FF4_400C, value: 0x80_0000 },
            Op::Write { addr: 0x3FF4_400C, value: 0x4_0000 },
        ]
    );
}

#[test]
fn spi_transfer_shape() {
    let mut prog = Vec::new();
    let spi = SpiBitBang::new(23, 19, 18, 5, 1_000_000, &mut prog);
    prog.clear();
    spi.transfer_bytes(&[0x80], &mut prog);
    assert_eq!(prog.len(), 2 + 8 * 6 + 3);
    assert_eq!(prog[0], Op::Write { addr: 0x3FF4_400C, value: 0x20 });
    assert_eq!(prog[1], Op::Delay { cycles: 120 });
    assert_eq!(prog[2], Op::Write { addr: 0x3FF4_4008, value: 0x80_0000 });
    assert_eq!(prog[3], Op::Delay { cycles: 120 });
    assert_eq!(prog[4], Op::Write { addr: 0x3FF4_4008, value: 0x4_0000 });
    assert_eq!(prog[5], Op::Delay { cycles: 120 });
    assert_eq!(prog[6], Op::Sample { addr: 0x3FF4_403C, mask: 0x8_0000 });
    assert_eq!(prog[7], Op::Write { addr: 0x3FF4_400C, value: 0x4_0000 });
    assert_eq!(prog[8], Op::Write { addr: 0x3FF4_400C, value: 0x80_0000 });
    assert_eq!(prog[50], Op::Delay { cycles: 120 });
    assert_eq!(prog[51], Op::Write { addr: 0x3FF4_4008, value: 0x20 });
    assert_eq!(prog[52], Op::Delay { cycles: 120 });
    assert_eq!(count_samples(&prog), 8);
}

#[test]
fn spi_register_access() {
    let mut prog = Vec::new();
    let spi = SpiBitBang::new(23, 19, 18, 5, 1_000_000, &mut prog);
    let mut w = Vec::new();
    spi.write_reg(0xF4, 0x27, &mut w);
    let mut expected = Vec::new();
    spi.transfer_bytes(&[0x74, 0x27], &mut expected);
    assert_eq!(w, expected);
    let mut r = Vec::new();
    spi.read_regs(0x88, 24, &mut r);
    let mut tx = vec![0x88u8];
    tx.extend([0u8; 24]);
    let mut expected = Vec::new();
    spi.transfer_bytes(&tx, &mut expected);
    assert_eq!(r, expected);
    assert_eq!(count_samples(&r), 8 * 25);
}

#[test]
fn spi_received_bytes() {
    let mut s = msb_samples(0xFF);
    s.extend(msb_samples(0x58));
    s.extend(msb_samples(0x01));
    assert_eq!(SpiBitBang::received(&s), vec![0xFF, 0x58, 0x01]);
    assert_eq!(SpiBitBang::register_values(&s), vec![0x58, 0x01]);
    assert_eq!(SpiBitBang::register_values(&[]), Vec::<u8>::new());
}

#[test]
fn uart_frames() {
    let mut prog = Vec::new();
    let uart = UartBitBang::new(1, 3, 115_200, &mut prog);
    assert_eq!(prog.len(), 2 + 1 + 2 + 1);
    assert_eq!(prog[5], Op::Modify { addr: 0x3FF4_9084, clear: 0x180, set: 0x100 });
    prog.clear();
    uart.write_byte(0x55, &mut prog);
    let levels: Vec<bool> = prog
        .iter()
        .filter_map(|op| match op {
            Op::Write { addr: 0x3FF4_4008, value: 2 } => Some(true),
            Op::Write { addr: 0x3FF4_400C, value: 2 } => Some(false),
            _ => None,
        })
        .collect();
    assert_eq!(levels, vec![false, true, false, true, false, true, false, true, false, true]);
    assert!(prog.iter().all(|op| !matches!(op, Op::Delay { cycles } if *cycles != 2083)));
}

#[test]
fn uart_reception() {
    let mut prog = Vec::new();
    let uart = UartBitBang::new(1, 3, 115_200, &mut prog);
    prog.clear();
    uart.read_byte(&mut prog);
    assert_eq!(prog.len(), 19);
    assert_eq!(prog[0], Op::WaitFor { addr: 0x3FF4_403C, mask: 0x8, high: false });
    assert_eq!(prog[1], Op::Delay { cycles: 1041 });
    assert_eq!(prog[2], Op::Delay { cycles: 2083 });
    assert_eq!(prog[3], Op::Sample { addr: 0x3FF4_403C, mask: 0x8 });
    assert_eq!(prog[18], Op::Delay { cycles: 2083 });
    let s = [true, false, false, false, false, false, false, false];
    assert_eq!(UartBitBang::received_byte(&s), 1);
    prog.clear();
    uart.transfer_byte(0x0F, &mut prog);
    assert_eq!(prog.len(), 2 + 8 * 4 + 2);
    assert_eq!(count_samples(&prog), 8);
    assert_eq!(prog[3], Op::Delay { cycles: 1041 });
    assert_eq!(prog[5], Op::Delay { cycles: 1042 });
    let total: u32 = prog
        .iter()
        .map(|op| match op {
            Op::Delay { cycles } => *cycles,
            _ => 0,
        })
        .sum();
    assert_eq!(total, 10 * 2083);
}

#[test]
fn i2c_master_conditions() {
    let mut prog = Vec::new();
    let m = I2cMasterBitBang::new(21, 22, 100_000, &mut prog);
    assert_eq!(prog.len(), 6);
    prog.clear();
    m.start(&mut prog);
    let d = Op::Delay { cycles: 2400 };
    assert_eq!(
        prog,
        vec![
            Op::Write { addr: 0x3FF4_4008, value: 0x20_0000 },
            d,
            Op::Write { addr: 0x3FF4_4008, value: 0x40_0000 },
            d,
            Op::Write { addr: 0x3FF4_400C, value: 0x20_0000 },
            d,
            Op::Write { addr: 0x3FF4_400C, value: 0x40_0000 },
            d,
        ]
    );
    prog.clear();
    m.stop(&mut prog);
    assert_eq!(
        prog,
        vec![
            Op::Write { addr: 0x3FF4_400C, value: 0x20_0000 },
            d,
            Op::Write { addr: 0x3FF4_4008, value: 0x40_0000 },
            d,
            Op::Write { addr: 0x3FF4_4008, value: 0x20_0000 },
            d,
        ]
    );
}

#[test]
fn i2c_master_bytes() {
    let mut prog = Vec::new();
    let m = I2cMasterBitBang::new(21, 22, 100_000, &mut prog);
    prog.clear();
    m.write_byte(0xEC, &mut prog);
    assert_eq!(prog.len(), 8 * 6 + 11);
    let sda: Vec<bool> = prog[..48]
        .iter()
        .filter_map(|op| match op {
            Op::Write { addr: 0x3FF4_4008, value: 0x20_0000 } => Some(true),
            Op::Write { addr: 0x3FF4_400C, value: 0x20_0000 } => Some(false),
            _ => None,
        })
        .collect();
    assert_eq!(sda, vec![true, true, true, false, true, true, false, false]);
    assert_eq!(prog[48], Op::Write { addr: 0x3FF4_4028, value: 0x20_0000 });
    assert_eq!(prog[50], Op::Modify { addr: 0x3FF4_907C, clear: 0x180, set: 0x100 });
    assert_eq!(prog[54], Op::Sample { addr: 0x3FF4_403C, mask: 0x20_0000 });
    assert_eq!(prog[55], Op::Write { addr: 0x3FF4_400C, value: 0x40_0000 });
    assert_eq!(prog[56], Op::Write { addr: 0x3FF4_4024, value: 0x20_0000 });
    assert_eq!(prog[57], Op::Modify { addr: 0x3FF4_907C, clear: 0x387, set: 0x2 });
    assert_eq!(prog[58], Op::Delay { cycles: 2400 });
    assert!(I2cMasterBitBang::acknowledged(&[false]));
    assert!(!I2cMasterBitBang::acknowledged(&[true]));
    prog.clear();
    m.read_byte(true, &mut prog);
    assert_eq!(prog.len(), 3 + 8 * 5 + 8);
    assert_eq!(prog[43], Op::Write { addr: 0x3FF4_400C, value: 0x20_0000 });
    assert_eq!(prog[44], Op::Write { addr: 0x3FF4_4024, value: 0x20_0000 });
    assert_eq!(prog[47], Op::Write { addr: 0x3FF4_4008, value: 0x40_0000 });
    prog.clear();
    m.read_byte(false, &mut prog);
    assert_eq!(prog[43], Op::Write { addr: 0x3FF4_4008, value: 0x20_0000 });
    assert_eq!(I2cMasterBitBang::received_byte(&msb_samples(0x3C)), 0x3C);
}

#[test]
fn i2c_slave_addressing() {
    let mut prog = Vec::new();
    let s = I2cSlaveBitBang::new(0x76, 21, 22, 100_000, &mut prog);
    assert_eq!(prog.len(), 5);
    prog.clear();
    s.await_address(&mut prog);
    assert_eq!(prog.len(), 2 + 3 + 1 + 8 * 6);
    assert_eq!(
        prog[2],
        Op::WaitForBoth { addr_a: 0x3FF4_403C, mask_a: 0x20_0000, addr_b: 0x3FF4_403C, mask_b: 0x40_0000 }
    );
    assert_eq!(prog[3], Op::WaitFor { addr: 0x3FF4_403C, mask: 0x20_0000, high: false });
    assert_eq!(prog[4], Op::WaitFor { addr: 0x3FF4_403C, mask: 0x40_0000, high: false });
    assert_eq!(prog[6], Op::WaitFor { addr: 0x3FF4_403C, mask: 0x40_0000, high: true });
    assert_eq!(count_samples(&prog), 8);
    prog.clear();
    assert!(s.check_address(&msb_samples(0xEC), &mut prog));
    assert_eq!(prog.len(), 8);
    assert_eq!(prog[0], Op::Write { addr: 0x3FF4_400C, value: 0x20_0000 });
    assert_eq!(prog[1], Op::Write { addr: 0x3FF4_4024, value: 0x20_0000 });
    assert_eq!(prog[2], Op::Modify { addr: 0x3FF4_907C, clear: 0x387, set: 0x2 });
    assert_eq!(prog[7], Op::Write { addr: 0x3FF4_4008, value: 0x20_0000 });
    prog.clear();
    assert!(!s.check_address(&msb_samples(0xED), &mut prog));
    assert!(!s.check_address(&msb_samples(0xEE), &mut prog));
    assert!(prog.is_empty());
    s.read_data(&mut prog);
    assert_eq!(count_samples(&prog), 8);
    assert_eq!(I2cSlaveBitBang::data_byte(&msb_samples(0x9A)), 0x9A);
}

#[test]
fn slave_with_wide_address_never_matches() {
    let mut prog = Vec::new();
    let s = I2cSlaveBitBang::new(0x80, 21, 22, 100_000, &mut prog);
    prog.clear();
    for b in 0..=255u8 {
        assert!(!s.check_address(&msb_samples(b), &mut prog));
    }
    assert!(prog.is_empty());
}

#[test]
fn pwm_period() {
    assert_eq!(PwmBitBang::period_cycles_for(1000), 240_000);
    let mut prog = Vec::new();
    let p = PwmBitBang::with_high_cycles(26, 1000, 60_000, &mut prog);
    assert_eq!(
        prog,
        vec![
            Op::Write { addr: 0x3FF4_4024, value: 0x0400_0000 },
            Op::Modify { addr: 0x3FF4_9028, clear: 0x387, set: 0x2 },
            Op::Write { addr: 0x3FF4_400C, value: 0x0400_0000 },
        ]
    );
    prog.clear();
    p.tick(&mut prog);
    assert_eq!(
        prog,
        vec![
            Op::Write { addr: 0x3FF4_4024, value: 0x0400_0000 },
            Op::Modify { addr: 0x3FF4_9028, clear: 0x387, set: 0x2 },
            Op::Write { addr: 0x3FF4_4008, value: 0x0400_0000 },
            Op::Delay { cycles: 60_000 },
            Op::Write { addr: 0x3FF4_400C, value: 0x0400_0000 },
            Op::Delay { cycles: 180_000 },
        ]
    );
}
