use zavrad::gpio_mux::{
    pin_bit, select_bank, GPIO_ENABLE1_W1TS, GPIO_ENABLE_W1TC, GPIO_ENABLE_W1TS, GPIO_IN,
    GPIO_IN1, GPIO_OUT1_W1TS, GPIO_OUT_W1TC,
};
use zavrad::io_mux::{io_mux_reg, pad_exists};
use zavrad::ops::{level_of, Op};
use zavrad::{Input, Output, Pin, Pull};

#[test]
fn pad_registers_of_pins() {
    assert_eq!(io_mux_reg(0), 0x3FF4_9044);
    assert_eq!(io_mux_reg(1), 0x3FF4_9088);
    assert_eq!(io_mux_reg(5), 0x3FF4_906C);
    assert_eq!(io_mux_reg(12), 0x3FF4_9034);
    assert_eq!(io_mux_reg(23), 0x3FF4_908C);
    assert_eq!(io_mux_reg(25), 0x3FF4_9024);
    assert_eq!(io_mux_reg(32), 0x3FF4_901C);
    assert_eq!(io_mux_reg(36), 0x3FF4_9004);
    assert_eq!(io_mux_reg(39), 0x3FF4_9010);
}

#[test]
fn pins_without_pad_register() {
    for pin in [6u8, 7, 8, 9, 10, 11, 24, 28, 29, 30, 31, 40, 255] {
        assert!(!pad_exists(pin), "pin {}", pin);
    }
    for pin in [0u8, 1, 2, 3, 4, 5, 12, 18, 23, 25, 27, 32, 35, 39] {
        assert!(pad_exists(pin), "pin {}", pin);
    }
}

#[test]
fn bank_bits_and_registers() {
    assert_eq!(pin_bit(0), 1);
    assert_eq!(pin_bit(31), 0x8000_0000);
    assert_eq!(pin_bit(32), 1);
    assert_eq!(pin_bit(39), 0x80);
    assert_eq!(select_bank(31, GPIO_IN, GPIO_IN1), GPIO_IN);
    assert_eq!(select_bank(32, GPIO_IN, GPIO_IN1), GPIO_IN1);
}

#[test]
fn input_pin_configuration() {
    let mut prog = Vec::new();
    let p = Pin::<Input>::new(5, &mut prog);
    assert_eq!(p.pin(), 5);
    assert_eq!(
        prog,
        vec![
            Op::Write { addr: 0x3FF4_4028, value: 0x20 },
            Op::Modify { addr: 0x3FF4_906C, clear: 0x187, set: 0x202 },
        ]
    );
}

#[test]
fn output_pin_configuration_in_upper_bank() {
    let mut prog = Vec::new();
    let p = Pin::<Output>::new(33, &mut prog);
    assert_eq!(p.pin(), 33);
    assert_eq!(
        prog,
        vec![
            Op::Write { addr: GPIO_ENABLE1_W1TS, value: 0x2 },
            Op::Modify { addr: 0x3FF4_9020, clear: 0x387, set: 0x2 },
        ]
    );
}

#[test]
fn driving_levels() {
    let mut prog = Vec::new();
    let p = Pin::<Output>::new(33, &mut prog);
    let q = Pin::<Output>::new(26, &mut prog);
    prog.clear();
    p.set_high(&mut prog);
    q.set_low(&mut prog);
    assert_eq!(
        prog,
        vec![
            Op::Write { addr: GPIO_OUT1_W1TS, value: 0x2 },
            Op::Write { addr: GPIO_OUT_W1TC, value: 0x0400_0000 },
        ]
    );
}

#[test]
fn sampling_and_pulls() {
    let mut prog = Vec::new();
    let p = Pin::<Input>::new(34, &mut prog);
    let q = Pin::<Input>::new(19, &mut prog);
    prog.clear();
    p.is_high(&mut prog);
    q.set_pull(Pull::Down, &mut prog);
    q.set_pull(Pull::Up, &mut prog);
    q.set_pull(Pull::Floating, &mut prog);
    assert_eq!(
        prog,
        vec![
            Op::Sample { addr: 0x3FF4_4040, mask: 0x4 },
            Op::Modify { addr: 0x3FF4_9074, clear: 0x180, set: 0x80 },
            Op::Modify { addr: 0x3FF4_9074, clear: 0x180, set: 0x100 },
            Op::Modify { addr: 0x3FF4_9074, clear: 0x180, set: 0 },
        ]
    );
    assert!(level_of(0x0000_0004, 0x4));
    assert!(!level_of(0xFFFF_FFFB, 0x4));
}

#[test]
fn mode_switches() {
    let mut prog = Vec::new();
    let p = Pin::<Output>::new(2, &mut prog);
    prog.clear();
    let i = p.into_input(&mut prog);
    assert_eq!(i.pin(), 2);
    assert_eq!(
        prog,
        vec![
            Op::Write { addr: GPIO_ENABLE_W1TC, value: 0x4 },
            Op::Modify { addr: 0x3FF4_9040, clear: 0x187, set: 0x202 },
        ]
    );
    prog.clear();
    let o = i.into_output(&mut prog);
    assert_eq!(o.pin(), 2);
    assert_eq!(
        prog,
        vec![
            Op::Write { addr: GPIO_ENABLE_W1TS, value: 0x4 },
            Op::Modify { addr: 0x3FF4_9040, clear: 0x387, set: 0x2 },
        ]
    );
}

#[test]
fn values_stored_by_operations() {
    let m = Op::Modify { addr: 0, clear: 0x187, set: 0x202 };
    assert_eq!(m.next_value(0xFFFF_FFFF), 0xFFFF_FE7A);
    assert_eq!(m.next_value(0), 0x202);
    let w = Op::Write { addr: 0, value: 7 };
    assert_eq!(w.next_value(123), 7);
    let d = Op::Delay { cycles: 3 };
    assert_eq!(d.next_value(123), 123);
}
