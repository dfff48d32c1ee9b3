use zavrad::ops::Op;
use zavrad::periph::{peripheral_input_signal, peripheral_output_signal};
use zavrad::protocols::i2c::I2cPeriph;
use zavrad::protocols::pwm::PwmPeriph;
use zavrad::protocols::spi::SpiPeriph;
use zavrad::protocols::uart::UartPeriph;
use zavrad::Pull;

#[test]
fn input_signal_routing() {
    let mut prog = Vec::new();
    peripheral_input_signal(19, 2, Pull::Up, &mut prog);
    assert_eq!(
        prog,
        vec![
            Op::Write { addr: 0x3FF4_4138, value: 0x8000_0013 },
            Op::Modify { addr: 0x3FF4_457C, clear: 0, set: 0x400 },
            Op::Write { addr: 0x3FF4_4028, value: 0x8_0000 },
            Op::Modify { addr: 0x3FF4_9074, clear: 0x187, set: 0x302 },
        ]
    );
}

#[test]
fn push_pull_output_signal_routing() {
    let mut prog = Vec::new();
    peripheral_output_signal(23, 1, false, 0, &mut prog);
    assert_eq!(
        prog,
        vec![
            Op::Modify { addr: 0x3FF4_458C, clear: 0x1FF, set: 0x401 },
            Op::Write { addr: 0x3FF4_4024, value: 0x80_0000 },
            Op::Modify { addr: 0x3FF4_40E4, clear: 0x4, set: 0 },
            Op::Modify { addr: 0x3FF4_908C, clear: 0x1D87, set: 0x2 },
        ]
    );
}

#[test]
fn open_drain_output_signal_routing() {
    let mut prog = Vec::new();
    peripheral_output_signal(21, 30, true, 3, &mut prog);
    assert_eq!(
        prog,
        vec![
            Op::Modify { addr: 0x3FF4_4584, clear: 0x1FF, set: 0x41E },
            Op::Write { addr: 0x3FF4_4024, value: 0x20_0000 },
            Op::Modify { addr: 0x3FF4_40DC, clear: 0, set: 0x4 },
            Op::Modify { addr: 0x3FF4_907C, clear: 0x1D87, set: 0xD02 },
        ]
    );
}

#[test]
fn drive_strength_keeps_only_three_bits() {
    let mut prog = Vec::new();
    peripheral_output_signal(4, 0, false, 0xFF, &mut prog);
    assert_eq!(prog[3], Op::Modify { addr: 0x3FF4_9048, clear: 0x1D87, set: 0x1C02 });
}

#[test]
fn peripheral_inits() {
    let mut spi = Vec::new();
    SpiPeriph::init(23, 19, 18, 5, Pull::Floating, &mut spi);
    let mut expected = Vec::new();
    peripheral_output_signal(23, 1, false, 0, &mut expected);
    peripheral_output_signal(18, 0, false, 0, &mut expected);
    peripheral_output_signal(5, 5, false, 0, &mut expected);
    peripheral_input_signal(19, 2, Pull::Floating, &mut expected);
    assert_eq!(spi, expected);

    let mut uart = Vec::new();
    UartPeriph::init(1, 3, Pull::Up, &mut uart);
    let mut expected = Vec::new();
    peripheral_output_signal(1, 14, false, 0, &mut expected);
    peripheral_input_signal(3, 14, Pull::Up, &mut expected);
    assert_eq!(uart, expected);

    let mut i2c = Vec::new();
    I2cPeriph::init(21, 22, 30, 29, Pull::Up, &mut i2c);
    let mut expected = Vec::new();
    peripheral_output_signal(21, 30, true, 0, &mut expected);
    peripheral_output_signal(22, 29, false, 0, &mut expected);
    peripheral_input_signal(21, 30, Pull::Up, &mut expected);
    expected.push(Op::Write { addr: 0x3FF4_4024, value: 0x20_0000 });
    assert_eq!(i2c, expected);

    let mut pwm = Vec::new();
    PwmPeriph::init(26, &mut pwm);
    let mut expected = Vec::new();
    peripheral_output_signal(26, 32, false, 0, &mut expected);
    assert_eq!(pwm, expected);
}
