use zavrad::bmp280::{
    compensate_temperature, compensation_in_range, indicator, parse_calibration, raw_temperature,
    show_indicator, Calibration, Indicator,
};
use zavrad::ops::Op;
use zavrad::{Output, Pin};

fn datasheet_calibration() -> Calibration {
    parse_calibration(&[0x70, 0x6B, 0x43, 0x67, 0x18, 0xFC, 0, 0])
}

#[test]
fn calibration_parsing() {
    let c = datasheet_calibration();
    assert_eq!(c.dig_t1, 27504);
    assert_eq!(c.dig_t2, 26435);
    assert_eq!(c.dig_t3, -1000);
    let c = parse_calibration(&[0xFF, 0xFF, 0x00, 0x80, 0xFF, 0x7F]);
    assert_eq!(c.dig_t1, 65535);
    assert_eq!(c.dig_t2, -32768);
    assert_eq!(c.dig_t3, 32767);
}

#[test]
fn raw_value_assembly() {
    assert_eq!(raw_temperature(&[0x7E, 0xED, 0x00]), 519_888);
    assert_eq!(raw_temperature(&[0xFF, 0xFF, 0xFF]), 0xF_FFFF);
    assert_eq!(raw_temperature(&[0x00, 0x00, 0x1F]), 1);
}

#[test]
fn datasheet_compensation_example() {
    let c = datasheet_calibration();
    assert!(compensation_in_range(519_888, &c));
    assert_eq!(compensate_temperature(519_888, &c), 2508);
}

#[test]
fn negative_terms_round_down() {
    let c = Calibration { dig_t1: 27504, dig_t2: 26435, dig_t3: -1000 };
    assert!(compensation_in_range(400_000, &c));
    let t = compensate_temperature(400_000, &c);
    let adc: i64 = 400_000;
    let var1 = ((adc / 8 - 2 * 27504) * 26435).div_euclid(2048);
    let d = adc / 16 - 27504;
    let var2 = ((d * d).div_euclid(4096) * -1000).div_euclid(16384);
    assert_eq!(t as i64, ((var1 + var2) * 5 + 128).div_euclid(256));
}

#[test]
fn compensation_out_of_range() {
    let c = Calibration { dig_t1: 0, dig_t2: 32767, dig_t3: 0 };
    assert!(!compensation_in_range(0xF_FFFF, &c));
    let c = Calibration { dig_t1: 0, dig_t2: 0, dig_t3: 0 };
    assert!(!compensation_in_range(i32::MAX, &c));
    assert!(compensation_in_range(0, &c));
    assert_eq!(compensate_temperature(0, &c), 0);
}

#[test]
fn indicator_thresholds() {
    assert_eq!(indicator(2508), Indicator::Cold);
    assert_eq!(indicator(2700), Indicator::Cold);
    assert_eq!(indicator(2701), Indicator::Normal);
    assert_eq!(indicator(3199), Indicator::Normal);
    assert_eq!(indicator(3200), Indicator::Hot);
    assert_eq!(indicator(-4000), Indicator::Cold);
}

#[test]
fn indicator_leds() {
    let mut prog = Vec::new();
    let blue = Pin::<Output>::new(32, &mut prog);
    let red = Pin::<Output>::new(27, &mut prog);
    let green = Pin::<Output>::new(26, &mut prog);
    prog.clear();
    show_indicator(Indicator::Hot, &blue, &green, &red, &mut prog);
    assert_eq!(
        prog,
        vec![
            Op::Write { addr: 0x3FF4_4018, value: 0x1 },
            Op::Write { addr: 0x3FF4_400C, value: 0x0400_0000 },
            Op::Write { addr: 0x3FF4_4008, value: 0x0800_0000 },
        ]
    );
    prog.clear();
    show_indicator(Indicator::Cold, &blue, &green, &red, &mut prog);
    assert_eq!(prog[0], Op::Write { addr: 0x3FF4_4014, value: 0x1 });
    prog.clear();
    show_indicator(Indicator::Normal, &blue, &green, &red, &mut prog);
    assert_eq!(prog[1], Op::Write { addr: 0x3FF4_4008, value: 0x0400_0000 });
}
