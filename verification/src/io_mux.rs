//! IO_MUX pad-configuration registers of the ESP32 and the fields used here.
use vstd::prelude::*;

verus! {

/// Width mask of the MCU_SEL (pad function) field, bits 0..=2.
pub const MCU_SEL_MASK: u32 = 0b111;
/// MCU_SEL value that routes a pad to the GPIO matrix (function 2 on every pad).
pub const MCU_SEL_GPIO: u32 = 0x2;
/// Input enable.
pub const FUN_IE: u32 = 0x200;
/// Weak pull-up.
pub const FUN_WPU: u32 = 0x100;
/// Weak pull-down.
pub const FUN_WPD: u32 = 0x80;

/// Address of the IO_MUX pad-configuration register of `pin`, for the pins
/// that have one (0..=5, 12..=23, 25..=27 and 32..=39).
pub open spec fn pad_reg(pin: u8) -> Option<u32> {
    match pin {
        0 => Some(0x3FF4_9044u32),
        1 => Some(0x3FF4_9088u32),
        2 => Some(0x3FF4_9040u32),
        3 => Some(0x3FF4_9084u32),
        4 => Some(0x3FF4_9048u32),
        5 => Some(0x3FF4_906Cu32),
        12 => Some(0x3FF4_9034u32),
        13 => Some(0x3FF4_9038u32),
        14 => Some(0x3FF4_9030u32),
        15 => Some(0x3FF4_903Cu32),
        16 => Some(0x3FF4_904Cu32),
        17 => Some(0x3FF4_9050u32),
        18 => Some(0x3FF4_9070u32),
        19 => Some(0x3FF4_9074u32),
        20 => Some(0x3FF4_9078u32),
        21 => Some(0x3FF4_907Cu32),
        22 => Some(0x3FF4_9080u32),
        23 => Some(0x3FF4_908Cu32),
        25 => Some(0x3FF4_9024u32),
        26 => Some(0x3FF4_9028u32),
        27 => Some(0x3FF4_902Cu32),
        32 => Some(0x3FF4_901Cu32),
        33 => Some(0x3FF4_9020u32),
        34 => Some(0x3FF4_9014u32),
        35 => Some(0x3FF4_9018u32),
        36 => Some(0x3FF4_9004u32),
        37 => Some(0x3FF4_9008u32),
        38 => Some(0x3FF4_900Cu32),
        39 => Some(0x3FF4_9010u32),
        _ => None,
    }
}

/// `pin` has an IO_MUX pad-configuration register.
pub open spec fn has_pad(pin: u8) -> bool {
    pad_reg(pin) is Some
}

/// The pad register of a pin that has one.
pub open spec fn pad_addr(pin: u8) -> u32 {
    pad_reg(pin)->0
}

/// Every pad register lies in the IO_MUX block, 0x3FF4_9004..=0x3FF4_908C,
/// on a word boundary, and no two pins share one.
pub proof fn lemma_pad_addr_facts(pin: u8)
    requires
        has_pad(pin),
    ensures
        pin <= 39,
        0x3FF4_9004 <= pad_addr(pin) <= 0x3FF4_908C,
        pad_addr(pin) % 4 == 0,
        forall|q: u8| #[trigger] has_pad(q) && q != pin ==> pad_addr(q) != pad_addr(pin),
{
}

/// The pad register of every pin, as the IO_MUX register summary of the
/// ESP32 technical reference lists it (register name beside each), and no
/// pad register for the pins without one (6..=11, 24, 28..=31, 40 and up).
pub proof fn lemma_pad_register_table()
    ensures
        pad_reg(0) == Some(0x3FF4_9044u32),  // IO_MUX_GPIO0_REG
        pad_reg(1) == Some(0x3FF4_9088u32),  // IO_MUX_U0TXD_REG
        pad_reg(2) == Some(0x3FF4_9040u32),  // IO_MUX_GPIO2_REG
        pad_reg(3) == Some(0x3FF4_9084u32),  // IO_MUX_U0RXD_REG
        pad_reg(4) == Some(0x3FF4_9048u32),  // IO_MUX_GPIO4_REG
        pad_reg(5) == Some(0x3FF4_906Cu32),  // IO_MUX_GPIO5_REG
        pad_reg(12) == Some(0x3FF4_9034u32),  // IO_MUX_MTDI_REG
        pad_reg(13) == Some(0x3FF4_9038u32),  // IO_MUX_MTCK_REG
        pad_reg(14) == Some(0x3FF4_9030u32),  // IO_MUX_MTMS_REG
        pad_reg(15) == Some(0x3FF4_903Cu32),  // IO_MUX_MTDO_REG
        pad_reg(16) == Some(0x3FF4_904Cu32),  // IO_MUX_GPIO16_REG
        pad_reg(17) == Some(0x3FF4_9050u32),  // IO_MUX_GPIO17_REG
        pad_reg(18) == Some(0x3FF4_9070u32),  // IO_MUX_GPIO18_REG
        pad_reg(19) == Some(0x3FF4_9074u32),  // IO_MUX_GPIO19_REG
        pad_reg(20) == Some(0x3FF4_9078u32),  // IO_MUX_GPIO20_REG
        pad_reg(21) == Some(0x3FF4_907Cu32),  // IO_MUX_GPIO21_REG
        pad_reg(22) == Some(0x3FF4_9080u32),  // IO_MUX_GPIO22_REG
        pad_reg(23) == Some(0x3FF4_908Cu32),  // IO_MUX_GPIO23_REG
        pad_reg(25) == Some(0x3FF4_9024u32),  // IO_MUX_GPIO25_REG
        pad_reg(26) == Some(0x3FF4_9028u32),  // IO_MUX_GPIO26_REG
        pad_reg(27) == Some(0x3FF4_902Cu32),  // IO_MUX_GPIO27_REG
        pad_reg(32) == Some(0x3FF4_901Cu32),  // IO_MUX_GPIO32_REG
        pad_reg(33) == Some(0x3FF4_9020u32),  // IO_MUX_GPIO33_REG
        pad_reg(34) == Some(0x3FF4_9014u32),  // IO_MUX_GPIO34_REG
        pad_reg(35) == Some(0x3FF4_9018u32),  // IO_MUX_GPIO35_REG
        pad_reg(36) == Some(0x3FF4_9004u32),  // IO_MUX_GPIO36_REG
        pad_reg(37) == Some(0x3FF4_9008u32),  // IO_MUX_GPIO37_REG
        pad_reg(38) == Some(0x3FF4_900Cu32),  // IO_MUX_GPIO38_REG
        pad_reg(39) == Some(0x3FF4_9010u32),  // IO_MUX_GPIO39_REG
        forall|pin: u8|
            #![trigger pad_reg(pin)]
            (6 <= pin <= 11 || pin == 24 || 28 <= pin <= 31 || pin >= 40) ==> pad_reg(pin) is None,
{
}

/// Reports whether `pin` has an IO_MUX pad-configuration register.
pub fn pad_exists(pin: u8) -> (b: bool)
    ensures
        b == has_pad(pin),
{
    match pin {
        0..=5 | 12..=23 | 25..=27 | 32..=39 => true,
        _ => false,
    }
}

/// Address of the IO_MUX pad-configuration register of `pin`.
pub fn io_mux_reg(pin: u8) -> (addr: u32)
    requires
        has_pad(pin),
    ensures
        pad_reg(pin) == Some(addr),
{
    match pin {
        0 => 0x3FF4_9044,
        1 => 0x3FF4_9088,
        2 => 0x3FF4_9040,
        3 => 0x3FF4_9084,
        4 => 0x3FF4_9048,
        5 => 0x3FF4_906C,
        12 => 0x3FF4_9034,
        13 => 0x3FF4_9038,
        14 => 0x3FF4_9030,
        15 => 0x3FF4_903C,
        16 => 0x3FF4_904C,
        17 => 0x3FF4_9050,
        18 => 0x3FF4_9070,
        19 => 0x3FF4_9074,
        20 => 0x3FF4_9078,
        21 => 0x3FF4_907C,
        22 => 0x3FF4_9080,
        23 => 0x3FF4_908C,
        25 => 0x3FF4_9024,
        26 => 0x3FF4_9028,
        27 => 0x3FF4_902C,
        32 => 0x3FF4_901C,
        33 => 0x3FF4_9020,
        34 => 0x3FF4_9014,
        35 => 0x3FF4_9018,
        36 => 0x3FF4_9004,
        37 => 0x3FF4_9008,
        38 => 0x3FF4_900C,
        _ => 0x3FF4_9010,
    }
}

} // verus!
