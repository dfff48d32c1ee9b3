# zavrad

GPIO, peripheral-routing and bit-banged protocol drivers (SPI, UART, I2C,
PWM) for the ESP32 (NodeMCU-ESP32), plus the BMP280 temperature readout,
written in Verus.

Every driver describes its hardware accesses as a register program: a
sequence of `ops::Op` values (stores, read-modify-writes, samples, delays and
polls), whose exact content each driver's contract states. An executor that
owns the memory-mapped registers runs the program and hands the sampled
levels back to the drivers, which decode them.

- `src/gpio_mux.rs`, `src/io_mux.rs`: register addresses and pad fields.
- `src/ops.rs`: the `Op` type and the register-file semantics of programs.
- `src/lib.rs`: type-state pins (`Pin<Input>`, `Pin<Output>`).
- `src/periph.rs`: routing of peripheral signals through the GPIO matrix.
- `src/protocols/`: bit-banged and peripheral-routed SPI, UART, I2C, PWM.
- `src/bits.rs`: bit order on serial lines.
- `src/bmp280.rs`: BMP280 calibration, temperature compensation, indicator.
- `src/model.rs`: what the programs do to the register file and the lines
  (proved laws, including UART waveforms and sample times).
- `src/bus.rs`: a master and a slave program on one I2C bus, with waits
  and delays as time (proved: the slave reads what the master sends).
- `app/main.rs`: the executor and the BMP280 demo for the board.
