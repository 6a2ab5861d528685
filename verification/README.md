# j2calc

Firmware library for a programmer's calculator built from a 7x7 keypad (behind
an SPI port expander) and a 400x240 memory LCD, verified with Verus.

- `src/` is the verified library:
  - `calc.rs`: the RPN stack machine and the algebraic front end, generic over
    the number type; the arithmetic on numbers is passed in as closures.
  - `keypad.rs`: the expander's command bytes and the column-by-column key scan
    that packs the row readings into one 49-bit mask.
  - `lcd.rs`: the pixel framebuffer, the text grid drawn onto it, and the bytes
    of every command sent to the panel (VCOM level, clear, line writes).
  - `firmware.rs`: the decisions of the keypad loop and the display loop, and
    the status text shown after each scan.
- `tests/` runs the library on concrete values.
- `app/` is the RP2040 firmware around the library: SPI and GPIO I/O, timers,
  the embassy tasks, the embedded-graphics draw target and font rendering, and
  the `f64` arithmetic of the calculator.
