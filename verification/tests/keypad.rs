use j2calc::keypad::{
    read_rows_command, startup_sequence, wait_for_int_command, KeypadScan, CTRL_READ, CTRL_WRITE,
    REG_GPIOB, REG_IOCON, REG_OLATA, REG_OLATB,
};

#[test]
fn control_bytes() {
    assert_eq!(CTRL_WRITE, 0x40);
    assert_eq!(CTRL_READ, 0x41);
}

#[test]
fn startup_sequence_sets_up_the_expander() {
    let seq = startup_sequence();
    assert_eq!(seq.len(), 17);
    assert_eq!(seq[0], [CTRL_WRITE, REG_IOCON, 0x42]);
    assert_eq!(seq[2], [0x40, 0x01, 0xFF]);
    assert_eq!(seq[6], [0x40, 0x09, 0x7F]);
    assert_eq!(seq[8], [0x40, 0x05, 0x7F]);
    assert_eq!(seq[15], [CTRL_WRITE, REG_OLATA, 0xFF]);
    assert_eq!(seq[16], [CTRL_WRITE, REG_OLATB, 0x00]);
}

#[test]
fn wait_and_read_commands() {
    assert_eq!(wait_for_int_command(), [0x40, 0x14, 0xFF]);
    assert_eq!(read_rows_command(), [CTRL_READ, REG_GPIOB, 0]);
}

#[test]
fn scan_selects_each_column_in_turn() {
    let mut scan = KeypadScan::new();
    let mut selects = Vec::new();
    while let Some(cmd) = scan.next_column_command() {
        assert_eq!(cmd[0], CTRL_WRITE);
        assert_eq!(cmd[1], REG_OLATA);
        selects.push(cmd[2]);
        scan.record_rows(&[0, 0, 0]);
    }
    assert_eq!(selects, vec![0x40, 0x20, 0x10, 0x08, 0x04, 0x02, 0x01]);
    assert_eq!(scan.result(), 0);
}

#[test]
fn scan_packs_readings_seven_bits_each() {
    let mut scan = KeypadScan::new();
    let readings = [0x01u8, 0x00, 0x00, 0x00, 0x00, 0x00, 0xC0];
    for r in readings {
        assert!(scan.next_column_command().is_some());
        scan.record_rows(&[0xAA, 0xBB, r]);
    }
    assert!(scan.next_column_command().is_none());
    // The first column lands in bits 42..49, the last in bits 0..7; bit 7 of a
    // reading is not part of the matrix.
    assert_eq!(scan.result(), (1u64 << 42) | 0x40);
}

#[test]
fn scan_of_all_keys() {
    let mut scan = KeypadScan::new();
    while scan.next_column_command().is_some() {
        scan.record_rows(&[0, 0, 0xFF]);
    }
    assert_eq!(scan.result(), (1u64 << 49) - 1);
}
