//! The keypad: a 7x7 key matrix behind an SPI port expander (two 8-bit ports,
//! A driving the columns and B reading the rows).  This module holds the bytes
//! of every command the expander is sent and the scan that turns the row
//! readings into one mask of pressed keys.
use vstd::prelude::*;

verus! {

/// Control byte: the fixed device header.
pub const CTRL_HDR: u8 = 0b01000000;

/// Control byte: the hardware address.
pub const CTRL_ADDR: u8 = 0b00000000;

/// Control byte of a register read.
pub const CTRL_READ: u8 = CTRL_HDR | CTRL_ADDR | 0b00000001;

/// Control byte of a register write.
pub const CTRL_WRITE: u8 = CTRL_HDR | CTRL_ADDR;

// Registers, in the bank layout where A and B registers alternate.
pub const REG_IODIRA: u8 = 0x00;

pub const REG_IODIRB: u8 = 0x01;

pub const REG_IPOLA: u8 = 0x02;

pub const REG_IPOLB: u8 = 0x03;

pub const REG_GPINTENA: u8 = 0x04;

pub const REG_GPINTENB: u8 = 0x05;

pub const REG_DEFVALA: u8 = 0x06;

pub const REG_DEFVALB: u8 = 0x07;

pub const REG_INTCONA: u8 = 0x08;

pub const REG_INTCONB: u8 = 0x09;

pub const REG_IOCON: u8 = 0x0A;

pub const REG_GPPUA: u8 = 0x0C;

pub const REG_GPPUB: u8 = 0x0D;

pub const REG_INTFA: u8 = 0x0E;

pub const REG_INTFB: u8 = 0x0F;

pub const REG_INTCAPA: u8 = 0x10;

pub const REG_INTCAPB: u8 = 0x11;

pub const REG_GPIOA: u8 = 0x12;

pub const REG_GPIOB: u8 = 0x13;

pub const REG_OLATA: u8 = 0x14;

pub const REG_OLATB: u8 = 0x15;

/// Number of columns (and of rows) of the key matrix.
pub const KEYPAD_COLUMNS: usize = 7;

/// The select value of the first column scanned.
pub const FIRST_COLUMN: u8 = 0b1000000;

/// The bits of a row reading that belong to the key matrix.
pub const ROW_MASK: u8 = 0x7F;

/// A three-byte write of `value` to register `reg`.
pub open spec fn write_command(reg: u8, value: u8) -> Seq<u8> {
    seq![CTRL_WRITE, reg, value]
}

/// The writes that set the expander up, in order.
pub open spec fn spec_startup_sequence() -> Seq<Seq<u8>> {
    seq![
        write_command(REG_IOCON, 0x42),
        write_command(REG_IODIRA, 0x00),
        write_command(REG_IODIRB, 0xFF),
        write_command(REG_IPOLA, 0x00),
        write_command(REG_IPOLB, 0x00),
        write_command(REG_INTCONA, 0x00),
        write_command(REG_INTCONB, 0x7F),
        write_command(REG_GPINTENA, 0x00),
        write_command(REG_GPINTENB, 0x7F),
        write_command(REG_DEFVALA, 0x00),
        write_command(REG_DEFVALB, 0x00),
        write_command(REG_INTCONA, 0x00),
        write_command(REG_INTCONB, 0x00),
        write_command(REG_GPPUA, 0x00),
        write_command(REG_GPPUB, 0x00),
        write_command(REG_OLATA, 0xFF),
        write_command(REG_OLATB, 0x00),
    ]
}

fn write(reg: u8, value: u8) -> (r: [u8; 3])
    ensures
        r@ == write_command(reg, value),
{
    [CTRL_WRITE, reg, value]
}

/// The writes that set the expander up, in the order in which they are sent.
pub fn startup_sequence() -> (r: Vec<[u8; 3]>)
    ensures
        r@.len() == spec_startup_sequence().len(),
        forall|i: int| 0 <= i < r@.len() ==> #[trigger] r@[i]@ == spec_startup_sequence()[i],
{
    let mut r: Vec<[u8; 3]> = Vec::new();
    r.push(write(REG_IOCON, 0x42));
    r.push(write(REG_IODIRA, 0x00));
    r.push(write(REG_IODIRB, 0xFF));
    r.push(write(REG_IPOLA, 0x00));
    r.push(write(REG_IPOLB, 0x00));
    r.push(write(REG_INTCONA, 0x00));
    r.push(write(REG_INTCONB, 0x7F));
    r.push(write(REG_GPINTENA, 0x00));
    r.push(write(REG_GPINTENB, 0x7F));
    r.push(write(REG_DEFVALA, 0x00));
    r.push(write(REG_DEFVALB, 0x00));
    r.push(write(REG_INTCONA, 0x00));
    r.push(write(REG_INTCONB, 0x00));
    r.push(write(REG_GPPUA, 0x00));
    r.push(write(REG_GPPUB, 0x00));
    r.push(write(REG_OLATA, 0xFF));
    r.push(write(REG_OLATB, 0x00));
    r
}

/// The write that drives every column, so that any key press raises the
/// interrupt line while the keypad waits.
pub fn wait_for_int_command() -> (r: [u8; 3])
    ensures
        r@ == write_command(REG_OLATA, 0xFF),
        r@ == seq![0x40u8, 0x14, 0xFF],
{
    assert(CTRL_WRITE == 0x40) by (bit_vector);
    write(REG_OLATA, 0xFF)
}

/// The transfer that reads the rows: the reply's last byte holds them.
pub fn read_rows_command() -> (r: [u8; 3])
    ensures
        r@ == seq![CTRL_READ, REG_GPIOB, 0u8],
        r@ == seq![0x41u8, 0x13, 0x00],
{
    assert(CTRL_READ == 0x41) by (bit_vector);
    [CTRL_READ, REG_GPIOB, 0u8]
}

/// The select value of column `k` of the scan (counted from zero): one bit,
/// moving from bit 6 down to bit 0.
pub open spec fn column_select(k: nat) -> u8 {
    (FIRST_COLUMN >> (k as u8)) as u8
}

/// The mask of a scan whose row readings, in scan order, are `rows`: each
/// reading takes the seven low bits, below the readings before it.
pub open spec fn scan_mask(rows: Seq<u8>) -> nat
    decreases rows.len(),
{
    if rows.len() == 0 {
        0
    } else {
        scan_mask(rows.drop_last()) * 128 + (rows.last() & ROW_MASK) as nat
    }
}

/// A keypad scan in progress: each column is selected in turn, its rows are
/// read, and the readings are packed into one mask of pressed keys.
pub struct KeypadScan {
    result: u64,
    col: u8,
    rows: Ghost<Seq<u8>>,
}

impl View for KeypadScan {
    type V = Seq<u8>;

    /// The row readings recorded so far, in scan order.
    closed spec fn view(&self) -> Seq<u8> {
        self.rows@
    }
}

proof fn lemma_select_step(k: u8)
    by (bit_vector)
    requires
        k < 7,
    ensures
        (0x40u8 >> k) >> 1u8 == 0x40u8 >> ((k + 1) as u8),
        0x40u8 >> k != 0,
        0x40u8 >> 7u8 == 0,
{
}

proof fn lemma_pack_step(result: u64, reading: u8, bound: u64)
    by (bit_vector)
    requires
        result < bound,
        bound <= 0x400_0000_0000u64,
    ensures
        (result << 7u64) | ((reading as u64) & 0x7F) == result * 128 + (reading & 0x7F),
        result * 128 + (reading & 0x7F) < bound * 128,
{
}

/// `128` to the power `k`: one more than the largest mask of `k` readings.
pub open spec fn pack_limit(k: nat) -> nat
    decreases k,
{
    if k == 0 {
        1
    } else {
        pack_limit((k - 1) as nat) * 128
    }
}

proof fn lemma_pack_limit_small(k: nat)
    requires
        k <= 6,
    ensures
        pack_limit(k) <= 0x400_0000_0000,
{
    assert(pack_limit(0) == 1);
    assert(pack_limit(1) == 0x80);
    assert(pack_limit(2) == 0x4000);
    assert(pack_limit(3) == 0x20_0000);
    assert(pack_limit(4) == 0x1000_0000);
    assert(pack_limit(5) == 0x8_0000_0000);
    assert(pack_limit(6) == 0x400_0000_0000);
}

proof fn lemma_scan_mask_bound(rows: Seq<u8>)
    ensures
        scan_mask(rows) < pack_limit(rows.len()),
    decreases rows.len(),
{
    if rows.len() > 0 {
        lemma_scan_mask_bound(rows.drop_last());
        let p = pack_limit((rows.len() - 1) as nat);
        let m = scan_mask(rows.drop_last());
        let last = rows.last();
        let v = (last & ROW_MASK) as nat;
        assert(last & 0x7F < 128) by (bit_vector);
        assert(m * 128 + v < p * 128) by (nonlinear_arith)
            requires
                m < p,
                v < 128,
        ;
    }
}

impl KeypadScan {
    /// The scan is consistent: its mask packs the readings so far, and its
    /// column select is that of the next column.
    pub closed spec fn wf(&self) -> bool {
        &&& self.rows@.len() <= KEYPAD_COLUMNS
        &&& self.result == scan_mask(self.rows@)
        &&& self.col == if self.rows@.len() < KEYPAD_COLUMNS {
            column_select(self.rows@.len())
        } else {
            0
        }
    }

    /// A scan that has read no column yet.
    pub fn new() -> (r: Self)
        ensures
            r.wf(),
            r@ == Seq::<u8>::empty(),
    {
        assert(0x40u8 >> 0u8 == 0x40u8) by (bit_vector);
        KeypadScan { result: 0, col: FIRST_COLUMN, rows: Ghost(Seq::empty()) }
    }

    /// The write that selects the next column, or `None` once all columns have
    /// been read.
    pub fn next_column_command(&self) -> (r: Option<[u8; 3]>)
        requires
            self.wf(),
        ensures
            self@.len() < KEYPAD_COLUMNS <==> r is Some,
            r matches Some(cmd) ==> cmd@ == write_command(REG_OLATA, column_select(self@.len())),
    {
        proof {
            if self.rows@.len() < 7 {
                lemma_select_step(self.rows@.len() as u8);
            }
        }
        if self.col > 0 {
            Some(write(REG_OLATA, self.col))
        } else {
            None
        }
    }

    /// Records the reply of `read_rows_command` for the selected column.
    pub fn record_rows(&mut self, reply: &[u8; 3])
        requires
            old(self).wf(),
            old(self)@.len() < KEYPAD_COLUMNS,
        ensures
            final(self).wf(),
            final(self)@ == old(self)@.push(reply[2]),
    {
        proof {
            let k = self.rows@.len();
            lemma_select_step(k as u8);
            lemma_scan_mask_bound(self.rows@);
            lemma_pack_limit_small(k);
            lemma_pack_step(self.result, reply[2], 0x400_0000_0000u64);
            assert(self.rows@.push(reply[2]).drop_last() =~= self.rows@);
        }
        self.result = (self.result << 7) | ((reply[2] as u64) & 0x7F);
        self.col = self.col >> 1;
        self.rows = Ghost(self.rows@.push(reply[2]));
    }

    /// The mask of pressed keys packed from the readings so far.
    pub fn result(&self) -> (r: u64)
        requires
            self.wf(),
        ensures
            r == scan_mask(self@),
    {
        self.result
    }
}

} // verus!

verus! {

proof fn lemma_pack_limit_positive(k: nat)
    ensures
        pack_limit(k) > 0,
    decreases k,
{
    if k > 0 {
        lemma_pack_limit_positive((k - 1) as nat);
    }
}

/// The mask of a scan holds each reading's seven row bits in a field of its own:
/// the reading of column `k`, out of `n` read, is field `n - 1 - k` counted
/// from the least significant end, each field seven bits wide.
pub proof fn lemma_scan_mask_fields(rows: Seq<u8>, k: int)
    requires
        0 <= k < rows.len(),
    ensures
        (scan_mask(rows) / pack_limit((rows.len() - 1 - k) as nat)) % 128 == (rows[k]
            & 0x7Fu8) as nat,
    decreases rows.len(),
{
    let n = rows.len();
    let head = rows.drop_last();
    let m = scan_mask(head);
    let last = rows.last();
    let v = (last & ROW_MASK) as nat;
    assert(last & 0x7F < 128) by (bit_vector);
    if k == n - 1 {
        vstd::arithmetic::div_mod::lemma_fundamental_div_mod_converse(
            scan_mask(rows) as int,
            128,
            m as int,
            v as int,
        );
        assert(pack_limit(0) == 1);
        assert(scan_mask(rows) / 1 == scan_mask(rows));
    } else {
        lemma_scan_mask_fields(head, k);
        let p = pack_limit((n - 2 - k) as nat);
        lemma_pack_limit_positive((n - 2 - k) as nat);
        assert(pack_limit((n - 1 - k) as nat) == p * 128);
        vstd::arithmetic::div_mod::lemma_fundamental_div_mod_converse(
            scan_mask(rows) as int,
            128,
            m as int,
            v as int,
        );
        vstd::arithmetic::div_mod::lemma_div_denominator(scan_mask(rows) as int, 128, p as int);
        assert(128 * p == p * 128) by (nonlinear_arith);
        let s = scan_mask(rows) as int;
        assert(s / 128 == m);
        assert((s / 128) / (p as int) == s / (128 * (p as int)));
        assert(s / (pack_limit((n - 1 - k) as nat) as int) == (m as int) / (p as int));
        assert(head[k] == rows[k]);
    }
}

/// A scan's mask is zero exactly when no reading has a row bit set: no key is
/// pressed.
pub proof fn lemma_scan_mask_zero(rows: Seq<u8>)
    ensures
        scan_mask(rows) == 0 <==> forall|i: int| 0 <= i < rows.len() ==> #[trigger] (rows[i] & ROW_MASK) == 0,
    decreases rows.len(),
{
    if rows.len() > 0 {
        let head = rows.drop_last();
        lemma_scan_mask_zero(head);
        if scan_mask(rows) == 0 {
            assert forall|i: int| 0 <= i < rows.len() implies #[trigger] (rows[i] & ROW_MASK) == 0 by {
                if i < rows.len() - 1 {
                    assert(head[i] == rows[i]);
                }
            }
        } else {
            if forall|i: int| 0 <= i < rows.len() ==> #[trigger] (rows[i] & ROW_MASK) == 0 {
                assert forall|i: int| 0 <= i < head.len() implies #[trigger] (head[i] & ROW_MASK) == 0 by {
                    assert(head[i] == rows[i]);
                }
                assert(rows[rows.len() - 1] & ROW_MASK == 0);
            }
        }
    }
}

} // verus!

verus! {

/// The setup writes, byte for byte: control byte, register, value.  Port A
/// (columns) is all outputs and port B (rows) all inputs, read with their true
/// polarity; the seven row inputs raise the interrupt on any change; no pull-ups
/// are enabled; and every column is driven high, ready for a key press.
pub proof fn lemma_startup_sequence_bytes()
    ensures
        spec_startup_sequence() == seq![
            seq![0x40u8, 0x0A, 0x42],
            seq![0x40u8, 0x00, 0x00],
            seq![0x40u8, 0x01, 0xFF],
            seq![0x40u8, 0x02, 0x00],
            seq![0x40u8, 0x03, 0x00],
            seq![0x40u8, 0x08, 0x00],
            seq![0x40u8, 0x09, 0x7F],
            seq![0x40u8, 0x04, 0x00],
            seq![0x40u8, 0x05, 0x7F],
            seq![0x40u8, 0x06, 0x00],
            seq![0x40u8, 0x07, 0x00],
            seq![0x40u8, 0x08, 0x00],
            seq![0x40u8, 0x09, 0x00],
            seq![0x40u8, 0x0C, 0x00],
            seq![0x40u8, 0x0D, 0x00],
            seq![0x40u8, 0x14, 0xFF],
            seq![0x40u8, 0x15, 0x00],
        ],
{
    assert(CTRL_WRITE == 0x40) by (bit_vector);
    assert(spec_startup_sequence() =~= seq![
        seq![0x40u8, 0x0A, 0x42],
        seq![0x40u8, 0x00, 0x00],
        seq![0x40u8, 0x01, 0xFF],
        seq![0x40u8, 0x02, 0x00],
        seq![0x40u8, 0x03, 0x00],
        seq![0x40u8, 0x08, 0x00],
        seq![0x40u8, 0x09, 0x7F],
        seq![0x40u8, 0x04, 0x00],
        seq![0x40u8, 0x05, 0x7F],
        seq![0x40u8, 0x06, 0x00],
        seq![0x40u8, 0x07, 0x00],
        seq![0x40u8, 0x08, 0x00],
        seq![0x40u8, 0x09, 0x00],
        seq![0x40u8, 0x0C, 0x00],
        seq![0x40u8, 0x0D, 0x00],
        seq![0x40u8, 0x14, 0xFF],
        seq![0x40u8, 0x15, 0x00],
    ]);
}

} // verus!

verus! {

/// `pack_limit(k)` is `2` to the power `7 * k`: each reading takes seven bits.
pub proof fn lemma_pack_limit_power(k: nat)
    ensures
        pack_limit(k) == vstd::arithmetic::power2::pow2(7 * k),
    decreases k,
{
    vstd::arithmetic::power2::lemma2_to64();
    if k > 0 {
        lemma_pack_limit_power((k - 1) as nat);
        vstd::arithmetic::power2::lemma_pow2_adds(7 * (k - 1) as nat, 7);
        assert(7 * (k - 1) as nat + 7 == 7 * k);
    }
}

proof fn lemma_select_bit(k: u8)
    by (bit_vector)
    requires
        k < 7,
    ensures
        0x40u8 >> k == 1u8 << (6 - k) as u8,
{
}

/// The columns are selected one at a time, from bit 6 of port A down to bit 0:
/// the `k`-th select (counted from zero) has bit `6 - k` alone set.
pub proof fn lemma_column_select_bits(k: nat)
    requires
        k < KEYPAD_COLUMNS,
    ensures
        column_select(k) == 1u8 << (6 - k) as u8,
{
    lemma_select_bit(k as u8);
}

} // verus!
