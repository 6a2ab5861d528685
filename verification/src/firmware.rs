//! The decisions of the firmware's two loops: the keypad loop, which scans the
//! keys and shows the result, and the display loop, which redraws the panel or
//! refreshes its VCOM level.  The loops themselves, which wait and talk to the
//! hardware, perform what these functions decide.
use vstd::prelude::*;

verus! {

/// Seconds between VCOM refreshes of an idle panel.
pub const VCOM_REFRESH_SECS: u64 = 1;

/// Milliseconds to let the keys settle before each scan.
pub const DEBOUNCE_MILLIS: u64 = 10;

/// Milliseconds to wait after a scan before it is shown.
pub const AFTER_SCAN_MILLIS: u64 = 1;

/// Microseconds to let a selected keypad column settle before its rows are read.
pub const COLUMN_SETTLE_MICROS: u64 = 10;

/// Microseconds between raising the panel's chip select and the first byte.
pub const CHIP_SELECT_SETUP_MICROS: u64 = 1;

/// What the keypad loop does once a scan has been shown.
#[derive(Debug, Clone, Copy, PartialEq, Eq, Structural)]
pub enum AfterScan {
    /// Keys are held: light the LED and scan again.
    LedOnScanAgain,
    /// No key is held: put the LED out and wait for a key press.
    LedOffWaitForKey,
}

/// Decides what follows a scan whose mask of pressed keys is `mask`.
pub fn after_scan(mask: u64) -> (r: AfterScan)
    ensures
        r == (if mask == 0 {
            AfterScan::LedOffWaitForKey
        } else {
            AfterScan::LedOnScanAgain
        }),
{
    if mask == 0 {
        AfterScan::LedOffWaitForKey
    } else {
        AfterScan::LedOnScanAgain
    }
}

/// What wakes the display loop: whichever comes first.
#[derive(Debug, Clone, Copy, PartialEq, Eq, Structural)]
pub enum DisplayEvent {
    /// The framebuffer has changed and asks to be drawn.
    RedrawRequested,
    /// The VCOM refresh interval has passed.
    RefreshDue,
}

/// What the display loop does when it wakes.
#[derive(Debug, Clone, Copy, PartialEq, Eq, Structural)]
pub enum DisplayAction {
    /// Clear the redraw request and send the framebuffer to the panel (which
    /// toggles the VCOM level as well).
    DrawFramebuffer,
    /// Refresh the VCOM level.
    UpdateVcom,
}

/// Decides what the display loop does on `event`.
pub fn display_action(event: DisplayEvent) -> (r: DisplayAction)
    ensures
        r == (match event {
            DisplayEvent::RedrawRequested => DisplayAction::DrawFramebuffer,
            DisplayEvent::RefreshDue => DisplayAction::UpdateVcom,
        }),
{
    match event {
        DisplayEvent::RedrawRequested => DisplayAction::DrawFramebuffer,
        DisplayEvent::RefreshDue => DisplayAction::UpdateVcom,
    }
}

/// The last `n` binary digits of `v`, most significant first.
pub open spec fn binary_digits(v: nat, n: nat) -> Seq<char>
    decreases n,
{
    if n == 0 {
        Seq::empty()
    } else {
        binary_digits(v / 2, (n - 1) as nat).push(
            if v % 2 == 1 {
                '1'
            } else {
                '0'
            },
        )
    }
}

/// The number of binary digits of `v` (none for zero).
pub open spec fn bit_length(v: nat) -> nat
    decreases v,
{
    if v == 0 {
        0
    } else {
        1 + bit_length(v / 2)
    }
}

/// The number of binary digits shown for a mask: at least 49 (one per key),
/// more when the mask needs them.
pub open spec fn status_width(mask: u64) -> nat {
    if bit_length(mask as nat) > 49 {
        bit_length(mask as nat)
    } else {
        49
    }
}

/// The text shown after a scan: `Buttons ` and the mask in binary, padded with
/// zeros to 49 digits.
pub open spec fn spec_status_text(mask: u64) -> Seq<char> {
    seq!['B', 'u', 't', 't', 'o', 'n', 's', ' '] + binary_digits(mask as nat, status_width(mask))
}

proof fn lemma_bit_length_le(v: nat, k: nat)
    requires
        v < vstd::arithmetic::power2::pow2(k),
    ensures
        bit_length(v) <= k,
    decreases k,
{
    if v > 0 {
        if k == 0 {
            vstd::arithmetic::power2::lemma2_to64();
        } else {
            vstd::arithmetic::power2::lemma_pow2_unfold(k);
            lemma_bit_length_le(v / 2, (k - 1) as nat);
        }
    }
}

/// The mask of a whole keypad scan has at most 49 binary digits, so its
/// status text shows exactly 49.
pub proof fn lemma_scan_status_width(mask: u64)
    requires
        mask < crate::keypad::pack_limit(7),
    ensures
        status_width(mask) == 49,
        spec_status_text(mask).len() == 57,
{
    vstd::arithmetic::power2::lemma2_to64();
    assert(crate::keypad::pack_limit(0) == 1);
    assert(crate::keypad::pack_limit(1) == 0x80);
    assert(crate::keypad::pack_limit(2) == 0x4000);
    assert(crate::keypad::pack_limit(3) == 0x20_0000);
    assert(crate::keypad::pack_limit(4) == 0x1000_0000);
    assert(crate::keypad::pack_limit(5) == 0x8_0000_0000);
    assert(crate::keypad::pack_limit(6) == 0x400_0000_0000);
    assert(crate::keypad::pack_limit(7) == 0x2_0000_0000_0000);
    vstd::arithmetic::power2::lemma2_to64_rest();
    assert((mask as nat) < vstd::arithmetic::power2::pow2(49));
    lemma_bit_length_le(mask as nat, 49);
    lemma_binary_digits_len(mask as nat, 49);
}

proof fn lemma_binary_digits_len(v: nat, n: nat)
    ensures
        binary_digits(v, n).len() == n,
    decreases n,
{
    if n > 0 {
        lemma_binary_digits_len(v / 2, (n - 1) as nat);
    }
}

fn bit_length_of(v: u64) -> (r: usize)
    ensures
        r == bit_length(v as nat),
    decreases v,
{
    proof {
        vstd::arithmetic::power2::lemma2_to64_rest();
        lemma_bit_length_le(v as nat, 64);
    }
    if v == 0 {
        0
    } else {
        1 + bit_length_of(v / 2)
    }
}

fn push_binary_digits(out: &mut Vec<char>, v: u64, n: usize)
    ensures
        final(out)@ == old(out)@ + binary_digits(v as nat, n as nat),
    decreases n,
{
    if n > 0 {
        push_binary_digits(out, v / 2, n - 1);
        out.push(
            if v % 2 == 1 {
                '1'
            } else {
                '0'
            },
        );
    }
}

/// The text shown after a scan whose mask is `mask`, as `spec_status_text`
/// says.
pub fn status_text(mask: u64) -> (r: Vec<char>)
    ensures
        r@ == spec_status_text(mask),
{
    let mut out: Vec<char> = Vec::new();
    out.push('B');
    out.push('u');
    out.push('t');
    out.push('t');
    out.push('o');
    out.push('n');
    out.push('s');
    out.push(' ');
    let bits = bit_length_of(mask);
    let width: usize = if bits > 49 {
        bits
    } else {
        49
    };
    push_binary_digits(&mut out, mask, width);
    assert(out@ =~= spec_status_text(mask));
    out
}

} // verus!

verus! {

/// Digit `i` (counted from the left) of the last `n` binary digits of `v` is
/// bit `n - 1 - i` of `v`: `'1'` when it is set, `'0'` otherwise.
pub proof fn lemma_binary_digit(v: nat, n: nat, i: int)
    requires
        0 <= i < n,
    ensures
        binary_digits(v, n).len() == n,
        binary_digits(v, n)[i] == if (v / vstd::arithmetic::power2::pow2((n - 1 - i) as nat))
            % 2 == 1 {
            '1'
        } else {
            '0'
        },
    decreases n,
{
    lemma_binary_digits_len(v, n);
    lemma_binary_digits_len(v / 2, (n - 1) as nat);
    vstd::arithmetic::power2::lemma2_to64();
    if i < n - 1 {
        lemma_binary_digit(v / 2, (n - 1) as nat, i);
        let e = (n - 2 - i) as nat;
        vstd::arithmetic::power2::lemma_pow2_pos(e);
        vstd::arithmetic::power2::lemma_pow2_unfold(e + 1);
        vstd::arithmetic::div_mod::lemma_div_denominator(v as int, 2, vstd::arithmetic::power2::pow2(e) as int);
        assert((n - 1 - i) as nat == e + 1);
    } else {
        assert(v / 1 == v);
    }
}

} // verus!
