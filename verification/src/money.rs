//! Money as whole numbers of fen (hundredths of a yuan), and its display
//! text, which switches to units of ten thousand (万) and of a hundred
//! million (亿) yuan as amounts grow.

use vstd::prelude::*;
use crate::numeral::{decimal, decimal_padded, push_decimal, push_two_digits};

verus! {

/// The smallest magnitude, in fen, shown in units of 万: 100,000 yuan.
pub const WAN_FLOOR: u128 = 10_000_000;

/// The smallest magnitude, in fen, shown in units of 亿: 100,000,000 yuan.
pub const YI_FLOOR: u128 = 10_000_000_000;

/// Fen in a hundredth of a 万.
pub const FEN_PER_WAN_CENT: u128 = 10_000;

/// Fen in a hundredth of an 亿.
pub const FEN_PER_YI_CENT: u128 = 100_000_000;

/// The magnitude of `n`.
pub open spec fn magnitude(n: int) -> nat {
    if n < 0 {
        (-n) as nat
    } else {
        n as nat
    }
}

/// `n / unit` rounded to the nearest whole number, halves upwards.
pub open spec fn round_div(n: nat, unit: nat) -> nat {
    n / unit + if 2 * (n % unit) >= unit {
        1nat
    } else {
        0nat
    }
}

/// The rounded quotient is the whole number nearest to `n / unit`, and of
/// two that are equally near the greater one.
pub proof fn lemma_round_div_nearest(n: nat, unit: nat)
    requires
        unit > 0,
    ensures
        2 * (round_div(n, unit) * unit) - unit <= 2 * n < 2 * (round_div(n, unit) * unit) + unit,
{
    let q = n / unit;
    let r = n % unit;
    assert(n == q * unit + r && 0 <= r < unit) by (nonlinear_arith)
        requires
            q == n / unit,
            r == n % unit,
            unit > 0,
    ;
    assert((q + 1) * unit == q * unit + unit) by (nonlinear_arith);
}

/// `q` hundredths written with two decimals.
pub open spec fn two_decimals(q: nat) -> Seq<char> {
    decimal(q / 100) + seq!['.'] + decimal_padded(q % 100, 2)
}

/// The text of a magnitude of `fen` fen: in yuan below 100,000 yuan, in 万
/// from there to below 100,000,000 yuan, in 亿 from there on, each with two
/// decimals, rounded to the nearest, halves upwards.
pub open spec fn magnitude_text(fen: nat) -> Seq<char> {
    if fen >= YI_FLOOR {
        two_decimals(round_div(fen, FEN_PER_YI_CENT as nat)).push('亿')
    } else if fen >= WAN_FLOOR {
        two_decimals(round_div(fen, FEN_PER_WAN_CENT as nat)).push('万')
    } else {
        two_decimals(fen)
    }
}

/// The display text of a balance of `fen` fen: a minus sign for a negative
/// balance, the currency mark, then the magnitude.
pub open spec fn money_text(fen: int) -> Seq<char> {
    (if fen < 0 {
        seq!['-', '¥']
    } else {
        seq!['¥']
    }) + magnitude_text(magnitude(fen))
}

/// The display text of an income of `fen` fen: a plus sign, then the
/// magnitude.
pub open spec fn income_text(fen: int) -> Seq<char> {
    seq!['+'] + magnitude_text(magnitude(fen))
}

/// The magnitude of `n`.
pub fn magnitude_of(n: i128) -> (m: u128)
    ensures
        m == magnitude(n as int),
{
    if n >= 0 {
        n as u128
    } else if n == i128::MIN {
        0x8000_0000_0000_0000_0000_0000_0000_0000u128
    } else {
        (-n) as u128
    }
}

/// `n / unit` rounded to the nearest whole number, halves upwards.
fn rounded_quotient(n: u128, unit: u128) -> (q: u128)
    requires
        unit >= 2,
        unit % 2 == 0,
    ensures
        q == round_div(n as nat, unit as nat),
{
    let whole = n / unit;
    let rest = n % unit;
    assert(whole <= n / 2) by (nonlinear_arith)
        requires
            whole == n / unit,
            unit >= 2,
    ;
    if rest >= unit / 2 {
        whole + 1
    } else {
        whole
    }
}

/// Appends `q` hundredths, written with two decimals, to `out`.
fn push_two_decimals(out: &mut String, q: u128)
    ensures
        final(out)@ == old(out)@ + two_decimals(q as nat),
{
    push_decimal(out, q / 100);
    out.push('.');
    push_two_digits(out, (q % 100) as u8);
    proof {
        assert(final(out)@ =~= old(out)@ + two_decimals(q as nat));
    }
}

/// Appends the text of a magnitude of `fen` fen to `out`.
fn push_magnitude(out: &mut String, fen: u128)
    ensures
        final(out)@ == old(out)@ + magnitude_text(fen as nat),
{
    if fen >= YI_FLOOR {
        push_two_decimals(out, rounded_quotient(fen, FEN_PER_YI_CENT));
        out.push('亿');
    } else if fen >= WAN_FLOOR {
        push_two_decimals(out, rounded_quotient(fen, FEN_PER_WAN_CENT));
        out.push('万');
    } else {
        push_two_decimals(out, fen);
    }
    proof {
        assert(final(out)@ =~= old(out)@ + magnitude_text(fen as nat));
    }
}

/// The display text of a balance of `amount` fen.
pub fn format_money(amount: i128) -> (text: String)
    ensures
        text@ == money_text(amount as int),
{
    let mut text = String::new();
    if amount < 0 {
        text.push('-');
    }
    text.push('¥');
    push_magnitude(&mut text, magnitude_of(amount));
    proof {
        assert(text@ =~= money_text(amount as int));
    }
    text
}

/// The display text of an income of `amount` fen.
pub fn format_income(amount: i128) -> (text: String)
    ensures
        text@ == income_text(amount as int),
{
    let mut text = String::new();
    text.push('+');
    push_magnitude(&mut text, magnitude_of(amount));
    proof {
        assert(text@ =~= income_text(amount as int));
    }
    text
}

} // verus!
