//! Decimal digits: what a run of digits writes, and how a natural number
//! is written in digits.

use vstd::prelude::*;

verus! {

/// Whether `c` is one of the ten ASCII digits.
pub open spec fn is_digit(c: char) -> bool {
    '0' <= c <= '9'
}

/// The value of the digit `c`.
pub open spec fn digit_value(c: char) -> nat {
    (c as int - '0' as int) as nat
}

/// The digit that stands for `d`, for `d` below ten.
pub open spec fn digit_char(d: nat) -> char {
    ('0' as int + d) as u8 as char
}

/// The number that the digits `s` write, most significant digit first.
pub open spec fn digits_value(s: Seq<char>) -> nat
    decreases s.len(),
{
    if s.len() == 0 {
        0
    } else {
        digits_value(s.drop_last()) * 10 + digit_value(s.last())
    }
}

/// Whether all of `s` is digits.
pub open spec fn all_digits(s: Seq<char>) -> bool {
    forall|i: int| 0 <= i < s.len() ==> is_digit(#[trigger] s[i])
}

/// Whether all of `s` is the digit zero.
pub open spec fn all_zeros(s: Seq<char>) -> bool {
    forall|i: int| 0 <= i < s.len() ==> #[trigger] s[i] == '0'
}

/// `n` zeros.
pub open spec fn zeros(n: nat) -> Seq<char> {
    Seq::new(n, |i: int| '0')
}

/// `k` tens multiplied together.
pub open spec fn pow10(k: nat) -> nat
    decreases k,
{
    if k == 0 {
        1
    } else {
        10 * pow10((k - 1) as nat)
    }
}

/// `n` written in decimal digits, without leading zeros.
pub open spec fn decimal(n: nat) -> Seq<char>
    decreases n,
{
    if n < 10 {
        seq![digit_char(n)]
    } else {
        decimal(n / 10).push(digit_char(n % 10))
    }
}

/// `n` written in decimal digits, with zeros in front up to `width` digits.
pub open spec fn decimal_padded(n: nat, width: nat) -> Seq<char> {
    let d = decimal(n);
    if d.len() >= width {
        d
    } else {
        zeros((width - d.len()) as nat) + d
    }
}

/// Tells whether `c` is a digit.
pub fn is_digit_char(c: char) -> (b: bool)
    ensures
        b == is_digit(c),
{
    let n: u32 = c as u32;
    48 <= n && n <= 57
}

/// Appends `n` in decimal digits to `out`.
pub fn push_decimal(out: &mut String, n: u128)
    ensures
        final(out)@ == old(out)@ + decimal(n as nat),
    decreases n,
{
    if n >= 10 {
        push_decimal(out, n / 10);
    }
    let d: u8 = (n % 10) as u8;
    out.push((d + 48) as char);
    proof {
        let ghost before = old(out)@;
        if n >= 10 {
            assert(before + decimal(n as nat) =~= (before + decimal((n / 10) as nat)).push(
                digit_char((n % 10) as nat),
            ));
        } else {
            assert(before + decimal(n as nat) =~= before.push(digit_char(n as nat)));
        }
    }
}

/// Appends the two digits of `n` to `out`.
pub fn push_two_digits(out: &mut String, n: u8)
    requires
        n < 100,
    ensures
        final(out)@ == old(out)@ + decimal_padded(n as nat, 2),
{
    out.push((n / 10 + 48) as char);
    out.push((n % 10 + 48) as char);
    proof {
        reveal_with_fuel(decimal, 2);
        let ghost d = decimal(n as nat);
        if n < 10 {
            assert(zeros((2 - d.len()) as nat) + d =~= seq!['0', digit_char(n as nat)]);
        }
        assert(old(out)@ + decimal_padded(n as nat, 2) =~= old(out)@.push(
            digit_char((n / 10) as nat),
        ).push(digit_char((n % 10) as nat)));
    }
}

/// Appends `n` to `out`, in two digits or in more where it takes more.
pub fn push_padded(out: &mut String, n: u128)
    ensures
        final(out)@ == old(out)@ + decimal_padded(n as nat, 2),
{
    if n < 100 {
        push_two_digits(out, n as u8);
    } else {
        push_decimal(out, n);
        proof {
            lemma_decimal_len(n as nat);
        }
    }
}

/// The digit for a number below ten is a digit of that value.
pub proof fn lemma_digit_char(d: nat)
    requires
        d < 10,
    ensures
        is_digit(digit_char(d)),
        digit_value(digit_char(d)) == d,
{
    let b = ('0' as int + d) as u8;
    assert(b == 48 + d);
    assert((b as char) as int == b);
}

/// Appending a digit multiplies the value by ten and adds the digit.
pub proof fn lemma_digits_push(s: Seq<char>, c: char)
    ensures
        digits_value(s.push(c)) == digits_value(s) * 10 + digit_value(c),
{
    assert(s.push(c).drop_last() =~= s);
}

/// Every number takes at least one digit, and a number of ten or more at
/// least two.
pub proof fn lemma_decimal_len(n: nat)
    ensures
        decimal(n).len() >= 1,
        n >= 10 ==> decimal(n).len() >= 2,
{
    if n >= 10 {
        assert(decimal(n / 10).len() >= 1);
    }
}

/// Reading the digits that write a number gives the number back.
pub proof fn lemma_decimal_value(n: nat)
    ensures
        all_digits(decimal(n)),
        digits_value(decimal(n)) == n,
    decreases n,
{
    if n < 10 {
        assert(decimal(n).drop_last() =~= Seq::<char>::empty());
        assert(digits_value(Seq::<char>::empty()) == 0);
        assert(decimal(n).last() == digit_char(n));
        lemma_digit_char(n);
    } else {
        lemma_decimal_value(n / 10);
        lemma_digits_push(decimal(n / 10), digit_char(n % 10));
        lemma_digit_char(n % 10);
        assert forall|i: int| 0 <= i < decimal(n).len() implies is_digit(
            #[trigger] decimal(n)[i],
        ) by {
            if i < decimal(n / 10).len() {
                assert(decimal(n)[i] == decimal(n / 10)[i]);
            }
        }
    }
}

/// Powers of ten multiply by adding their exponents, and none is zero.
pub proof fn lemma_pow10_add(a: nat, b: nat)
    ensures
        pow10(a + b) == pow10(a) * pow10(b),
        pow10(a) >= 1,
    decreases a,
{
    if a > 0 {
        let k = (a - 1) as nat;
        lemma_pow10_add(k, b);
        assert(((a + b) - 1) as nat == k + b);
        assert(pow10(a + b) == 10 * pow10(k + b));
        assert(10 * (pow10(k) * pow10(b)) == (10 * pow10(k)) * pow10(b)) by (nonlinear_arith);
    } else {
        assert(pow10(a) * pow10(b) == pow10(b)) by (nonlinear_arith)
            requires
                pow10(a) == 1,
        ;
    }
}

/// The digits `a` followed by the digits `b` write the number of `a`,
/// shifted by the length of `b`, plus the number of `b`.
pub proof fn lemma_digits_concat(a: Seq<char>, b: Seq<char>)
    ensures
        digits_value(a + b) == digits_value(a) * pow10(b.len()) + digits_value(b),
    decreases b.len(),
{
    if b.len() == 0 {
        assert(a + b =~= a);
        assert(digits_value(a) * pow10(0) == digits_value(a)) by (nonlinear_arith)
            requires
                pow10(0) == 1,
        ;
    } else {
        lemma_digits_concat(a, b.drop_last());
        assert((a + b).drop_last() =~= a + b.drop_last());
        assert((a + b).last() == b.last());
        let x = digits_value(a);
        let y = digits_value(b.drop_last());
        let p = pow10((b.len() - 1) as nat);
        assert(b.drop_last().len() == b.len() - 1);
        assert(pow10(b.len()) == 10 * p);
        assert(digits_value(a + b) == (x * p + y) * 10 + digit_value(b.last()));
        assert((x * p + y) * 10 == x * (10 * p) + y * 10) by (nonlinear_arith);
    }
}

/// `n` digits write a number below the `n`th power of ten.
pub proof fn lemma_digits_bound(s: Seq<char>)
    requires
        all_digits(s),
    ensures
        digits_value(s) < pow10(s.len()),
    decreases s.len(),
{
    if s.len() > 0 {
        assert(all_digits(s.drop_last())) by {
            assert forall|i: int| 0 <= i < s.drop_last().len() implies is_digit(
                #[trigger] s.drop_last()[i],
            ) by {
                assert(s.drop_last()[i] == s[i]);
            }
        }
        lemma_digits_bound(s.drop_last());
        assert(is_digit(s[s.len() - 1]));
    }
}

/// Digits write zero exactly when all of them are zeros.
pub proof fn lemma_digits_zero(s: Seq<char>)
    requires
        all_digits(s),
    ensures
        digits_value(s) == 0 <==> all_zeros(s),
    decreases s.len(),
{
    if s.len() > 0 {
        let init = s.drop_last();
        assert(all_digits(init)) by {
            assert forall|i: int| 0 <= i < init.len() implies is_digit(#[trigger] init[i]) by {
                assert(init[i] == s[i]);
            }
        }
        lemma_digits_zero(init);
        assert(is_digit(s[s.len() - 1]));
        if all_zeros(s) {
            assert forall|i: int| 0 <= i < init.len() implies #[trigger] init[i] == '0' by {
                assert(init[i] == s[i]);
            }
            assert(s[s.len() - 1] == '0');
        }
        if digits_value(s) == 0 {
            assert(digit_value(s.last()) == 0);
            assert(s.last() as int == '0' as int);
            assert(s.last() == '0');
            assert forall|i: int| 0 <= i < s.len() implies #[trigger] s[i] == '0' by {
                if i < s.len() - 1 {
                    assert(init[i] == s[i]);
                }
            }
        }
    }
}

/// Digits write half of the next power of ten or more exactly when the
/// first of them is five or more.
pub proof fn lemma_digits_half(s: Seq<char>)
    requires
        all_digits(s),
        s.len() >= 1,
    ensures
        digit_value(s[0]) >= 5 <==> 2 * digits_value(s) >= pow10(s.len()),
{
    let head = s.take(1);
    let tail = s.skip(1);
    assert(head + tail =~= s);
    assert(all_digits(tail)) by {
        assert forall|i: int| 0 <= i < tail.len() implies is_digit(#[trigger] tail[i]) by {
            assert(tail[i] == s[i + 1]);
        }
    }
    lemma_digits_concat(head, tail);
    lemma_digits_bound(tail);
    assert(head.drop_last() =~= Seq::<char>::empty());
    assert(digits_value(Seq::<char>::empty()) == 0);
    assert(head.last() == s[0]);
    assert(digits_value(head) == digit_value(s[0]));
    assert(is_digit(s[0]));
    let d = digit_value(s[0]);
    let p = pow10(tail.len());
    assert(pow10(s.len()) == 10 * p);
    assert(d >= 5 ==> 2 * (d * p) >= 10 * p) by (nonlinear_arith)
        requires
            p >= 0,
    ;
    assert(d <= 4 ==> 2 * (d * p) <= 8 * p) by (nonlinear_arith)
        requires
            p >= 0,
    ;
}

} // verus!
