//! Reading text as a decimal numeral: an optional sign, digits with an
//! optional point among them, and an optional power of ten. A numeral is
//! read at a number of decimal places and comes out as a whole number of
//! units of that size, with a note of what was cut off.

use vstd::prelude::*;
use crate::numeral::{
    all_digits, all_zeros, digit_value, digits_value, is_digit, is_digit_char, lemma_digits_bound,
    lemma_digits_concat, lemma_digits_half, lemma_digits_push, lemma_digits_zero, lemma_pow10_add,
    pow10, zeros,
};
use crate::text::chars_of;

verus! {

/// The largest magnitude, at the scale asked for, that reading reports in
/// full.
pub const READ_LIMIT: u64 = 1_000_000_000_000_000_000;

/// What a text says as a decimal numeral, at a number of decimal places.
#[derive(Debug, Clone, Copy, PartialEq, Eq)]
pub enum Reading {
    /// The text is not a decimal numeral.
    Malformed,
    /// A numeral whose magnitude at the scale is above `READ_LIMIT`.
    Huge { negative: bool },
    /// A numeral of magnitude `whole` at the scale, digits beyond the scale
    /// cut off: `half_up` tells that what was cut is half a unit or more,
    /// `exact` that it is nothing.
    Value { negative: bool, whole: u64, half_up: bool, exact: bool },
}

impl Reading {
    /// Whether the numeral is greater than zero.
    pub open spec fn is_positive(self) -> bool {
        match self {
            Reading::Malformed => false,
            Reading::Huge { negative } => !negative,
            Reading::Value { negative, whole, half_up, exact } => !negative && (whole > 0 || !exact),
        }
    }

    /// The magnitude of the numeral in units of the scale, rounded to the
    /// nearest unit, halves upwards.
    pub open spec fn rounded(self) -> nat {
        match self {
            Reading::Value { negative, whole, half_up, exact } => if half_up {
                (whole + 1) as nat
            } else {
                whole as nat
            },
            _ => 0,
        }
    }

    /// Whether the reading can be that of a text: a cut of half a unit or
    /// more is not nothing, and the magnitude is within `READ_LIMIT`.
    pub open spec fn consistent(self) -> bool {
        self matches Reading::Value { negative, whole, half_up, exact } ==> whole <= READ_LIMIT && (
        half_up ==> !exact)
    }

    /// Tells whether the numeral is greater than zero.
    pub fn positive(&self) -> (b: bool)
        ensures
            b == self.is_positive(),
    {
        match self {
            Reading::Malformed => false,
            Reading::Huge { negative } => !*negative,
            Reading::Value { negative, whole, half_up, exact } => !*negative && (*whole > 0
                || !*exact),
        }
    }

    /// The magnitude of the numeral in units of the scale, rounded to the
    /// nearest unit, halves upwards.
    pub fn round(&self) -> (n: u64)
        requires
            self.consistent(),
        ensures
            n == self.rounded(),
    {
        match self {
            Reading::Value { negative, whole, half_up, exact } => if *half_up {
                *whole + 1
            } else {
                *whole
            },
            _ => 0,
        }
    }
}

/// The parts of a decimal numeral: its sign, the digits before the point,
/// the digits behind it, and the power of ten that follows. It stands for
/// the number that the digits write with the point among them, times ten to
/// the power of `exponent`.
pub ghost struct Numeral {
    pub negative: bool,
    pub int_digits: Seq<char>,
    pub frac_digits: Seq<char>,
    pub exponent: int,
}

impl Numeral {
    /// All digits of the numeral, the point left out.
    pub open spec fn digits(self) -> Seq<char> {
        self.int_digits + self.frac_digits
    }

    /// How many of the digits, counted from the first, make up whole units
    /// of `10^-places`: more than there are digits where zeros must follow
    /// them, and less than none where even the first digit is too small.
    pub open spec fn keep(self, places: nat) -> int {
        self.int_digits.len() + self.exponent + places
    }
}

/// The number of digits that `s` starts with.
pub open spec fn digit_run(s: Seq<char>) -> nat
    decreases s.len(),
{
    if s.len() > 0 && is_digit(s[0]) {
        1 + digit_run(s.drop_first())
    } else {
        0
    }
}

/// The length of the sign that `s` starts with: one for `+` or `-`.
pub open spec fn sign_len(s: Seq<char>) -> int {
    if s.len() > 0 && (s[0] == '+' || s[0] == '-') {
        1
    } else {
        0
    }
}

/// Reads `t` as what follows the digits of a numeral: nothing, for the
/// power zero, or the letter `e` or `E`, an optional sign and one digit or
/// more.
pub open spec fn exponent_of(t: Seq<char>) -> Option<int> {
    if t.len() == 0 {
        Some(0)
    } else if t[0] == 'e' || t[0] == 'E' {
        let u = t.skip(1);
        let d = u.skip(sign_len(u));
        if d.len() > 0 && all_digits(d) {
            Some(
                if u[0] == '-' {
                    -(digits_value(d) as int)
                } else {
                    digits_value(d) as int
                },
            )
        } else {
            None
        }
    } else {
        None
    }
}

/// Reads `s` as a decimal numeral: an optional sign; digits, with a point
/// before, among or behind them; and an optional power of ten.
pub open spec fn numeral(s: Seq<char>) -> Option<Numeral> {
    let negative = s.len() > 0 && s[0] == '-';
    let body = s.skip(sign_len(s));
    let n = digit_run(body) as int;
    let after_int = body.skip(n);
    let pointed = after_int.len() > 0 && after_int[0] == '.';
    let m = if pointed {
        digit_run(after_int.skip(1)) as int
    } else {
        0
    };
    let tail = if pointed {
        after_int.skip(1 + m)
    } else {
        after_int
    };
    if n + m == 0 {
        None
    } else {
        match exponent_of(tail) {
            None => None,
            Some(exponent) => Some(
                Numeral {
                    negative,
                    int_digits: body.take(n),
                    frac_digits: if pointed {
                        after_int.subrange(1, 1 + m)
                    } else {
                        Seq::empty()
                    },
                    exponent,
                },
            ),
        }
    }
}

/// The digits that write the whole units, where `keep` of `digits` make up
/// whole units.
pub open spec fn kept_digits(digits: Seq<char>, keep: int) -> Seq<char> {
    if keep >= digits.len() {
        digits + zeros((keep - digits.len()) as nat)
    } else if keep >= 0 {
        digits.take(keep)
    } else {
        Seq::empty()
    }
}

/// The digits that write less than a unit, where `keep` of `digits` make up
/// whole units.
pub open spec fn cut_digits(digits: Seq<char>, keep: int) -> Seq<char> {
    if keep >= digits.len() {
        Seq::empty()
    } else if keep >= 0 {
        digits.skip(keep)
    } else {
        zeros((-keep) as nat) + digits
    }
}

/// The reading of a numeral with the sign and digits given, of which `keep`
/// make up whole units.
pub open spec fn reading_at(negative: bool, digits: Seq<char>, keep: int) -> Reading {
    let whole = digits_value(kept_digits(digits, keep));
    let cut = cut_digits(digits, keep);
    if whole > READ_LIMIT {
        Reading::Huge { negative }
    } else {
        Reading::Value {
            negative,
            whole: whole as u64,
            half_up: cut.len() > 0 && digit_value(cut[0]) >= 5,
            exact: all_zeros(cut),
        }
    }
}

/// What `s` says at `places` decimal places.
pub open spec fn reading(s: Seq<char>, places: nat) -> Reading {
    match numeral(s) {
        None => Reading::Malformed,
        Some(num) => reading_at(num.negative, num.digits(), num.keep(places)),
    }
}

/// A run of `n` digits that ends before a non-digit, or at the end, is the
/// digit run of `s`.
pub proof fn lemma_digit_run(s: Seq<char>, n: int)
    requires
        0 <= n <= s.len(),
        forall|i: int| 0 <= i < n ==> is_digit(#[trigger] s[i]),
        n < s.len() ==> !is_digit(s[n]),
    ensures
        digit_run(s) == n,
    decreases n,
{
    if n > 0 {
        let t = s.drop_first();
        assert forall|i: int| 0 <= i < n - 1 implies is_digit(#[trigger] t[i]) by {
            assert(t[i] == s[i + 1]);
        }
        lemma_digit_run(t, n - 1);
    }
}

/// Powers of ten from the nineteenth on lie above `READ_LIMIT`.
proof fn lemma_pow10_large(k: nat)
    requires
        k >= 19,
    ensures
        pow10(k) > READ_LIMIT,
    decreases k,
{
    if k == 19 {
        reveal_with_fuel(pow10, 20);
    } else {
        lemma_pow10_large((k - 1) as nat);
    }
}

/// Zeros in front of digits change nothing in what they write, and zeros
/// behind them multiply it by a power of ten.
pub proof fn lemma_zeros_around(digits: Seq<char>, n: nat)
    ensures
        digits_value(zeros(n) + digits) == digits_value(digits),
        digits_value(digits + zeros(n)) == digits_value(digits) * pow10(n),
        digits_value(zeros(n)) == 0,
{
    assert(all_digits(zeros(n)));
    assert(all_zeros(zeros(n)));
    lemma_digits_zero(zeros(n));
    lemma_digits_concat(zeros(n), digits);
    lemma_digits_concat(digits, zeros(n));
    assert(0 * pow10(digits.len()) == 0);
}

/// What the parts of a reading mean. Let `m` be the number that all the
/// digits write, so that the numeral stands for `m` units times ten to the
/// power of `keep` less the number of digits. Where that power is not
/// negative, the whole part is the numeral, and nothing is cut. Where it is
/// negative, let `unit` be ten to the power of as many digits as are cut:
/// then the whole part is the greatest number of units within `m`, the cut
/// is nothing exactly when `m` is a whole number of units, and the reading
/// rounds upwards exactly when what is cut is half a unit or more.
pub proof fn lemma_reading_meaning(digits: Seq<char>, keep: int)
    requires
        all_digits(digits),
    ensures
        ({
            let m = digits_value(digits);
            let whole = digits_value(kept_digits(digits, keep));
            let cut = cut_digits(digits, keep);
            let half_up = cut.len() > 0 && digit_value(cut[0]) >= 5;
            if keep >= digits.len() {
                whole == m * pow10((keep - digits.len()) as nat) && all_zeros(cut) && !half_up
            } else {
                let unit = pow10((digits.len() - keep) as nat);
                &&& whole * unit <= m < (whole + 1) * unit
                &&& all_zeros(cut) <==> m == whole * unit
                &&& half_up <==> 2 * (m - whole * unit) >= unit
            }
        }),
{
    let m = digits_value(digits);
    let kept = kept_digits(digits, keep);
    let whole = digits_value(kept);
    let cut = cut_digits(digits, keep);
    if keep >= digits.len() {
        lemma_zeros_around(digits, (keep - digits.len()) as nat);
    } else {
        let unit = pow10(cut.len());
        assert(cut.len() == digits.len() - keep);
        if keep >= 0 {
            assert(kept + cut =~= digits);
            assert forall|i: int| 0 <= i < cut.len() implies is_digit(#[trigger] cut[i]) by {
                assert(cut[i] == digits[i + keep]);
            }
            lemma_digits_concat(kept, cut);
        } else {
            let fill = zeros((-keep) as nat);
            assert forall|i: int| 0 <= i < cut.len() implies is_digit(#[trigger] cut[i]) by {
                if i >= fill.len() {
                    assert(cut[i] == digits[i - fill.len()]);
                }
            }
            lemma_zeros_around(digits, (-keep) as nat);
            assert(kept =~= Seq::<char>::empty());
            assert(whole == 0);
            assert(whole * unit == 0) by (nonlinear_arith)
                requires
                    whole == 0,
            ;
        }
        let c = digits_value(cut);
        assert(m == whole * unit + c);
        lemma_digits_bound(cut);
        lemma_digits_zero(cut);
        lemma_digits_half(cut);
        assert((whole + 1) * unit == whole * unit + unit) by (nonlinear_arith);
    }
}

/// A magnitude that is being read digit by digit: `value` while it is
/// within `READ_LIMIT`, and `over` from the moment it has passed it.
struct Gauge {
    value: u64,
    over: bool,
}

impl Gauge {
    /// Whether the gauge stands for the number `n`.
    spec fn holds(self, n: nat) -> bool {
        if self.over {
            n > READ_LIMIT
        } else {
            self.value == n && n <= READ_LIMIT
        }
    }

    /// The gauge after one more digit `c`.
    fn push(self, c: char, Ghost(n): Ghost<nat>) -> (next: Gauge)
        requires
            is_digit(c),
            self.holds(n),
        ensures
            next.holds(n * 10 + digit_value(c)),
    {
        if self.over {
            self
        } else {
            let d: u64 = (c as u32 - 48) as u64;
            let value = self.value * 10 + d;
            Gauge { value, over: value > READ_LIMIT }
        }
    }

    /// The gauge after the digits `v[..to]`.
    fn of(v: &Vec<char>, to: usize) -> (gauge: Gauge)
        requires
            to <= v.len(),
            all_digits(v@),
        ensures
            gauge.holds(digits_value(v@.take(to as int))),
    {
        let mut gauge = Gauge { value: 0, over: false };
        let mut at: usize = 0;
        proof {
            assert(v@.take(0) =~= Seq::<char>::empty());
        }
        while at < to
            invariant
                at <= to <= v.len(),
                all_digits(v@),
                gauge.holds(digits_value(v@.take(at as int))),
            decreases to - at,
        {
            proof {
                lemma_digits_push(v@.take(at as int), v@[at as int]);
                assert(v@.take(at + 1) =~= v@.take(at as int).push(v@[at as int]));
            }
            gauge = gauge.push(v[at], Ghost(digits_value(v@.take(at as int))));
            at += 1;
        }
        gauge
    }

    /// The gauge after `count` more zeros.
    fn zeros(self, count: u8, Ghost(seen): Ghost<Seq<char>>) -> (next: Gauge)
        requires
            self.holds(digits_value(seen)),
        ensures
            next.holds(digits_value(seen + zeros(count as nat))),
    {
        let mut gauge = self;
        let mut done: u8 = 0;
        proof {
            assert(seen + zeros(0) =~= seen);
        }
        while done < count
            invariant
                done <= count,
                gauge.holds(digits_value(seen + zeros(done as nat))),
            decreases count - done,
        {
            let ghost so_far = seen + zeros(done as nat);
            proof {
                lemma_digits_push(so_far, '0');
                assert(seen + zeros((done + 1) as nat) =~= so_far.push('0'));
            }
            gauge = gauge.push('0', Ghost(digits_value(so_far)));
            done += 1;
        }
        gauge
    }
}

/// The power of ten beyond which, in magnitude, reading does not tell one
/// from another: none of them leaves a digit of any text within reach.
const EXPONENT_LIMIT: i128 = 0x40_0000_0000_0000_0000;

/// `e`, taken back to `EXPONENT_LIMIT` in magnitude.
spec fn clamped(e: int) -> int {
    if e > EXPONENT_LIMIT {
        EXPONENT_LIMIT as int
    } else if e < -EXPONENT_LIMIT {
        -EXPONENT_LIMIT
    } else {
        e
    }
}

/// Where the parts of a numeral lie in a text: the digits before the point
/// in `int_from..int_to`, those behind it in `frac_from..frac_to`; and its
/// power of ten, taken back to `EXPONENT_LIMIT` in magnitude.
struct Layout {
    negative: bool,
    int_from: usize,
    int_to: usize,
    frac_from: usize,
    frac_to: usize,
    exponent: i128,
}

/// The end of the digits that `v` holds from `from` on.
fn digits_end(v: &Vec<char>, from: usize) -> (to: usize)
    requires
        from <= v.len(),
    ensures
        from <= to <= v.len(),
        to - from == digit_run(v@.skip(from as int)),
        all_digits(v@.subrange(from as int, to as int)),
        to < v.len() ==> !is_digit(v@[to as int]),
{
    let mut to: usize = from;
    let ghost body = v@.skip(from as int);
    while to < v.len() && is_digit_char(v[to])
        invariant
            from <= to <= v.len(),
            body == v@.skip(from as int),
            forall|i: int| 0 <= i < to - from ==> is_digit(#[trigger] body[i]),
        decreases v.len() - to,
    {
        to += 1;
    }
    proof {
        lemma_digit_run(body, to - from);
        assert forall|i: int| 0 <= i < to - from implies is_digit(
            #[trigger] v@.subrange(from as int, to as int)[i],
        ) by {
            assert(body[i] == v@[from + i]);
        }
    }
    to
}

/// The power of ten that `v` holds from `from` on, taken back to
/// `EXPONENT_LIMIT` in magnitude, if it holds one.
fn exponent_at(v: &Vec<char>, from: usize) -> (r: Option<i128>)
    requires
        from <= v.len(),
    ensures
        match exponent_of(v@.skip(from as int)) {
            None => r is None,
            Some(e) => r == Some(clamped(e) as i128),
        },
{
    let len = v.len();
    let ghost t = v@.skip(from as int);
    if from == len {
        return Some(0);
    }
    assert(t[0] == v@[from as int]);
    if v[from] != 'e' && v[from] != 'E' {
        return None;
    }
    let sign_at = from + 1;
    let ghost u = t.skip(1);
    assert(u =~= v@.skip(sign_at as int));
    let negative = sign_at < len && v[sign_at] == '-';
    let start: usize = if sign_at < len && (v[sign_at] == '+' || v[sign_at] == '-') {
        sign_at + 1
    } else {
        sign_at
    };
    let ghost d = u.skip(sign_len(u));
    assert(d =~= v@.skip(start as int));
    if start == len {
        return None;
    }
    let mut power: i128 = 0;
    let mut at: usize = start;
    proof {
        assert(d.take(0) =~= Seq::<char>::empty());
    }
    while at < len
        invariant
            start <= at <= len == v.len(),
            d == v@.skip(start as int),
            exponent_of(v@.skip(from as int)) is Some ==> all_digits(d),
            forall|i: int| 0 <= i < at - start ==> is_digit(#[trigger] d[i]),
            0 <= power <= EXPONENT_LIMIT,
            power == clamped(digits_value(d.take(at - start)) as int),
        decreases len - at,
    {
        let c = v[at];
        assert(d[at - start] == c);
        if !is_digit_char(c) {
            return None;
        }
        proof {
            lemma_digits_push(d.take(at - start), c);
            assert(d.take(at - start + 1) =~= d.take(at - start).push(c));
        }
        let next = power * 10 + (c as u32 - 48) as i128;
        power = if next > EXPONENT_LIMIT {
            EXPONENT_LIMIT
        } else {
            next
        };
        at += 1;
    }
    proof {
        assert(d.take(d.len() as int) =~= d);
    }
    if negative {
        Some(-power)
    } else {
        Some(power)
    }
}

/// Finds the parts of the numeral that `v` holds, if it is one.
fn layout(v: &Vec<char>) -> (r: Option<Layout>)
    ensures
        match numeral(v@) {
            None => r is None,
            Some(num) => r matches Some(l) && {
                &&& l.int_from <= l.int_to <= l.frac_from <= l.frac_to <= v.len()
                &&& l.negative == num.negative
                &&& v@.subrange(l.int_from as int, l.int_to as int) == num.int_digits
                &&& v@.subrange(l.frac_from as int, l.frac_to as int) == num.frac_digits
                &&& l.exponent == clamped(num.exponent)
                &&& all_digits(num.int_digits)
                &&& all_digits(num.frac_digits)
            },
        },
{
    let len = v.len();
    let negative = len > 0 && v[0] == '-';
    let int_from: usize = if len > 0 && (v[0] == '+' || v[0] == '-') {
        1
    } else {
        0
    };
    let int_to = digits_end(v, int_from);
    let ghost body = v@.skip(int_from as int);
    let ghost after_int = body.skip(int_to - int_from);
    proof {
        assert(body.take(int_to - int_from) =~= v@.subrange(int_from as int, int_to as int));
        assert(after_int =~= v@.skip(int_to as int));
        if int_to < len {
            assert(after_int[0] == v@[int_to as int]);
        }
    }
    let pointed = int_to < len && v[int_to] == '.';
    let frac_from: usize = if pointed {
        int_to + 1
    } else {
        int_to
    };
    let frac_to: usize = if pointed {
        digits_end(v, frac_from)
    } else {
        int_to
    };
    proof {
        if pointed {
            assert(after_int.skip(1) =~= v@.skip(frac_from as int));
            assert(after_int.subrange(1, 1 + (frac_to - frac_from)) =~= v@.subrange(
                frac_from as int,
                frac_to as int,
            ));
            assert(after_int.skip(1 + (frac_to - frac_from)) =~= v@.skip(frac_to as int));
        } else {
            assert(v@.subrange(frac_from as int, frac_to as int) =~= Seq::<char>::empty());
        }
    }
    if (int_to - int_from) + (frac_to - frac_from) == 0 {
        return None;
    }
    match exponent_at(v, frac_to) {
        None => None,
        Some(exponent) => Some(Layout { negative, int_from, int_to, frac_from, frac_to, exponent }),
    }
}

/// The characters `v[a..b]` followed by the characters `v[c..d]`.
fn joined(v: &Vec<char>, a: usize, b: usize, c: usize, d: usize) -> (w: Vec<char>)
    requires
        a <= b <= c <= d <= v.len(),
    ensures
        w@ == v@.subrange(a as int, b as int) + v@.subrange(c as int, d as int),
{
    let mut w: Vec<char> = Vec::new();
    let mut i: usize = a;
    while i < b
        invariant
            a <= i <= b <= v.len(),
            w@ == v@.subrange(a as int, i as int),
        decreases b - i,
    {
        w.push(v[i]);
        i += 1;
    }
    let mut j: usize = c;
    while j < d
        invariant
            c <= j <= d <= v.len(),
            w@ == v@.subrange(a as int, b as int) + v@.subrange(c as int, j as int),
        decreases d - j,
    {
        w.push(v[j]);
        j += 1;
    }
    w
}

/// Whether `v` holds nothing but zeros from `from` on.
fn zeros_from(v: &Vec<char>, from: usize) -> (b: bool)
    requires
        from <= v.len(),
    ensures
        b == all_zeros(v@.skip(from as int)),
{
    let mut at: usize = from;
    let ghost tail = v@.skip(from as int);
    while at < v.len()
        invariant
            from <= at <= v.len(),
            tail == v@.skip(from as int),
            forall|i: int| 0 <= i < at - from ==> #[trigger] tail[i] == '0',
        decreases v.len() - at,
    {
        if v[at] != '0' {
            assert(tail[at - from] == v@[at as int]);
            return false;
        }
        at += 1;
    }
    true
}

/// The reading of a numeral with the sign and digits given, of which `keep`
/// make up whole units. Where `keep` lies twenty or more beyond the digits,
/// or before them, it may stand for any number that lies further out.
fn measure(negative: bool, digits: &Vec<char>, keep: i128, Ghost(k): Ghost<int>) -> (r: Reading)
    requires
        all_digits(digits@),
        k == keep || (k > keep >= digits.len() + 20) || (k < keep < 0),
    ensures
        r == reading_at(negative, digits@, k),
        r.consistent(),
{
    let len = digits.len();
    let ghost kept = kept_digits(digits@, k);
    let ghost cut = cut_digits(digits@, k);
    if keep < 0 {
        let exact = zeros_from(digits, 0);
        proof {
            assert(digits@.skip(0) =~= digits@);
            assert(cut[0] == '0');
            if exact {
                assert(all_zeros(cut));
            } else {
                let i = choose|i: int| 0 <= i < digits@.len() && digits@[i] != '0';
                assert(cut[i - k] == digits@[i]);
            }
        }
        Reading::Value { negative, whole: 0, half_up: false, exact }
    } else if keep >= len as i128 {
        let gauge = Gauge::of(digits, len);
        let fill = keep - len as i128;
        proof {
            assert(digits@.take(len as int) =~= digits@);
            lemma_zeros_around(digits@, (k - len) as nat);
            lemma_pow10_add((k - len) as nat, 0);
        }
        if gauge.over {
            proof {
                assert(digits_value(kept) >= digits_value(digits@)) by (nonlinear_arith)
                    requires
                        digits_value(kept) == digits_value(digits@) * pow10((k - len) as nat),
                        pow10((k - len) as nat) >= 1,
                ;
            }
            Reading::Huge { negative }
        } else if gauge.value == 0 {
            proof {
                assert(0 * pow10((k - len) as nat) == 0);
            }
            Reading::Value { negative, whole: 0, half_up: false, exact: true }
        } else if fill > 19 {
            proof {
                lemma_pow10_large((k - len) as nat);
                assert(digits_value(kept) > READ_LIMIT) by (nonlinear_arith)
                    requires
                        digits_value(kept) == digits_value(digits@) * pow10((k - len) as nat),
                        digits_value(digits@) >= 1,
                        pow10((k - len) as nat) > READ_LIMIT,
                ;
            }
            Reading::Huge { negative }
        } else {
            let gauge = gauge.zeros(fill as u8, Ghost(digits@));
            if gauge.over {
                Reading::Huge { negative }
            } else {
                Reading::Value { negative, whole: gauge.value, half_up: false, exact: true }
            }
        }
    } else {
        let at = keep as usize;
        let gauge = Gauge::of(digits, at);
        let half_up = digits[at] as u32 >= 53;
        let exact = zeros_from(digits, at);
        proof {
            assert(cut[0] == digits@[at as int]);
            assert(is_digit(digits@[at as int]));
        }
        if gauge.over {
            Reading::Huge { negative }
        } else {
            Reading::Value { negative, whole: gauge.value, half_up, exact }
        }
    }
}

/// What `s` says as a decimal numeral at `places` decimal places.
pub fn read_decimal(s: &str, places: u8) -> (r: Reading)
    ensures
        r == reading(s@, places as nat),
        r.consistent(),
{
    let v = chars_of(s);
    let l = match layout(&v) {
        None => {
            return Reading::Malformed;
        },
        Some(l) => l,
    };
    let ghost num = numeral(v@).unwrap();
    let digits = joined(&v, l.int_from, l.int_to, l.frac_from, l.frac_to);
    let keep = (l.int_to - l.int_from) as i128 + l.exponent + places as i128;
    proof {
        assert forall|i: int| 0 <= i < digits@.len() implies is_digit(#[trigger] digits@[i]) by {
            if i < num.int_digits.len() {
                assert(digits@[i] == num.int_digits[i]);
            } else {
                assert(digits@[i] == num.frac_digits[i - num.int_digits.len()]);
            }
        }
    }
    measure(l.negative, &digits, keep, Ghost(num.keep(places as nat)))
}

} // verus!
