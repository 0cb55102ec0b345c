//! Fixed-point numbers: rounding, clamping, and reading decimal numerals.

use vstd::prelude::*;

use crate::text::{chars_of, numeral, padded_numeral};

verus! {

/// One, in billionths.
pub const NANO: i64 = 1_000_000_000;

/// `x` moved into `lo ..= hi`.
pub open spec fn clamp(x: int, lo: int, hi: int) -> int {
    if x < lo {
        lo
    } else if x > hi {
        hi
    } else {
        x
    }
}

/// `x` moved into the range of `i64`.
pub open spec fn clamp64(x: int) -> int {
    clamp(x, i64::MIN as int, i64::MAX as int)
}

/// `x` moved into the range of `i128`.
pub open spec fn clamp128(x: int) -> int {
    clamp(x, i128::MIN as int, i128::MAX as int)
}

/// The magnitude of `x`.
pub open spec fn magnitude(x: int) -> int {
    if x < 0 {
        -x
    } else {
        x
    }
}

/// `n / d` rounded to the nearest integer, halves to the even one.
pub open spec fn round_even(n: int, d: int) -> int {
    let q = n / d;
    let r = n % d;
    if 2 * r < d {
        q
    } else if 2 * r > d {
        q + 1
    } else if q % 2 == 0 {
        q
    } else {
        q + 1
    }
}

/// `n / d` rounded to the nearest integer, halves away from zero.
pub open spec fn round_away(n: int, d: int) -> int {
    if n >= 0 {
        (2 * n + d) / (2 * d)
    } else {
        -((d - 2 * n) / (2 * d))
    }
}

/// `n / d` rounded up.
pub open spec fn ceil_div(n: int, d: int) -> int {
    -((-n) / d)
}

/// Moves a value into the range of `i64`.
pub fn to_i64(x: i128) -> (r: i64)
    ensures
        r == clamp64(x as int),
{
    if x < i64::MIN as i128 {
        i64::MIN
    } else if x > i64::MAX as i128 {
        i64::MAX
    } else {
        x as i64
    }
}

/// Addition that stops at the ends of the range.
pub fn add128(a: i128, b: i128) -> (r: i128)
    ensures
        r == clamp128(a + b),
{
    if b >= 0 {
        if a > i128::MAX - b {
            i128::MAX
        } else {
            a + b
        }
    } else if a < i128::MIN - b {
        i128::MIN
    } else {
        a + b
    }
}

/// The product, or the end of the range that it passes.
pub fn mul128(a: i128, b: i128) -> (r: i128)
    ensures
        r == clamp128(a * b),
{
    match a.checked_mul(b) {
        Some(r) => r,
        None => {
            if (a < 0) == (b < 0) {
                assert(a * b >= 0) by (nonlinear_arith)
                    requires
                        (a < 0) == (b < 0),
                ;
                i128::MAX
            } else {
                assert(a * b <= 0) by (nonlinear_arith)
                    requires
                        (a < 0) != (b < 0),
                ;
                i128::MIN
            }
        },
    }
}

/// Addition that stops at the ends of the range.
pub fn add64(a: i64, b: i64) -> (r: i64)
    ensures
        r == clamp64(a + b),
{
    to_i64(a as i128 + b as i128)
}

/// One more, stopping at the end of the range.
pub fn bump(n: u64) -> (r: u64)
    ensures
        r == (if n == u64::MAX {
            u64::MAX as int
        } else {
            n + 1
        }),
{
    if n == u64::MAX {
        n
    } else {
        n + 1
    }
}

/// The magnitude of a value.
pub fn abs64(x: i64) -> (r: i128)
    ensures
        r == magnitude(x as int),
{
    if x < 0 {
        -(x as i128)
    } else {
        x as i128
    }
}

/// Quotient and remainder of a division whose remainder is never negative.
pub fn floor_div(n: i128, d: i128) -> (r: (i128, i128))
    requires
        d > 0,
    ensures
        r.0 == n as int / d as int,
        r.1 == n as int % d as int,
        0 <= r.1 < d,
        n == r.0 * d + r.1,
{
    if n >= 0 {
        let q: i128 = n / d;
        let m: i128 = n % d;
        proof {
            vstd::arithmetic::div_mod::lemma_fundamental_div_mod(n as int, d as int);
            vstd::arithmetic::mul::lemma_mul_is_commutative(q as int, d as int);
        }
        (q, m)
    } else {
        // n = -1 - k with k >= 0
        let k: i128 = -(n + 1);
        let kq: i128 = k / d;
        let kr: i128 = k % d;
        proof {
            vstd::arithmetic::div_mod::lemma_fundamental_div_mod(k as int, d as int);
            vstd::arithmetic::mul::lemma_mul_is_commutative(kq as int, d as int);
            assert(n as int == (-kq - 1) * d + (d - 1 - kr)) by (nonlinear_arith)
                requires
                    n == -1 - k,
                    k == kq * d + kr,
            ;
            vstd::arithmetic::div_mod::lemma_fundamental_div_mod_converse(
                n as int,
                d as int,
                -kq - 1,
                d - 1 - kr,
            );
        }
        (-kq - 1, d - 1 - kr)
    }
}

/// Division rounded to the nearest integer, halves to the even one.
pub fn div_even(n: i128, d: i128) -> (r: i128)
    requires
        d > 0,
    ensures
        r == round_even(n as int, d as int),
{
    let (q, m) = floor_div(n, d);
    proof {
        lemma_quotient_range(n as int, d as int);
    }
    if m < d - m {
        q
    } else if m > d - m || q % 2 != 0 {
        q + 1
    } else {
        q
    }
}

/// A quotient by a positive divisor leaves room for rounding, unless the
/// divisor is one and nothing is rounded.
proof fn lemma_quotient_range(n: int, d: int)
    requires
        d > 0,
    ensures
        n >= 0 ==> 0 <= n / d <= n,
        n < 0 ==> n <= n / d < 0,
        d > 1 && n > 0 ==> n / d < n,
{
    vstd::arithmetic::div_mod::lemma_fundamental_div_mod(n, d);
    let q = n / d;
    let r = n % d;
    if n >= 0 {
        assert(0 <= q && q <= n && (d > 1 && n > 0 ==> q < n)) by (nonlinear_arith)
            requires
                n == d * q + r,
                0 <= r < d,
                d > 0,
                n >= 0,
        ;
    } else {
        assert(n <= q && q < 0) by (nonlinear_arith)
            requires
                n == d * q + r,
                0 <= r < d,
                d > 0,
                n < 0,
        ;
    }
}

/// Division rounded to the nearest integer, halves away from zero.
pub fn div_away(n: i128, d: i128) -> (r: i128)
    requires
        d > 0,
    ensures
        r == round_away(n as int, d as int),
{
    let (q, m) = floor_div(n, d);
    proof {
        lemma_quotient_range(n as int, d as int);
        lemma_away_by_floor(n as int, d as int);
    }
    if m < d - m {
        q
    } else if m > d - m || n >= 0 {
        q + 1
    } else {
        q
    }
}

/// Rounding away from zero, by the remainder of rounding down.
proof fn lemma_away_by_floor(n: int, d: int)
    requires
        d > 0,
    ensures
        round_away(n, d) == n / d + (if 2 * (n % d) > d || (2 * (n % d) == d && n >= 0) {
            1int
        } else {
            0
        }),
{
    vstd::arithmetic::div_mod::lemma_fundamental_div_mod(n, d);
    let q = n / d;
    let m = n % d;
    let up = if 2 * m > d || (2 * m == d && n >= 0) {
        1int
    } else {
        0
    };
    if n >= 0 {
        let rest = 2 * m + d - 2 * d * up;
        assert(2 * n + d == (q + up) * (2 * d) + rest) by (nonlinear_arith)
            requires
                n == d * q + m,
                rest == 2 * m + d - 2 * d * up,
        ;
        assert(0 <= rest < 2 * d);
        vstd::arithmetic::div_mod::lemma_fundamental_div_mod_converse(
            2 * n + d,
            2 * d,
            q + up,
            rest,
        );
    } else {
        let rest = d - 2 * m + 2 * d * up;
        assert(d - 2 * n == (-(q + up)) * (2 * d) + rest) by (nonlinear_arith)
            requires
                n == d * q + m,
                rest == d - 2 * m + 2 * d * up,
        ;
        assert(0 <= rest < 2 * d);
        vstd::arithmetic::div_mod::lemma_fundamental_div_mod_converse(
            d - 2 * n,
            2 * d,
            -(q + up),
            rest,
        );
    }
}

/// `num / den` in billionths, rounded to even and moved into `lo ..= hi`.
pub fn ratio(num: i128, den: i128, lo: i64, hi: i64) -> (r: i64)
    requires
        0 < den <= 0x1_0000_0000_0000_0000_0000,
        -5_000_000_000 <= lo <= hi <= 5_000_000_000,
    ensures
        r == clamp(round_even(num * NANO, den as int), lo as int, hi as int),
{
    let edge: i128 = 0x2_0000_0000_0000_0000_0000_0000;
    if num > edge {
        proof {
            lemma_round_even_bounds(num * NANO, den as int);
            assert((num * NANO) / (den as int) >= 5_000_000_000) by {
                vstd::arithmetic::div_mod::lemma_div_is_ordered(
                    5_000_000_000 * den,
                    num * NANO,
                    den as int,
                );
                vstd::arithmetic::div_mod::lemma_div_multiples_vanish(5_000_000_000, den as int);
            }
        }
        hi
    } else if num < -edge {
        proof {
            lemma_round_even_bounds(num * NANO, den as int);
            assert((num * NANO) / (den as int) < -5_000_000_001) by {
                vstd::arithmetic::div_mod::lemma_div_is_ordered(
                    num * NANO,
                    -5_000_000_002 * den,
                    den as int,
                );
                vstd::arithmetic::div_mod::lemma_div_multiples_vanish(-5_000_000_002, den as int);
            }
        }
        lo
    } else {
        let q: i128 = div_even(num * (NANO as i128), den);
        if q < lo as i128 {
            lo
        } else if q > hi as i128 {
            hi
        } else {
            q as i64
        }
    }
}

/// Rounding moves a quotient up by at most one.
pub proof fn lemma_round_even_bounds(n: int, d: int)
    requires
        d > 0,
    ensures
        n / d <= round_even(n, d) <= n / d + 1,
{
}

/// A rounded quotient is at most half a unit away.
pub proof fn lemma_round_even_near(n: int, d: int)
    requires
        d > 0,
    ensures
        magnitude(2 * (d * round_even(n, d) - n)) <= d,
{
    vstd::arithmetic::div_mod::lemma_fundamental_div_mod(n, d);
    let q = n / d;
    assert(d * (q + 1) == d * q + d) by (nonlinear_arith);
}

/// Rounding keeps order.
pub proof fn lemma_round_even_monotone(a: int, b: int, d: int)
    requires
        a <= b,
        d > 0,
    ensures
        round_even(a, d) <= round_even(b, d),
{
    vstd::arithmetic::div_mod::lemma_div_is_ordered(a, b, d);
    vstd::arithmetic::div_mod::lemma_fundamental_div_mod(a, d);
    vstd::arithmetic::div_mod::lemma_fundamental_div_mod(b, d);
    if a / d == b / d {
        assert(a % d <= b % d);
    }
}

// --- decimal numerals --------------------------------------------------------

/// A number read from text.
#[derive(Clone, Copy, Debug, PartialEq, Eq, Structural)]
pub enum Num {
    /// A number in billionths, rounded to the nearest one; a number of more
    /// than `NUM_LIMIT` of them either way stands at the limit.
    Finite(i128),
    /// Infinity, or a number that overflows a double; true for the negative
    /// side.
    Infinite(bool),
    /// The text says that it is not a number.
    NotANumber,
}

/// The largest number that is held, in billionths.
pub const NUM_LIMIT: i128 = 170_141_183_460_469_231_731_687_303_715_884_105_727;

/// Ten to the power `n`.
pub open spec fn pow10(n: nat) -> int
    decreases n,
{
    if n == 0 {
        1
    } else {
        10 * pow10((n - 1) as nat)
    }
}

pub open spec fn is_digit(c: char) -> bool {
    '0' as int <= c as int <= '9' as int
}

pub open spec fn digit_value(c: char) -> int {
    c as int - '0' as int
}

/// The value of a run of digits.
pub open spec fn digits_value(s: Seq<char>) -> int
    decreases s.len(),
{
    if s.len() == 0 {
        0
    } else {
        digits_value(s.drop_last()) * 10 + digit_value(s.last())
    }
}

pub open spec fn all_digits(s: Seq<char>) -> bool {
    forall|i: int| 0 <= i < s.len() ==> is_digit(#[trigger] s[i])
}

/// The end of the run of digits that begins at `from`.
pub open spec fn digit_run(s: Seq<char>, from: int) -> int
    decreases s.len() - from,
{
    if from < 0 || from >= s.len() || !is_digit(s[from]) {
        from
    } else {
        digit_run(s, from + 1)
    }
}

/// `c` is the letter `upper` or the same letter in lower case.
pub open spec fn letter(c: char, upper: char) -> bool {
    c as int == upper as int || c as int == upper as int + 32
}

pub open spec fn is_nan_word(s: Seq<char>) -> bool {
    s.len() == 3 && letter(s[0], 'N') && letter(s[1], 'A') && letter(s[2], 'N')
}

pub open spec fn is_inf_word(s: Seq<char>) -> bool {
    &&& s.len() == 3 || s.len() == 8
    &&& letter(s[0], 'I') && letter(s[1], 'N') && letter(s[2], 'F')
    &&& s.len() == 8 ==> letter(s[3], 'I') && letter(s[4], 'N') && letter(s[5], 'I') && letter(
        s[6],
        'T',
    ) && letter(s[7], 'Y')
}

/// `digits` times ten to the power `scale`, rounded to an integer.
pub open spec fn scaled(digits: Seq<char>, scale: int) -> int {
    if scale >= 0 {
        digits_value(digits) * pow10(scale as nat)
    } else {
        round_even(digits_value(digits), pow10((-scale) as nat))
    }
}

/// The digits of `2^1024 - 2^970`, the least number that a double rounds to
/// infinity.
pub open spec fn double_end() -> Seq<char> {
    "179769313486231580793728971405303415079934132710037826936173778980444968292764750946649017977587207096330286416692887910946555547851940402630657488671505820681908902000708383676273854845817711531764475730270069855571366959622842914819860834936475292719074168444365510704342711559699508093042880177904174497792"@
}

/// `digits` times ten to the power `exponent` is at least that number.
pub open spec fn reaches_end(digits: Seq<char>, exponent: int) -> bool {
    if exponent >= 0 {
        digits_value(digits) * pow10(exponent as nat) >= digits_value(double_end())
    } else {
        digits_value(digits) >= digits_value(double_end()) * pow10((-exponent) as nat)
    }
}

/// `digits` times ten to the power `exponent` overflows a double: the digits
/// before the point are too many, or as many as that number has and worth as
/// much.
pub open spec fn overflows(digits: Seq<char>, exponent: int) -> bool {
    let count = digits.len() + exponent;
    if count < 309 {
        false
    } else if count > 309 && digits[0] != '0' {
        true
    } else {
        reaches_end(digits, exponent)
    }
}

/// The number of a magnitude in billionths and a sign.
pub open spec fn number_of(size: int, negative: bool) -> Num {
    let held = clamp(size, 0, NUM_LIMIT as int);
    if negative {
        Num::Finite((-held) as i128)
    } else {
        Num::Finite(held as i128)
    }
}

/// The exponent that stands at `at`: `Some(0)` at the end of the text, the
/// value of `e`, an optional sign and one digit or more, otherwise none.
pub open spec fn exponent_at(s: Seq<char>, at: int) -> Option<int> {
    if at >= s.len() {
        Some(0)
    } else if !letter(s[at], 'E') {
        None
    } else {
        let signed = at + 1 < s.len() && (s[at + 1] == '+' || s[at + 1] == '-');
        let from = if signed {
            at + 2
        } else {
            at + 1
        };
        if from >= s.len() || digit_run(s, from) != s.len() {
            None
        } else {
            let size = digits_value(s.subrange(from, s.len() as int));
            Some(
                if s[at + 1] == '-' {
                    -size
                } else {
                    size
                },
            )
        }
    }
}

/// The number that an unsigned numeral stands for.
pub open spec fn unsigned_number(s: Seq<char>, negative: bool) -> Option<Num> {
    if is_nan_word(s) {
        Some(Num::NotANumber)
    } else if is_inf_word(s) {
        Some(Num::Infinite(negative))
    } else {
        let whole = digit_run(s, 0);
        let dot = whole < s.len() && s[whole] == '.';
        let end = if dot {
            digit_run(s, whole + 1)
        } else {
            whole
        };
        let places = if dot {
            end - whole - 1
        } else {
            0
        };
        let digits = if dot {
            s.subrange(0, whole) + s.subrange(whole + 1, end)
        } else {
            s.subrange(0, whole)
        };
        match exponent_at(s, end) {
            None => None,
            Some(exponent) => if digits.len() == 0 {
                None
            } else if overflows(digits, exponent - places) {
                Some(Num::Infinite(negative))
            } else {
                Some(number_of(scaled(digits, exponent - places + 9), negative))
            },
        }
    }
}

/// The number that a text stands for: an optional sign, then `nan`, `inf` or
/// `infinity` in any case, or digits with an optional point and exponent.
pub open spec fn number_in(s: Seq<char>) -> Option<Num> {
    if s.len() > 0 && (s[0] == '-' || s[0] == '+') {
        unsigned_number(s.skip(1), s[0] == '-')
    } else {
        unsigned_number(s, false)
    }
}

pub proof fn lemma_pow10_positive(n: nat)
    ensures
        pow10(n) >= 1,
    decreases n,
{
    if n > 0 {
        lemma_pow10_positive((n - 1) as nat);
    }
}

pub proof fn lemma_pow10_grows(a: nat, b: nat)
    requires
        a <= b,
    ensures
        pow10(a) <= pow10(b),
    decreases b,
{
    if a < b {
        lemma_pow10_grows(a, (b - 1) as nat);
        lemma_pow10_positive((b - 1) as nat);
    }
}

pub proof fn lemma_digits_bound(s: Seq<char>)
    requires
        all_digits(s),
    ensures
        0 <= digits_value(s) < pow10(s.len()),
    decreases s.len(),
{
    if s.len() > 0 {
        assert(all_digits(s.drop_last()));
        lemma_digits_bound(s.drop_last());
        assert(is_digit(s[s.len() - 1]));
    }
}

/// The value of digits splits at any place.
pub proof fn lemma_digits_split(s: Seq<char>, k: int)
    requires
        0 <= k <= s.len(),
    ensures
        digits_value(s) == digits_value(s.take(k)) * pow10((s.len() - k) as nat) + digits_value(
            s.skip(k),
        ),
    decreases s.len() - k,
{
    if k == s.len() {
        assert(s.take(k) =~= s);
        assert(s.skip(k) =~= Seq::empty());
    } else {
        let t = s.drop_last();
        lemma_digits_split(t, k);
        assert(t.take(k) =~= s.take(k));
        assert(t.skip(k) =~= s.skip(k).drop_last());
        let p = pow10((t.len() - k) as nat);
        let h = digits_value(s.take(k));
        assert(h * (10 * p) == (h * p) * 10) by (nonlinear_arith);
    }
}

/// The rest of the digits decides the rounding by its first digit, and by
/// whether a digit other than zero follows a five.
proof fn lemma_rest(rest: Seq<char>)
    requires
        rest.len() > 0,
        all_digits(rest),
    ensures
        ({
            let r = 2 * digits_value(rest);
            let d = pow10(rest.len());
            let first = digit_value(rest[0]);
            let zeros = forall|i: int| 1 <= i < rest.len() ==> rest[i] == '0';
            &&& first < 5 ==> r < d
            &&& first > 5 ==> r > d
            &&& first == 5 && zeros ==> r == d
            &&& first == 5 && !zeros ==> r > d
        }),
{
    lemma_digits_split(rest, 1);
    let head = rest.take(1);
    assert(head.drop_last() =~= Seq::empty());
    assert(digits_value(head.drop_last()) == 0);
    assert(digits_value(head) == digit_value(rest[0]));
    let tail = rest.skip(1);
    assert(all_digits(tail)) by {
        assert forall|i: int| 0 <= i < tail.len() implies is_digit(#[trigger] tail[i]) by {
            assert(is_digit(rest[i + 1]));
        }
    }
    lemma_digits_bound(tail);
    lemma_zero_digits(tail);
    let p = pow10(tail.len());
    let first = digit_value(rest[0]);
    assert(is_digit(rest[0]));
    assert(pow10(rest.len()) == 10 * p);
    assert(first < 5 ==> first * p <= 4 * p) by (nonlinear_arith)
        requires
            p >= 1,
    ;
    assert(first > 5 ==> first * p >= 6 * p) by (nonlinear_arith)
        requires
            p >= 1,
    ;
    assert(first == 5 ==> first * p == 5 * p);
    if forall|i: int| 1 <= i < rest.len() ==> rest[i] == '0' {
        assert forall|i: int| 0 <= i < tail.len() implies tail[i] == '0' by {
            assert(rest[i + 1] == '0');
        }
    } else {
        let i = choose|i: int| 1 <= i < rest.len() && rest[i] != '0';
        assert(tail[i - 1] != '0');
    }
}

/// Digits are worth zero exactly when all of them are zeros.
proof fn lemma_zero_digits(s: Seq<char>)
    requires
        all_digits(s),
    ensures
        digits_value(s) == 0 <==> forall|i: int| 0 <= i < s.len() ==> s[i] == '0',
    decreases s.len(),
{
    if s.len() > 0 {
        let t = s.drop_last();
        assert(all_digits(t));
        lemma_zero_digits(t);
        lemma_digits_bound(t);
        assert(is_digit(s[s.len() - 1]));
        if forall|i: int| 0 <= i < s.len() ==> s[i] == '0' {
            assert forall|i: int| 0 <= i < t.len() implies t[i] == '0' by {
                assert(s[i] == '0');
            }
        } else {
            let i = choose|i: int| 0 <= i < s.len() && s[i] != '0';
            if i < t.len() {
                assert(t[i] != '0');
            }
        }
    }
}

pub proof fn lemma_digit_run(s: Seq<char>, from: int)
    requires
        0 <= from <= s.len(),
    ensures
        from <= digit_run(s, from) <= s.len(),
        forall|i: int| from <= i < digit_run(s, from) ==> is_digit(#[trigger] s[i]),
    decreases s.len() - from,
{
    if from < s.len() && is_digit(s[from]) {
        lemma_digit_run(s, from + 1);
    }
}

fn digit_of(c: char) -> (r: u32)
    ensures
        is_digit(c) ==> r == digit_value(c) && r < 10,
        !is_digit(c) ==> r >= 10,
{
    let n: u32 = c as u32;
    if 48 <= n && n <= 57 {
        n - 48
    } else {
        10
    }
}

fn letter_is(c: char, upper: char) -> (r: bool)
    requires
        upper as int <= 127,
    ensures
        r == letter(c, upper),
{
    let n: u32 = c as u32;
    let u: u32 = upper as u32;
    n == u || n == u + 32
}

fn run_end(s: &Vec<char>, from: usize) -> (r: usize)
    requires
        from <= s@.len(),
    ensures
        r == digit_run(s@, from as int),
        from <= r <= s@.len(),
{
    let mut i: usize = from;
    while i < s.len() && digit_of(s[i]) < 10
        invariant
            from <= i <= s@.len(),
            digit_run(s@, from as int) == digit_run(s@, i as int),
        decreases s@.len() - i,
    {
        i = i + 1;
    }
    i
}

/// The value of digits, or none when it is beyond the limit.
fn value_capped(s: &Vec<char>, to: usize) -> (r: Option<i128>)
    requires
        to <= s@.len(),
        all_digits(s@),
    ensures
        r matches Some(v) ==> v == digits_value(s@.take(to as int)) && 0 <= v <= NUM_LIMIT,
        r is None ==> digits_value(s@.take(to as int)) > NUM_LIMIT,
{
    let mut v: i128 = 0;
    let mut i: usize = 0;
    while i < to
        invariant
            i <= to <= s@.len(),
            all_digits(s@),
            v == digits_value(s@.take(i as int)),
            0 <= v <= NUM_LIMIT,
        decreases to - i,
    {
        assert(is_digit(s@[i as int]));
        let d: u32 = digit_of(s[i]);
        proof {
            assert(s@.take(i as int + 1).drop_last() =~= s@.take(i as int));
        }
        let room: i128 = (NUM_LIMIT - d as i128) / 10;
        i = i + 1;
        if v > room {
            proof {
                let v = v * 10 + d;
                assert(v > NUM_LIMIT);
                let head = s@.take(to as int);
                lemma_digits_split(head, i as int);
                assert(head.take(i as int) =~= s@.take(i as int));
                let tail = head.skip(i as int);
                assert(all_digits(tail)) by {
                    assert forall|k: int| 0 <= k < tail.len() implies is_digit(
                        #[trigger] tail[k],
                    ) by {
                        assert(is_digit(s@[k + i]));
                    }
                }
                lemma_digits_bound(tail);
                let p = pow10((to - i) as nat);
                lemma_pow10_positive((to - i) as nat);
                assert(v * p >= v) by (nonlinear_arith)
                    requires
                        p >= 1,
                        v >= 0,
                ;
            }
            return None;
        }
        v = v * 10 + d as i128;
    }
    Some(v)
}

/// `digits` times ten to the power `scale`, rounded; none beyond the limit.
fn scale_digits(digits: &Vec<char>, scale: i128) -> (r: Option<i128>)
    requires
        all_digits(digits@),
    ensures
        r matches Some(v) ==> v == scaled(digits@, scale as int) && 0 <= v <= NUM_LIMIT,
        r is None ==> scaled(digits@, scale as int) > NUM_LIMIT,
{
    let len: usize = digits.len();
    proof {
        lemma_digits_bound(digits@);
        assert(digits@.take(len as int) =~= digits@);
    }
    if scale >= 0 {
        match value_capped(digits, len) {
            None => {
                proof {
                    let p = pow10(scale as nat);
                    lemma_pow10_positive(scale as nat);
                    let v = digits_value(digits@);
                    assert(v * p >= v) by (nonlinear_arith)
                        requires
                            p >= 1,
                            v >= 0,
                    ;
                }
                None
            },
            Some(start) => {
                if start == 0 {
                    return Some(0);
                }
                let mut v: i128 = start;
                let mut left: i128 = scale;
                assert(v * pow10(left as nat) == start * pow10(scale as nat));
                while left > 0
                    invariant
                        0 <= left <= scale,
                        1 <= v <= NUM_LIMIT,
                        v * pow10(left as nat) == digits_value(digits@) * pow10(scale as nat),
                    decreases left,
                {
                    proof {
                        let p = pow10((left - 1) as nat);
                        lemma_pow10_positive((left - 1) as nat);
                        assert(v * (10 * p) == (v * 10) * p) by (nonlinear_arith);
                        assert((v * 10) * p >= v * 10) by (nonlinear_arith)
                            requires
                                p >= 1,
                                v >= 1,
                        ;
                    }
                    if v > NUM_LIMIT / 10 {
                        return None;
                    }
                    v = v * 10;
                    left = left - 1;
                }
                Some(v)
            },
        }
    } else if scale < -(len as i128) {
        proof {
            let v = digits_value(digits@);
            let d = pow10((-scale) as nat);
            lemma_pow10_grows((len + 1) as nat, (-scale) as nat);
            assert(pow10((len + 1) as nat) == 10 * pow10(len as nat));
            vstd::arithmetic::div_mod::lemma_small_mod(v as nat, d as nat);
            vstd::arithmetic::div_mod::lemma_basic_div(v, d);
        }
        Some(0)
    } else {
        let keep: usize = (len as i128 + scale) as usize;
        let ghost rest = digits@.skip(keep as int);
        let ghost d = pow10((-scale) as nat);
        let ghost head = digits_value(digits@.take(keep as int));
        proof {
            lemma_digits_split(digits@, keep as int);
            assert(all_digits(rest)) by {
                assert forall|k: int| 0 <= k < rest.len() implies is_digit(#[trigger] rest[k]) by {
                    assert(is_digit(digits@[k + keep]));
                }
            }
            lemma_digits_bound(rest);
            lemma_rest(rest);
            assert(digits@.take(keep as int).len() == keep);
            vstd::arithmetic::div_mod::lemma_fundamental_div_mod_converse(
                digits_value(digits@),
                d,
                head,
                digits_value(rest),
            );
        }
        match value_capped(digits, keep) {
            None => None,
            Some(v) => {
                let first: u32 = digit_of(digits[keep]);
                assert(is_digit(rest[0]));
                let mut more = false;
                let mut i: usize = keep + 1;
                while i < len
                    invariant
                        keep < i <= len,
                        len == digits@.len(),
                        more == !(forall|k: int| keep < k < i ==> digits@[k] == '0'),
                    decreases len - i,
                {
                    if digits[i] != '0' {
                        more = true;
                    }
                    i = i + 1;
                }
                proof {
                    if more {
                        let k = choose|k: int| keep < k < len && digits@[k] != '0';
                        assert(rest[k - keep] != '0');
                    } else {
                        assert forall|k: int| 1 <= k < rest.len() implies rest[k] == '0' by {
                            assert(digits@[k + keep] == '0');
                        }
                    }
                }
                let up = first > 5 || (first == 5 && (more || v % 2 != 0));
                if !up {
                    Some(v)
                } else if v == NUM_LIMIT {
                    None
                } else {
                    Some(v + 1)
                }
            },
        }
    }
}

/// An exponent is read up to this size: no text holds enough digits to make
/// up for a larger one.
const EXPONENT_LIMIT: i128 = 0x1_0000_0000_0000_0000_0000;

/// The 39th power of ten lies beyond the limit.
proof fn lemma_pow10_beyond()
    ensures
        pow10(39) > NUM_LIMIT,
{
    assert(pow10(13) == 10_000_000_000_000) by {
        reveal_with_fuel(pow10, 14);
    }
    lemma_pow10_adds(13, 13);
    lemma_pow10_adds(26, 13);
    assert(pow10(26) == 10_000_000_000_000 * 10_000_000_000_000);
    assert(pow10(39) == 100_000_000_000_000_000_000_000_000 * 10_000_000_000_000);
}

proof fn lemma_large_scale(digits: Seq<char>, scale: int)
    requires
        all_digits(digits),
        scale >= 39,
    ensures
        digits_value(digits) == 0 ==> scaled(digits, scale) == 0,
        digits_value(digits) != 0 ==> scaled(digits, scale) > NUM_LIMIT,
{
    lemma_digits_bound(digits);
    let v = digits_value(digits);
    let p = pow10(scale as nat);
    lemma_pow10_grows(39, scale as nat);
    lemma_pow10_beyond();
    assert(v == 0 ==> v * p == 0) by (nonlinear_arith);
    assert(v >= 1 ==> v * p >= p) by (nonlinear_arith)
        requires
            p >= 1,
    ;
}

proof fn lemma_small_scale(digits: Seq<char>, scale: int)
    requires
        all_digits(digits),
        scale < -(digits.len() as int),
    ensures
        scaled(digits, scale) == 0,
{
    lemma_digits_bound(digits);
    let v = digits_value(digits);
    let d = pow10((-scale) as nat);
    lemma_pow10_grows((digits.len() + 1) as nat, (-scale) as nat);
    assert(pow10((digits.len() + 1) as nat) == 10 * pow10(digits.len()));
    vstd::arithmetic::div_mod::lemma_small_mod(v as nat, d as nat);
    vstd::arithmetic::div_mod::lemma_basic_div(v, d);
}

/// Powers of ten multiply by adding their exponents.
pub proof fn lemma_pow10_adds(a: nat, b: nat)
    ensures
        pow10(a + b) == pow10(a) * pow10(b),
    decreases a,
{
    if a > 0 {
        lemma_pow10_adds((a - 1) as nat, b);
        let p = pow10((a - 1) as nat);
        let q = pow10(b);
        assert((10 * p) * q == 10 * (p * q)) by (nonlinear_arith);
    } else {
        assert(1 * pow10(b) == pow10(b));
    }
}

/// The first of two runs of digits of one length is worth more when it is
/// larger at the first place at which they differ.
proof fn lemma_first_difference(a: Seq<char>, b: Seq<char>, k: int)
    requires
        a.len() == b.len(),
        0 <= k < a.len(),
        all_digits(a),
        all_digits(b),
        a.take(k) == b.take(k),
        digit_value(a[k]) > digit_value(b[k]),
    ensures
        digits_value(a) > digits_value(b),
{
    lemma_digits_split(a, k + 1);
    lemma_digits_split(b, k + 1);
    assert(a.take(k + 1).drop_last() =~= a.take(k));
    assert(b.take(k + 1).drop_last() =~= b.take(k));
    let x = a.skip(k + 1);
    let y = b.skip(k + 1);
    assert(all_digits(x) && all_digits(y)) by {
        assert forall|i: int| 0 <= i < x.len() implies is_digit(#[trigger] x[i]) && is_digit(
            #[trigger] y[i],
        ) by {
            assert(is_digit(a[i + k + 1]) && is_digit(b[i + k + 1]));
        }
    }
    lemma_digits_bound(x);
    lemma_digits_bound(y);
    let p = pow10((a.len() - k - 1) as nat);
    let h = digits_value(a.take(k + 1));
    let g = digits_value(b.take(k + 1));
    assert(h * p >= g * p + p) by (nonlinear_arith)
        requires
            h >= g + 1,
            p >= 1,
    ;
}

/// The bound has 309 digits and does not begin with a zero.
proof fn lemma_double_end()
    ensures
        double_end().len() == 309,
        all_digits(double_end()),
        double_end()[0] != '0',
{
    reveal_strlit("179769313486231580793728971405303415079934132710037826936173778980444968292764750946649017977587207096330286416692887910946555547851940402630657488671505820681908902000708383676273854845817711531764475730270069855571366959622842914819860834936475292719074168444365510704342711559699508093042880177904174497792");
}

/// A run of digits that are not all zeros has a first other digit.
proof fn lemma_first_nonzero(s: Seq<char>, from: int) -> (z: int)
    requires
        0 <= from <= s.len(),
        forall|i: int| 0 <= i < from ==> s[i] == '0',
        exists|i: int| 0 <= i < s.len() && s[i] != '0',
    ensures
        0 <= z < s.len(),
        s[z] != '0',
        forall|i: int| 0 <= i < z ==> s[i] == '0',
    decreases s.len() - from,
{
    if s[from] != '0' {
        from
    } else {
        lemma_first_nonzero(s, from + 1)
    }
}

/// The digits from `z` on, made `n` long with zeros or cut at that length.
spec fn leading(digits: Seq<char>, z: int, n: nat) -> Seq<char> {
    Seq::new(
        n,
        |i: int|
            if z + i < digits.len() {
                digits[z + i]
            } else {
                '0'
            },
    )
}

/// How many digits stand before the point decides whether a number overflows,
/// but for one count, where the leading digits decide.
proof fn lemma_overflow(digits: Seq<char>, z: int, exponent: int)
    requires
        all_digits(digits),
        0 <= z < digits.len(),
        forall|i: int| 0 <= i < z ==> digits[i] == '0',
        digits[z] != '0',
    ensures
        ({
            let count = digits.len() - z + exponent;
            &&& count > 309 ==> reaches_end(digits, exponent)
            &&& count < 309 ==> !reaches_end(digits, exponent)
            &&& count == 309 ==> all_digits(leading(digits, z, 309)) && reaches_end(digits, exponent)
                == (digits_value(leading(digits, z, 309)) >= digits_value(double_end()))
        }),
{
    let rest = digits.skip(z);
    let head = digits.take(z);
    let end = double_end();
    lemma_double_end();
    assert(all_digits(rest)) by {
        assert forall|i: int| 0 <= i < rest.len() implies is_digit(#[trigger] rest[i]) by {
            assert(is_digit(digits[i + z]));
        }
    }
    assert(digits_value(digits) == digits_value(rest)) by {
        lemma_digits_split(digits, z);
        assert(all_digits(head)) by {
            assert forall|i: int| 0 <= i < head.len() implies is_digit(#[trigger] head[i]) by {
                assert(is_digit(digits[i]));
            }
        }
        lemma_zero_digits(head);
        assert(0 * pow10((digits.len() - z) as nat) == 0);
    }
    let v = digits_value(rest);
    let bound = digits_value(end);
    lemma_digits_bound(rest);
    lemma_digits_bound(end);
    assert(rest[0] == digits[z]);
    lemma_size(rest);
    lemma_size(end);
    let count = rest.len() + exponent;
    let e = magnitude(exponent) as nat;
    let p = pow10(e);
    lemma_pow10_positive(e);
    let low = pow10((rest.len() - 1) as nat);
    let high = pow10(rest.len());
    if exponent >= 0 {
        assert(v * p >= low * p && v * p < high * p) by (nonlinear_arith)
            requires
                low <= v < high,
                p >= 1,
        ;
        lemma_pow10_adds((rest.len() - 1) as nat, e);
        lemma_pow10_adds(rest.len(), e);
        if count > 309 {
            lemma_pow10_grows(309, (count - 1) as nat);
        } else if count < 309 {
            lemma_pow10_grows(count as nat, 308);
        } else {
            let all = leading(digits, z, 309);
            let zeros = all.skip(rest.len() as int);
            assert(all_digits(all)) by {
                assert forall|i: int| 0 <= i < all.len() implies is_digit(#[trigger] all[i]) by {
                    if z + i < digits.len() {
                        assert(is_digit(digits[z + i]));
                    }
                }
            }
            lemma_digits_split(all, rest.len() as int);
            assert(all.take(rest.len() as int) =~= rest);
            assert(all_digits(zeros)) by {
                assert forall|i: int| 0 <= i < zeros.len() implies is_digit(#[trigger] zeros[i]) by {
                    assert(is_digit(all[i + rest.len()]));
                }
            }
            assert forall|i: int| 0 <= i < zeros.len() implies zeros[i] == '0' by {
                assert(zeros[i] == all[i + rest.len()]);
            }
            lemma_zero_digits(zeros);
        }
    } else {
        let q = pow10(309);
        let s = pow10(308);
        assert(bound * p < q * p && bound * p >= s * p) by (nonlinear_arith)
            requires
                s <= bound < q,
                p >= 1,
        ;
        lemma_pow10_adds(309, e);
        lemma_pow10_adds(308, e);
        if count > 309 {
            lemma_pow10_grows(309 + e, (rest.len() - 1) as nat);
        } else if count < 309 {
            lemma_pow10_grows(rest.len(), 308 + e);
        } else {
            let all = leading(digits, z, 309);
            let tail = rest.skip(309);
            assert(all =~= rest.take(309));
            assert(all_digits(all)) by {
                assert forall|i: int| 0 <= i < all.len() implies is_digit(#[trigger] all[i]) by {
                    assert(is_digit(rest[i]));
                }
            }
            lemma_digits_split(rest, 309);
            assert(all_digits(tail)) by {
                assert forall|i: int| 0 <= i < tail.len() implies is_digit(#[trigger] tail[i]) by {
                    assert(is_digit(rest[i + 309]));
                }
            }
            lemma_digits_bound(tail);
            let h = digits_value(all);
            assert(h >= bound ==> h * p >= bound * p) by (nonlinear_arith)
                requires
                    p >= 1,
            ;
            assert(h < bound ==> h * p + p <= bound * p) by (nonlinear_arith)
                requires
                    p >= 1,
            ;
        }
    }
}

/// Digits that do not begin with a zero are worth at least the power of ten
/// of their length less one.
proof fn lemma_size(s: Seq<char>)
    requires
        s.len() > 0,
        all_digits(s),
        s[0] != '0',
    ensures
        digits_value(s) >= pow10((s.len() - 1) as nat),
{
    lemma_digits_split(s, 1);
    let tail = s.skip(1);
    let head = s.take(1);
    assert(all_digits(tail)) by {
        assert forall|i: int| 0 <= i < tail.len() implies is_digit(#[trigger] tail[i]) by {
            assert(is_digit(s[i + 1]));
        }
    }
    lemma_digits_bound(tail);
    assert(head.drop_last() =~= Seq::empty());
    assert(digits_value(head.drop_last()) == 0);
    assert(is_digit(s[0]));
    let d = digits_value(head);
    let p = pow10((s.len() - 1) as nat);
    lemma_pow10_positive((s.len() - 1) as nat);
    assert(d * p >= p) by (nonlinear_arith)
        requires
            d >= 1,
            p >= 1,
    ;
}

/// Zero overflows at no exponent.
proof fn lemma_zero_fits(digits: Seq<char>, exponent: int)
    requires
        digits_value(digits) == 0,
    ensures
        !reaches_end(digits, exponent),
{
    lemma_double_end();
    lemma_size(double_end());
    lemma_pow10_positive(308);
    let bound = digits_value(double_end());
    if exponent >= 0 {
        assert(0 * pow10(exponent as nat) == 0);
    } else {
        let p = pow10((-exponent) as nat);
        lemma_pow10_positive((-exponent) as nat);
        assert(bound * p >= 1) by (nonlinear_arith)
            requires
                bound >= 1,
                p >= 1,
        ;
    }
}

/// Exactly the numbers overflow that are not below the end of the doubles.
pub proof fn law_overflow_is_by_value(digits: Seq<char>, exponent: int)
    requires
        digits.len() > 0,
        all_digits(digits),
    ensures
        overflows(digits, exponent) == reaches_end(digits, exponent),
{
    lemma_digits_bound(digits);
    if digits_value(digits) == 0 {
        lemma_zero_digits(digits);
        assert(digits[0] == '0');
        lemma_zero_fits(digits, exponent);
    } else {
        lemma_zero_digits(digits);
        let z = lemma_first_nonzero(digits, 0);
        lemma_overflow(digits, z, exponent);
    }
}

/// The digits of the least number that overflows a double.
fn end_digits() -> (r: Vec<char>)
    ensures
        r@ == double_end(),
        r@.len() == 309,
        all_digits(r@),
{
    proof {
        lemma_double_end();
    }
    chars_of("179769313486231580793728971405303415079934132710037826936173778980444968292764750946649017977587207096330286416692887910946555547851940402630657488671505820681908902000708383676273854845817711531764475730270069855571366959622842914819860834936475292719074168444365510704342711559699508093042880177904174497792")
}

/// True where `digits` times ten to the power `exponent` overflows a double.
fn beyond_double(digits: &Vec<char>, exponent: i128) -> (r: bool)
    requires
        digits@.len() > 0,
        all_digits(digits@),
        -2 * EXPONENT_LIMIT <= exponent <= 2 * EXPONENT_LIMIT,
    ensures
        r == overflows(digits@, exponent as int),
{
    proof {
        law_overflow_is_by_value(digits@, exponent as int);
    }
    let end = end_digits();
    let len: usize = digits.len();
    let mut z: usize = 0;
    while z < len && digits[z] == '0'
        invariant
            z <= len == digits@.len(),
            forall|i: int| 0 <= i < z ==> digits@[i] == '0',
        decreases len - z,
    {
        z = z + 1;
    }
    if z == len {
        proof {
            lemma_zero_digits(digits@);
            lemma_zero_fits(digits@, exponent as int);
        }
        return false;
    }
    proof {
        lemma_overflow(digits@, z as int, exponent as int);
    }
    let count: i128 = (len - z) as i128 + exponent;
    if count != 309 {
        return count > 309;
    }
    let ghost lead = leading(digits@, z as int, 309);
    let mut i: usize = 0;
    while i < 309
        invariant
            i <= 309,
            z < len == digits@.len(),
            end@.len() == 309,
            end@ == double_end(),
            all_digits(end@),
            lead == leading(digits@, z as int, 309),
            all_digits(lead),
            lead.take(i as int) == end@.take(i as int),
            overflows(digits@, exponent as int) == (digits_value(lead) >= digits_value(end@)),
        decreases 309 - i,
    {
        let d: char = if i < len - z {
            digits[z + i]
        } else {
            '0'
        };
        assert(lead[i as int] == d);
        assert(is_digit(lead[i as int]) && is_digit(end@[i as int]));
        let a: u32 = digit_of(d);
        let b: u32 = digit_of(end[i]);
        if a > b {
            proof {
                lemma_first_difference(lead, end@, i as int);
            }
            return true;
        }
        if a < b {
            proof {
                lemma_first_difference(end@, lead, i as int);
            }
            return false;
        }
        assert(lead.take(i as int + 1) =~= lead.take(i as int).push(lead[i as int]));
        assert(end@.take(i as int + 1) =~= end@.take(i as int).push(end@[i as int]));
        i = i + 1;
    }
    assert(lead.take(309) =~= lead);
    assert(end@.take(309) =~= end@);
    true
}

/// Reads digits up to the exponent limit.
fn read_exponent_digits(s: &Vec<char>, from: usize) -> (r: i128)
    requires
        from <= s@.len(),
        forall|i: int| from <= i < s@.len() ==> is_digit(#[trigger] s@[i]),
    ensures
        ({
            let v = digits_value(s@.subrange(from as int, s@.len() as int));
            r == (if v > EXPONENT_LIMIT {
                EXPONENT_LIMIT as int
            } else {
                v
            })
        }),
        0 <= r <= EXPONENT_LIMIT,
{
    let mut v: i128 = 0;
    let mut i: usize = from;
    assert(s@.subrange(from as int, from as int) =~= Seq::empty());
    while i < s.len()
        invariant
            from <= i <= s@.len(),
            forall|k: int| from <= k < s@.len() ==> is_digit(#[trigger] s@[k]),
            0 <= v <= EXPONENT_LIMIT,
            ({
                let w = digits_value(s@.subrange(from as int, i as int));
                v == (if w > EXPONENT_LIMIT {
                    EXPONENT_LIMIT as int
                } else {
                    w
                })
            }),
        decreases s@.len() - i,
    {
        assert(is_digit(s@[i as int]));
        let d: u32 = digit_of(s[i]);
        proof {
            let t = s@.subrange(from as int, i as int + 1);
            assert(t.drop_last() =~= s@.subrange(from as int, i as int));
        }
        v = v * 10 + d as i128;
        if v > EXPONENT_LIMIT {
            v = EXPONENT_LIMIT;
        }
        i = i + 1;
    }
    v
}

/// Two exponents that no count of digits makes up for give the same answer.
proof fn lemma_same_overflow(digits: Seq<char>, a: int, b: int)
    requires
        digits.len() > 0,
        all_digits(digits),
        (a > 309 && b > 309) || (a < -(digits.len() as int) && b < -(digits.len() as int)),
    ensures
        overflows(digits, a) == overflows(digits, b),
{
    law_overflow_is_by_value(digits, a);
    law_overflow_is_by_value(digits, b);
    lemma_digits_bound(digits);
    lemma_double_end();
    if digits_value(digits) == 0 {
        lemma_zero_fits(digits, a);
        lemma_zero_fits(digits, b);
    } else {
        lemma_zero_digits(digits);
        let z = lemma_first_nonzero(digits, 0);
        lemma_overflow(digits, z, a);
        lemma_overflow(digits, z, b);
    }
}

/// Reads the exponent at `at`, moved into the exponent limit.
fn read_exponent(s: &Vec<char>, at: usize) -> (r: Option<i128>)
    requires
        at <= s@.len(),
    ensures
        match exponent_at(s@, at as int) {
            None => r is None,
            Some(e) => r == Some(
                clamp(e, -EXPONENT_LIMIT as int, EXPONENT_LIMIT as int) as i128,
            ),
        },
{
    if at >= s.len() {
        return Some(0);
    }
    if !letter_is(s[at], 'E') {
        return None;
    }
    let signed = at + 1 < s.len() && (s[at + 1] == '+' || s[at + 1] == '-');
    let from: usize = if signed {
        at + 2
    } else {
        at + 1
    };
    if from >= s.len() {
        return None;
    }
    if run_end(s, from) != s.len() {
        return None;
    }
    proof {
        lemma_digit_run(s@, from as int);
        let t = s@.subrange(from as int, s@.len() as int);
        assert(all_digits(t)) by {
            assert forall|k: int| 0 <= k < t.len() implies is_digit(#[trigger] t[k]) by {
                assert(is_digit(s@[k + from]));
            }
        }
        lemma_digits_bound(t);
    }
    let size: i128 = read_exponent_digits(s, from);
    if s[at + 1] == '-' {
        Some(-size)
    } else {
        Some(size)
    }
}

fn word_nan(s: &Vec<char>) -> (r: bool)
    ensures
        r == is_nan_word(s@),
{
    s.len() == 3 && letter_is(s[0], 'N') && letter_is(s[1], 'A') && letter_is(s[2], 'N')
}

fn word_inf(s: &Vec<char>) -> (r: bool)
    ensures
        r == is_inf_word(s@),
{
    if s.len() != 3 && s.len() != 8 {
        return false;
    }
    if !(letter_is(s[0], 'I') && letter_is(s[1], 'N') && letter_is(s[2], 'F')) {
        return false;
    }
    s.len() == 3 || (letter_is(s[3], 'I') && letter_is(s[4], 'N') && letter_is(s[5], 'I')
        && letter_is(s[6], 'T') && letter_is(s[7], 'Y'))
}

fn copy_range(s: &Vec<char>, from: usize, to: usize, out: &mut Vec<char>)
    requires
        from <= to <= s@.len(),
    ensures
        final(out)@ == old(out)@ + s@.subrange(from as int, to as int),
{
    let mut i: usize = from;
    let ghost start = out@;
    assert(s@.subrange(from as int, from as int) =~= Seq::empty());
    assert(start + Seq::<char>::empty() =~= start);
    while i < to
        invariant
            from <= i <= to <= s@.len(),
            out@ == start + s@.subrange(from as int, i as int),
        decreases to - i,
    {
        out.push(s[i]);
        assert(s@.subrange(from as int, i as int + 1) =~= s@.subrange(from as int, i as int).push(
            s@[i as int],
        ));
        i = i + 1;
    }
}

fn parse_unsigned(s: &Vec<char>, negative: bool) -> (r: Option<Num>)
    ensures
        r == unsigned_number(s@, negative),
{
    if word_nan(s) {
        return Some(Num::NotANumber);
    }
    if word_inf(s) {
        return Some(Num::Infinite(negative));
    }
    let whole: usize = run_end(s, 0);
    let dot = whole < s.len() && s[whole] == '.';
    let end: usize = if dot {
        run_end(s, whole + 1)
    } else {
        whole
    };
    let places: usize = if dot {
        end - whole - 1
    } else {
        0
    };
    let mut digits: Vec<char> = Vec::new();
    copy_range(s, 0, whole, &mut digits);
    assert(Seq::<char>::empty() + s@.subrange(0, whole as int) =~= s@.subrange(0, whole as int));
    if dot {
        copy_range(s, whole + 1, end, &mut digits);
    }
    proof {
        lemma_digit_run(s@, 0);
        if dot {
            lemma_digit_run(s@, whole as int + 1);
        }
        assert(all_digits(digits@)) by {
            assert forall|k: int| 0 <= k < digits@.len() implies is_digit(
                #[trigger] digits@[k],
            ) by {
                if k < whole {
                    assert(is_digit(s@[k]));
                } else {
                    assert(is_digit(s@[k + 1]));
                }
            }
        }
    }
    match read_exponent(s, end) {
        None => None,
        Some(exponent) => {
            if digits.len() == 0 {
                return None;
            }
            let scale: i128 = exponent - places as i128 + 9;
            let ghost exact = exponent_at(s@, end as int)->Some_0 - places + 9;
            proof {
                if exact != scale {
                    lemma_same_overflow(digits@, exact - 9, scale - 9);
                    if exact > scale {
                        lemma_large_scale(digits@, exact);
                        lemma_large_scale(digits@, scale as int);
                    } else {
                        lemma_small_scale(digits@, exact);
                        lemma_small_scale(digits@, scale as int);
                    }
                }
            }
            if beyond_double(&digits, scale - 9) {
                return Some(Num::Infinite(negative));
            }
            let size: i128 = match scale_digits(&digits, scale) {
                None => NUM_LIMIT,
                Some(size) => size,
            };
            Some(
                Num::Finite(
                    if negative {
                        -size
                    } else {
                        size
                    },
                ),
            )
        },
    }
}

/// Reads a number from text.
pub fn parse_number(text: &str) -> (r: Option<Num>)
    ensures
        r == number_in(text@),
{
    let s = chars_of(text);
    if s.len() > 0 && (s[0] == '-' || s[0] == '+') {
        let mut rest: Vec<char> = Vec::new();
        copy_range(&s, 1, s.len(), &mut rest);
        assert(rest@ =~= text@.skip(1));
        parse_unsigned(&rest, s[0] == '-')
    } else {
        parse_unsigned(&s, false)
    }
}

/// A number moved into the range of `i64`; text that is not a number counts
/// as zero.
pub open spec fn saturated(n: Num) -> int {
    match n {
        Num::Finite(v) => clamp64(v as int),
        Num::Infinite(true) => i64::MIN as int,
        Num::Infinite(false) => i64::MAX as int,
        Num::NotANumber => 0,
    }
}

/// Moves a number into the range of `i64`.
pub fn saturate(n: Num) -> (r: i64)
    ensures
        r == saturated(n),
{
    match n {
        Num::Finite(v) => to_i64(v),
        Num::Infinite(negative) => if negative {
            i64::MIN
        } else {
            i64::MAX
        },
        Num::NotANumber => 0,
    }
}

/// The count of whole units nearest to a number, halves to the even one.
pub open spec fn whole_even(n: Num) -> int {
    match n {
        Num::Finite(v) => clamp64(round_even(v as int, NANO as int)),
        Num::Infinite(true) => i64::MIN as int,
        Num::Infinite(false) => i64::MAX as int,
        Num::NotANumber => 0,
    }
}

/// Rounds a number to whole units, halves to the even one.
pub fn round_whole(n: Num) -> (r: i64)
    ensures
        r == whole_even(n),
{
    match n {
        Num::Finite(v) => to_i64(div_even(v, NANO as i128)),
        Num::Infinite(negative) => if negative {
            i64::MIN
        } else {
            i64::MAX
        },
        Num::NotANumber => 0,
    }
}

/// The whole units of a number, the fraction dropped.
pub open spec fn whole_part(n: Num) -> int {
    match n {
        Num::Finite(v) => clamp64(
            if v < 0 {
                -((-v) / (NANO as int))
            } else {
                v as int / NANO as int
            },
        ),
        Num::Infinite(true) => i64::MIN as int,
        Num::Infinite(false) => i64::MAX as int,
        Num::NotANumber => 0,
    }
}

/// Drops the fraction of a number.
pub fn truncate_whole(n: Num) -> (r: i64)
    ensures
        r == whole_part(n),
{
    match n {
        Num::Finite(v) => {
            if v < 0 {
                if v == i128::MIN {
                    return i64::MIN;
                }
                to_i64(-((-v) / (NANO as i128)))
            } else {
                to_i64(v / (NANO as i128))
            }
        },
        Num::Infinite(negative) => if negative {
            i64::MIN
        } else {
            i64::MAX
        },
        Num::NotANumber => 0,
    }
}

// --- writing numbers ---------------------------------------------------------

/// Digits without the zeros at their end.
pub open spec fn trimmed(s: Seq<char>) -> Seq<char>
    decreases s.len(),
{
    if s.len() > 0 && s.last() == '0' {
        trimmed(s.drop_last())
    } else {
        s
    }
}

/// A magnitude in billionths as a numeral with no more places than it needs.
pub open spec fn plain_numeral(size: nat) -> Seq<char> {
    let whole = crate::text::decimal(size / 1_000_000_000);
    let rest = trimmed(crate::text::padded(size % 1_000_000_000, 9));
    if rest.len() == 0 {
        whole
    } else {
        whole + seq!['.'] + rest
    }
}

/// How a number is written: the shortest plain numeral, `inf`, `-inf` or
/// `NaN`.
pub open spec fn number_text(n: Num) -> Seq<char> {
    match n {
        Num::Finite(v) => if v < 0 {
            seq!['-'] + plain_numeral((-v) as nat)
        } else {
            plain_numeral(v as nat)
        },
        Num::Infinite(true) => seq!['-', 'i', 'n', 'f'],
        Num::Infinite(false) => seq!['i', 'n', 'f'],
        Num::NotANumber => seq!['N', 'a', 'N'],
    }
}

fn write_plain(size: u128) -> (r: String)
    ensures
        r@ == plain_numeral(size as nat),
{
    let whole = numeral(size / 1_000_000_000);
    let rest = padded_numeral(size % 1_000_000_000, 9);
    let chars = chars_of(rest.as_str());
    let mut end: usize = chars.len();
    assert(chars@.take(end as int) =~= chars@);
    while end > 0 && chars[end - 1] == '0'
        invariant
            end <= chars@.len(),
            trimmed(chars@) == trimmed(chars@.take(end as int)),
        decreases end,
    {
        assert(chars@.take(end as int).drop_last() =~= chars@.take(end as int - 1));
        end = end - 1;
    }
    assert(trimmed(chars@.take(end as int)) == chars@.take(end as int));
    if end == 0 {
        return whole;
    }
    let mut out = whole;
    out.push('.');
    let tail = crate::text::text_of(&chars, 0, end);
    out.append(tail.as_str());
    assert(chars@.subrange(0, end as int) =~= chars@.take(end as int));
    assert(out@ =~= plain_numeral(size as nat));
    out
}

/// Writes a number.
pub fn write_number(n: Num) -> (r: String)
    ensures
        r@ == number_text(n),
{
    match n {
        Num::Finite(v) => {
            if v < 0 {
                let size: u128 = if v == i128::MIN {
                    0x8000_0000_0000_0000_0000_0000_0000_0000
                } else {
                    (-v) as u128
                };
                let mut out = String::new();
                out.push('-');
                let rest = write_plain(size);
                out.append(rest.as_str());
                assert(out@ =~= number_text(n));
                out
            } else {
                write_plain(v as u128)
            }
        },
        Num::Infinite(negative) => {
            if negative {
                proof {
                    reveal_strlit("-inf");
                }
                let out = "-inf".to_string();
                assert(out@ =~= seq!['-', 'i', 'n', 'f']);
                out
            } else {
                proof {
                    reveal_strlit("inf");
                }
                let out = "inf".to_string();
                assert(out@ =~= seq!['i', 'n', 'f']);
                out
            }
        },
        Num::NotANumber => {
            proof {
                reveal_strlit("NaN");
            }
            let out = "NaN".to_string();
            assert(out@ =~= seq!['N', 'a', 'N']);
            out
        },
    }
}

} // verus!
