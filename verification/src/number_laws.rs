//! What numerals stand for, and that a number that was written reads back.

use vstd::prelude::*;

use crate::api::price_text;
use crate::num::{
    digit_run, digits_value, lemma_digits_split, lemma_pow10_adds, lemma_pow10_positive, letter, magnitude,
    number_in, number_text, plain_numeral, pow10, round_even, trimmed, Num,
};
use crate::text::{decimal, digit_char, padded, signed_decimal};

verus! {

/// Ten times itself `n` times.
pub open spec fn tens(n: int) -> int
    decreases n,
{
    if n <= 0 {
        1
    } else {
        tens(n - 1) * 10
    }
}

/// A text of decimal digits.
pub open spec fn is_numeral(s: Seq<char>) -> bool {
    forall|i: int| 0 <= i < s.len() ==> 48 <= (#[trigger] s[i]) as int <= 57
}

/// What digits are worth: the first one in its place, and the rest.
pub open spec fn worth(s: Seq<char>) -> int
    decreases s.len(),
{
    if s.len() == 0 {
        0
    } else {
        (s[0] as int - 48) * tens(s.len() - 1) + worth(s.drop_first())
    }
}

proof fn lemma_tens(n: nat)
    ensures
        tens(n as int) == pow10(n),
        tens(n as int) >= 1,
    decreases n,
{
    if n > 0 {
        lemma_tens((n - 1) as nat);
    }
}

proof fn lemma_worth(s: Seq<char>)
    ensures
        worth(s) == digits_value(s),
    decreases s.len(),
{
    if s.len() > 0 {
        lemma_worth(s.drop_first());
        lemma_digits_split(s, 1);
        lemma_tens((s.len() - 1) as nat);
        let head = s.take(1);
        assert(head.drop_last() =~= Seq::empty());
        assert(digits_value(head.drop_last()) == 0);
        assert(digits_value(head) == s[0] as int - 48);
        assert(s.skip(1) =~= s.drop_first());
    }
}

proof fn lemma_joined(a: Seq<char>, b: Seq<char>)
    ensures
        digits_value(a + b) == digits_value(a) * pow10(b.len()) + digits_value(b),
{
    lemma_digits_split(a + b, a.len() as int);
    assert((a + b).take(a.len() as int) =~= a);
    assert((a + b).skip(a.len() as int) =~= b);
}

proof fn lemma_run(s: Seq<char>, from: int, at: int)
    requires
        0 <= from <= at <= s.len(),
        forall|i: int| from <= i < at ==> 48 <= (#[trigger] s[i]) as int <= 57,
        at < s.len() ==> !(48 <= s[at] as int <= 57),
    ensures
        digit_run(s, from) == at,
    decreases at - from,
{
    if from < at {
        lemma_run(s, from + 1, at);
    }
}

/// The numeral of an unsigned number with a point.
spec fn pointed(whole: Seq<char>, places: Seq<char>) -> Seq<char> {
    whole + seq!['.'] + places
}

proof fn lemma_pointed(whole: Seq<char>, places: Seq<char>, negative: bool)
    requires
        is_numeral(whole),
        is_numeral(places),
        whole.len() + places.len() > 0,
        whole.len() <= 300,
        places.len() <= 9,
        0 <= worth(whole) * 1_000_000_000 + worth(places) * tens(9 - places.len())
            <= crate::num::NUM_LIMIT,
    ensures
        ({
            let v = worth(whole) * 1_000_000_000 + worth(places) * tens(9 - places.len());
            crate::num::unsigned_number(pointed(whole, places), negative) == Some(
                Num::Finite(
                    if negative {
                        (-v) as i128
                    } else {
                        v as i128
                    },
                ),
            )
        }),
{
    let s = pointed(whole, places);
    let w = whole.len() as int;
    let p = places.len() as int;
    assert forall|i: int| 0 <= i < w implies 48 <= (#[trigger] s[i]) as int <= 57 by {
        assert(s[i] == whole[i]);
    }
    assert(s[w] == '.');
    assert forall|i: int| w < i < s.len() implies 48 <= (#[trigger] s[i]) as int <= 57 by {
        assert(s[i] == places[i - w - 1]);
    }
    lemma_run(s, 0, w);
    lemma_run(s, w + 1, s.len() as int);
    assert(!letter(s[0], 'N') && !letter(s[0], 'I'));
    assert(s.subrange(0, w) =~= whole);
    assert(s.subrange(w + 1, s.len() as int) =~= places);
    lemma_worth(whole);
    lemma_worth(places);
    lemma_joined(whole, places);
    lemma_tens(places.len());
    lemma_tens((9 - p) as nat);
    lemma_pow10_adds(places.len(), (9 - p) as nat);
    reveal_with_fuel(pow10, 10);
    assert(pow10(9) == 1_000_000_000);
    let a = digits_value(whole);
    let b = digits_value(places);
    let x = pow10(places.len());
    let y = pow10((9 - p) as nat);
    assert(x * y == 1_000_000_000);
    assert((a * x + b) * y == a * (x * y) + b * y) by (nonlinear_arith);
}

/// A numeral with a point stands for its whole part and its places, each worth
/// a tenth of the one before; a sign in front gives the sign.
pub proof fn law_decimal_numbers(whole: Seq<char>, places: Seq<char>)
    requires
        is_numeral(whole),
        is_numeral(places),
        whole.len() + places.len() > 0,
        whole.len() <= 300,
        places.len() <= 9,
        0 <= worth(whole) * 1_000_000_000 + worth(places) * tens(9 - places.len())
            <= crate::num::NUM_LIMIT,
    ensures
        ({
            let v = worth(whole) * 1_000_000_000 + worth(places) * tens(9 - places.len());
            let s = whole + seq!['.'] + places;
            &&& number_in(s) == Some(Num::Finite(v as i128))
            &&& number_in(seq!['+'] + s) == Some(Num::Finite(v as i128))
            &&& number_in(seq!['-'] + s) == Some(Num::Finite((0 - v) as i128))
        }),
{
    let s = whole + seq!['.'] + places;
    lemma_pointed(whole, places, false);
    lemma_pointed(whole, places, true);
    if whole.len() > 0 {
        assert(s[0] == whole[0]);
    } else {
        assert(s[0] == '.');
    }
    assert((seq!['+'] + s).skip(1) =~= s);
    assert((seq!['-'] + s).skip(1) =~= s);
}

proof fn lemma_whole_number(whole: Seq<char>, negative: bool)
    requires
        is_numeral(whole),
        0 < whole.len() <= 300,
        0 <= worth(whole) * 1_000_000_000 <= crate::num::NUM_LIMIT,
    ensures
        ({
            let v = worth(whole) * 1_000_000_000;
            crate::num::unsigned_number(whole, negative) == Some(
                Num::Finite(
                    if negative {
                        (-v) as i128
                    } else {
                        v as i128
                    },
                ),
            )
        }),
{
    let w = whole.len() as int;
    lemma_run(whole, 0, w);
    assert(!letter(whole[0], 'N') && !letter(whole[0], 'I'));
    assert(whole.subrange(0, w) =~= whole);
    lemma_worth(whole);
    reveal_with_fuel(pow10, 10);
    assert(pow10(9) == 1_000_000_000);
}

/// Digits alone stand for the whole number that they are worth.
pub proof fn law_whole_numbers(whole: Seq<char>)
    requires
        is_numeral(whole),
        0 < whole.len() <= 300,
        0 <= worth(whole) * 1_000_000_000 <= crate::num::NUM_LIMIT,
    ensures
        number_in(whole) == Some(Num::Finite((worth(whole) * 1_000_000_000) as i128)),
        number_in(seq!['-'] + whole) == Some(
            Num::Finite((0 - worth(whole) * 1_000_000_000) as i128),
        ),
{
    lemma_whole_number(whole, false);
    lemma_whole_number(whole, true);
    assert((seq!['-'] + whole).skip(1) =~= whole);
    assert(48 <= whole[0] as int <= 57);
}

/// An exponent shifts the point: up by as many places as it says, or down
/// behind a minus sign, to the nearest billionth.
pub proof fn law_exponents(whole: Seq<char>, exponent: Seq<char>)
    requires
        is_numeral(whole),
        is_numeral(exponent),
        0 < whole.len() <= 100,
        exponent.len() > 0,
        worth(exponent) <= 200,
        0 <= worth(whole) * tens(9 + worth(exponent)) <= crate::num::NUM_LIMIT,
    ensures
        ({
            let k = worth(exponent);
            let up = number_in(whole + seq!['e'] + exponent);
            let down = number_in(whole + seq!['e', '-'] + exponent);
            &&& up == Some(Num::Finite((worth(whole) * tens(9 + k)) as i128))
            &&& down matches Some(Num::Finite(r)) && magnitude(
                2 * (r * tens(k) - worth(whole) * 1_000_000_000),
            ) <= tens(k)
        }),
{
    let w = whole.len() as int;
    let k = worth(exponent);
    let a = whole + seq!['e'] + exponent;
    let b = whole + seq!['e', '-'] + exponent;
    lemma_worth(exponent);
    lemma_worth(whole);
    crate::num::lemma_digits_bound(exponent);
    crate::num::lemma_digits_bound(whole);
    assert(k >= 0);
    assert forall|i: int| 0 <= i < w implies 48 <= (#[trigger] a[i]) as int <= 57 by {
        assert(a[i] == whole[i]);
    }
    assert forall|i: int| 0 <= i < w implies 48 <= (#[trigger] b[i]) as int <= 57 by {
        assert(b[i] == whole[i]);
    }
    assert(a[w] == 'e' && b[w] == 'e' && b[w + 1] == '-');
    assert forall|i: int| w < i < a.len() implies 48 <= (#[trigger] a[i]) as int <= 57 by {
        assert(a[i] == exponent[i - w - 1]);
    }
    assert forall|i: int| w + 1 < i < b.len() implies 48 <= (#[trigger] b[i]) as int <= 57 by {
        assert(b[i] == exponent[i - w - 2]);
    }
    lemma_run(a, 0, w);
    lemma_run(b, 0, w);
    lemma_run(a, w + 1, a.len() as int);
    lemma_run(b, w + 2, b.len() as int);
    assert(a[w + 1] == exponent[0]);
    assert(a[w + 1] != '+' && a[w + 1] != '-');
    assert(a.subrange(w + 1, a.len() as int) =~= exponent);
    assert(b.subrange(w + 2, b.len() as int) =~= exponent);
    assert(a.subrange(0, w) =~= whole);
    assert(b.subrange(0, w) =~= whole);
    assert(!letter(a[0], 'N') && !letter(a[0], 'I'));
    assert(!letter(b[0], 'N') && !letter(b[0], 'I'));
    assert(letter('e', 'E'));
    assert(crate::num::exponent_at(a, w) == Some(k));
    assert(crate::num::exponent_at(b, w) == Some(-k));
    lemma_tens((9 + k) as nat);
    lemma_tens(k as nat);
    reveal_with_fuel(pow10, 10);
    assert(pow10(9) == 1_000_000_000);
    let d = digits_value(whole);
    if k <= 9 {
        let y = pow10((9 - k) as nat);
        let x = pow10(k as nat);
        lemma_pow10_adds(k as nat, (9 - k) as nat);
        lemma_pow10_positive((9 - k) as nat);
        lemma_pow10_adds(9, k as nat);
        assert((d * y) * x == d * (x * y)) by (nonlinear_arith);
        let r = d * y;
        assert(0 <= r <= d * (x * 1_000_000_000)) by (nonlinear_arith)
            requires
                r == d * y,
                d >= 0,
                x * y == 1_000_000_000,
                x >= 1,
                y >= 1,
        ;
        assert(pow10((9 + k) as nat) == 1_000_000_000 * x);
        assert(d * (x * 1_000_000_000) == d * (1_000_000_000 * x)) by (nonlinear_arith);
    } else {
        let y = pow10((k - 9) as nat);
        lemma_pow10_positive((k - 9) as nat);
        lemma_pow10_adds(9, (k - 9) as nat);
        let x = pow10(k as nat);
        assert(x == 1_000_000_000 * y);
        crate::num::lemma_round_even_near(d, y);
        let r = round_even(d, y);
        let half = 2 * (r * x - d * 1_000_000_000);
        assert(half == 1_000_000_000 * (2 * (y * r - d))) by (nonlinear_arith)
            requires
                x == 1_000_000_000 * y,
                half == 2 * (r * x - d * 1_000_000_000),
        ;
        crate::num::lemma_round_even_monotone(0, d, y);
        crate::exposure_laws::lemma_whole(0, y);
        crate::exposure_laws::lemma_whole(d, y);
        assert(d <= d * y) by (nonlinear_arith)
            requires
                d >= 0,
                y >= 1,
        ;
        crate::num::lemma_round_even_monotone(d, d * y, y);
        assert(0 <= r <= d);
        lemma_pow10_positive((9 + k) as nat);
        assert(d <= d * pow10((9 + k) as nat)) by (nonlinear_arith)
            requires
                d >= 0,
                pow10((9 + k) as nat) >= 1,
        ;
    }
}

// --- writing -----------------------------------------------------------------

proof fn lemma_digit_char(d: nat)
    requires
        d < 10,
    ensures
        digit_char(d) as int == 48 + d,
{
}

proof fn lemma_decimal(n: nat, k: nat)
    requires
        n < pow10(k),
        k > 0,
    ensures
        is_numeral(decimal(n)),
        0 < decimal(n).len() <= k,
        digits_value(decimal(n)) == n,
    decreases k,
{
    lemma_digit_char(n % 10);
    if n < 10 {
        lemma_digit_char(n);
        let s = decimal(n);
        assert(s.drop_last() =~= Seq::empty());
        assert(digits_value(s.drop_last()) == 0);
    } else {
        reveal_with_fuel(pow10, 2);
        assert(k > 1);
        lemma_decimal(n / 10, (k - 1) as nat);
        let s = decimal(n);
        assert(s.drop_last() =~= decimal(n / 10));
        assert forall|i: int| 0 <= i < s.len() implies 48 <= (#[trigger] s[i]) as int <= 57 by {
            if i < s.len() - 1 {
                assert(s[i] == decimal(n / 10)[i]);
            }
        }
    }
}

proof fn lemma_padded(n: nat, width: nat)
    requires
        n < pow10(width),
    ensures
        is_numeral(padded(n, width)),
        padded(n, width).len() == width,
        digits_value(padded(n, width)) == n,
    decreases width,
{
    if width > 0 {
        lemma_digit_char(n % 10);
        lemma_padded(n / 10, (width - 1) as nat);
        let s = padded(n, width);
        assert(s.drop_last() =~= padded(n / 10, (width - 1) as nat));
        assert forall|i: int| 0 <= i < s.len() implies 48 <= (#[trigger] s[i]) as int <= 57 by {
            if i < s.len() - 1 {
                assert(s[i] == padded(n / 10, (width - 1) as nat)[i]);
            }
        }
    }
}

proof fn lemma_trimmed(s: Seq<char>)
    requires
        is_numeral(s),
    ensures
        is_numeral(trimmed(s)),
        trimmed(s).len() <= s.len(),
        digits_value(s) == digits_value(trimmed(s)) * pow10((s.len() - trimmed(s).len()) as nat),
        trimmed(s).len() > 0 ==> trimmed(s).last() != '0',
    decreases s.len(),
{
    if s.len() > 0 && s.last() == '0' {
        let rest = s.drop_last();
        assert forall|i: int| 0 <= i < rest.len() implies 48 <= (#[trigger] rest[i]) as int
            <= 57 by {
            assert(rest[i] == s[i]);
        }
        lemma_trimmed(rest);
        let t = trimmed(rest);
        let p = pow10((rest.len() - t.len()) as nat);
        let v = digits_value(t);
        assert((v * p) * 10 == v * (10 * p)) by (nonlinear_arith);
    } else {
        assert(digits_value(s) * 1 == digits_value(s));
    }
}

proof fn lemma_plain(size: nat, negative: bool)
    requires
        size <= crate::num::NUM_LIMIT,
    ensures
        crate::num::unsigned_number(plain_numeral(size), negative) == Some(
            Num::Finite(
                if negative {
                    (-(size as int)) as i128
                } else {
                    size as i128
                },
            ),
        ),
        48 <= plain_numeral(size)[0] as int <= 57,
        plain_numeral(size).len() > 0,
{
    let n = size / 1_000_000_000;
    let m = size % 1_000_000_000;
    reveal_with_fuel(pow10, 10);
    assert(pow10(9) == 1_000_000_000);
    lemma_pow10_adds(9, 30);
    lemma_pow10_positive(21);
    lemma_pow10_adds(9, 21);
    lemma_pow10_adds(9, 12);
    lemma_pow10_adds(9, 3);
    assert(pow10(3) == 1000);
    assert(pow10(12) == 1_000_000_000_000);
    assert(pow10(21) == 1_000_000_000_000_000_000_000);
    assert(pow10(30) == 1_000_000_000_000_000_000_000_000_000_000);
    lemma_decimal(n, 30);
    lemma_padded(m, 9);
    let whole = decimal(n);
    let all = padded(m, 9);
    lemma_trimmed(all);
    let rest = trimmed(all);
    lemma_worth(whole);
    lemma_worth(rest);
    lemma_tens((9 - rest.len()) as nat);
    if rest.len() == 0 {
        assert(digits_value(rest) == 0);
        assert(m == 0);
        lemma_whole_number(whole, negative);
    } else {
        lemma_pointed(whole, rest, negative);
        assert(pointed(whole, rest)[0] == whole[0]);
    }
}

/// A finite number that was written reads back as itself.
pub proof fn law_numbers_read_back(v: i128)
    requires
        v > i128::MIN,
    ensures
        number_in(number_text(Num::Finite(v))) == Some(Num::Finite(v)),
{
    if v < 0 {
        let size = (-v) as nat;
        lemma_plain(size, true);
        let s = plain_numeral(size);
        assert((seq!['-'] + s).skip(1) =~= s);
    } else {
        lemma_plain(v as nat, false);
    }
}

/// A whole number that was written reads back as that many units.
pub proof fn law_integers_read_back(n: i64)
    ensures
        number_in(signed_decimal(n as int)) == Some(Num::Finite((n * 1_000_000_000) as i128)),
{
    let size = if n < 0 {
        (-n) as nat
    } else {
        n as nat
    };
    reveal_with_fuel(pow10, 20);
    assert(pow10(19) == 10_000_000_000_000_000_000);
    lemma_decimal(size, 19);
    let s = decimal(size);
    lemma_worth(s);
    law_whole_numbers(s);
}

/// A price in tenths of a cent that was written for the exchange reads back as
/// that price, of either sign.
pub proof fn law_prices_read_back(mills: int)
    requires
        -1_000_000_000_000 <= mills <= 1_000_000_000_000,
    ensures
        number_in(price_text(mills * 1_000_000)) == Some(Num::Finite((mills * 1_000_000) as i128)),
{
    let size = if mills < 0 {
        -mills
    } else {
        mills
    };
    let price = size * 1_000_000;
    lemma_price(size);
    if mills < 0 {
        crate::setup_laws::law_price_texts(0, price);
        let s = price_text(price);
        reveal_strlit("-");
        assert("-"@ =~= seq!['-']);
        assert(price_text(-price) == seq!['-'] + s);
        assert((seq!['-'] + s).skip(1) =~= s);
    }
}

/// A whole part and places, written with a point between them.
proof fn lemma_fixed(n: nat, m: nat, places: nat, negative: bool)
    requires
        n <= 1_000_000_000_000,
        places == 2 || places == 3,
        m < pow10(places),
    ensures
        ({
            let s = pointed(decimal(n), padded(m, places));
            let unit = if places == 2 {
                10_000_000int
            } else {
                1_000_000
            };
            let v = n * 1_000_000_000 + m * unit;
            &&& s.len() > 0
            &&& 48 <= s[0] as int <= 57
            &&& crate::num::unsigned_number(s, negative) == Some(
                Num::Finite(
                    if negative {
                        (0 - v) as i128
                    } else {
                        v as i128
                    },
                ),
            )
        }),
{
    let whole = decimal(n);
    let rest = padded(m, places);
    assert(pow10(13) == 10_000_000_000_000 && pow10(2) == 100 && pow10(3) == 1000) by {
        reveal_with_fuel(pow10, 14);
    }
    assert(tens(7) == 10_000_000 && tens(6) == 1_000_000) by {
        reveal_with_fuel(tens, 10);
    }
    lemma_decimal(n, 13);
    lemma_padded(m, places);
    lemma_worth(whole);
    lemma_worth(rest);
    lemma_pointed(whole, rest, negative);
    assert(pointed(whole, rest)[0] == whole[0]);
}

#[verifier::spinoff_prover]
proof fn lemma_price(mills: int)
    requires
        0 <= mills <= 1_000_000_000_000,
    ensures
        ({
            let s = price_text(mills * 1_000_000);
            &&& s.len() > 0
            &&& 48 <= s[0] as int <= 57
            &&& crate::num::unsigned_number(s, false) == Some(
                Num::Finite((mills * 1_000_000) as i128),
            )
            &&& crate::num::unsigned_number(s, true) == Some(
                Num::Finite((0 - mills * 1_000_000) as i128),
            )
        }),
{
    let price = mills * 1_000_000;
    reveal_strlit(".");
    assert("."@ =~= seq!['.']);
    assert(pow10(2) == 100 && pow10(3) == 1000) by {
        reveal_with_fuel(pow10, 4);
    }
    if mills % 10 == 0 {
        let cents = mills / 10;
        crate::exposure_laws::lemma_whole(cents, 10_000_000);
        assert(price == cents * 10_000_000);
        assert(crate::api::in_cents(price));
        let n = (cents / 100) as nat;
        let m = (cents % 100) as nat;
        assert(price_text(price) =~= pointed(decimal(n), padded(m, 2)));
        lemma_fixed(n, m, 2, false);
        lemma_fixed(n, m, 2, true);
        assert(n * 1_000_000_000 + m * 10_000_000 == price);
    } else {
        let r = round_even(price, 10_000_000);
        assert(r * 10_000_000 != price);
        crate::exposure_laws::lemma_whole(mills, 1_000_000);
        let n = (mills / 1000) as nat;
        let m = (mills % 1000) as nat;
        assert(price_text(price) =~= pointed(decimal(n), padded(m, 3)));
        lemma_fixed(n, m, 3, false);
        lemma_fixed(n, m, 3, true);
        assert(n * 1_000_000_000 + m * 1_000_000 == price);
    }
}

} // verus!
