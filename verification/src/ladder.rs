//! Strike ladders: the threshold markets of one expiry, in order of strike.
//! A contract's sensitivity to the spot price is read off its neighbours.

use vstd::prelude::*;

use crate::num::{add128, clamp128, div_even, number_in, parse_number, round_even, Num, NANO};
use crate::table::Table;
use crate::text::{chars_of, find_char, find_from, same};

verus! {

/// One trillionth of one per dollar: the unit of a slope, per billionth.
pub const SLOPE_UNIT: i128 = 1_000_000_000_000;

// --- tickers -----------------------------------------------------------------

/// The expiry and the strike of a ticker `SERIES-EXPIRY-T<strike>`: three
/// parts, the second not empty, the third a finite number behind a T. None
/// for any other ticker.
pub open spec fn strike_of(ticker: Seq<char>) -> Option<(Seq<char>, int)> {
    let a = find_from(ticker, '-', 0);
    let b = find_from(ticker, '-', a + 1);
    let c = find_from(ticker, '-', b + 1);
    if a < ticker.len() && b < ticker.len() && c == ticker.len() && b > a + 1 && b + 1
        < ticker.len() && ticker[b + 1] == 'T' {
        match number_in(ticker.subrange(b + 2, ticker.len() as int)) {
            Some(Num::Finite(strike)) => Some((ticker.subrange(a + 1, b), strike as int)),
            _ => None,
        }
    } else {
        None
    }
}

/// The part of a ticker before its last dash.
pub open spec fn before_last_dash(ticker: Seq<char>) -> Seq<char> {
    ticker.take(find_from(ticker, '-', find_from(ticker, '-', 0) + 1))
}

/// The series and the expiry of a threshold ticker, which name its ladder.
pub open spec fn prefix_of(ticker: Seq<char>) -> Option<Seq<char>> {
    if strike_of(ticker) is Some {
        Some(before_last_dash(ticker))
    } else {
        None
    }
}

/// The dashes around the expiry and the strike of a threshold ticker.
fn locate(ticker: &str) -> (r: Option<(usize, usize, i128)>)
    ensures
        match r {
            Some((a, b, strike)) => {
                &&& a == find_from(ticker@, '-', 0)
                &&& b == find_from(ticker@, '-', a + 1)
                &&& a < b < ticker@.len()
                &&& strike_of(ticker@) == Some((ticker@.subrange(a + 1, b as int), strike as int))
            },
            None => strike_of(ticker@) is None,
        },
{
    let chars = chars_of(ticker);
    let n: usize = chars.len();
    let a: usize = find_char(&chars, '-', 0);
    if a >= n {
        return None;
    }
    let b: usize = find_char(&chars, '-', a + 1);
    if b >= n {
        return None;
    }
    let c: usize = find_char(&chars, '-', b + 1);
    if c < n || b == a + 1 || b + 1 >= n || chars[b + 1] != 'T' {
        return None;
    }
    let digits = ticker.substring_char(b + 2, n);
    match parse_number(digits) {
        Some(Num::Finite(strike)) => Some((a, b, strike)),
        _ => None,
    }
}

/// The expiry and the strike of a threshold ticker, the strike in billionths
/// of a dollar.
pub fn parse_strike(ticker: &str) -> (r: Option<(String, i128)>)
    ensures
        match r {
            Some((expiry, strike)) => strike_of(ticker@) == Some((expiry@, strike as int)),
            None => strike_of(ticker@) is None,
        },
{
    match locate(ticker) {
        Some((a, b, strike)) => Some((ticker.substring_char(a + 1, b).to_string(), strike)),
        None => None,
    }
}

/// The name of the ladder that a threshold ticker belongs to.
pub fn ladder_prefix(ticker: &str) -> (r: Option<&str>)
    ensures
        match r {
            Some(p) => prefix_of(ticker@) == Some(p@),
            None => prefix_of(ticker@) is None,
        },
{
    match locate(ticker) {
        Some((_, b, _)) => {
            let p = ticker.substring_char(0, b);
            assert(p@ =~= ticker@.take(b as int));
            Some(p)
        },
        None => None,
    }
}

/// The dash that ends a ladder's name is the ticker's last one.
pub proof fn law_prefix_ends_at_the_last_dash(ticker: Seq<char>)
    requires
        strike_of(ticker) is Some,
    ensures
        ({
            let b = before_last_dash(ticker).len() as int;
            &&& b < ticker.len()
            &&& ticker[b] == '-'
            &&& forall|i: int| b < i < ticker.len() ==> ticker[i] != '-'
        }),
{
    let a = find_from(ticker, '-', 0);
    crate::text::lemma_find_from(ticker, '-', 0);
    let b = find_from(ticker, '-', a + 1);
    crate::text::lemma_find_from(ticker, '-', a + 1);
    crate::text::lemma_find_from(ticker, '-', b + 1);
}

// --- worst cases -------------------------------------------------------------

/// What a ladder's positions make if spot settles above every strike: each
/// YES pays one dollar.
pub open spec fn up_profit(entries: Seq<(i64, i64)>) -> int
    decreases entries.len(),
{
    if entries.len() == 0 {
        0
    } else {
        clamp128(
            up_profit(entries.drop_last()) + entries.last().0 * (NANO - entries.last().1),
        )
    }
}

/// What a ladder's positions make if spot settles below every strike: each
/// YES pays nothing.
pub open spec fn down_profit(entries: Seq<(i64, i64)>) -> int
    decreases entries.len(),
{
    if entries.len() == 0 {
        0
    } else {
        clamp128(down_profit(entries.drop_last()) - entries.last().0 * entries.last().1)
    }
}

/// The loss in a profit; none in a gain.
pub open spec fn loss_in(profit: int) -> int {
    if profit < 0 {
        clamp128(-profit)
    } else {
        0
    }
}

/// A loss, from a profit.
fn to_loss(profit: i128) -> (r: i128)
    ensures
        r == loss_in(profit as int),
{
    if profit == i128::MIN {
        i128::MAX
    } else if profit < 0 {
        -profit
    } else {
        0
    }
}

/// The losses of a ladder's positions in its two worst cases: spot above every
/// strike, and below. Each entry is a signed position and the YES price that
/// it is marked at.
pub fn tail_losses(entries: &Vec<(i64, i64)>) -> (r: (i128, i128))
    ensures
        r.0 == loss_in(up_profit(entries@)),
        r.1 == loss_in(down_profit(entries@)),
        r.0 >= 0,
        r.1 >= 0,
{
    let mut up: i128 = 0;
    let mut down: i128 = 0;
    let mut i: usize = 0;
    while i < entries.len()
        invariant
            i <= entries.len(),
            up == up_profit(entries@.take(i as int)),
            down == down_profit(entries@.take(i as int)),
        decreases entries.len() - i,
    {
        let (pos, mark) = entries[i];
        proof {
            assert(entries@.take(i + 1).drop_last() =~= entries@.take(i as int));
            assert(entries@.take(i + 1).last() == entries@[i as int]);
            lemma_worst_range(pos as int, NANO - mark);
            lemma_worst_range(pos as int, mark as int);
        }
        up = add128(up, pos as i128 * (NANO as i128 - mark as i128));
        down = add128(down, -(pos as i128 * mark as i128));
        i += 1;
    }
    proof {
        assert(entries@.take(entries@.len() as int) =~= entries@);
    }
    (to_loss(up), to_loss(down))
}

proof fn lemma_worst_range(a: int, b: int)
    requires
        i64::MIN <= a <= i64::MAX,
        -0x9000_0000_0000_0000 <= b <= 0x9000_0000_0000_0000,
    ensures
        i128::MIN < a * b <= i128::MAX,
{
    assert(-0x4800_0000_0000_0000_0000_0000_0000_0000 <= a * b
        <= 0x4800_0000_0000_0000_0000_0000_0000_0000) by (nonlinear_arith)
        requires
            -0x8000_0000_0000_0000 <= a <= 0x8000_0000_0000_0000,
            -0x9000_0000_0000_0000 <= b <= 0x9000_0000_0000_0000,
    ;
}

/// Shorts alone lose nothing below every strike, and longs alone nothing above
/// it, at marks within the dollar.
pub proof fn law_one_sided_tails(entries: Seq<(i64, i64)>)
    requires
        forall|i: int| 0 <= i < entries.len() ==> 0 <= (#[trigger] entries[i]).1 <= NANO,
    ensures
        (forall|i: int| 0 <= i < entries.len() ==> (#[trigger] entries[i]).0 <= 0) ==> loss_in(
            down_profit(entries),
        ) == 0,
        (forall|i: int| 0 <= i < entries.len() ==> (#[trigger] entries[i]).0 >= 0) ==> loss_in(
            up_profit(entries),
        ) == 0,
    decreases entries.len(),
{
    if entries.len() > 0 {
        let rest = entries.drop_last();
        law_one_sided_tails(rest);
        let (pos, mark) = entries.last();
        assert(entries[entries.len() - 1] == (pos, mark));
        if forall|i: int| 0 <= i < entries.len() ==> (#[trigger] entries[i]).0 <= 0 {
            assert forall|i: int| 0 <= i < rest.len() implies (#[trigger] rest[i]).0 <= 0 by {
                assert(entries[i].0 <= 0);
            }
            assert(pos * mark <= 0) by (nonlinear_arith)
                requires
                    pos <= 0,
                    mark >= 0,
            ;
        }
        if forall|i: int| 0 <= i < entries.len() ==> (#[trigger] entries[i]).0 >= 0 {
            assert forall|i: int| 0 <= i < rest.len() implies (#[trigger] rest[i]).0 >= 0 by {
                assert(entries[i].0 >= 0);
            }
            assert(pos * (NANO - mark) >= 0) by (nonlinear_arith)
                requires
                    pos >= 0,
                    mark <= NANO,
            ;
        }
    }
}

// --- ladders -----------------------------------------------------------------

/// One market of a ladder: its strike and its ticker.
pub type Rung = (i128, String);

/// A rung by what it holds.
#[verifier::ext_equal]
pub struct RungView {
    pub strike: int,
    pub ticker: Seq<char>,
}

/// Rungs by what they hold.
pub open spec fn rungs_view(rungs: Seq<Rung>) -> Seq<RungView> {
    rungs.map_values(|r: Rung| RungView { strike: r.0 as int, ticker: r.1@ })
}

/// Where a strike goes in a ladder: behind the strikes that are not above it.
pub open spec fn place_of(rungs: Seq<RungView>, strike: int) -> int
    decreases rungs.len(),
{
    if rungs.len() == 0 || rungs[0].strike > strike {
        0
    } else {
        1 + place_of(rungs.drop_first(), strike)
    }
}

/// A ladder with one more rung, at its place.
pub open spec fn with_rung(rungs: Seq<RungView>, rung: RungView) -> Seq<RungView> {
    rungs.insert(place_of(rungs, rung.strike), rung)
}

/// The ladder of one expiry among tickers, in order of strike; equal strikes
/// stay in the order in which they came.
pub open spec fn ladder_of(tickers: Seq<Seq<char>>, expiry: Seq<char>) -> Seq<RungView>
    decreases tickers.len(),
{
    if tickers.len() == 0 {
        Seq::empty()
    } else {
        let before = ladder_of(tickers.drop_last(), expiry);
        match strike_of(tickers.last()) {
            Some((e, strike)) => if e == expiry {
                with_rung(before, RungView { strike, ticker: tickers.last() })
            } else {
                before
            },
            None => before,
        }
    }
}

/// A ladder is in order of strike.
pub open spec fn in_order(rungs: Seq<RungView>) -> bool {
    forall|i: int, j: int| 0 <= i <= j < rungs.len() ==> rungs[i].strike <= rungs[j].strike
}

/// A place lies within the ladder, and parts it by strike.
proof fn lemma_place(rungs: Seq<RungView>, strike: int)
    requires
        in_order(rungs),
    ensures
        0 <= place_of(rungs, strike) <= rungs.len(),
        forall|i: int| 0 <= i < place_of(rungs, strike) ==> (#[trigger] rungs[i]).strike <= strike,
        forall|i: int|
            place_of(rungs, strike) <= i < rungs.len() ==> (#[trigger] rungs[i]).strike > strike,
    decreases rungs.len(),
{
    if rungs.len() > 0 && rungs[0].strike <= strike {
        let rest = rungs.drop_first();
        assert forall|i: int, j: int| 0 <= i <= j < rest.len() implies rest[i].strike
            <= rest[j].strike by {
            assert(rungs[i + 1].strike <= rungs[j + 1].strike);
        }
        lemma_place(rest, strike);
        let k = place_of(rest, strike);
        assert forall|i: int| 0 <= i < 1 + k implies (#[trigger] rungs[i]).strike <= strike by {
            if i > 0 {
                assert(rest[i - 1].strike <= strike);
            }
        }
        assert forall|i: int| 1 + k <= i < rungs.len() implies (#[trigger] rungs[i]).strike
            > strike by {
            assert(rest[i - 1].strike > strike);
        }
    } else if rungs.len() > 0 {
        assert forall|i: int| 0 <= i < rungs.len() implies (#[trigger] rungs[i]).strike
            > strike by {
            assert(rungs[0].strike <= rungs[i].strike);
        }
    }
}

/// A place is known by what it parts.
proof fn lemma_place_is(rungs: Seq<RungView>, strike: int, k: int)
    requires
        in_order(rungs),
        0 <= k <= rungs.len(),
        forall|i: int| 0 <= i < k ==> (#[trigger] rungs[i]).strike <= strike,
        k < rungs.len() ==> rungs[k].strike > strike,
    ensures
        place_of(rungs, strike) == k,
{
    lemma_place(rungs, strike);
    let p = place_of(rungs, strike);
    if p < k {
        assert(rungs[p].strike <= strike);
    } else if k < p {
        assert(rungs[k].strike <= strike);
    }
}

/// A rung at its place keeps the order.
proof fn lemma_with_rung_in_order(rungs: Seq<RungView>, rung: RungView)
    requires
        in_order(rungs),
    ensures
        in_order(with_rung(rungs, rung)),
        with_rung(rungs, rung).len() == rungs.len() + 1,
{
    lemma_place(rungs, rung.strike);
    let k = place_of(rungs, rung.strike);
    let out = with_rung(rungs, rung);
    assert forall|i: int, j: int| 0 <= i <= j < out.len() implies out[i].strike
        <= out[j].strike by {
        let i0 = if i < k { i } else { i - 1 };
        let j0 = if j < k { j } else { j - 1 };
        if i != k && j != k {
            assert(rungs[i0].strike <= rungs[j0].strike);
        } else if i == k && j != k {
            assert(rungs[j0].strike > rung.strike);
        } else if i != k {
            assert(rungs[i0].strike <= rung.strike);
        }
    }
}

/// Ladders are in order of strike.
pub proof fn law_ladders_are_in_order(tickers: Seq<Seq<char>>, expiry: Seq<char>)
    ensures
        in_order(ladder_of(tickers, expiry)),
    decreases tickers.len(),
{
    if tickers.len() > 0 {
        law_ladders_are_in_order(tickers.drop_last(), expiry);
        match strike_of(tickers.last()) {
            Some((e, strike)) => {
                lemma_with_rung_in_order(
                    ladder_of(tickers.drop_last(), expiry),
                    RungView { strike, ticker: tickers.last() },
                );
            },
            None => {},
        }
    }
}

/// Every rung of a ladder is one of the tickers, with its strike and the
/// ladder's expiry: expiries never mix.
pub proof fn law_rungs_are_of_the_expiry(tickers: Seq<Seq<char>>, expiry: Seq<char>, i: int)
    requires
        0 <= i < ladder_of(tickers, expiry).len(),
    ensures
        ({
            let rung = ladder_of(tickers, expiry)[i];
            &&& strike_of(rung.ticker) == Some((expiry, rung.strike))
            &&& tickers.contains(rung.ticker)
        }),
    decreases tickers.len(),
{
    let rest = tickers.drop_last();
    let before = ladder_of(rest, expiry);
    law_ladders_are_in_order(rest, expiry);
    match strike_of(tickers.last()) {
        Some((e, strike)) => {
            if e == expiry {
                lemma_place(before, strike);
                let k = place_of(before, strike);
                if i == k {
                    assert(tickers[tickers.len() - 1] == tickers.last());
                } else {
                    let i0 = if i < k { i } else { i - 1 };
                    law_rungs_are_of_the_expiry(rest, expiry, i0);
                    let t = before[i0].ticker;
                    let n = choose|n: int| 0 <= n < rest.len() && rest[n] == t;
                    assert(tickers[n] == t);
                }
            } else {
                law_rungs_are_of_the_expiry(rest, expiry, i);
                let t = before[i].ticker;
                let n = choose|n: int| 0 <= n < rest.len() && rest[n] == t;
                assert(tickers[n] == t);
            }
        },
        None => {
            law_rungs_are_of_the_expiry(rest, expiry, i);
            let t = before[i].ticker;
            let n = choose|n: int| 0 <= n < rest.len() && rest[n] == t;
            assert(tickers[n] == t);
        },
    }
}

/// A ladder holds every ticker of its expiry, at the ticker's strike.
pub proof fn law_every_ticker_is_on_its_ladder(tickers: Seq<Seq<char>>, expiry: Seq<char>, n: int)
    requires
        0 <= n < tickers.len(),
        strike_of(tickers[n]) matches Some((e, _)) && e == expiry,
    ensures
        ladder_of(tickers, expiry).contains(
            RungView { strike: strike_of(tickers[n])->Some_0.1, ticker: tickers[n] },
        ),
    decreases tickers.len(),
{
    let rest = tickers.drop_last();
    let before = ladder_of(rest, expiry);
    let out = ladder_of(tickers, expiry);
    let rung = RungView { strike: strike_of(tickers[n])->Some_0.1, ticker: tickers[n] };
    law_ladders_are_in_order(rest, expiry);
    if n == tickers.len() - 1 {
        lemma_place(before, rung.strike);
        assert(out[place_of(before, rung.strike)] == rung);
    } else {
        assert(rest[n] == tickers[n]);
        law_every_ticker_is_on_its_ladder(rest, expiry, n);
        let i = choose|i: int| 0 <= i < before.len() && before[i] == rung;
        match strike_of(tickers.last()) {
            Some((e, strike)) => {
                if e == expiry {
                    lemma_place(before, strike);
                    let k = place_of(before, strike);
                    if i < k {
                        assert(out[i] == rung);
                    } else {
                        assert(out[i + 1] == rung);
                    }
                } else {
                    assert(out[i] == rung);
                }
            },
            None => {
                assert(out[i] == rung);
            },
        }
    }
}

/// A ticker that is listed once stands on its ladder once.
pub proof fn law_no_ticker_is_on_a_ladder_twice(tickers: Seq<Seq<char>>, expiry: Seq<char>)
    requires
        tickers.no_duplicates(),
    ensures
        ({
            let rungs = ladder_of(tickers, expiry);
            forall|i: int, j: int|
                0 <= i < j < rungs.len() ==> (#[trigger] rungs[i]).ticker != (
                #[trigger] rungs[j]).ticker
        }),
    decreases tickers.len(),
{
    if tickers.len() > 0 {
        let rest = tickers.drop_last();
        let before = ladder_of(rest, expiry);
        let rungs = ladder_of(tickers, expiry);
        law_no_ticker_is_on_a_ladder_twice(rest, expiry);
        law_ladders_are_in_order(rest, expiry);
        match strike_of(tickers.last()) {
            Some((e, strike)) => {
                if e == expiry {
                    lemma_place(before, strike);
                    let k = place_of(before, strike);
                    assert forall|i: int| 0 <= i < before.len() implies (
                    #[trigger] before[i]).ticker != tickers.last() by {
                        law_rungs_are_of_the_expiry(rest, expiry, i);
                        let n = choose|n: int|
                            0 <= n < rest.len() && rest[n] == before[i].ticker;
                        assert(tickers[n] != tickers[tickers.len() - 1]);
                    }
                    assert forall|i: int, j: int| 0 <= i < j < rungs.len() implies (
                    #[trigger] rungs[i]).ticker != (#[trigger] rungs[j]).ticker by {
                        let i0 = if i < k { i } else { i - 1 };
                        let j0 = if j < k { j } else { j - 1 };
                        if i == k {
                            assert(before[j0].ticker != tickers.last());
                        } else if j == k {
                            assert(before[i0].ticker != tickers.last());
                        } else {
                            assert(before[i0].ticker != before[j0].ticker);
                        }
                    }
                }
            },
            None => {},
        }
    }
}

/// Every strike of a ladder is above those before it.
spec fn strictly_in_order(rungs: Seq<RungView>) -> bool {
    forall|i: int, j: int| 0 <= i < j < rungs.len() ==> rungs[i].strike < rungs[j].strike
}

/// Two ladders without equal strikes that hold the same rungs are the same.
proof fn lemma_same_rungs(a: Seq<RungView>, b: Seq<RungView>)
    requires
        strictly_in_order(a),
        strictly_in_order(b),
        forall|r: RungView| a.contains(r) <==> #[trigger] b.contains(r),
    ensures
        a == b,
    decreases a.len(),
{
    if a.len() == 0 {
        if b.len() > 0 {
            assert(b.contains(b[0]));
        }
        assert(a =~= b);
    } else {
        let x = a.last();
        assert(a[a.len() - 1] == x);
        assert(a.contains(x));
        assert(b.contains(x));
        let i = choose|i: int| 0 <= i < b.len() && b[i] == x;
        let y = b.last();
        assert(b[b.len() - 1] == y);
        assert(b.contains(y));
        assert(a.contains(y));
        let j = choose|j: int| 0 <= j < a.len() && a[j] == y;
        assert(i == b.len() - 1) by {
            if i < b.len() - 1 {
                assert(b[i].strike < b[b.len() - 1].strike);
                if j < a.len() - 1 {
                    assert(a[j].strike < a[a.len() - 1].strike);
                }
            }
        }
        let c = a.drop_last();
        let d = b.drop_last();
        assert forall|r: RungView| c.contains(r) <==> #[trigger] d.contains(r) by {
            if c.contains(r) {
                let k = choose|k: int| 0 <= k < c.len() && c[k] == r;
                assert(a[k] == r && a[k].strike < a[a.len() - 1].strike);
                assert(b.contains(r));
                let m = choose|m: int| 0 <= m < b.len() && b[m] == r;
                assert(d[m] == r);
            }
            if d.contains(r) {
                let k = choose|k: int| 0 <= k < d.len() && d[k] == r;
                assert(b[k] == r && b[k].strike < b[b.len() - 1].strike);
                assert(b.contains(r));
                assert(a.contains(r));
                let m = choose|m: int| 0 <= m < a.len() && a[m] == r;
                assert(c[m] == r);
            }
        }
        lemma_same_rungs(c, d);
        assert(a =~= c.push(x));
        assert(b =~= d.push(x));
    }
}

/// No two tickers of one expiry have the same strike.
pub open spec fn strikes_differ(tickers: Seq<Seq<char>>) -> bool {
    forall|i: int, j: int|
        0 <= i < j < tickers.len() && strike_of(#[trigger] tickers[i]) is Some ==> strike_of(
            tickers[i],
        ) != strike_of(#[trigger] tickers[j])
}

/// Without equal strikes a ladder is strictly in order.
proof fn lemma_strictly_in_order(tickers: Seq<Seq<char>>, expiry: Seq<char>)
    requires
        tickers.no_duplicates(),
        strikes_differ(tickers),
    ensures
        strictly_in_order(ladder_of(tickers, expiry)),
{
    let rungs = ladder_of(tickers, expiry);
    law_ladders_are_in_order(tickers, expiry);
    law_no_ticker_is_on_a_ladder_twice(tickers, expiry);
    assert forall|i: int, j: int| 0 <= i < j < rungs.len() implies rungs[i].strike
        < rungs[j].strike by {
        law_rungs_are_of_the_expiry(tickers, expiry, i);
        law_rungs_are_of_the_expiry(tickers, expiry, j);
        assert(rungs[i].strike <= rungs[j].strike);
        assert(rungs[i].ticker != rungs[j].ticker);
        let m = choose|m: int| 0 <= m < tickers.len() && tickers[m] == rungs[i].ticker;
        let n = choose|n: int| 0 <= n < tickers.len() && tickers[n] == rungs[j].ticker;
        if m < n {
            assert(strike_of(tickers[m]) != strike_of(tickers[n]));
        } else {
            assert(strike_of(tickers[n]) != strike_of(tickers[m]));
        }
    }
}

/// The ladders of tickers with different strikes do not depend on the order in
/// which the tickers come, so neither do neighbours and slopes.
pub proof fn law_ladders_ignore_the_order(
    x: Ladders,
    y: Ladders,
    a: Seq<Seq<char>>,
    b: Seq<Seq<char>>,
    expiry: Seq<char>,
)
    requires
        x.of(a),
        y.of(b),
        a.no_duplicates(),
        b.no_duplicates(),
        forall|t: Seq<char>| a.contains(t) <==> #[trigger] b.contains(t),
        strikes_differ(a),
    ensures
        ladder_of(a, expiry) == ladder_of(b, expiry),
        x.ladder(expiry) == y.ladder(expiry),
{
    let p = ladder_of(a, expiry);
    let q = ladder_of(b, expiry);
    assert(strikes_differ(b)) by {
        assert forall|i: int, j: int|
            0 <= i < j < b.len() && strike_of(#[trigger] b[i]) is Some implies strike_of(b[i])
            != strike_of(#[trigger] b[j]) by {
            assert(b.contains(b[i]) && b.contains(b[j]));
            let m = choose|m: int| 0 <= m < a.len() && a[m] == b[i];
            let n = choose|n: int| 0 <= n < a.len() && a[n] == b[j];
            assert(b[i] != b[j]);
            if m < n {
                assert(strike_of(a[m]) != strike_of(a[n]));
            } else {
                assert(strike_of(a[n]) is Some ==> strike_of(a[n]) != strike_of(a[m]));
            }
        }
    }
    lemma_strictly_in_order(a, expiry);
    lemma_strictly_in_order(b, expiry);
    assert forall|r: RungView| p.contains(r) <==> #[trigger] q.contains(r) by {
        if p.contains(r) {
            let i = choose|i: int| 0 <= i < p.len() && p[i] == r;
            law_rungs_are_of_the_expiry(a, expiry, i);
            assert(b.contains(r.ticker));
            let n = choose|n: int| 0 <= n < b.len() && b[n] == r.ticker;
            law_every_ticker_is_on_its_ladder(b, expiry, n);
        }
        if q.contains(r) {
            let i = choose|i: int| 0 <= i < q.len() && q[i] == r;
            law_rungs_are_of_the_expiry(b, expiry, i);
            assert(b.contains(r.ticker));
            assert(a.contains(r.ticker));
            let n = choose|n: int| 0 <= n < a.len() && a[n] == r.ticker;
            law_every_ticker_is_on_its_ladder(a, expiry, n);
        }
    }
    lemma_same_rungs(p, q);
    assert(x.ladder(expiry) == p);
    assert(y.ladder(expiry) == q);
}

/// The ladders of a set of markets, by expiry.
pub struct Ladders {
    groups: Table<Vec<Rung>>,
}

/// The first rung of a ticker, or the length.
pub open spec fn rung_of(rungs: Seq<RungView>, ticker: Seq<char>, from: int) -> int
    decreases rungs.len() - from,
{
    if from < 0 || from >= rungs.len() {
        rungs.len() as int
    } else if rungs[from].ticker == ticker {
        from
    } else {
        rung_of(rungs, ticker, from + 1)
    }
}

/// The rungs on either side of a ticker. At the ends of a ladder the ticker's
/// own rung takes the missing place; none where it stands alone or not at all.
pub open spec fn neighbours_in(rungs: Seq<RungView>, ticker: Seq<char>) -> Option<
    (RungView, RungView),
> {
    let i = rung_of(rungs, ticker, 0);
    let low = if i > 0 {
        i - 1
    } else {
        i
    };
    let high = if i + 1 < rungs.len() {
        i + 1
    } else {
        i
    };
    if i >= rungs.len() || low == high {
        None
    } else {
        Some((rungs[low], rungs[high]))
    }
}

/// The slope between two strikes in trillionths per dollar, at most
/// `delta_max` (which is in billionths). The chance to end above a strike
/// falls with the strike; mids that rise with it, and strikes without width,
/// give none.
pub open spec fn slope_between(k_lo: int, m_lo: int, k_hi: int, m_hi: int, delta_max: int) -> Option<
    int,
> {
    if k_hi <= k_lo || m_lo < m_hi {
        None
    } else {
        let density = round_even((m_lo - m_hi) * SLOPE_UNIT, k_hi - k_lo);
        Some(
            if density < delta_max * 1000 {
                density
            } else {
                delta_max * 1000
            },
        )
    }
}

/// A known mid price.
pub open spec fn known(mids: Map<Seq<char>, i64>, ticker: Seq<char>) -> Option<i64> {
    if mids.dom().contains(ticker) {
        Some(mids[ticker])
    } else {
        None
    }
}

/// The slope at a ticker, given the mids of its neighbours.
pub open spec fn slope_at(
    rungs: Seq<RungView>,
    ticker: Seq<char>,
    delta_max: int,
    mids: Map<Seq<char>, i64>,
) -> Option<int> {
    match neighbours_in(rungs, ticker) {
        Some((low, high)) => match (known(mids, low.ticker), known(mids, high.ticker)) {
            (Some(m_lo), Some(m_hi)) => slope_between(
                low.strike,
                m_lo as int,
                high.strike,
                m_hi as int,
                delta_max,
            ),
            _ => None,
        },
        None => None,
    }
}

/// Texts by their characters.
pub open spec fn names_view(names: Seq<String>) -> Seq<Seq<char>> {
    names.map_values(|s: String| s@)
}

/// The slope between two strikes.
pub fn slope(k_lo: i128, m_lo: i64, k_hi: i128, m_hi: i64, delta_max: i64) -> (r: Option<i128>)
    ensures
        match r {
            Some(d) => slope_between(
                k_lo as int,
                m_lo as int,
                k_hi as int,
                m_hi as int,
                delta_max as int,
            ) == Some(d as int),
            None => slope_between(
                k_lo as int,
                m_lo as int,
                k_hi as int,
                m_hi as int,
                delta_max as int,
            ) is None,
        },
{
    if k_hi <= k_lo || m_lo < m_hi {
        return None;
    }
    let cap: i128 = delta_max as i128 * 1000;
    let rise: i128 = (m_lo as i128 - m_hi as i128) * SLOPE_UNIT;
    match k_hi.checked_sub(k_lo) {
        Some(width) => {
            let density: i128 = div_even(rise, width);
            if density < cap {
                Some(density)
            } else {
                Some(cap)
            }
        },
        None => {
            proof {
                lemma_flat(rise as int, k_hi - k_lo);
            }
            if 0 < cap {
                Some(0)
            } else {
                Some(cap)
            }
        },
    }
}

/// A small rise over a huge width rounds to nothing.
proof fn lemma_flat(rise: int, width: int)
    requires
        0 <= rise,
        2 * rise < width,
    ensures
        round_even(rise, width) == 0,
{
    vstd::arithmetic::div_mod::lemma_basic_div(rise, width);
    vstd::arithmetic::div_mod::lemma_small_mod(rise as nat, width as nat);
}

/// Puts a rung at its place.
fn push_rung(rungs: &mut Vec<Rung>, strike: i128, ticker: String)
    requires
        in_order(rungs_view(old(rungs)@)),
    ensures
        in_order(rungs_view(final(rungs)@)),
        rungs_view(final(rungs)@) == with_rung(
            rungs_view(old(rungs)@),
            RungView { strike: strike as int, ticker: ticker@ },
        ),
{
    let ghost before = rungs_view(rungs@);
    let mut k: usize = 0;
    while k < rungs.len() && rungs[k].0 <= strike
        invariant
            k <= rungs.len(),
            rungs@ == old(rungs)@,
            before == rungs_view(rungs@),
            forall|i: int| 0 <= i < k ==> (#[trigger] before[i]).strike <= strike,
        decreases rungs.len() - k,
    {
        assert(before[k as int].strike == rungs@[k as int].0);
        k += 1;
    }
    let ghost rung = RungView { strike: strike as int, ticker: ticker@ };
    proof {
        if k < rungs.len() {
            assert(before[k as int].strike == rungs@[k as int].0);
        }
        lemma_place_is(before, strike as int, k as int);
        lemma_with_rung_in_order(before, rung);
    }
    rungs.insert(k, (strike, ticker));
    assert(rungs_view(rungs@) =~= before.insert(k as int, rung));
}

impl Ladders {
    /// The ladder of an expiry.
    pub closed spec fn ladder(&self, expiry: Seq<char>) -> Seq<RungView> {
        if self.groups.has(expiry) {
            rungs_view(self.groups.at(expiry)@)
        } else {
            Seq::empty()
        }
    }

    /// Every ladder is in order.
    pub closed spec fn wf(&self) -> bool {
        &&& self.groups.wf()
        &&& forall|e: Seq<char>| in_order(#[trigger] self.ladder(e))
    }

    /// These are the ladders of these tickers.
    pub open spec fn of(&self, tickers: Seq<Seq<char>>) -> bool {
        forall|e: Seq<char>| #[trigger] self.ladder(e) == ladder_of(tickers, e)
    }

    /// No ladders.
    pub fn new() -> (r: Self)
        ensures
            r.wf(),
            r.of(Seq::empty()),
    {
        Ladders { groups: Table::new() }
    }

    /// Puts a ticker on its ladder.
    fn add(&mut self, ticker: &str)
        requires
            old(self).wf(),
        ensures
            final(self).wf(),
            forall|e: Seq<char>| #[trigger]
                final(self).ladder(e) == match strike_of(ticker@) {
                    Some((expiry, strike)) => if expiry == e {
                        with_rung(old(self).ladder(e), RungView { strike, ticker: ticker@ })
                    } else {
                        old(self).ladder(e)
                    },
                    None => old(self).ladder(e),
                },
    {
        match parse_strike(ticker) {
            Some((expiry, strike)) => {
                let ghost before = self.groups;
                let ghost name = expiry@;
                let ghost ladder = self.ladder(name);
                if !self.groups.contains(expiry.as_str()) {
                    self.groups.insert(expiry.clone(), Vec::new());
                }
                let ghost grown = self.groups;
                proof {
                    let i = grown.keys().index_of(name);
                    assert(grown.has(name)) by {
                        if !before.has(name) {
                            assert(grown.keys()[before.keys().len() as int] == name);
                        }
                    }
                    assert(grown.keys()[i] == name);
                    crate::table::lemma_at(grown, i);
                    if !before.has(name) {
                        assert(grown@[name] == grown.at(name));
                        assert(rungs_view(grown.at(name)@) =~= Seq::<RungView>::empty());
                    }
                    assert(rungs_view(grown.at(name)@) == ladder);
                }
                let rungs = self.groups.get_mut(expiry.as_str());
                push_rung(rungs, strike, ticker.to_string());
                proof {
                    let put = self.groups.values()[grown.keys().index_of(name)];
                    crate::table::lemma_same_keys(grown, self.groups, name, put);
                    assert forall|e: Seq<char>| #[trigger] self.ladder(e) == if name == e {
                        with_rung(ladder, RungView { strike: strike as int, ticker: ticker@ })
                    } else {
                        if before.has(e) {
                            rungs_view(before.at(e)@)
                        } else {
                            Seq::empty()
                        }
                    } by {
                        assert(self.groups.has(e) == (e == name || before.has(e))) by {
                            assert(self.groups@.dom().contains(e) == (e == name
                                || before@.dom().contains(e)));
                        }
                        if e != name && before.has(e) {
                            assert(self.groups@[e] == before@[e]);
                        }
                    }
                    let rung = RungView { strike: strike as int, ticker: ticker@ };
                    assert forall|e: Seq<char>| in_order(#[trigger] self.ladder(e)) by {
                        assert(in_order(old(self).ladder(e)));
                        if e == name {
                            lemma_with_rung_in_order(old(self).ladder(e), rung);
                        }
                    }
                }
            },
            None => {},
        }
    }

    /// The ladders of a set of tickers.
    pub fn build(tickers: &Vec<String>) -> (r: Self)
        ensures
            r.wf(),
            r.of(names_view(tickers@)),
    {
        let mut out = Ladders::new();
        let mut i: usize = 0;
        let ghost names = names_view(tickers@);
        proof {
            assert(names.take(0) =~= Seq::<Seq<char>>::empty());
        }
        while i < tickers.len()
            invariant
                i <= tickers.len(),
                names == names_view(tickers@),
                out.wf(),
                out.of(names.take(i as int)),
            decreases tickers.len() - i,
        {
            let ghost before = out;
            out.add(tickers[i].as_str());
            proof {
                let seen = names.take(i + 1);
                assert(seen.drop_last() =~= names.take(i as int));
                assert(seen.last() == tickers@[i as int]@);
                assert forall|e: Seq<char>| #[trigger] out.ladder(e) == ladder_of(seen, e) by {
                    assert(before.ladder(e) == ladder_of(names.take(i as int), e));
                }
            }
            i += 1;
        }
        proof {
            assert(names.take(names.len() as int) =~= names);
        }
        out
    }

    /// The rungs on either side of a ticker, as strike and ticker each.
    pub fn neighbours(&self, ticker: &str) -> (r: Option<(i128, &str, i128, &str)>)
        requires
            self.wf(),
        ensures
            ({
                let found = match strike_of(ticker@) {
                    Some((expiry, _)) => neighbours_in(self.ladder(expiry), ticker@),
                    None => None,
                };
                match r {
                    Some((k_lo, t_lo, k_hi, t_hi)) => found == Some(
                        (
                            RungView { strike: k_lo as int, ticker: t_lo@ },
                            RungView { strike: k_hi as int, ticker: t_hi@ },
                        ),
                    ),
                    None => found is None,
                }
            }),
    {
        let expiry = match parse_strike(ticker) {
            Some((e, _)) => e,
            None => {
                return None;
            },
        };
        match self.groups.get(expiry.as_str()) {
            Some(rungs) => {
                let ghost view = rungs_view(rungs@);
                let mut i: usize = 0;
                while i < rungs.len() && !same(rungs[i].1.as_str(), ticker)
                    invariant
                        i <= rungs.len(),
                        view == rungs_view(rungs@),
                        rung_of(view, ticker@, 0) == rung_of(view, ticker@, i as int),
                    decreases rungs.len() - i,
                {
                    assert(view[i as int].ticker == rungs@[i as int].1@);
                    i += 1;
                }
                if i >= rungs.len() {
                    return None;
                }
                assert(view[i as int].ticker == rungs@[i as int].1@);
                let low: usize = if i > 0 {
                    i - 1
                } else {
                    i
                };
                let high: usize = if i + 1 < rungs.len() {
                    i + 1
                } else {
                    i
                };
                if low == high {
                    return None;
                }
                Some((rungs[low].0, rungs[low].1.as_str(), rungs[high].0, rungs[high].1.as_str()))
            },
            None => None,
        }
    }

    /// The slope at a ticker: the change of probability per dollar of spot.
    /// None where it cannot be read off: the ticker has no neighbour, a mid is
    /// not known, or the mids are crossed.
    pub fn delta_for(&self, ticker: &str, delta_max: i64, mids: &Table<i64>) -> (r: Option<i128>)
        requires
            self.wf(),
            mids.wf(),
        ensures
            ({
                let found = match strike_of(ticker@) {
                    Some((expiry, _)) => slope_at(
                        self.ladder(expiry),
                        ticker@,
                        delta_max as int,
                        mids@,
                    ),
                    None => None,
                };
                match r {
                    Some(d) => found == Some(d as int),
                    None => found is None,
                }
            }),
    {
        match self.neighbours(ticker) {
            Some((k_lo, t_lo, k_hi, t_hi)) => match (mids.get(t_lo), mids.get(t_hi)) {
                (Some(m_lo), Some(m_hi)) => slope(k_lo, *m_lo, k_hi, *m_hi, delta_max),
                _ => None,
            },
            None => None,
        }
    }
}

/// A slope lies between zero and its cap.
pub proof fn law_slope_is_bounded(k_lo: int, m_lo: int, k_hi: int, m_hi: int, delta_max: int)
    requires
        delta_max >= 0,
    ensures
        slope_between(k_lo, m_lo, k_hi, m_hi, delta_max) matches Some(d) ==> 0 <= d <= delta_max
            * 1000,
{
    if k_hi > k_lo && m_lo >= m_hi {
        let n = (m_lo - m_hi) * SLOPE_UNIT;
        vstd::arithmetic::div_mod::lemma_div_pos_is_pos(n, k_hi - k_lo);
        crate::num::lemma_round_even_bounds(n, k_hi - k_lo);
    }
}

} // verus!
