//! The live order book of one market, and the rules that keep quotes safe.
//!
//! Book data comes in three shapes with different orderings: full snapshots
//! with the best level last, snapshots of one side, and changes of a single
//! level. So the levels are kept by price, and the best one never depends on
//! where it stood in a message.
//!
//! Everything is in YES terms. The *yes* side holds bids to buy YES, so the
//! best bid is the highest yes price. The *no* side holds bids to buy NO; a
//! NO bid at `p` sells YES at `1 - p`, so the best ask is one dollar less the
//! highest no price.

use vstd::prelude::*;

use crate::json::{Json, JsonView};
use crate::num::{
    add64, ceil_div, clamp, clamp128, clamp64, div_away, div_even, floor_div, mul128, round_away, round_even,
    saturate, saturated, to_i64, Num, NANO,
};
use crate::text::same;

verus! {

/// One dollar in millidollars.
pub const ONE_DOLLAR_MD: u32 = 1000;

/// A millidollar in billionths of a dollar.
pub const MD_NANO: i64 = 1_000_000;

/// Half a millidollar in billionths of a dollar.
pub const HALF_MD_NANO: i64 = 500_000;

/// The millidollar price nearest to a number of dollars, halves away from
/// zero, within the range of a price.
pub open spec fn md_of(dollars: Num) -> int {
    match dollars {
        Num::Finite(v) => clamp(round_away(v as int, MD_NANO as int), 0, u32::MAX as int),
        Num::Infinite(negative) => if negative {
            0
        } else {
            u32::MAX as int
        },
        Num::NotANumber => 0,
    }
}

/// Turns dollars into the millidollar price that keys a level.
pub fn to_md(dollars: Num) -> (r: u32)
    ensures
        r == md_of(dollars),
{
    match dollars {
        Num::Finite(v) => {
            if v <= 0 {
                0
            } else if v > u32::MAX as i128 * MD_NANO as i128 {
                u32::MAX
            } else {
                div_away(v, MD_NANO as i128) as u32
            }
        },
        Num::Infinite(negative) => if negative {
            0
        } else {
            u32::MAX
        },
        Num::NotANumber => 0,
    }
}

/// A millidollar price in billionths of a dollar.
pub fn to_dollars(md: u32) -> (r: i64)
    ensures
        r == md * MD_NANO,
{
    md as i64 * MD_NANO
}

// --- levels ------------------------------------------------------------------

/// Price levels in ascending price, each with contracts resting at it.
pub open spec fn ladder(rows: Seq<(u32, i64)>) -> bool {
    &&& forall|i: int, j: int| 0 <= i < j < rows.len() ==> rows[i].0 < rows[j].0
    &&& forall|i: int| 0 <= i < rows.len() ==> (#[trigger] rows[i]).1 > 0
}

/// There is a level at this price.
pub open spec fn has_price(rows: Seq<(u32, i64)>, price: u32) -> bool {
    exists|i: int| 0 <= i < rows.len() && (#[trigger] rows[i]).0 == price
}

/// The contracts at a price.
pub open spec fn quantity(rows: Seq<(u32, i64)>, price: u32) -> i64 {
    rows[choose|i: int| 0 <= i < rows.len() && (#[trigger] rows[i]).0 == price].1
}

/// The levels as a map from price to contracts.
pub open spec fn level_map(rows: Seq<(u32, i64)>) -> Map<u32, i64> {
    Map::new(|p: u32| has_price(rows, p), |p: u32| quantity(rows, p))
}

/// The highest price of a ladder.
pub open spec fn highest(rows: Seq<(u32, i64)>) -> Option<u32> {
    if rows.len() == 0 {
        None
    } else {
        Some(rows.last().0)
    }
}

/// In a ladder each level is found under its own price.
pub proof fn lemma_level(rows: Seq<(u32, i64)>, i: int)
    requires
        ladder(rows),
        0 <= i < rows.len(),
    ensures
        has_price(rows, rows[i].0),
        quantity(rows, rows[i].0) == rows[i].1,
        level_map(rows).dom().contains(rows[i].0),
        level_map(rows)[rows[i].0] == rows[i].1,
{
    let p = rows[i].0;
    let j = choose|j: int| 0 <= j < rows.len() && (#[trigger] rows[j]).0 == p;
    assert(0 <= j < rows.len() && rows[j].0 == p);
    if j < i {
        assert(rows[j].0 < rows[i].0);
    } else if i < j {
        assert(rows[i].0 < rows[j].0);
    }
}

/// The highest price of a ladder is a price of the ladder, and none is above
/// it; there is none exactly when the ladder is empty.
pub proof fn law_highest_is_the_maximum(rows: Seq<(u32, i64)>)
    requires
        ladder(rows),
    ensures
        match highest(rows) {
            Some(p) => level_map(rows).dom().contains(p) && forall|q: u32| #[trigger]
                level_map(rows).dom().contains(q) ==> q <= p,
            None => level_map(rows) == Map::<u32, i64>::empty(),
        },
{
    if rows.len() == 0 {
        assert(level_map(rows) =~= Map::<u32, i64>::empty());
    } else {
        let n = rows.len() - 1;
        lemma_level(rows, n);
        assert forall|q: u32| #[trigger] level_map(rows).dom().contains(q) implies q
            <= rows.last().0 by {
            let i = choose|i: int| 0 <= i < rows.len() && (#[trigger] rows[i]).0 == q;
            assert(rows[i].0 == q);
            if i < n {
                assert(rows[i].0 < rows[n].0);
            }
        }
    }
}

/// Two ladders with the same levels are the same ladder.
pub proof fn law_ladder_is_determined(a: Seq<(u32, i64)>, b: Seq<(u32, i64)>)
    requires
        ladder(a),
        ladder(b),
        level_map(a) == level_map(b),
    ensures
        a == b,
    decreases a.len(),
{
    law_highest_is_the_maximum(a);
    law_highest_is_the_maximum(b);
    if a.len() == 0 {
        if b.len() > 0 {
            lemma_level(b, 0);
        }
        assert(a =~= b);
    } else if b.len() == 0 {
        lemma_level(a, 0);
        assert(false);
    } else {
        let n = a.len() - 1;
        let m = b.len() - 1;
        lemma_level(a, n);
        lemma_level(b, m);
        assert(a[n].0 == b[m].0);
        assert(a[n] == b[m]);
        lemma_without_top(a);
        lemma_without_top(b);
        law_ladder_is_determined(a.drop_last(), b.drop_last());
        assert(a =~= a.drop_last().push(a[n]));
        assert(b =~= b.drop_last().push(b[m]));
    }
}

/// Dropping the top level takes its price out.
proof fn lemma_without_top(rows: Seq<(u32, i64)>)
    requires
        ladder(rows),
        rows.len() > 0,
    ensures
        ladder(rows.drop_last()),
        level_map(rows.drop_last()) == level_map(rows).remove(rows.last().0),
{
    let rest = rows.drop_last();
    let top = rows.last().0;
    assert forall|p: u32|
        level_map(rest).dom().contains(p) == level_map(rows).remove(top).dom().contains(p) by {
        if level_map(rest).dom().contains(p) {
            let i = choose|i: int| 0 <= i < rest.len() && (#[trigger] rest[i]).0 == p;
            assert(rest[i].0 == p);
            assert(rows[i].0 == p);
            assert(rows[i].0 < rows[rows.len() - 1].0);
        }
        if level_map(rows).remove(top).dom().contains(p) {
            let i = choose|i: int| 0 <= i < rows.len() && (#[trigger] rows[i]).0 == p;
            assert(rows[i].0 == p);
            assert(rest[i].0 == p);
        }
    }
    assert forall|p: u32| level_map(rest).dom().contains(p) implies level_map(rest)[p]
        == level_map(rows).remove(top)[p] by {
        let i = choose|i: int| 0 <= i < rest.len() && (#[trigger] rest[i]).0 == p;
        assert(rest[i].0 == p);
        lemma_level(rest, i);
        lemma_level(rows, i);
        assert(rows[i] == rest[i]);
    }
    assert(level_map(rest) =~= level_map(rows).remove(top));
}

/// Where a price stands in a ladder, or would be put.
fn position(rows: &Vec<(u32, i64)>, price: u32) -> (r: usize)
    requires
        ladder(rows@),
    ensures
        r <= rows.len(),
        forall|i: int| 0 <= i < r ==> (#[trigger] rows@[i]).0 < price,
        forall|i: int| r <= i < rows.len() ==> (#[trigger] rows@[i]).0 >= price,
        has_price(rows@, price) == (r < rows.len() && rows@[r as int].0 == price),
{
    let mut i: usize = 0;
    while i < rows.len() && rows[i].0 < price
        invariant
            ladder(rows@),
            i <= rows.len(),
            forall|k: int| 0 <= k < i ==> (#[trigger] rows@[k]).0 < price,
        decreases rows.len() - i,
    {
        i += 1;
    }
    proof {
        if i < rows.len() {
            assert forall|k: int| i <= k < rows.len() implies (#[trigger] rows@[k]).0 >= price by {
                if i < k {
                    assert(rows@[i as int].0 < rows@[k].0);
                }
            }
            assert(rows@[i as int].0 == price ==> has_price(rows@, price));
        }
        if has_price(rows@, price) {
            let k = choose|k: int| 0 <= k < rows@.len() && (#[trigger] rows@[k]).0 == price;
            assert(rows@[k].0 == price);
            assert(k >= i);
            if k > i {
                assert(rows@[i as int].0 < rows@[k].0);
            }
        }
    }
    i
}

/// Puts a level in, in place of one at the same price.
fn put_level(rows: &mut Vec<(u32, i64)>, price: u32, qty: i64)
    requires
        ladder(old(rows)@),
        qty > 0,
    ensures
        ladder(final(rows)@),
        level_map(final(rows)@) == level_map(old(rows)@).insert(price, qty),
{
    let ghost before = rows@;
    let i: usize = position(rows, price);
    if i < rows.len() && rows[i].0 == price {
        rows.set(i, (price, qty));
        proof {
            let after = rows@;
            assert(after =~= before.update(i as int, (price, qty)));
            assert forall|a: int, b: int| 0 <= a < b < after.len() implies after[a].0
                < after[b].0 by {
                assert(before[a].0 < before[b].0);
            }
            lemma_put(before, after, price, qty, i as int, 0);
        }
    } else {
        rows.insert(i, (price, qty));
        proof {
            let after = rows@;
            assert(after =~= before.insert(i as int, (price, qty)));
            assert forall|a: int, b: int| 0 <= a < b < after.len() implies after[a].0
                < after[b].0 by {
                let a0 = if a < i { a } else { a - 1 };
                let b0 = if b < i { b } else { b - 1 };
                if a != i && b != i {
                    assert(before[a0].0 < before[b0].0);
                } else if a == i {
                    assert(before[b0].0 >= price);
                    assert(before[b0].0 != price);
                } else {
                    assert(before[a0].0 < price);
                }
            }
            lemma_put(before, after, price, qty, i as int, 1);
        }
    }
}

/// A ladder that got one level at `at`, in place of another or between two.
proof fn lemma_put(
    before: Seq<(u32, i64)>,
    after: Seq<(u32, i64)>,
    price: u32,
    qty: i64,
    at: int,
    grown: int,
)
    requires
        ladder(before),
        ladder(after),
        grown == 0 || grown == 1,
        after.len() == before.len() + grown,
        0 <= at < after.len(),
        after[at] == (price, qty),
        grown == 0 ==> before[at].0 == price,
        forall|i: int| 0 <= i < at ==> after[i] == before[i],
        forall|i: int| at < i < after.len() ==> #[trigger] after[i] == before[i - grown],
    ensures
        level_map(after) == level_map(before).insert(price, qty),
{
    let target = level_map(before).insert(price, qty);
    lemma_level(after, at);
    assert forall|p: u32| level_map(after).dom().contains(p) == target.dom().contains(p) by {
        if level_map(after).dom().contains(p) {
            let i = choose|i: int| 0 <= i < after.len() && (#[trigger] after[i]).0 == p;
            assert(after[i].0 == p);
            if i < at {
                assert(before[i].0 == p);
            } else if i > at {
                assert(before[i - grown].0 == p);
            }
        }
        if level_map(before).dom().contains(p) {
            let i = choose|i: int| 0 <= i < before.len() && (#[trigger] before[i]).0 == p;
            assert(before[i].0 == p);
            if i < at {
                assert(after[i].0 == p);
            } else if grown == 0 && i == at {
                assert(after[i].0 == p);
            } else {
                assert(after[i + grown].0 == p);
            }
        }
    }
    assert forall|p: u32| level_map(after).dom().contains(p) implies level_map(after)[p]
        == target[p] by {
        let i = choose|i: int| 0 <= i < after.len() && (#[trigger] after[i]).0 == p;
        assert(after[i].0 == p);
        lemma_level(after, i);
        if i < at {
            lemma_level(before, i);
            assert(after[i].0 < after[at].0);
        } else if i > at {
            lemma_level(before, i - grown);
            assert(after[at].0 < after[i].0);
        }
    }
    assert(level_map(after) =~= target);
}

/// Takes a level out.
fn remove_level(rows: &mut Vec<(u32, i64)>, price: u32)
    requires
        ladder(old(rows)@),
    ensures
        ladder(final(rows)@),
        level_map(final(rows)@) == level_map(old(rows)@).remove(price),
{
    let ghost before = rows@;
    let i: usize = position(rows, price);
    if i < rows.len() && rows[i].0 == price {
        rows.remove(i);
        proof {
            let after = rows@;
            assert(after =~= before.remove(i as int));
            assert(ladder(after)) by {
                assert forall|a: int, b: int| 0 <= a < b < after.len() implies after[a].0
                    < after[b].0 by {
                    let a0 = if a < i { a } else { a + 1 };
                    let b0 = if b < i { b } else { b + 1 };
                    assert(before[a0].0 < before[b0].0);
                }
                assert forall|a: int| 0 <= a < after.len() implies (#[trigger] after[a]).1 > 0 by {
                    let a0 = if a < i { a } else { a + 1 };
                    assert(before[a0].1 > 0);
                }
            }
            assert(before =~= after.insert(i as int, before[i as int]));
            lemma_put(after, before, price, before[i as int].1, i as int, 1);
            assert(!level_map(after).dom().contains(price)) by {
                if has_price(after, price) {
                    let k = choose|k: int|
                        0 <= k < after.len() && (#[trigger] after[k]).0 == price;
                    assert(after[k].0 == price);
                    if k < i {
                        assert(before[k].0 < before[i as int].0);
                    } else {
                        assert(before[i as int].0 < before[k + 1].0);
                    }
                }
            }
            assert(level_map(after) =~= level_map(before).remove(price));
        }
    } else {
        proof {
            assert(level_map(before) =~= level_map(before).remove(price));
        }
    }
}

/// The contracts at a price, zero where there is no level.
pub open spec fn resting(levels: Map<u32, i64>, price: u32) -> int {
    if levels.dom().contains(price) {
        levels[price] as int
    } else {
        0
    }
}

/// Reads the contracts at a price.
fn read_level(rows: &Vec<(u32, i64)>, price: u32) -> (r: i64)
    requires
        ladder(rows@),
    ensures
        r == resting(level_map(rows@), price),
{
    let i: usize = position(rows, price);
    if i < rows.len() && rows[i].0 == price {
        proof {
            lemma_level(rows@, i as int);
        }
        rows[i].1
    } else {
        0
    }
}

// --- messages ----------------------------------------------------------------

/// The level that a `[price, quantity]` row states; rows of another shape,
/// and rows without contracts, state none.
pub open spec fn row_level(row: JsonView) -> Option<(u32, i64)> {
    match row.items() {
        Some(pair) => if pair.len() < 2 {
            None
        } else {
            match (pair[0].number(), pair[1].number()) {
                (Some(price), Some(qty)) => if saturated(qty) > 0 {
                    Some((md_of(price) as u32, saturated(qty) as i64))
                } else {
                    None
                },
                _ => None,
            }
        },
        None => None,
    }
}

/// The levels that rows state, a later row in place of an earlier one at the
/// same price.
pub open spec fn rows_levels(rows: Seq<JsonView>) -> Map<u32, i64>
    decreases rows.len(),
{
    if rows.len() == 0 {
        Map::empty()
    } else {
        let earlier = rows_levels(rows.drop_last());
        match row_level(rows.last()) {
            Some(level) => earlier.insert(level.0, level.1),
            None => earlier,
        }
    }
}

/// The levels that a side of a message states; none where it is no array.
pub open spec fn side_levels(side: JsonView) -> Map<u32, i64> {
    match side.items() {
        Some(rows) => rows_levels(rows),
        None => Map::empty(),
    }
}

/// The first of three fields that a message has.
pub open spec fn first_field(
    payload: JsonView,
    a: Seq<char>,
    b: Seq<char>,
    c: Seq<char>,
) -> Option<JsonView> {
    match payload.field(a) {
        Some(v) => Some(v),
        None => payload.either(b, c),
    }
}

/// The levels of a side after a snapshot: those that it states, or the levels
/// from before where it says nothing of the side.
pub open spec fn replaced(stated: Option<JsonView>, before: Map<u32, i64>) -> Map<u32, i64> {
    match stated {
        Some(side) => side_levels(side),
        None => before,
    }
}

/// The levels of a side after the contracts at one price have changed.
pub open spec fn adjusted(levels: Map<u32, i64>, price: u32, change: Num) -> Map<u32, i64> {
    let sum = clamp64(resting(levels, price) + saturated(change));
    if change != Num::NotANumber && sum > 0 {
        levels.insert(price, sum as i64)
    } else {
        levels.remove(price)
    }
}

/// The level that one row states.
fn read_row(row: &Json) -> (r: Option<(u32, i64)>)
    ensures
        r == row_level(row@),
{
    match row.as_items() {
        Some(pair) => {
            if pair.len() < 2 {
                return None;
            }
            match (pair[0].as_number(), pair[1].as_number()) {
                (Some(price), Some(qty)) => {
                    let amount: i64 = saturate(qty);
                    if amount > 0 {
                        Some((to_md(price), amount))
                    } else {
                        None
                    }
                },
                _ => None,
            }
        },
        None => None,
    }
}

/// Reads `[[price, quantity], ...]`, rows in any order, numbers or numeric
/// strings.
fn parse_levels(levels: &Json) -> (r: Vec<(u32, i64)>)
    ensures
        ladder(r@),
        level_map(r@) == side_levels(levels@),
{
    let mut out: Vec<(u32, i64)> = Vec::new();
    proof {
        assert(level_map(out@) =~= Map::<u32, i64>::empty());
    }
    match levels.as_items() {
        Some(rows) => {
            let ghost all = levels@.items()->Some_0;
            let mut i: usize = 0;
            while i < rows.len()
                invariant
                    i <= rows.len(),
                    all.len() == rows@.len(),
                    forall|k: int| 0 <= k < rows@.len() ==> (#[trigger] rows@[k])@ == all[k],
                    ladder(out@),
                    level_map(out@) == rows_levels(all.take(i as int)),
                decreases rows.len() - i,
            {
                proof {
                    assert(all.take(i + 1).drop_last() =~= all.take(i as int));
                    assert(all.take(i + 1).last() == all[i as int]);
                    assert(rows@[i as int]@ == all[i as int]);
                }
                match read_row(&rows[i]) {
                    Some((price, qty)) => put_level(&mut out, price, qty),
                    None => {},
                }
                i += 1;
            }
            proof {
                assert(all.take(all.len() as int) =~= all);
            }
        },
        None => {},
    }
    out
}

// --- the book ----------------------------------------------------------------

/// The resting orders of one market.
pub struct Book {
    yes: Vec<(u32, i64)>,
    no: Vec<(u32, i64)>,
}

/// The best bid of a book, in millidollars.
pub open spec fn best_bid_of(yes: Seq<(u32, i64)>) -> Option<u32> {
    highest(yes)
}

/// The best ask of a book, in millidollars. A no price above one dollar makes
/// it zero, which no bid is under.
pub open spec fn best_ask_of(no: Seq<(u32, i64)>) -> Option<u32> {
    match highest(no) {
        Some(p) => Some(
            if p <= ONE_DOLLAR_MD {
                (ONE_DOLLAR_MD - p) as u32
            } else {
                0
            },
        ),
        None => None,
    }
}

/// One dollar less a price, or zero.
fn complement(price: u32) -> (r: u32)
    ensures
        r == if price <= ONE_DOLLAR_MD {
            ONE_DOLLAR_MD - price
        } else {
            0
        },
{
    if price <= ONE_DOLLAR_MD {
        ONE_DOLLAR_MD - price
    } else {
        0
    }
}

impl Book {
    /// The bids to buy YES, in ascending price.
    pub closed spec fn yes(&self) -> Seq<(u32, i64)> {
        self.yes@
    }

    /// The bids to buy NO, in ascending price.
    pub closed spec fn no(&self) -> Seq<(u32, i64)> {
        self.no@
    }

    /// Both sides are ladders.
    pub open spec fn wf(&self) -> bool {
        ladder(self.yes()) && ladder(self.no())
    }

    /// Both sides exist and the book is not crossed.
    pub open spec fn valid(&self) -> bool {
        match (best_bid_of(self.yes()), best_ask_of(self.no())) {
            (Some(bid), Some(ask)) => ask > bid,
            _ => false,
        }
    }

    /// The best bid in millidollars.
    pub open spec fn bid(&self) -> u32 {
        best_bid_of(self.yes())->Some_0
    }

    /// The best ask in millidollars.
    pub open spec fn ask(&self) -> u32 {
        best_ask_of(self.no())->Some_0
    }

    /// The midpoint in billionths of a dollar.
    pub open spec fn middle(&self) -> int {
        (self.bid() + self.ask()) * HALF_MD_NANO
    }

    /// An empty book.
    pub fn new() -> (r: Self)
        ensures
            r.wf(),
            r.yes() == Seq::<(u32, i64)>::empty(),
            r.no() == Seq::<(u32, i64)>::empty(),
    {
        Book { yes: Vec::new(), no: Vec::new() }
    }

    /// Loads a snapshot. Only the sides that it holds are replaced, so that
    /// snapshots of one side each make up a book.
    pub fn load_snapshot(&mut self, payload: &Json)
        requires
            old(self).wf(),
        ensures
            final(self).wf(),
            level_map(final(self).yes()) == replaced(
                first_field(payload@, "yes_dollars_fp"@, "yes_dollars"@, "yes"@),
                level_map(old(self).yes()),
            ),
            level_map(final(self).no()) == replaced(
                first_field(payload@, "no_dollars_fp"@, "no_dollars"@, "no"@),
                level_map(old(self).no()),
            ),
            first_field(payload@, "yes_dollars_fp"@, "yes_dollars"@, "yes"@) is None ==> final(
                self).yes() == old(self).yes(),
            first_field(payload@, "no_dollars_fp"@, "no_dollars"@, "no"@) is None ==> final(
                self).no() == old(self).no(),
    {
        let yes = match payload.get("yes_dollars_fp") {
            Some(v) => Some(v),
            None => payload.get_either("yes_dollars", "yes"),
        };
        match yes {
            Some(levels) => {
                self.yes = parse_levels(levels);
            },
            None => {},
        }
        let no = match payload.get("no_dollars_fp") {
            Some(v) => Some(v),
            None => payload.get_either("no_dollars", "no"),
        };
        match no {
            Some(levels) => {
                self.no = parse_levels(levels);
            },
            None => {},
        }
    }

    /// Changes the contracts of one level; a level without contracts goes.
    /// Any side but "yes" is the no side.
    pub fn apply_delta(&mut self, side: &str, price_dollars: Num, delta_qty: Num)
        requires
            old(self).wf(),
        ensures
            final(self).wf(),
            side@ == "yes"@ ==> {
                &&& level_map(final(self).yes()) == adjusted(
                    level_map(old(self).yes()),
                    md_of(price_dollars) as u32,
                    delta_qty,
                )
                &&& final(self).no() == old(self).no()
            },
            side@ != "yes"@ ==> {
                &&& level_map(final(self).no()) == adjusted(
                    level_map(old(self).no()),
                    md_of(price_dollars) as u32,
                    delta_qty,
                )
                &&& final(self).yes() == old(self).yes()
            },
    {
        let key: u32 = to_md(price_dollars);
        if same(side, "yes") {
            adjust(&mut self.yes, key, delta_qty);
        } else {
            adjust(&mut self.no, key, delta_qty);
        }
    }

    /// The highest YES bid in millidollars.
    pub fn best_bid_md(&self) -> (r: Option<u32>)
        ensures
            r == best_bid_of(self.yes()),
    {
        if self.yes.len() == 0 {
            None
        } else {
            Some(self.yes[self.yes.len() - 1].0)
        }
    }

    /// The lowest YES ask in millidollars.
    pub fn best_ask_md(&self) -> (r: Option<u32>)
        ensures
            r == best_ask_of(self.no()),
    {
        if self.no.len() == 0 {
            None
        } else {
            Some(complement(self.no[self.no.len() - 1].0))
        }
    }

    /// True when both sides exist and the book is not crossed.
    pub fn is_valid(&self) -> (r: bool)
        ensures
            r == self.valid(),
    {
        match (self.best_bid_md(), self.best_ask_md()) {
            (Some(bid), Some(ask)) => ask > bid,
            _ => false,
        }
    }

    /// The best bid in billionths of a dollar.
    pub fn best_bid(&self) -> (r: Option<i64>)
        ensures
            match best_bid_of(self.yes()) {
                Some(md) => r == Some((md * MD_NANO) as i64) && r->Some_0 == md * MD_NANO,
                None => r is None,
            },
    {
        match self.best_bid_md() {
            Some(md) => Some(to_dollars(md)),
            None => None,
        }
    }

    /// The best ask in billionths of a dollar.
    pub fn best_ask(&self) -> (r: Option<i64>)
        ensures
            match best_ask_of(self.no()) {
                Some(md) => r == Some((md * MD_NANO) as i64) && r->Some_0 == md * MD_NANO,
                None => r is None,
            },
    {
        match self.best_ask_md() {
            Some(md) => Some(to_dollars(md)),
            None => None,
        }
    }

    /// The midpoint of a valid book, in billionths of a dollar.
    pub fn mid(&self) -> (r: Option<i64>)
        ensures
            r is Some <==> self.valid(),
            r is Some ==> r->Some_0 == self.middle(),
    {
        if !self.is_valid() {
            return None;
        }
        match (self.best_bid_md(), self.best_ask_md()) {
            (Some(bid), Some(ask)) => Some((bid as i64 + ask as i64) * HALF_MD_NANO),
            _ => None,
        }
    }

    /// The spread of a valid book, in billionths of a dollar.
    pub fn spread(&self) -> (r: Option<i64>)
        ensures
            r is Some <==> self.valid(),
            r is Some ==> r->Some_0 == (self.ask() - self.bid()) * MD_NANO,
    {
        if !self.is_valid() {
            return None;
        }
        match (self.best_bid_md(), self.best_ask_md()) {
            (Some(bid), Some(ask)) => Some((ask as i64 - bid as i64) * MD_NANO),
            _ => None,
        }
    }

    /// The `n` highest YES bids as price and contracts, best first.
    pub fn bid_levels(&self, n: usize) -> (r: Vec<(i64, i64)>)
        ensures
            r@ == bid_rows(self.yes(), n as nat),
    {
        let mut out: Vec<(i64, i64)> = Vec::new();
        while out.len() < n && out.len() < self.yes.len()
            invariant
                out.len() <= n,
                out.len() <= self.yes.len(),
                out@ == bid_rows(self.yes@, out.len() as nat),
            decreases self.yes.len() - out.len(),
        {
            let i: usize = self.yes.len() - 1 - out.len();
            out.push((to_dollars(self.yes[i].0), self.yes[i].1));
            assert(out@ =~= bid_rows(self.yes@, out.len() as nat));
        }
        assert(out@ =~= bid_rows(self.yes@, n as nat));
        out
    }

    /// The `n` lowest YES asks as price and contracts, best first. The prices
    /// come from the NO bids, and so do the contracts.
    pub fn ask_levels(&self, n: usize) -> (r: Vec<(i64, i64)>)
        ensures
            r@ == ask_rows(self.no(), n as nat),
    {
        let mut out: Vec<(i64, i64)> = Vec::new();
        while out.len() < n && out.len() < self.no.len()
            invariant
                out.len() <= n,
                out.len() <= self.no.len(),
                out@ == ask_rows(self.no@, out.len() as nat),
            decreases self.no.len() - out.len(),
        {
            let i: usize = self.no.len() - 1 - out.len();
            out.push((to_dollars(complement(self.no[i].0)), self.no[i].1));
            assert(out@ =~= ask_rows(self.no@, out.len() as nat));
        }
        assert(out@ =~= ask_rows(self.no@, n as nat));
        out
    }
}

/// The `n` highest levels of a ladder, highest first.
pub open spec fn top_rows(rows: Seq<(u32, i64)>, n: nat) -> Seq<(u32, i64)> {
    let count = if n < rows.len() {
        n
    } else {
        rows.len()
    };
    Seq::new(count, |i: int| rows[rows.len() - 1 - i])
}

/// The `n` best bids, prices in billionths of a dollar.
pub open spec fn bid_rows(yes: Seq<(u32, i64)>, n: nat) -> Seq<(i64, i64)> {
    top_rows(yes, n).map_values(|row: (u32, i64)| ((row.0 * MD_NANO) as i64, row.1))
}

/// The `n` best asks, prices in billionths of a dollar.
pub open spec fn ask_rows(no: Seq<(u32, i64)>, n: nat) -> Seq<(i64, i64)> {
    top_rows(no, n).map_values(
        |row: (u32, i64)|
            (
                (if row.0 <= ONE_DOLLAR_MD {
                    (ONE_DOLLAR_MD - row.0) * MD_NANO
                } else {
                    0
                }) as i64,
                row.1,
            ),
    )
}

/// Changes the contracts at one price.
fn adjust(rows: &mut Vec<(u32, i64)>, price: u32, change: Num)
    requires
        ladder(old(rows)@),
    ensures
        ladder(final(rows)@),
        level_map(final(rows)@) == adjusted(level_map(old(rows)@), price, change),
{
    let sum: i64 = add64(read_level(rows, price), saturate(change));
    let counts = match change {
        Num::NotANumber => false,
        _ => true,
    };
    if counts && sum > 0 {
        put_level(rows, price, sum);
    } else {
        remove_level(rows, price);
    }
}

/// A valid book has its bid under its ask, and both within the dollar.
pub proof fn law_valid_book_is_not_crossed(book: Book)
    requires
        book.valid(),
    ensures
        book.bid() < book.ask() <= ONE_DOLLAR_MD,
        book.bid() * MD_NANO < book.middle() < book.ask() * MD_NANO,
{
}

/// A change and its opposite leave the level as it was: a level that a change
/// made goes with the opposite change, and one that was there comes back to
/// its contracts. (While the sums stay in range and the level does not run
/// out between the two.)
pub proof fn law_opposite_changes_cancel(levels: Map<u32, i64>, price: u32, up: i64)
    requires
        resting(levels, price) >= 0,
        levels.dom().contains(price) ==> levels[price] > 0,
        up > 0,
        resting(levels, price) + up <= i64::MAX,
    ensures
        adjusted(
            adjusted(levels, price, Num::Finite(up as i128)),
            price,
            Num::Finite(-up as i128),
        ) == levels,
{
    let mid = adjusted(levels, price, Num::Finite(up as i128));
    assert(resting(mid, price) == resting(levels, price) + up);
    assert(adjusted(mid, price, Num::Finite(-up as i128)) =~= levels);
}

/// A change leaves every other price alone.
pub proof fn law_change_touches_one_price(
    levels: Map<u32, i64>,
    price: u32,
    change: Num,
    other: u32,
)
    requires
        other != price,
    ensures
        adjusted(levels, price, change).dom().contains(other) == levels.dom().contains(other),
        levels.dom().contains(other) ==> adjusted(levels, price, change)[other] == levels[other],
{
}

// --- fees and quotes ---------------------------------------------------------

/// A cent in billionths of a dollar.
pub const CENT_NANO: i64 = 10_000_000;

/// One cent, as the product of a rate, a price and its complement in
/// billionths each.
pub const FEE_UNIT: i128 = 10_000_000_000_000_000_000_000_000;

/// The largest fee, in cents: as many as an amount of money holds.
pub const FEE_CAP: i128 = 922_337_203_685;

/// The fee of a fill in cents, rounded up: rate * contracts * p * (1 - p).
pub open spec fn fee_cents(rate: int, contracts: int, price: int) -> int {
    clamp(
        ceil_div(rate * contracts * price * (NANO - price), FEE_UNIT as int),
        -(FEE_CAP as int),
        FEE_CAP as int,
    )
}

/// The fee of a fill in billionths of a dollar.
pub open spec fn fee_of(rate: int, contracts: int, price: int) -> int {
    fee_cents(rate, contracts, price) * CENT_NANO
}

/// The fee of a fill, rounded up to the next cent.
pub fn ceil_cent_fee(rate: i64, contracts: i64, price: i64) -> (r: i64)
    ensures
        r == fee_of(rate as int, contracts as int, price as int),
        -(FEE_CAP as int) * CENT_NANO <= r <= FEE_CAP * CENT_NANO,
{
    let rest: i128 = NANO as i128 - price as i128;
    proof {
        assert(-0x4000_0000_0000_0000_0000_0000_0000_0000 <= rate * contracts
            <= 0x4000_0000_0000_0000_0000_0000_0000_0000) by (nonlinear_arith)
            requires
                i64::MIN <= rate <= i64::MAX,
                i64::MIN <= contracts <= i64::MAX,
        ;
    }
    let volume: i128 = rate as i128 * contracts as i128;
    let value: i128 = mul128(mul128(volume, price as i128), rest);
    proof {
        lemma_saturated_product(volume * price, rest as int);
    }
    let (q, m) = floor_div(value, FEE_UNIT);
    let up: i128 = if m > 0 {
        q + 1
    } else {
        q
    };
    proof {
        lemma_ceil_by_floor(value as int, FEE_UNIT as int);
    }
    let cents: i128 = if up > FEE_CAP {
        FEE_CAP
    } else if up < -FEE_CAP {
        -FEE_CAP
    } else {
        up
    };
    proof {
        let full = volume * price * rest;
        if value != full {
            if full > 0 {
                assert(value >= FEE_CAP * FEE_UNIT && full >= FEE_CAP * FEE_UNIT);
            } else {
                assert(value <= -FEE_CAP * FEE_UNIT && full <= -FEE_CAP * FEE_UNIT);
            }
        }
    }
    cents as i64 * CENT_NANO
}

/// Rounding up is rounding down, and one more where something is left.
proof fn lemma_ceil_by_floor(n: int, d: int)
    requires
        d > 0,
    ensures
        ceil_div(n, d) == n / d + (if n % d > 0 {
            1int
        } else {
            0
        }),
{
    vstd::arithmetic::div_mod::lemma_fundamental_div_mod(n, d);
    let q = n / d;
    let r = n % d;
    if r > 0 {
        assert(-n == d * (-q - 1) + (d - r)) by (nonlinear_arith)
            requires
                n == d * q + r,
        ;
        vstd::arithmetic::mul::lemma_mul_is_commutative(d, -q - 1);
        vstd::arithmetic::div_mod::lemma_fundamental_div_mod_converse(-n, d, -q - 1, d - r);
    } else {
        assert(-n == d * (-q)) by (nonlinear_arith)
            requires
                n == d * q + r,
                r == 0,
        ;
        vstd::arithmetic::mul::lemma_mul_is_commutative(d, -q);
        vstd::arithmetic::div_mod::lemma_fundamental_div_mod_converse(-n, d, -q, 0);
    }
}

/// A product that stopped at the end of the range on the way is at the end of
/// the range, or as good as.
proof fn lemma_saturated_product(x: int, y: int)
    ensures
        ({
            let kept = clamp128(clamp128(x) * y);
            ||| kept == x * y
            ||| kept >= i128::MAX && x * y >= i128::MAX
            ||| kept <= -i128::MAX && x * y <= -i128::MAX
        }),
{
    let top = i128::MAX as int;
    if y == 0 {
        assert(x * y == 0 && clamp128(x) * y == 0) by (nonlinear_arith)
            requires
                y == 0,
        ;
    } else if x > top {
        if y > 0 {
            assert(x * y >= top && top * y >= top) by (nonlinear_arith)
                requires
                    x > top,
                    y > 0,
                    top > 0,
            ;
        } else {
            assert(x * y <= -top && top * y <= -top) by (nonlinear_arith)
                requires
                    x > top,
                    y < 0,
                    top > 0,
            ;
        }
    } else if x < i128::MIN {
        let low = i128::MIN as int;
        if y > 0 {
            assert(x * y <= low && low * y <= low) by (nonlinear_arith)
                requires
                    x < low,
                    y > 0,
                    low < 0,
            ;
        } else {
            assert(x * y >= -low && low * y >= -low) by (nonlinear_arith)
                requires
                    x < low,
                    y < 0,
                    low < 0,
            ;
        }
    }
}

/// A price rounded to four decimals, in billionths of a dollar.
pub open spec fn four_decimals(x: int) -> int {
    round_away(x, 100_000) * 100_000
}

/// Money rounded to millionths of a dollar.
pub open spec fn micros(x: int) -> int {
    round_away(x, 1000)
}

/// The bid that stays a tick under the market's ask.
pub open spec fn passive_bid(bid: int, best_ask: int, tick: int) -> int {
    clamp64(four_decimals(if bid < best_ask - tick {
        bid
    } else {
        best_ask - tick
    }))
}

/// The ask that stays a tick over the market's bid.
pub open spec fn passive_ask(ask: int, best_bid: int, tick: int) -> int {
    clamp64(four_decimals(if ask > best_bid + tick {
        ask
    } else {
        best_bid + tick
    }))
}

/// Makes quotes passive: the bid stays under the market's ask and the ask over
/// the market's bid. None where the two would then cross each other.
pub fn clamp_quotes(bid: i64, ask: i64, best_bid: i64, best_ask: i64, tick: i64) -> (r: Option<
    (i64, i64),
>)
    ensures
        ({
            let b = passive_bid(bid as int, best_ask as int, tick as int);
            let a = passive_ask(ask as int, best_bid as int, tick as int);
            r == if a <= b {
                None::<(i64, i64)>
            } else {
                Some((b as i64, a as i64))
            }
        }),
{
    let under: i128 = best_ask as i128 - tick as i128;
    let over: i128 = best_bid as i128 + tick as i128;
    let low: i128 = if (bid as i128) < under {
        bid as i128
    } else {
        under
    };
    let high: i128 = if (ask as i128) > over {
        ask as i128
    } else {
        over
    };
    let b: i64 = to_i64(div_away(low, 100_000) * 100_000);
    let a: i64 = to_i64(div_away(high, 100_000) * 100_000);
    if a <= b {
        return None;
    }
    Some((b, a))
}

/// What a round trip at these quotes earns before fees.
pub open spec fn captured(bid: int, ask: int, size: int) -> int {
    (ask - bid) * size
}

/// What a round trip at these quotes costs: both fees and the edge.
pub open spec fn round_trip_cost(bid: int, ask: int, fee_rate: int, size: int, min_edge: int) -> int {
    fee_of(fee_rate, size, bid) + fee_of(fee_rate, size, ask) + min_edge * size
}

/// True when the quoted spread beats the round trip's fees and the least edge.
pub fn quote_edge_ok(bid: i64, ask: i64, fee_rate: i64, size: i64, min_edge: i64) -> (r: bool)
    ensures
        r == (micros(captured(bid as int, ask as int, size as int)) > micros(
            round_trip_cost(
                bid as int,
                ask as int,
                fee_rate as int,
                size as int,
                min_edge as int,
            ),
        )),
{
    let fee_buy: i64 = ceil_cent_fee(fee_rate, size, bid);
    let fee_sell: i64 = ceil_cent_fee(fee_rate, size, ask);
    proof {
        assert(i128::MIN < (ask - bid) * size <= i128::MAX) by (nonlinear_arith)
            requires
                i64::MIN <= bid <= i64::MAX,
                i64::MIN <= ask <= i64::MAX,
                i64::MIN <= size <= i64::MAX,
        ;
        assert(-0x4000_0000_0000_0000_0000_0000_0000_0000 <= min_edge * size
            <= 0x4000_0000_0000_0000_0000_0000_0000_0000) by (nonlinear_arith)
            requires
                i64::MIN <= min_edge <= i64::MAX,
                i64::MIN <= size <= i64::MAX,
        ;
    }
    let earned: i128 = (ask as i128 - bid as i128) * size as i128;
    let cost: i128 = fee_buy as i128 + fee_sell as i128 + min_edge as i128 * size as i128;
    div_away(earned, 1000) > div_away(cost, 1000)
}

/// Clamped quotes never cross the touch: where the touch is in ten-thousandths
/// and the tick is more than half of one, the bid stays under the market's ask
/// and the ask over the market's bid. With a tick in ten-thousandths too they
/// stay a full tick away.
pub proof fn law_clamped_quotes_are_passive(
    bid: i64,
    ask: i64,
    best_bid: i64,
    best_ask: i64,
    tick: i64,
)
    requires
        best_ask % 100_000 == 0,
        best_bid % 100_000 == 0,
        tick > 50_000,
        i64::MIN <= best_ask - tick,
        best_bid + tick <= i64::MAX,
    ensures
        passive_bid(bid as int, best_ask as int, tick as int) < best_ask,
        passive_ask(ask as int, best_bid as int, tick as int) > best_bid,
        tick % 100_000 == 0 ==> {
            &&& passive_bid(bid as int, best_ask as int, tick as int) <= best_ask - tick
            &&& passive_ask(ask as int, best_bid as int, tick as int) >= best_bid + tick
        },
{
    let low = if bid < best_ask - tick { bid as int } else { best_ask - tick };
    let high = if ask > best_bid + tick { ask as int } else { best_bid + tick };
    lemma_round_away_monotone(low, best_ask - tick, 100_000);
    lemma_round_away_monotone(best_bid + tick, high, 100_000);
    let k = best_ask as int / 100_000;
    assert(best_ask == k * 100_000);
    assert(round_away(best_ask - tick, 100_000) < k);
    assert(round_away(best_bid + tick, 100_000) * 100_000 > best_bid);
    if tick % 100_000 == 0 {
        assert(round_away(best_ask - tick, 100_000) * 100_000 == best_ask - tick);
        assert(round_away(best_bid + tick, 100_000) * 100_000 == best_bid + tick);
    }
}

/// Rounding keeps order.
pub proof fn lemma_round_away_monotone(a: int, b: int, d: int)
    requires
        a <= b,
        d > 0,
    ensures
        round_away(a, d) <= round_away(b, d),
{
    if a >= 0 {
        vstd::arithmetic::div_mod::lemma_div_is_ordered(2 * a + d, 2 * b + d, 2 * d);
    } else if b < 0 {
        vstd::arithmetic::div_mod::lemma_div_is_ordered(d - 2 * b, d - 2 * a, 2 * d);
    } else {
        vstd::arithmetic::div_mod::lemma_div_pos_is_pos(d - 2 * a, 2 * d);
        vstd::arithmetic::div_mod::lemma_div_pos_is_pos(2 * b + d, 2 * d);
    }
}

/// Quotes that pass the edge test earn more than they cost, whatever the
/// rounding: a spread that fees consume is never quoted.
pub proof fn law_edge_beats_costs(bid: i64, ask: i64, fee_rate: i64, size: i64, min_edge: i64)
    requires
        micros(captured(bid as int, ask as int, size as int)) > micros(
            round_trip_cost(bid as int, ask as int, fee_rate as int, size as int, min_edge as int),
        ),
    ensures
        captured(bid as int, ask as int, size as int) > round_trip_cost(
            bid as int,
            ask as int,
            fee_rate as int,
            size as int,
            min_edge as int,
        ),
{
    let c = captured(bid as int, ask as int, size as int);
    let k = round_trip_cost(bid as int, ask as int, fee_rate as int, size as int, min_edge as int);
    if c <= k {
        lemma_round_away_monotone(c, k, 1000);
    }
}

/// A fee covers the exact charge, and by less than a cent (up to the largest
/// fee); at a price within the dollar it is never negative.
pub proof fn law_fee_rounds_up(rate: int, contracts: int, price: int)
    requires
        rate >= 0,
        contracts >= 0,
        0 <= price <= NANO,
        rate * contracts * price * (NANO - price) <= FEE_CAP * FEE_UNIT,
    ensures
        fee_cents(rate, contracts, price) >= 0,
        fee_cents(rate, contracts, price) * FEE_UNIT >= rate * contracts * price * (NANO - price),
        fee_cents(rate, contracts, price) * FEE_UNIT < rate * contracts * price * (NANO - price)
            + FEE_UNIT,
{
    let x = rate * contracts * price * (NANO - price);
    assert(rate * contracts >= 0) by (nonlinear_arith)
        requires
            rate >= 0,
            contracts >= 0,
    ;
    assert(rate * contracts * price >= 0) by (nonlinear_arith)
        requires
            rate * contracts >= 0,
            price >= 0,
    ;
    assert(x >= 0) by (nonlinear_arith)
        requires
            rate * contracts * price >= 0,
            NANO - price >= 0,
            x == rate * contracts * price * (NANO - price),
    ;
    lemma_ceil_by_floor(x, FEE_UNIT as int);
}

// --- mid samples and trade prints --------------------------------------------

/// The span of one mid sample, in microseconds.
pub const SAMPLE_WINDOW: i64 = 60_000_000;

/// The number of mid samples kept.
pub const SAMPLES_KEPT: usize = 20;

/// The last `n` items of a sequence.
pub open spec fn last_items<T>(s: Seq<T>, n: nat) -> Seq<T> {
    if s.len() > n {
        s.subrange(s.len() - n, s.len() as int)
    } else {
        s
    }
}

/// A new window opens with this sample.
pub open spec fn opens_window(hist: Seq<i64>, last: int, now: int) -> bool {
    hist.len() == 0 || now - last >= SAMPLE_WINDOW
}

/// The mid history after a sample: one entry per window, the last one
/// refreshed while its window is open.
pub open spec fn sampled(hist: Seq<i64>, last: int, now: int, mid: i64) -> Seq<i64> {
    if opens_window(hist, last, now) {
        last_items(hist.push(mid), SAMPLES_KEPT as nat)
    } else {
        hist.update(hist.len() - 1, mid)
    }
}

/// Samples the mid price; returns the time of the sample that is open.
pub fn sample_mid(hist: &mut Vec<i64>, last_sample_ts: i64, now_ts: i64, mid: i64) -> (r: i64)
    ensures
        final(hist)@ == sampled(old(hist)@, last_sample_ts as int, now_ts as int, mid),
        r == if opens_window(old(hist)@, last_sample_ts as int, now_ts as int) {
            now_ts
        } else {
            last_sample_ts
        },
{
    if hist.len() == 0 || now_ts as i128 - last_sample_ts as i128 >= SAMPLE_WINDOW as i128 {
        hist.push(mid);
        if hist.len() > SAMPLES_KEPT {
            let extra: usize = hist.len() - SAMPLES_KEPT;
            let kept = hist.split_off(extra);
            *hist = kept;
        }
        return now_ts;
    }
    let end: usize = hist.len() - 1;
    hist.set(end, mid);
    last_sample_ts
}

/// How far back trade prints count, in microseconds.
pub const TRADE_WINDOW: i64 = 60_000_000;

/// Which side the taker of a public trade was on.
#[derive(Debug, Clone, Copy, PartialEq, Eq, Structural)]
pub enum TakerSide {
    Yes,
    No,
}

/// One public trade print: arrival time, contracts, taker's side.
pub type TradePrint = (i64, i64, TakerSide);

/// The prints before the first one that is not older than the window.
pub open spec fn stale_count(trades: Seq<TradePrint>, now: int) -> nat
    decreases trades.len(),
{
    if trades.len() > 0 && trades[0].0 < now - TRADE_WINDOW {
        1 + stale_count(trades.drop_first(), now)
    } else {
        0
    }
}

/// The prints left once the stale ones at the front are gone.
pub open spec fn fresh(trades: Seq<TradePrint>, now: int) -> Seq<TradePrint> {
    trades.skip(stale_count(trades, now) as int)
}

/// The stale prints are a prefix of the prints.
proof fn lemma_stale_count(trades: Seq<TradePrint>, now: int, k: int)
    requires
        0 <= k <= trades.len(),
        forall|i: int| 0 <= i < k ==> (#[trigger] trades[i]).0 < now - TRADE_WINDOW,
        k == trades.len() || trades[k].0 >= now - TRADE_WINDOW,
    ensures
        stale_count(trades, now) == k,
    decreases k,
{
    if k > 0 {
        let rest = trades.drop_first();
        assert(trades[0].0 < now - TRADE_WINDOW);
        assert forall|i: int| 0 <= i < k - 1 implies (#[trigger] rest[i]).0 < now
            - TRADE_WINDOW by {
            assert(rest[i] == trades[i + 1]);
        }
        lemma_stale_count(rest, now, k - 1);
    }
}

/// Drops the trade prints older than the window. Prints arrive in time order,
/// so the stale ones come first.
pub fn prune_trades(trades: &mut Vec<TradePrint>, now_s: i64)
    ensures
        final(trades)@ == fresh(old(trades)@, now_s as int),
{
    let cutoff: i128 = now_s as i128 - TRADE_WINDOW as i128;
    let mut k: usize = 0;
    while k < trades.len() && (trades[k].0 as i128) < cutoff
        invariant
            k <= trades.len(),
            cutoff == now_s - TRADE_WINDOW,
            trades@ == old(trades)@,
            forall|i: int| 0 <= i < k ==> (#[trigger] trades@[i]).0 < cutoff,
        decreases trades.len() - k,
    {
        k += 1;
    }
    proof {
        lemma_stale_count(trades@, now_s as int, k as int);
        assert(trades@.skip(k as int) =~= trades@.subrange(k as int, trades@.len() as int));
    }
    let kept = trades.split_off(k);
    *trades = kept;
}

/// The contracts of the prints whose taker was on `side`.
pub open spec fn volume(trades: Seq<TradePrint>, side: TakerSide) -> int
    decreases trades.len(),
{
    if trades.len() == 0 {
        0
    } else {
        volume(trades.drop_last(), side) + (if trades.last().2 == side {
            trades.last().1 as int
        } else {
            0
        })
    }
}

/// What one print adds to the volume feature, in billionths.
pub const PRINT_SHARE: i64 = 20_000_000;

/// The trade volume feature: prints per fifty, at most one.
pub open spec fn volume_feature(trades: Seq<TradePrint>) -> int {
    clamp(trades.len() * PRINT_SHARE, 0, NANO as int)
}

/// The flow feature: contracts bought less contracts sold, over all of them.
/// Where the taker bought NO the maker bought YES, and that side counts.
pub open spec fn flow_feature(trades: Seq<TradePrint>) -> int {
    let bought = clamp64(volume(trades, TakerSide::No));
    let sold = clamp64(volume(trades, TakerSide::Yes));
    let total = if bought + sold > 1 {
        bought + sold
    } else {
        1
    };
    clamp64(round_even((bought - sold) * NANO, total))
}

/// The trade volume and flow features, from the prints of the window.
pub fn trade_window_features(trades: &mut Vec<TradePrint>, now_s: i64) -> (r: (i64, i64))
    ensures
        final(trades)@ == fresh(old(trades)@, now_s as int),
        final(trades)@.len() == 0 ==> r == (0i64, 0i64),
        r.0 == volume_feature(final(trades)@),
        r.1 == flow_feature(final(trades)@),
{
    prune_trades(trades, now_s);
    let mut bought: i128 = 0;
    let mut sold: i128 = 0;
    let mut i: usize = 0;
    while i < trades.len()
        invariant
            i <= trades.len(),
            trades@ == fresh(old(trades)@, now_s as int),
            bought == volume(trades@.take(i as int), TakerSide::No),
            sold == volume(trades@.take(i as int), TakerSide::Yes),
            -i * 0x8000_0000_0000_0000 <= bought <= i * 0x8000_0000_0000_0000,
            -i * 0x8000_0000_0000_0000 <= sold <= i * 0x8000_0000_0000_0000,
        decreases trades.len() - i,
    {
        proof {
            let seen = trades@.take(i + 1);
            assert(seen.drop_last() =~= trades@.take(i as int));
            assert(seen.last() == trades@[i as int]);
        }
        match trades[i].2 {
            TakerSide::No => {
                bought = bought + trades[i].1 as i128;
            },
            TakerSide::Yes => {
                sold = sold + trades[i].1 as i128;
            },
        }
        i += 1;
    }
    proof {
        assert(trades@.take(trades@.len() as int) =~= trades@);
    }
    let b: i128 = to_i64(bought) as i128;
    let s: i128 = to_i64(sold) as i128;
    let total: i128 = if b + s > 1 {
        b + s
    } else {
        1
    };
    let flow: i64 = to_i64(div_even((b - s) * NANO as i128, total));
    let prints: i64 = if trades.len() >= 50 {
        NANO
    } else {
        trades.len() as i64 * PRINT_SHARE
    };
    (prints, flow)
}

/// With counts that are not negative the flow lies within one either way.
pub proof fn law_flow_is_a_share(trades: Seq<TradePrint>)
    requires
        forall|i: int| 0 <= i < trades.len() ==> (#[trigger] trades[i]).1 >= 0,
    ensures
        -NANO <= flow_feature(trades) <= NANO,
{
    lemma_volume_nonnegative(trades, TakerSide::No);
    lemma_volume_nonnegative(trades, TakerSide::Yes);
    let bought = clamp64(volume(trades, TakerSide::No));
    let sold = clamp64(volume(trades, TakerSide::Yes));
    let total = if bought + sold > 1 { bought + sold } else { 1 };
    lemma_share(bought - sold, total);
}

/// A part over a whole rounds to at most one either way.
pub proof fn lemma_share(part: int, whole: int)
    requires
        whole > 0,
        -whole <= part <= whole,
    ensures
        -NANO <= round_even(part * NANO, whole) <= NANO,
{
    let n = part * NANO;
    assert(-NANO * whole <= n <= NANO * whole);
    vstd::arithmetic::div_mod::lemma_fundamental_div_mod(n, whole);
    let q = n / whole;
    let r = n % whole;
    assert(-NANO <= q && (q < NANO || (q == NANO && r == 0))) by (nonlinear_arith)
        requires
            -NANO * whole <= n <= NANO * whole,
            n == whole * q + r,
            0 <= r < whole,
            whole > 0,
    ;
}

proof fn lemma_volume_nonnegative(trades: Seq<TradePrint>, side: TakerSide)
    requires
        forall|i: int| 0 <= i < trades.len() ==> (#[trigger] trades[i]).1 >= 0,
    ensures
        volume(trades, side) >= 0,
    decreases trades.len(),
{
    if trades.len() > 0 {
        lemma_volume_nonnegative(trades.drop_last(), side);
        assert(trades[trades.len() - 1].1 >= 0);
    }
}

/// The history never holds more than the samples kept, and its last entry is
/// the newest mid.
pub proof fn law_history_is_bounded(hist: Seq<i64>, last: int, now: int, mid: i64)
    ensures
        sampled(hist, last, now, mid).len() > 0,
        sampled(hist, last, now, mid).last() == mid,
        hist.len() <= SAMPLES_KEPT ==> sampled(hist, last, now, mid).len() <= SAMPLES_KEPT,
{
}

} // verus!
