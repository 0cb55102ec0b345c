//! The deployment configuration: parameters, their defaults and their checks.

use vstd::prelude::*;

use crate::num::{
    clamp64, div_even, number_in, parse_number, round_even, saturate, saturated, to_i64, Num, NANO,
};
use crate::text::{join2, join3, same, starts_with};
use crate::toml_tree::{toml_parsed, toml_seen, Toml, TomlView};

verus! {

/// The strategy's parameters.
#[derive(Debug, Clone)]
pub struct MmParams {
    /// The inventory that counts as full in an observation.
    pub max_inventory: i64,
    /// Contracts per quote, as an observation sees it.
    pub quote_size: i64,
    /// The maker fee rate in billionths.
    pub maker_fee_rate: i64,
    /// The taker fee rate in billionths.
    pub taker_fee_rate: i64,
    /// Step in front of the queue by a tenth of a cent where the market has
    /// such a step.
    pub subpenny_enabled: bool,
    /// No quotes while the mid price moves more than this, in billionths of a
    /// dollar.
    pub vol_filter_threshold: i64,
    /// The edge per contract beyond the round trip's fees.
    pub min_quote_edge: i64,
    /// The most resting orders at one time.
    pub max_open_orders: u64,
    /// The pause after an order was refused for want of balance, in
    /// microseconds.
    pub balance_backoff_s: i64,
    /// No quotes while the mid price lies outside this band.
    pub quote_band_lo: i64,
    pub quote_band_hi: i64,
    /// Contracts per quote on a side whose price lies in the extreme band.
    pub extreme_quote_size: i64,
    /// How far from zero or one dollar a price is extreme.
    pub extreme_band: i64,
}

impl Default for MmParams {
    fn default() -> (r: Self)
        ensures
            r == (MmParams {
                max_inventory: 20,
                quote_size: 1,
                maker_fee_rate: 17_500_000,
                taker_fee_rate: 70_000_000,
                subpenny_enabled: true,
                vol_filter_threshold: 50_000_000,
                min_quote_edge: 10_000_000,
                max_open_orders: 60,
                balance_backoff_s: 60_000_000,
                quote_band_lo: 50_000_000,
                quote_band_hi: 950_000_000,
                extreme_quote_size: 2,
                extreme_band: 100_000_000,
            }),
    {
        MmParams {
            max_inventory: 20,
            quote_size: 1,
            maker_fee_rate: 17_500_000,
            taker_fee_rate: 70_000_000,
            subpenny_enabled: true,
            vol_filter_threshold: 50_000_000,
            min_quote_edge: 10_000_000,
            max_open_orders: 60,
            balance_backoff_s: 60_000_000,
            quote_band_lo: 50_000_000,
            quote_band_hi: 950_000_000,
            extreme_quote_size: 2,
            extreme_band: 100_000_000,
        }
    }
}

/// The parameters of the spot-feed defence. Only categories with a spot feed
/// use them.
#[derive(Debug, Clone)]
pub struct SpotParams {
    /// A feed silent for longer than this, in microseconds, is stale.
    pub stale_max_s: i64,
    /// A return over sixty seconds beyond this closes the barrier.
    pub gate_ret_60s: i64,
    /// Once closed, the barrier opens when the return falls below
    /// `gate_ret_60s` times this.
    pub gate_release_ratio: i64,
    /// The horizon of the spot average, in microseconds.
    pub fv_ema_tau_s: i64,
    /// The largest shift of a quote.
    pub fv_shift_max: i64,
    /// The adverse shift from which a position is unwound.
    pub unwind_shift: i64,
    /// The largest slope of a ladder, in billionths per dollar.
    pub delta_max: i64,
}

impl Default for SpotParams {
    fn default() -> (r: Self)
        ensures
            r == (SpotParams {
                stale_max_s: 10_000_000,
                gate_ret_60s: 1_500_000,
                gate_release_ratio: 700_000_000,
                fv_ema_tau_s: 60_000_000,
                fv_shift_max: 100_000_000,
                unwind_shift: 40_000_000,
                delta_max: 5_000_000,
            }),
    {
        SpotParams {
            stale_max_s: 10_000_000,
            gate_ret_60s: 1_500_000,
            gate_release_ratio: 700_000_000,
            fv_ema_tau_s: 60_000_000,
            fv_shift_max: 100_000_000,
            unwind_shift: 40_000_000,
            delta_max: 5_000_000,
        }
    }
}

/// The settings of one category.
#[derive(Debug, Clone)]
pub struct CategoryConfig {
    pub name: String,
    pub max_contracts: i64,
    pub max_inventory: i64,
    pub capital_allocation: i64,
    pub vol_3mo: i64,
    /// The spot product that the category's ladders follow.
    pub spot_feed: Option<String>,
}

/// The contracts of a category where the file says nothing.
pub fn default_max_contracts() -> (r: i64)
    ensures
        r == 1,
{
    1
}

/// The inventory cap of a category where the file says nothing.
pub fn default_cat_max_inventory() -> (r: i64)
    ensures
        r == 5,
{
    5
}

/// The capital of a category where the file says nothing.
pub fn default_capital_allocation() -> (r: i64)
    ensures
        r == 19 * NANO,
{
    19_000_000_000
}

/// The account's limits. The loss limits have no defaults: a missing limit
/// must stop the start, not halt trading at the first fill.
#[derive(Debug, Clone)]
pub struct LiveConfig {
    pub capital: i64,
    pub max_daily_loss: i64,
    pub max_position_value: i64,
    pub stop_loss_threshold: i64,
    pub checkpoint_prefix: String,
    /// A category halts after this many losing closes in a row; zero never.
    pub halt_on_consecutive_losses: u64,
    /// No further exposure on a side once the ladder's worst case there
    /// reaches this; zero never.
    pub max_ladder_tail_loss: i64,
}

/// The cap on a ladder's worst case where the file says nothing.
pub fn default_max_ladder_tail_loss() -> (r: i64)
    ensures
        r == 5 * NANO,
{
    5_000_000_000
}

/// The start of a policy file's name where the file says nothing.
pub fn default_checkpoint_prefix() -> (r: String)
    ensures
        r@ == "june"@,
{
    "june".to_string()
}

/// One deployment.
#[derive(Debug, Clone)]
pub struct Config {
    pub live: LiveConfig,
    pub mm: MmParams,
    pub spot: SpotParams,
    pub categories: Vec<CategoryConfig>,
}

/// What is wrong with a configuration.
#[derive(Debug, Clone, Copy, PartialEq, Eq, Structural)]
pub enum Fault {
    /// There is no category.
    NoCategories,
    /// A category follows a spot feed and the barrier cannot work.
    SpotGate,
    /// The cap on a ladder's worst case is negative.
    TailLoss,
}

/// Some category follows a spot feed.
pub open spec fn has_feed(categories: Seq<CategoryConfig>) -> bool {
    exists|i: int| 0 <= i < categories.len() && (#[trigger] categories[i]).spot_feed is Some
}

/// The barrier closes only on a real move, the feed is not stale at once, and
/// the barrier opens no higher than it closes.
pub open spec fn gate_works(spot: SpotParams) -> bool {
    spot.gate_ret_60s > 0 && spot.stale_max_s > 0 && 0 < spot.gate_release_ratio <= NANO
}

impl Config {
    /// The first thing that is wrong.
    pub open spec fn fault(&self) -> Option<Fault> {
        if self.categories@.len() == 0 {
            Some(Fault::NoCategories)
        } else if has_feed(self.categories@) && !gate_works(self.spot) {
            Some(Fault::SpotGate)
        } else if self.live.max_ladder_tail_loss < 0 {
            Some(Fault::TailLoss)
        } else {
            None
        }
    }

    /// Checks what the file's shape does not: a bad safety parameter must stop
    /// the start, not switch a barrier off.
    pub fn validate(&self) -> (r: Result<(), Fault>)
        ensures
            match self.fault() {
                Some(fault) => r == Err::<(), Fault>(fault),
                None => r is Ok,
            },
    {
        if self.categories.len() == 0 {
            return Err(Fault::NoCategories);
        }
        let mut bound = false;
        let mut i: usize = 0;
        while i < self.categories.len()
            invariant
                i <= self.categories.len(),
                bound == exists|k: int|
                    0 <= k < i && (#[trigger] self.categories@[k]).spot_feed is Some,
            decreases self.categories.len() - i,
        {
            if self.categories[i].spot_feed.is_some() {
                bound = true;
            }
            i += 1;
        }
        assert(bound == has_feed(self.categories@));
        if bound && (self.spot.gate_ret_60s <= 0 || self.spot.stale_max_s <= 0
            || self.spot.gate_release_ratio <= 0 || self.spot.gate_release_ratio > NANO) {
            return Err(Fault::SpotGate);
        }
        if self.live.max_ladder_tail_loss < 0 {
            return Err(Fault::TailLoss);
        }
        Ok(())
    }
}

// --- the file ----------------------------------------------------------------

/// A part of the file.
#[derive(Debug, Clone, Copy, PartialEq, Eq, Structural)]
pub enum Section {
    Live,
    Mm,
    Spot,
    Category,
    Top,
}

/// Why a configuration cannot be used.
#[derive(Debug)]
pub enum ConfigError {
    /// The text is no TOML.
    Parse(String),
    /// A key of this part is missing, not known, or of the wrong type.
    Shape(Section),
    /// The configuration is unsafe.
    Unsafe(Fault),
}

/// The keys of each part.
pub open spec fn is_key(section: Section, key: Seq<char>) -> bool {
    match section {
        Section::Live => key == "capital"@ || key == "max_daily_loss"@ || key
            == "max_position_value"@ || key == "stop_loss_threshold"@ || key
            == "checkpoint_prefix"@ || key == "halt_on_consecutive_losses"@ || key
            == "max_ladder_tail_loss"@,
        Section::Mm => key == "max_inventory"@ || key == "quote_size"@ || key
            == "maker_fee_rate"@ || key == "taker_fee_rate"@ || key == "subpenny_enabled"@ || key
            == "vol_filter_threshold"@ || key == "min_quote_edge"@ || key == "max_open_orders"@
            || key == "balance_backoff_s"@ || key == "quote_band_lo"@ || key == "quote_band_hi"@
            || key == "extreme_quote_size"@ || key == "extreme_band"@,
        Section::Spot => key == "stale_max_s"@ || key == "gate_ret_60s"@ || key
            == "gate_release_ratio"@ || key == "fv_ema_tau_s"@ || key == "fv_shift_max"@ || key
            == "unwind_shift"@ || key == "delta_max"@,
        Section::Category => key == "name"@ || key == "max_contracts"@ || key
            == "max_inventory"@ || key == "capital_allocation"@ || key == "vol_3mo"@ || key
            == "spot_feed"@,
        Section::Top => key == "live"@ || key == "mm"@ || key == "spot"@ || key
            == "categories"@,
    }
}

/// A table with no other keys than those of its part: a mistyped limit must
/// not be passed over. A part of the document may also be an array of its
/// values, in the order of the fields; items beyond the last field count for
/// nothing.
pub open spec fn has_shape(v: TomlView, section: Section) -> bool {
    match v {
        TomlView::Table(entries) => forall|i: int|
            0 <= i < entries.len() ==> is_key(section, (#[trigger] entries[i]).key),
        TomlView::Array(_) => section != Section::Top,
        _ => false,
    }
}

/// True for a key of the part.
fn known_key(section: Section, key: &str) -> (r: bool)
    ensures
        r == is_key(section, key@),
{
    match section {
        Section::Live => same(key, "capital") || same(key, "max_daily_loss") || same(
            key,
            "max_position_value",
        ) || same(key, "stop_loss_threshold") || same(key, "checkpoint_prefix") || same(
            key,
            "halt_on_consecutive_losses",
        ) || same(key, "max_ladder_tail_loss"),
        Section::Mm => same(key, "max_inventory") || same(key, "quote_size") || same(
            key,
            "maker_fee_rate",
        ) || same(key, "taker_fee_rate") || same(key, "subpenny_enabled") || same(
            key,
            "vol_filter_threshold",
        ) || same(key, "min_quote_edge") || same(key, "max_open_orders") || same(
            key,
            "balance_backoff_s",
        ) || same(key, "quote_band_lo") || same(key, "quote_band_hi") || same(
            key,
            "extreme_quote_size",
        ) || same(key, "extreme_band"),
        Section::Spot => same(key, "stale_max_s") || same(key, "gate_ret_60s") || same(
            key,
            "gate_release_ratio",
        ) || same(key, "fv_ema_tau_s") || same(key, "fv_shift_max") || same(key, "unwind_shift")
            || same(key, "delta_max"),
        Section::Category => same(key, "name") || same(key, "max_contracts") || same(
            key,
            "max_inventory",
        ) || same(key, "capital_allocation") || same(key, "vol_3mo") || same(key, "spot_feed"),
        Section::Top => same(key, "live") || same(key, "mm") || same(key, "spot") || same(
            key,
            "categories",
        ),
    }
}

/// True for a table with no other keys than those of its part, and for an array
/// in the place of a part.
fn fits_shape(v: &Toml, section: Section) -> (r: bool)
    ensures
        r == has_shape(v@, section),
{
    match v {
        Toml::Table(entries) => {
            let mut i: usize = 0;
            while i < entries.len()
                invariant
                    *v == Toml::Table(*entries),
                    v@ is Table,
                    v@->Table_0.len() == entries@.len(),
                    i <= entries.len(),
                    forall|k: int| 0 <= k < i ==> is_key(section, (#[trigger] v@->Table_0[k]).key),
                decreases entries.len() - i,
            {
                assert(v@->Table_0[i as int].key == entries@[i as int].0@);
                if !known_key(section, entries[i].0.as_str()) {
                    return false;
                }
                i += 1;
            }
            true
        },
        Toml::Array(_) => match section {
            Section::Top => false,
            _ => true,
        },
        _ => false,
    }
}

/// A number, as it stands for a real parameter: in billionths, moved into the
/// range. An integer will do, and infinity is an end of the range; a float that
/// is not a number is none.
pub open spec fn real_in(v: TomlView) -> Option<int> {
    match v {
        TomlView::Integer(n) => Some(clamp64(n * NANO)),
        TomlView::Float(text) => match number_in(text) {
            Some(Num::NotANumber) => None,
            Some(n) => Some(saturated(n)),
            None => None,
        },
        _ => None,
    }
}

/// A number of seconds, in microseconds.
pub open spec fn seconds_in(v: TomlView) -> Option<int> {
    match v {
        TomlView::Integer(n) => Some(clamp64(n * 1_000_000)),
        TomlView::Float(text) => match number_in(text) {
            Some(Num::Finite(n)) => Some(clamp64(round_even(n as int, 1000))),
            Some(Num::Infinite(negative)) => Some(saturated(Num::Infinite(negative))),
            _ => None,
        },
        _ => None,
    }
}

/// An integer.
pub open spec fn integer_in(v: TomlView) -> Option<int> {
    match v {
        TomlView::Integer(n) => Some(n),
        _ => None,
    }
}

/// An integer that is not negative.
pub open spec fn count_in(v: TomlView) -> Option<int> {
    match v {
        TomlView::Integer(n) => if n >= 0 {
            Some(n)
        } else {
            None
        },
        _ => None,
    }
}

/// A boolean.
pub open spec fn flag_in(v: TomlView) -> Option<bool> {
    match v {
        TomlView::Bool(b) => Some(b),
        _ => None,
    }
}

/// A text.
pub open spec fn text_in(v: TomlView) -> Option<Seq<char>> {
    match v {
        TomlView::Text(s) => Some(s),
        _ => None,
    }
}

/// What a part states of one of its fields: the entry of that key in a table,
/// or the item at the field's place in an array.
pub open spec fn stated(v: TomlView, key: Seq<char>, place: int) -> Option<TomlView> {
    match v {
        TomlView::Array(items) => if 0 <= place < items.len() {
            Some(items[place])
        } else {
            None
        },
        _ => v.entry(key),
    }
}

/// An entry reads as `value`; where it is missing, that is the default.
pub open spec fn real_is(t: TomlView, key: Seq<char>, place: int, default: Option<int>, value: int) -> bool {
    match stated(t, key, place) {
        Some(v) => real_in(v) == Some(value),
        None => default == Some(value),
    }
}

/// An entry reads as `value`; where it is missing, that is the default.
pub open spec fn seconds_is(t: TomlView, key: Seq<char>, place: int, default: int, value: int) -> bool {
    match stated(t, key, place) {
        Some(v) => seconds_in(v) == Some(value),
        None => default == value,
    }
}

/// An entry reads as `value`; where it is missing, that is the default.
pub open spec fn integer_is(t: TomlView, key: Seq<char>, place: int, default: int, value: int) -> bool {
    match stated(t, key, place) {
        Some(v) => integer_in(v) == Some(value),
        None => default == value,
    }
}

/// An entry reads as `value`; where it is missing, that is the default.
pub open spec fn count_is(t: TomlView, key: Seq<char>, place: int, default: int, value: int) -> bool {
    match stated(t, key, place) {
        Some(v) => count_in(v) == Some(value),
        None => default == value,
    }
}

/// An entry reads as `value`; where it is missing, that is the default.
pub open spec fn flag_is(t: TomlView, key: Seq<char>, place: int, default: bool, value: bool) -> bool {
    match stated(t, key, place) {
        Some(v) => flag_in(v) == Some(value),
        None => default == value,
    }
}

/// An entry reads as `value`; where it is missing, that is the default.
pub open spec fn text_is(
    t: TomlView,
    key: Seq<char>,
    place: int,
    default: Option<Seq<char>>,
    value: Seq<char>,
) -> bool {
    match stated(t, key, place) {
        Some(v) => text_in(v) == Some(value),
        None => default == Some(value),
    }
}

/// An entry reads as an optional text.
pub open spec fn optional_is(t: TomlView, key: Seq<char>, place: int, value: Option<Seq<char>>) -> bool {
    match stated(t, key, place) {
        Some(v) => value is Some && text_in(v) == value,
        None => value is None,
    }
}

/// An optional number.
pub open spec fn int_of(v: Option<i64>) -> Option<int> {
    match v {
        Some(n) => Some(n as int),
        None => None,
    }
}

/// What a part states of one of its fields.
fn stated_field<'a>(v: &'a Toml, key: &str, place: usize) -> (r: Option<&'a Toml>)
    ensures
        toml_seen(r) == stated(v@, key@, place as int),
{
    match v {
        Toml::Array(items) => if place < items.len() {
            assert(v@->Array_0[place as int] == items@[place as int]@);
            Some(&items[place])
        } else {
            None
        },
        _ => v.get(key),
    }
}

fn real_entry(t: &Toml, key: &str, place: usize, default: Option<i64>) -> (r: Option<i64>)
    ensures
        match r {
            Some(x) => real_is(
                t@,
                key@,
                place as int,
                int_of(default),
                x as int,
            ),
            None => forall|x: int| !real_is(t@, key@, place as int, int_of(default), x),
        },
{
    match stated_field(t, key, place) {
        Some(Toml::Integer(n)) => Some(to_i64(*n as i128 * NANO as i128)),
        Some(Toml::Float(text)) => match parse_number(text.as_str()) {
            Some(Num::NotANumber) => None,
            Some(n) => Some(saturate(n)),
            None => None,
        },
        Some(_) => None,
        None => default,
    }
}

fn seconds_entry(t: &Toml, key: &str, place: usize, default: i64) -> (r: Option<i64>)
    ensures
        match r {
            Some(x) => seconds_is(t@, key@, place as int, default as int, x as int),
            None => forall|x: int| !seconds_is(t@, key@, place as int, default as int, x),
        },
{
    match stated_field(t, key, place) {
        Some(Toml::Integer(n)) => Some(to_i64(*n as i128 * 1_000_000)),
        Some(Toml::Float(text)) => match parse_number(text.as_str()) {
            Some(Num::Finite(n)) => Some(to_i64(div_even(n, 1000))),
            Some(Num::Infinite(negative)) => Some(saturate(Num::Infinite(negative))),
            _ => None,
        },
        Some(_) => None,
        None => Some(default),
    }
}

fn integer_entry(t: &Toml, key: &str, place: usize, default: i64) -> (r: Option<i64>)
    ensures
        match r {
            Some(x) => integer_is(t@, key@, place as int, default as int, x as int),
            None => forall|x: int| !integer_is(t@, key@, place as int, default as int, x),
        },
{
    match stated_field(t, key, place) {
        Some(Toml::Integer(n)) => Some(*n),
        Some(_) => None,
        None => Some(default),
    }
}

fn count_entry(t: &Toml, key: &str, place: usize, default: u64) -> (r: Option<u64>)
    ensures
        match r {
            Some(x) => count_is(t@, key@, place as int, default as int, x as int),
            None => forall|x: int| !count_is(t@, key@, place as int, default as int, x),
        },
{
    match stated_field(t, key, place) {
        Some(Toml::Integer(n)) => if *n >= 0 {
            Some(*n as u64)
        } else {
            None
        },
        Some(_) => None,
        None => Some(default),
    }
}

fn flag_entry(t: &Toml, key: &str, place: usize, default: bool) -> (r: Option<bool>)
    ensures
        match r {
            Some(x) => flag_is(t@, key@, place as int, default, x),
            None => forall|x: bool| !flag_is(t@, key@, place as int, default, x),
        },
{
    match stated_field(t, key, place) {
        Some(Toml::Bool(b)) => Some(*b),
        Some(_) => None,
        None => Some(default),
    }
}

fn text_entry(t: &Toml, key: &str, place: usize, default: Option<String>) -> (r: Option<String>)
    ensures
        match r {
            Some(x) => text_is(
                t@,
                key@,
                place as int,
                crate::state::text_view(default),
                x@,
            ),
            None => forall|x: Seq<char>|
                !text_is(t@, key@, place as int, crate::state::text_view(default), x),
        },
{
    match stated_field(t, key, place) {
        Some(Toml::Text(s)) => Some(s.clone()),
        Some(_) => None,
        None => default,
    }
}

fn optional_entry(t: &Toml, key: &str, place: usize) -> (r: Option<Option<String>>)
    ensures
        match r {
            Some(x) => optional_is(
                t@,
                key@,
                place as int,
                crate::state::text_view(x),
            ),
            None => forall|x: Option<Seq<char>>| !optional_is(t@, key@, place as int, x),
        },
{
    match stated_field(t, key, place) {
        Some(Toml::Text(s)) => Some(Some(s.clone())),
        Some(_) => None,
        None => Some(None),
    }
}

/// The account's limits, as the file states them.
pub open spec fn is_live(v: TomlView, live: LiveConfig) -> bool {
    &&& has_shape(v, Section::Live)
    &&& real_is(v, "capital"@, 0, None, live.capital as int)
    &&& real_is(v, "max_daily_loss"@, 1, None, live.max_daily_loss as int)
    &&& real_is(v, "max_position_value"@, 2, None, live.max_position_value as int)
    &&& real_is(v, "stop_loss_threshold"@, 3, None, live.stop_loss_threshold as int)
    &&& text_is(v, "checkpoint_prefix"@, 4, Some("june"@), live.checkpoint_prefix@)
    &&& count_is(v, "halt_on_consecutive_losses"@, 5, 0, live.halt_on_consecutive_losses as int)
    &&& real_is(v, "max_ladder_tail_loss"@, 6, Some(5 * NANO), live.max_ladder_tail_loss as int)
}

/// The strategy's parameters, as the file states them.
pub open spec fn is_mm(v: TomlView, mm: MmParams) -> bool {
    &&& has_shape(v, Section::Mm)
    &&& integer_is(v, "max_inventory"@, 0, 20, mm.max_inventory as int)
    &&& integer_is(v, "quote_size"@, 1, 1, mm.quote_size as int)
    &&& real_is(v, "maker_fee_rate"@, 2, Some(17_500_000), mm.maker_fee_rate as int)
    &&& real_is(v, "taker_fee_rate"@, 3, Some(70_000_000), mm.taker_fee_rate as int)
    &&& flag_is(v, "subpenny_enabled"@, 4, true, mm.subpenny_enabled)
    &&& real_is(v, "vol_filter_threshold"@, 5, Some(50_000_000), mm.vol_filter_threshold as int)
    &&& real_is(v, "min_quote_edge"@, 6, Some(10_000_000), mm.min_quote_edge as int)
    &&& count_is(v, "max_open_orders"@, 7, 60, mm.max_open_orders as int)
    &&& seconds_is(v, "balance_backoff_s"@, 8, 60_000_000, mm.balance_backoff_s as int)
    &&& real_is(v, "quote_band_lo"@, 9, Some(50_000_000), mm.quote_band_lo as int)
    &&& real_is(v, "quote_band_hi"@, 10, Some(950_000_000), mm.quote_band_hi as int)
    &&& integer_is(v, "extreme_quote_size"@, 11, 2, mm.extreme_quote_size as int)
    &&& real_is(v, "extreme_band"@, 12, Some(100_000_000), mm.extreme_band as int)
}

/// The parameters of the spot defence, as the file states them.
pub open spec fn is_spot(v: TomlView, spot: SpotParams) -> bool {
    &&& has_shape(v, Section::Spot)
    &&& seconds_is(v, "stale_max_s"@, 0, 10_000_000, spot.stale_max_s as int)
    &&& real_is(v, "gate_ret_60s"@, 1, Some(1_500_000), spot.gate_ret_60s as int)
    &&& real_is(v, "gate_release_ratio"@, 2, Some(700_000_000), spot.gate_release_ratio as int)
    &&& seconds_is(v, "fv_ema_tau_s"@, 3, 60_000_000, spot.fv_ema_tau_s as int)
    &&& real_is(v, "fv_shift_max"@, 4, Some(100_000_000), spot.fv_shift_max as int)
    &&& real_is(v, "unwind_shift"@, 5, Some(40_000_000), spot.unwind_shift as int)
    &&& real_is(v, "delta_max"@, 6, Some(5_000_000), spot.delta_max as int)
}

/// One category, as the file states it.
pub open spec fn is_category(v: TomlView, c: CategoryConfig) -> bool {
    &&& has_shape(v, Section::Category)
    &&& text_is(v, "name"@, 0, None, c.name@)
    &&& integer_is(v, "max_contracts"@, 1, 1, c.max_contracts as int)
    &&& integer_is(v, "max_inventory"@, 2, 5, c.max_inventory as int)
    &&& real_is(v, "capital_allocation"@, 3, Some(19 * NANO), c.capital_allocation as int)
    &&& real_is(v, "vol_3mo"@, 4, Some(0), c.vol_3mo as int)
    &&& optional_is(v, "spot_feed"@, 5, crate::state::text_view(c.spot_feed))
}

/// The categories, as the file states them.
pub open spec fn are_categories(v: TomlView, cs: Seq<CategoryConfig>) -> bool {
    v matches TomlView::Array(items) && items.len() == cs.len() && forall|i: int|
        0 <= i < items.len() ==> is_category(#[trigger] items[i], cs[i])
}

/// A part that may be missing: an empty table then.
pub open spec fn part_or_empty(v: TomlView, key: Seq<char>) -> TomlView {
    match v.entry(key) {
        Some(t) => t,
        None => TomlView::Table(seq![]),
    }
}

/// The configuration that a document states. The limits and the categories
/// must be there; the parameters have defaults.
pub open spec fn is_config(v: TomlView, cfg: Config) -> bool {
    &&& has_shape(v, Section::Top)
    &&& v.entry("live"@) is Some
    &&& is_live(v.entry("live"@)->Some_0, cfg.live)
    &&& is_mm(part_or_empty(v, "mm"@), cfg.mm)
    &&& is_spot(part_or_empty(v, "spot"@), cfg.spot)
    &&& v.entry("categories"@) is Some
    &&& are_categories(v.entry("categories"@)->Some_0, cfg.categories@)
}

fn read_live(v: &Toml) -> (r: Option<LiveConfig>)
    ensures
        match r {
            Some(live) => is_live(v@, live),
            None => forall|live: LiveConfig| !is_live(v@, live),
        },
{
    if !fits_shape(v, Section::Live) {
        return None;
    }
    match (
        real_entry(v, "capital", 0, None),
        real_entry(v, "max_daily_loss", 1, None),
        real_entry(v, "max_position_value", 2, None),
        real_entry(v, "stop_loss_threshold", 3, None),
        text_entry(v, "checkpoint_prefix", 4, Some(default_checkpoint_prefix())),
        count_entry(v, "halt_on_consecutive_losses", 5, 0),
        real_entry(v, "max_ladder_tail_loss", 6, Some(default_max_ladder_tail_loss())),
    ) {
        (
            Some(capital),
            Some(max_daily_loss),
            Some(max_position_value),
            Some(stop_loss_threshold),
            Some(checkpoint_prefix),
            Some(halt_on_consecutive_losses),
            Some(max_ladder_tail_loss),
        ) => Some(
            LiveConfig {
                capital,
                max_daily_loss,
                max_position_value,
                stop_loss_threshold,
                checkpoint_prefix,
                halt_on_consecutive_losses,
                max_ladder_tail_loss,
            },
        ),
        _ => None,
    }
}

fn read_spot(v: &Toml) -> (r: Option<SpotParams>)
    ensures
        match r {
            Some(spot) => is_spot(v@, spot),
            None => forall|spot: SpotParams| !is_spot(v@, spot),
        },
{
    if !fits_shape(v, Section::Spot) {
        return None;
    }
    let d = SpotParams::default();
    match (
        seconds_entry(v, "stale_max_s", 0, d.stale_max_s),
        real_entry(v, "gate_ret_60s", 1, Some(d.gate_ret_60s)),
        real_entry(v, "gate_release_ratio", 2, Some(d.gate_release_ratio)),
        seconds_entry(v, "fv_ema_tau_s", 3, d.fv_ema_tau_s),
        real_entry(v, "fv_shift_max", 4, Some(d.fv_shift_max)),
        real_entry(v, "unwind_shift", 5, Some(d.unwind_shift)),
        real_entry(v, "delta_max", 6, Some(d.delta_max)),
    ) {
        (
            Some(stale_max_s),
            Some(gate_ret_60s),
            Some(gate_release_ratio),
            Some(fv_ema_tau_s),
            Some(fv_shift_max),
            Some(unwind_shift),
            Some(delta_max),
        ) => Some(
            SpotParams {
                stale_max_s,
                gate_ret_60s,
                gate_release_ratio,
                fv_ema_tau_s,
                fv_shift_max,
                unwind_shift,
                delta_max,
            },
        ),
        _ => None,
    }
}

fn read_mm(v: &Toml) -> (r: Option<MmParams>)
    ensures
        match r {
            Some(mm) => is_mm(v@, mm),
            None => forall|mm: MmParams| !is_mm(v@, mm),
        },
{
    if !fits_shape(v, Section::Mm) {
        return None;
    }
    let d = MmParams::default();
    let sizes = (
        integer_entry(v, "max_inventory", 0, d.max_inventory),
        integer_entry(v, "quote_size", 1, d.quote_size),
        count_entry(v, "max_open_orders", 7, d.max_open_orders),
        integer_entry(v, "extreme_quote_size", 11, d.extreme_quote_size),
        flag_entry(v, "subpenny_enabled", 4, d.subpenny_enabled),
        seconds_entry(v, "balance_backoff_s", 8, d.balance_backoff_s),
    );
    let reals = (
        real_entry(v, "maker_fee_rate", 2, Some(d.maker_fee_rate)),
        real_entry(v, "taker_fee_rate", 3, Some(d.taker_fee_rate)),
        real_entry(v, "vol_filter_threshold", 5, Some(d.vol_filter_threshold)),
        real_entry(v, "min_quote_edge", 6, Some(d.min_quote_edge)),
        real_entry(v, "quote_band_lo", 9, Some(d.quote_band_lo)),
        real_entry(v, "quote_band_hi", 10, Some(d.quote_band_hi)),
        real_entry(v, "extreme_band", 12, Some(d.extreme_band)),
    );
    match (sizes, reals) {
        (
            (
                Some(max_inventory),
                Some(quote_size),
                Some(max_open_orders),
                Some(extreme_quote_size),
                Some(subpenny_enabled),
                Some(balance_backoff_s),
            ),
            (
                Some(maker_fee_rate),
                Some(taker_fee_rate),
                Some(vol_filter_threshold),
                Some(min_quote_edge),
                Some(quote_band_lo),
                Some(quote_band_hi),
                Some(extreme_band),
            ),
        ) => Some(
            MmParams {
                max_inventory,
                quote_size,
                maker_fee_rate,
                taker_fee_rate,
                subpenny_enabled,
                vol_filter_threshold,
                min_quote_edge,
                max_open_orders,
                balance_backoff_s,
                quote_band_lo,
                quote_band_hi,
                extreme_quote_size,
                extreme_band,
            },
        ),
        _ => None,
    }
}

fn read_category(v: &Toml) -> (r: Option<CategoryConfig>)
    ensures
        match r {
            Some(c) => is_category(v@, c),
            None => forall|c: CategoryConfig| !is_category(v@, c),
        },
{
    if !fits_shape(v, Section::Category) {
        return None;
    }
    match (
        text_entry(v, "name", 0, None),
        integer_entry(v, "max_contracts", 1, default_max_contracts()),
        integer_entry(v, "max_inventory", 2, default_cat_max_inventory()),
        real_entry(v, "capital_allocation", 3, Some(default_capital_allocation())),
        real_entry(v, "vol_3mo", 4, Some(0)),
        optional_entry(v, "spot_feed", 5),
    ) {
        (
            Some(name),
            Some(max_contracts),
            Some(max_inventory),
            Some(capital_allocation),
            Some(vol_3mo),
            Some(spot_feed),
        ) => Some(
            CategoryConfig {
                name,
                max_contracts,
                max_inventory,
                capital_allocation,
                vol_3mo,
                spot_feed,
            },
        ),
        _ => None,
    }
}

fn read_categories(v: &Toml) -> (r: Option<Vec<CategoryConfig>>)
    ensures
        match r {
            Some(cs) => are_categories(v@, cs@),
            None => forall|cs: Seq<CategoryConfig>| !are_categories(v@, cs),
        },
{
    match v {
        Toml::Array(items) => {
            let mut out: Vec<CategoryConfig> = Vec::new();
            let mut i: usize = 0;
            while i < items.len()
                invariant
                    *v == Toml::Array(*items),
                    v@ is Array,
                    v@->Array_0.len() == items@.len(),
                    i <= items.len(),
                    out@.len() == i,
                    forall|k: int|
                        0 <= k < i ==> is_category(#[trigger] v@->Array_0[k], out@[k]),
                decreases items.len() - i,
            {
                assert(v@->Array_0[i as int] == items@[i as int]@);
                match read_category(&items[i]) {
                    Some(c) => out.push(c),
                    None => {
                        assert forall|cs: Seq<CategoryConfig>| !are_categories(v@, cs) by {
                            if are_categories(v@, cs) {
                                assert(is_category(v@->Array_0[i as int], cs[i as int]));
                            }
                        }
                        return None;
                    },
                }
                i += 1;
            }
            Some(out)
        },
        _ => None,
    }
}

/// The first part of a document that does not read; none where the document
/// states a configuration.
pub open spec fn malformed(v: TomlView) -> Option<Section> {
    if !has_shape(v, Section::Top) {
        Some(Section::Top)
    } else if !(v.entry("live"@) is Some && exists|live: LiveConfig| #[trigger]
        is_live(v.entry("live"@)->Some_0, live)) {
        Some(Section::Live)
    } else if !exists|mm: MmParams| #[trigger] is_mm(part_or_empty(v, "mm"@), mm) {
        Some(Section::Mm)
    } else if !exists|spot: SpotParams| #[trigger] is_spot(part_or_empty(v, "spot"@), spot) {
        Some(Section::Spot)
    } else if !(v.entry("categories"@) is Some && exists|cs: Seq<CategoryConfig>| #[trigger]
        are_categories(v.entry("categories"@)->Some_0, cs)) {
        Some(Section::Category)
    } else {
        None
    }
}

impl Config {
    /// The configuration in a document.
    pub fn from_toml(v: &Toml) -> (r: Result<Config, Section>)
        ensures
            match r {
                Ok(cfg) => malformed(v@) is None && is_config(v@, cfg),
                Err(section) => malformed(v@) == Some(section) && forall|cfg: Config|
                    !is_config(v@, cfg),
            },
    {
        if !fits_shape(v, Section::Top) {
            return Err(Section::Top);
        }
        let live = match v.get("live") {
            Some(t) => read_live(t),
            None => None,
        };
        let live = match live {
            Some(l) => l,
            None => {
                return Err(Section::Live);
            },
        };
        assert(is_live(v@.entry("live"@)->Some_0, live));
        let empty = Toml::Table(Vec::new());
        assert(empty@->Table_0 =~= Seq::<crate::toml_tree::Entry>::empty());
        let mm = match v.get("mm") {
            Some(t) => read_mm(t),
            None => read_mm(&empty),
        };
        let mm = match mm {
            Some(m) => m,
            None => {
                return Err(Section::Mm);
            },
        };
        assert(is_mm(part_or_empty(v@, "mm"@), mm));
        let spot = match v.get("spot") {
            Some(t) => read_spot(t),
            None => read_spot(&empty),
        };
        let spot = match spot {
            Some(s) => s,
            None => {
                return Err(Section::Spot);
            },
        };
        assert(is_spot(part_or_empty(v@, "spot"@), spot));
        let categories = match v.get("categories") {
            Some(t) => read_categories(t),
            None => None,
        };
        match categories {
            Some(categories) => {
                assert(are_categories(v@.entry("categories"@)->Some_0, categories@));
                Ok(Config { live, mm, spot, categories })
            },
            None => Err(Section::Category),
        }
    }

    /// Reads and checks a configuration.
    pub fn parse(text: &str) -> (r: Result<Config, ConfigError>)
        ensures
            match r {
                Ok(cfg) => toml_parsed(text@) is Ok && is_config(toml_parsed(text@)->Ok_0, cfg)
                    && cfg.fault() is None,
                Err(ConfigError::Parse(e)) => toml_parsed(text@) == Err::<TomlView, Seq<char>>(e@),
                Err(ConfigError::Shape(section)) => toml_parsed(text@) is Ok && malformed(
                    toml_parsed(text@)->Ok_0,
                ) == Some(section),
                Err(ConfigError::Unsafe(fault)) => toml_parsed(text@) is Ok && exists|cfg: Config| #[trigger]
                    is_config(toml_parsed(text@)->Ok_0, cfg) && cfg.fault() == Some(fault),
            },
    {
        let v = match Toml::from_text(text) {
            Ok(v) => v,
            Err(e) => {
                return Err(ConfigError::Parse(e));
            },
        };
        let cfg = match Config::from_toml(&v) {
            Ok(cfg) => cfg,
            Err(section) => {
                return Err(ConfigError::Shape(section));
            },
        };
        assert(toml_parsed(text@)->Ok_0 == v@);
        assert(is_config(v@, cfg));
        match cfg.validate() {
            Ok(()) => {
                assert(cfg.fault() is None);
                Ok(cfg)
            },
            Err(fault) => {
                assert(cfg.fault() == Some(fault));
                Err(ConfigError::Unsafe(fault))
            },
        }
    }
}

/// The file of a bare name: in the config directory, unless the name begins at
/// the root.
pub open spec fn candidate_of(name: Seq<char>) -> Seq<char> {
    if name.len() > 0 && name[0] == '/' {
        name + ".toml"@
    } else {
        "config/"@ + name + ".toml"@
    }
}

/// The file of a bare name.
pub fn config_candidate(name: &str) -> (r: String)
    ensures
        r@ == candidate_of(name@),
{
    proof {
        reveal_strlit("/");
        assert("/"@.len() == 1 && "/"@[0] == '/');
        if name@.len() > 0 && name@[0] == '/' {
            assert(name@.subrange(0, 1) =~= "/"@);
        }
    }
    if starts_with(name, "/") {
        join2(name, ".toml")
    } else {
        join3("config/", name, ".toml")
    }
}

/// The file to read for a name or a path: a path with an extension as it is,
/// and a bare name in the config directory. Whether the two files exist is
/// for the caller to say.
pub fn resolve_config_path(
    name_or_path: &str,
    has_extension: bool,
    direct_exists: bool,
    candidate_exists: bool,
) -> (r: Result<String, String>)
    ensures
        match r {
            Ok(path) => if has_extension {
                direct_exists && path@ == name_or_path@
            } else {
                candidate_exists && path@ == candidate_of(name_or_path@)
            },
            Err(e) => if has_extension {
                !direct_exists && e@ == "config file not found: "@ + name_or_path@
            } else {
                !candidate_exists && e@ == "no config named '"@ + name_or_path@ + "' in config/"@
            },
        },
{
    if has_extension {
        if direct_exists {
            return Ok(name_or_path.to_string());
        }
        return Err(join2("config file not found: ", name_or_path));
    }
    if candidate_exists {
        return Ok(config_candidate(name_or_path));
    }
    Err(join3("no config named '", name_or_path, "' in config/"))
}

} // verus!
