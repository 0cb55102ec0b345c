use kalshi_mm::config::{
    config_candidate, default_cat_max_inventory, default_checkpoint_prefix, default_max_contracts,
    resolve_config_path, Config, ConfigError, Fault, MmParams, Section,
};

fn nano(x: f64) -> i64 {
    (x * 1e9).round() as i64
}

#[test]
fn zero_spot_gate_param_fails_when_bound() {
    let broken = r#"
            [live]
            capital = 95.0
            max_daily_loss = 5.0
            max_position_value = 40.0
            stop_loss_threshold = -10.0

            [spot]
            gate_ret_60s = 0.0

            [[categories]]
            name = "KXBTCD"
            spot_feed = "BTC-USD"
        "#;
    assert!(Config::parse(broken).is_err());
    // Without a feed the parameter does not matter
    let unbound = broken.replace("spot_feed = \"BTC-USD\"", "");
    assert!(Config::parse(&unbound).is_ok());
    let bad_ratio = broken.replace("gate_ret_60s = 0.0", "gate_release_ratio = 1.5");
    assert!(Config::parse(&bad_ratio).is_err());
    let zero_ratio = broken.replace("gate_ret_60s = 0.0", "gate_release_ratio = 0.0");
    assert!(Config::parse(&zero_ratio).is_err());
}

#[test]
fn ladder_tail_cap_defaults_and_validation() {
    let base = r#"
            [live]
            capital = 95.0
            max_daily_loss = 5.0
            max_position_value = 40.0
            stop_loss_threshold = -10.0

            [[categories]]
            name = "KXBTCD"
        "#;
    assert_eq!(Config::parse(base).unwrap().live.max_ladder_tail_loss, nano(5.0));
    let zeroed = base.replace("capital = 95.0", "capital = 95.0\nmax_ladder_tail_loss = 0.0");
    assert_eq!(Config::parse(&zeroed).unwrap().live.max_ladder_tail_loss, 0);
    let neg = base.replace("capital = 95.0", "capital = 95.0\nmax_ladder_tail_loss = -1.0");
    assert!(Config::parse(&neg).is_err());
}

#[test]
fn missing_loss_limit_fails() {
    let broken = r#"
            [live]
            capital = 95.0
            max_daily_loss = 5.0
            max_position_value = 40.0

            [[categories]]
            name = "KXADP"
        "#;
    assert!(Config::parse(broken).is_err());
}

#[test]
fn unknown_key_fails() {
    let typo = r#"
            [live]
            capital = 95.0
            max_daily_loss = 5.0
            max_position_value = 40.0
            stop_loss_threshold = -10.0
            max_daily_los = 1.0

            [[categories]]
            name = "KXADP"
        "#;
    assert!(Config::parse(typo).is_err());
}

#[test]
fn spot_params_defaults_and_category_binding() {
    let text = r#"
            [live]
            capital = 95.0
            max_daily_loss = 5.0
            max_position_value = 40.0
            stop_loss_threshold = -10.0

            [[categories]]
            name = "KXBTCD"
            spot_feed = "BTC-USD"

            [[categories]]
            name = "KXWCGAME"
        "#;
    let cfg = Config::parse(text).unwrap();
    assert_eq!(cfg.spot.stale_max_s, 10_000_000);
    assert_eq!(cfg.spot.gate_ret_60s, nano(0.0015));
    assert_eq!(cfg.spot.gate_release_ratio, nano(0.7));
    assert_eq!(cfg.spot.fv_ema_tau_s, 60_000_000);
    assert_eq!(cfg.spot.fv_shift_max, nano(0.10));
    assert_eq!(cfg.spot.unwind_shift, nano(0.04));
    assert_eq!(cfg.spot.delta_max, nano(0.005));
    assert_eq!(cfg.categories[0].spot_feed.as_deref(), Some("BTC-USD"));
    assert_eq!(cfg.categories[1].spot_feed, None);
}

const FULL: &str = r#"
    [live]
    capital = 95
    max_daily_loss = 5.00
    max_position_value = 40.00
    stop_loss_threshold = -10.00
    checkpoint_prefix = "realistic_20dim"
    halt_on_consecutive_losses = 3

    [mm]
    max_inventory = 7
    maker_fee_rate = 0.0
    subpenny_enabled = false
    max_open_orders = 12
    balance_backoff_s = 2.5

    [[categories]]
    name = "KXADP"
    vol_3mo = 0.021
    max_inventory = 9
"#;

const LOWVOL: &str = r#"
    [live]
    capital = 95.00
    max_daily_loss = 5.00
    max_position_value = 40.00
    stop_loss_threshold = -10.00
    checkpoint_prefix = "realistic_20dim"
    halt_on_consecutive_losses = 3

    [[categories]]
    name = "KXADP"
    vol_3mo = 0.021

    [[categories]]
    name = "KXAAAGASM"

    [[categories]]
    name = "KXBTCD"

    [[categories]]
    name = "KXWCGAME"
"#;

#[test]
fn lowvol_round_trips_with_mm_defaults() {
    let cfg = Config::parse(LOWVOL).unwrap();
    assert_eq!(cfg.live.capital, nano(95.00));
    assert_eq!(cfg.live.max_daily_loss, nano(5.00));
    assert_eq!(cfg.live.max_position_value, nano(40.00));
    assert_eq!(cfg.live.stop_loss_threshold, nano(-10.00));
    assert_eq!(cfg.live.checkpoint_prefix, "realistic_20dim");
    assert_eq!(cfg.live.halt_on_consecutive_losses, 3);
    assert_eq!(cfg.mm.max_inventory, 20);
    assert_eq!(cfg.mm.maker_fee_rate, nano(0.0175));
    assert_eq!(cfg.mm.taker_fee_rate, nano(0.07));
    assert_eq!(cfg.mm.vol_filter_threshold, nano(0.05));
    assert_eq!(cfg.mm.max_open_orders, 60);
    assert_eq!(cfg.mm.quote_band_lo, nano(0.05));
    assert_eq!(cfg.mm.quote_band_hi, nano(0.95));
    assert_eq!(cfg.categories.len(), 4);
    let adp = cfg.categories.iter().find(|c| c.name == "KXADP").unwrap();
    assert_eq!(adp.max_inventory, 5);
    assert_eq!(adp.vol_3mo, nano(0.021));
}

#[test]
fn the_first_malformed_part_is_reported() {
    let two = FULL.replace("capital = 95", "capital = true").replace("= 12", "= \"x\"");
    assert!(matches!(Config::parse(&two), Err(ConfigError::Shape(Section::Live))));
    let later = FULL.replace("= 12", "= \"x\"").replace("name = \"KXADP\"", "");
    assert!(matches!(Config::parse(&later), Err(ConfigError::Shape(Section::Mm))));
}

#[test]
fn stated_values_override_the_defaults() {
    let cfg = Config::parse(FULL).unwrap();
    assert_eq!(cfg.live.capital, nano(95.0));
    assert_eq!(cfg.live.stop_loss_threshold, nano(-10.0));
    assert_eq!(cfg.live.checkpoint_prefix, "realistic_20dim");
    assert_eq!(cfg.live.halt_on_consecutive_losses, 3);
    assert_eq!((cfg.mm.max_inventory, cfg.mm.maker_fee_rate), (7, 0));
    assert!(!cfg.mm.subpenny_enabled);
    assert_eq!((cfg.mm.max_open_orders, cfg.mm.balance_backoff_s), (12, 2_500_000));
    let defaults = MmParams::default();
    assert_eq!(cfg.mm.taker_fee_rate, defaults.taker_fee_rate);
    assert_eq!(cfg.mm.taker_fee_rate, nano(0.07));
    assert_eq!(cfg.mm.vol_filter_threshold, nano(0.05));
    assert_eq!((cfg.mm.quote_band_lo, cfg.mm.quote_band_hi), (nano(0.05), nano(0.95)));
    let adp = &cfg.categories[0];
    assert_eq!((adp.max_contracts, adp.max_inventory), (default_max_contracts(), 9));
    assert_eq!((adp.capital_allocation, adp.vol_3mo), (nano(19.0), nano(0.021)));
    assert_eq!(default_cat_max_inventory(), 5);
}

#[test]
fn each_error_says_what_is_wrong() {
    assert!(matches!(Config::parse("= 3"), Err(ConfigError::Parse(_))));
    let cases = [
        (FULL.replace("[mm]", "[mn]"), Section::Top),
        (FULL.replace("capital = 95", "capital = \"much\""), Section::Live),
        (FULL.replace("capital = 95", "capital = nan"), Section::Live),
        (FULL.replace("losses = 3", "losses = -3"), Section::Live),
        (FULL.replace("max_inventory = 7", "max_inventory = 7.0"), Section::Mm),
        (FULL.replace("max_inventory = 7", "unheard_of = 7"), Section::Mm),
        (FULL.replace("[mm]", "[spot]\nstale_max_s = true\n[mm]"), Section::Spot),
        (FULL.replace("name = \"KXADP\"", ""), Section::Category),
        (FULL.replace("name = \"KXADP\"", "name = 1979-05-27"), Section::Category),
        (FULL.replace("[[categories]]", "[categories]"), Section::Category),
    ];
    for (text, section) in cases {
        match Config::parse(&text) {
            Err(ConfigError::Shape(s)) => assert_eq!(s, section, "{text}"),
            other => panic!("{other:?}"),
        }
    }
    let none = "categories = []\n".to_string() + &FULL[..FULL.find("[[cat").unwrap()];
    assert!(matches!(Config::parse(&none), Err(ConfigError::Unsafe(Fault::NoCategories))));
    let gate = FULL.replace("[mm]", "[spot]\nstale_max_s = 0\n[mm]") + "spot_feed = \"B\"\n";
    assert!(matches!(Config::parse(&gate), Err(ConfigError::Unsafe(Fault::SpotGate))));
    let tail = FULL.replace("capital = 95", "capital = 95\nmax_ladder_tail_loss = -0.5");
    assert!(matches!(Config::parse(&tail), Err(ConfigError::Unsafe(Fault::TailLoss))));
}

#[test]
fn names_and_paths_resolve_to_files() {
    assert_eq!(config_candidate("lowvol"), "config/lowvol.toml");
    assert_eq!(config_candidate("/etc/bot"), "/etc/bot.toml");
    assert_eq!(
        resolve_config_path("lowvol", false, false, true),
        Ok("config/lowvol.toml".to_string())
    );
    assert_eq!(
        resolve_config_path("lowvol", false, true, false),
        Err("no config named 'lowvol' in config/".to_string())
    );
    assert_eq!(resolve_config_path("a/b.toml", true, true, false), Ok("a/b.toml".to_string()));
    assert_eq!(
        resolve_config_path("a/b.toml", true, false, true),
        Err("config file not found: a/b.toml".to_string())
    );
    assert_eq!(default_checkpoint_prefix(), "june");
}

#[test]
fn infinite_limits_stand_at_the_ends_of_the_range() {
    let open = FULL
        .replace("capital = 95", "capital = inf")
        .replace("[mm]", "[spot]\nstale_max_s = +inf\nunwind_shift = -inf\n[mm]");
    let cfg = Config::parse(&open).unwrap();
    assert_eq!(cfg.live.capital, i64::MAX);
    assert_eq!((cfg.spot.stale_max_s, cfg.spot.unwind_shift), (i64::MAX, i64::MIN));
    let large = FULL.replace("capital = 95", "capital = 1e19");
    assert_eq!(Config::parse(&large).unwrap().live.capital, i64::MAX);
}

#[test]
fn a_part_may_be_an_array_of_its_values() {
    let text = r#"
        live = [95.0, 5, 40.0, -10.0, "june"]
        mm = [7, 2, 0.0, 0.07, false]
        spot = []
        categories = [["KXADP", 3, 9, 12.5, 0.0, "BTC-USD"], { name = "KXBTCD" }, ["KXGDP"]]
    "#;
    let cfg = Config::parse(text).unwrap();
    assert_eq!((cfg.live.capital, cfg.live.max_daily_loss), (nano(95.0), nano(5.0)));
    assert_eq!((cfg.live.stop_loss_threshold, cfg.live.max_ladder_tail_loss), (nano(-10.0), nano(5.0)));
    assert_eq!((cfg.mm.max_inventory, cfg.mm.quote_size, cfg.mm.max_open_orders), (7, 2, 60));
    assert!(!cfg.mm.subpenny_enabled);
    assert_eq!(cfg.spot.stale_max_s, 10_000_000);
    let adp = &cfg.categories[0];
    assert_eq!((adp.name.as_str(), adp.max_contracts, adp.max_inventory), ("KXADP", 3, 9));
    assert_eq!((adp.capital_allocation, adp.spot_feed.as_deref()), (nano(12.5), Some("BTC-USD")));
    assert_eq!(cfg.categories[1].name, "KXBTCD");
    assert_eq!((cfg.categories[2].max_inventory, cfg.categories[2].spot_feed.is_none()), (5, true));
    // Items beyond the fields count for nothing, a missing limit does
    let more = text.replace("\"june\"", "\"june\", 0, 5.0, true");
    assert!(Config::parse(&more).is_ok());
    let fewer = text.replace(", -10.0, \"june\"", "");
    assert!(matches!(Config::parse(&fewer), Err(ConfigError::Shape(Section::Live))));
    let wrong = text.replace("[7, 2,", "[7.0, 2,");
    assert!(matches!(Config::parse(&wrong), Err(ConfigError::Shape(Section::Mm))));
}
