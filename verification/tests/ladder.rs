use kalshi_mm::ladder::{ladder_prefix, parse_strike, slope, tail_losses, Ladders};
use kalshi_mm::table::Table;

fn nano(x: f64) -> i64 {
    (x * 1e9).round() as i64
}

fn strings(names: &[&str]) -> Vec<String> {
    names.iter().map(|s| s.to_string()).collect()
}

fn mids(pairs: &[(&str, f64)]) -> Table<i64> {
    let mut t = Table::new();
    for (k, v) in pairs {
        t.insert(k.to_string(), nano(*v));
    }
    t
}

#[test]
fn parses_threshold_tickers_only() {
    assert_eq!(
        parse_strike("KXBTCD-26JUL1517-T63999.99"),
        Some(("26JUL1517".to_string(), 63_999_990_000_000))
    );
    assert_eq!(parse_strike("KXBTCD-26JUL1517-B64000"), None);
    assert_eq!(parse_strike("KXWCGAME-26JUL15"), None);
    assert_eq!(parse_strike("garbage"), None);
    assert_eq!(parse_strike("KXBTCD-26JUL1517-Tnan"), None);
    assert_eq!(parse_strike("KXBTCD-26JUL1517-Tinf"), None);
}

#[test]
fn central_difference_delta() {
    let l = Ladders::build(&strings(&[
        "KXBTCD-26JUL1517-T64000",
        "KXBTCD-26JUL1517-T64250",
        "KXBTCD-26JUL1517-T64500",
    ]));
    let m = mids(&[
        ("KXBTCD-26JUL1517-T64000", 0.80),
        ("KXBTCD-26JUL1517-T64250", 0.50),
        ("KXBTCD-26JUL1517-T64500", 0.20),
    ]);
    // (0.80 - 0.20) / 500
    let d = l.delta_for("KXBTCD-26JUL1517-T64250", nano(0.005), &m).unwrap();
    assert_eq!(d, 1_200_000_000);
    // One-sided at the edge: (0.80 - 0.50) / 250
    let d = l.delta_for("KXBTCD-26JUL1517-T64000", nano(0.005), &m).unwrap();
    assert_eq!(d, 1_200_000_000);
    // The cap
    let d = l.delta_for("KXBTCD-26JUL1517-T64250", nano(0.001), &m).unwrap();
    assert_eq!(d, 1_000_000_000);
}

#[test]
fn tail_losses_measure_worst_case_scenarios() {
    let (up, down) = tail_losses(&vec![(-4, nano(0.05)), (-2, nano(0.10))]);
    assert_eq!(up, nano(5.6) as i128);
    assert_eq!(down, 0);
    let (up, down) = tail_losses(&vec![(2, nano(0.93))]);
    assert_eq!(up, 0);
    assert_eq!(down, nano(1.86) as i128);
    let (up, down) = tail_losses(&vec![(-1, nano(0.50)), (1, nano(0.40))]);
    assert_eq!((up, down), (0, 0));
    assert_eq!(tail_losses(&vec![]), (0, 0));
}

#[test]
fn ladder_prefix_groups_by_series_and_expiry() {
    assert_eq!(ladder_prefix("KXBTCD-26JUL2417-T60499.99"), Some("KXBTCD-26JUL2417"));
    assert_eq!(ladder_prefix("KXWCGAME-26JUL19ESPARG-TIE"), None);
    assert_eq!(ladder_prefix("garbage"), None);
}

#[test]
fn orphans_and_junk_return_none() {
    let l = Ladders::build(&strings(&[
        "KXBTCD-26JUL1517-T64000",
        "KXBTCD-26JUL1517-T64250",
        "LONE-26JUL-T5",
    ]));
    let all = mids(&[
        ("KXBTCD-26JUL1517-T64000", 0.5),
        ("KXBTCD-26JUL1517-T64250", 0.5),
        ("LONE-26JUL-T5", 0.5),
        ("NOPE-1-T2", 0.5),
    ]);
    // No neighbour
    assert_eq!(l.delta_for("LONE-26JUL-T5", nano(0.005), &all), None);
    // Crossed mids
    let m = mids(&[("KXBTCD-26JUL1517-T64000", 0.20), ("KXBTCD-26JUL1517-T64250", 0.80)]);
    assert_eq!(l.delta_for("KXBTCD-26JUL1517-T64000", nano(0.005), &m), None);
    // No mids
    assert_eq!(l.delta_for("KXBTCD-26JUL1517-T64000", nano(0.005), &mids(&[])), None);
    // Unknown ticker
    assert_eq!(l.delta_for("NOPE-1-T2", nano(0.005), &all), None);
    // Expiries never mix
    let l2 = Ladders::build(&strings(&["X-26JUL1517-T100", "X-26JUL1717-T200"]));
    let m2 = mids(&[("X-26JUL1517-T100", 0.5), ("X-26JUL1717-T200", 0.5)]);
    assert_eq!(l2.delta_for("X-26JUL1517-T100", nano(0.005), &m2), None);
}

#[test]
fn tickers_of_other_shapes_have_no_strike() {
    for t in ["A--T5", "A-B-T", "A-B-T5-C", "-B-T5x", "A-B-5", "A-B-", ""] {
        assert_eq!(parse_strike(t), None, "{t}");
        assert_eq!(ladder_prefix(t), None, "{t}");
    }
    assert_eq!(parse_strike("-E-T-5e1"), None); // the dash makes a fourth part
    assert_eq!(parse_strike("-E-T5e1"), Some(("E".to_string(), 50_000_000_000)));
    // Any finite strike is one, and those beyond the range stand at its end
    assert_eq!(parse_strike("S-E-T1e19"), Some(("E".to_string(), 10i128.pow(28))));
    assert_eq!(parse_strike("S-E-T1e29"), Some(("E".to_string(), 10i128.pow(38))));
    assert_eq!(parse_strike("S-E-T1e300"), Some(("E".to_string(), i128::MAX)));
    assert_eq!(parse_strike("S-E-T1e400"), None);
}

#[test]
fn rungs_come_in_order_of_strike() {
    let l = Ladders::build(&strings(&["S-E-T300", "S-E-T100", "S-E-T200", "S-F-T150"]));
    let (k_lo, t_lo, k_hi, t_hi) = l.neighbours("S-E-T200").unwrap();
    assert_eq!((k_lo, t_lo), (100_000_000_000, "S-E-T100"));
    assert_eq!((k_hi, t_hi), (300_000_000_000, "S-E-T300"));
    let (_, t_lo, _, t_hi) = l.neighbours("S-E-T300").unwrap();
    assert_eq!((t_lo, t_hi), ("S-E-T200", "S-E-T300"));
    assert!(l.neighbours("S-F-T150").is_none());
}

#[test]
fn slopes_lie_between_zero_and_the_cap() {
    assert_eq!(slope(0, nano(0.5), 1_000_000_000, nano(0.5), nano(0.005)), Some(0));
    assert_eq!(slope(5, 1, 5, 0, nano(0.005)), None); // no width
    assert_eq!(slope(i128::MIN, i64::MAX, i128::MAX, i64::MIN, nano(0.005)), Some(0));
    assert_eq!(slope(0, nano(1.0), 1, 0, nano(0.005)), Some(5_000_000_000));
}

#[test]
fn ladders_do_not_depend_on_the_order_of_the_tickers() {
    let names = ["X-E-T300", "X-E-T100", "X-F-T150", "X-E-T200", "junk", "X-E-T400"];
    let m = mids(&[
        ("X-E-T100", 0.9),
        ("X-E-T200", 0.7),
        ("X-E-T300", 0.4),
        ("X-E-T400", 0.1),
        ("X-F-T150", 0.5),
    ]);
    let forward = Ladders::build(&strings(&names));
    let mut turned = names;
    for _ in 0..names.len() {
        turned.rotate_left(1);
        for list in [turned.to_vec(), turned.iter().rev().copied().collect()] {
            let other = Ladders::build(&strings(&list));
            for name in names {
                assert_eq!(other.neighbours(name), forward.neighbours(name));
                assert_eq!(
                    other.delta_for(name, nano(0.5), &m),
                    forward.delta_for(name, nano(0.5), &m)
                );
            }
        }
    }
    let (low, below, high, above) = forward.neighbours("X-E-T200").unwrap();
    assert_eq!((below, above), ("X-E-T100", "X-E-T300"));
    assert_eq!((low, high), (100_000_000_000, 300_000_000_000));
    assert_eq!(forward.neighbours("X-F-T150"), None);
}
