use kalshi_mm::json::Json;
use kalshi_mm::model::{check_input, policy_path, read_action};
use kalshi_mm::num::{parse_number, write_number, Num, NUM_LIMIT};
use kalshi_mm::startup::{log_name, paper_mode, parse_dotenv};
use kalshi_mm::toml_tree::Toml;

#[test]
fn settings_are_read_line_by_line() {
    let text = "# comment\n\n KEY = \"value=1\" \r\nBARE\nB=\n  #C=1\nD=\"x\"\"";
    let pairs = parse_dotenv(text);
    let expected = [("KEY", "value=1"), ("B", ""), ("D", "x")];
    assert_eq!(pairs.len(), 3);
    for (got, want) in pairs.iter().zip(expected) {
        assert_eq!((got.0.as_str(), got.1.as_str()), want);
    }
    assert!(parse_dotenv("").is_empty());
}

#[test]
fn log_files_are_named_after_the_config() {
    assert_eq!(log_name("lowvol"), "live_trading_rust_lowvol.log");
    assert_eq!(log_name("config/a\\b.toml"), "live_trading_rust_config_a_b.log");
    assert_eq!(log_name("a.toml.toml"), "live_trading_rust_a.log");
}

#[test]
fn paper_mode_needs_a_wish_or_missing_credentials() {
    assert!(paper_mode(true, None, true, true));
    assert!(paper_mode(false, Some("TRUE"), true, true));
    assert!(paper_mode(false, None, false, true));
    assert!(paper_mode(false, None, true, false));
    assert!(!paper_mode(false, Some("yes"), true, true));
    assert!(!paper_mode(false, None, true, true));
}

#[test]
fn policies_must_fit_the_observation() {
    assert_eq!(check_input(&vec![-1, 20]), Ok(()));
    assert_eq!(check_input(&vec![1, 16]), Err(16));
    assert_eq!(check_input(&vec![]), Err(-1));
    assert_eq!(read_action(&vec![1_500_000_000, -250_000_000]), Some([1_000_000_000, -250_000_000]));
    assert_eq!(read_action(&vec![-1_000_000_001, 0, 7]), Some([-1_000_000_000, 0]));
    assert_eq!(read_action(&vec![1]), None);
    assert_eq!(policy_path("models", "june", "KXADP"), "models/june_KXADP_final.onnx");
}

#[test]
fn numbers_are_read_as_written() {
    assert_eq!(parse_number("0.123456789"), Some(Num::Finite(123_456_789)));
    assert_eq!(parse_number("-1e-3"), Some(Num::Finite(-1_000_000)));
    assert_eq!(parse_number("+.5"), Some(Num::Finite(500_000_000)));
    assert_eq!(parse_number("5."), Some(Num::Finite(5_000_000_000)));
    assert_eq!(parse_number("inf"), Some(Num::Infinite(false)));
    assert_eq!(parse_number("-Infinity"), Some(Num::Infinite(true)));
    assert_eq!(parse_number("NaN"), Some(Num::NotANumber));
    // Only what overflows a double is infinite
    assert_eq!(parse_number("1e19"), Some(Num::Finite(10i128.pow(28))));
    assert_eq!(parse_number("-1e308"), Some(Num::Finite(-NUM_LIMIT)));
    assert_eq!(parse_number("1e309"), Some(Num::Infinite(false)));
    assert_eq!(parse_number("-1e99999999999999999999999999"), Some(Num::Infinite(true)));
    assert_eq!(parse_number("0e99999999999999999999999999"), Some(Num::Finite(0)));
    assert_eq!(parse_number("1e-99999999999999999999999999"), Some(Num::Finite(0)));
    for text in [
        "179769313486231580793728971405303415079934132710037826936173778980444968292764750946649017977587207096330286416692887910946555547851940402630657488671505820681908902000708383676273854845817711531764475730270069855571366959622842914819860834936475292719074168444365510704342711559699508093042880177904174497792",
        "179769313486231580793728971405303415079934132710037826936173778980444968292764750946649017977587207096330286416692887910946555547851940402630657488671505820681908902000708383676273854845817711531764475730270069855571366959622842914819860834936475292719074168444365510704342711559699508093042880177904174497791",
        "000000000000000000000179769313486231580793728971405303415079934132710037826936173778980444968292764750946649017977587207096330286416692887910946555547851940402630657488671505820681908902000708383676273854845817711531764475730270069855571366959622842914819860834936475292719074168444365510704342711559699508093042880177904174497791.5",
        "1.797693134862315807937289714053034150799341327100378269361737789804449682927647509466490179775872070963302864166928879109465555478519404026306574886715058206819089020007083836762738548458177115317644757302700698555713669596228429148198608349364752927190741684443655107043427115596995080930428801779041744977919999e308",
        "1.79769313486231580793728971405303415079934132710037826936173778980444968292764750946649017977587207096330286416692887910946555547851940402630657488671505820681908902000708383676273854845817711531764475730270069855571366959622842914819860834936475292719074168444365510704342711559699508093042880177904174497792e308",
    ] {
        let double: f64 = text.parse().unwrap();
        let read = parse_number(text).unwrap();
        assert_eq!(read == Num::Infinite(false), double.is_infinite(), "{text}");
        assert_eq!(read == Num::Finite(NUM_LIMIT), double.is_finite(), "{text}");
    }
    for text in ["", ".", "1e", "e5", " 1", "1_0", "0x1", "--1"] {
        assert_eq!(parse_number(text), None, "{text}");
    }
    assert_eq!(write_number(Num::Finite(-40_500_000_000)), "-40.5");
}

#[test]
fn trees_hold_what_the_texts_say() {
    let v = Json::from_text(r#"{"a": [null, true, 1.5, "x"], "b": {"c": {}}}"#).unwrap();
    let items = v.get("a").unwrap().as_items().unwrap();
    assert!(matches!(items[0], Json::Null));
    assert_eq!(items[1].as_bool(), Some(true));
    assert_eq!(items[2].as_number(), Some(Num::Finite(1_500_000_000)));
    assert_eq!(items[3].as_text(), Some("x"));
    assert!(v.get("b").unwrap().get("c").is_some());
    assert!(v.get("d").is_none() && items[0].get("a").is_none());
    assert_eq!(v.get_either("d", "a").unwrap().as_items().unwrap().len(), 4);
    assert!(Json::from_text("[1,").is_err());
    assert!(Toml::from_text("a = 1\nb = [1.5, \"x\", true]\n[c]\nd = 1979-05-27\n").is_ok());
    assert!(Toml::from_text("a = ").is_err());
}
