use arbiter::config::Config;
use arbiter::config::ConfigError;

#[test]
fn from_values_falls_back_on_the_defaults() {
    let c = Config::from_values(None, None).expect("the defaults are valid");
    assert_eq!(c.pairs, vec!["BTCUSDT", "ETHUSDT"]);
    assert_eq!(c.api_port, 3000);
}

#[test]
fn from_values_reads_the_pair_list() {
    let c = Config::from_values(Some("solusdt, Dogeusdt ,XRPUSDT"), Some("8080"))
        .expect("the settings are valid");
    assert_eq!(c.pairs, vec!["SOLUSDT", "DOGEUSDT", "XRPUSDT"]);
    assert_eq!(c.api_port, 8080);
}

#[test]
fn from_values_keeps_empty_pieces() {
    let c = Config::from_values(Some(""), None).expect("the settings are valid");
    assert_eq!(c.pairs, vec![""]);
    let d = Config::from_values(Some("a,, b ,"), None).expect("the settings are valid");
    assert_eq!(d.pairs, vec!["A", "", "B", ""]);
}

#[test]
fn from_values_accepts_every_port_number() {
    assert_eq!(Config::from_values(None, Some("0")).expect("valid").api_port, 0);
    assert_eq!(Config::from_values(None, Some("1")).expect("valid").api_port, 1);
    assert_eq!(Config::from_values(None, Some("65535")).expect("valid").api_port, 65535);
    assert_eq!(Config::from_values(None, Some("+443")).expect("valid").api_port, 443);
}

#[test]
fn from_values_refuses_what_is_no_port() {
    let bad = vec!["65536", "-1", "", "http", "80 ", " 80", "8080.0", "99999999999999999999999"];
    for text in bad {
        assert!(
            matches!(Config::from_values(None, Some(text)), Err(ConfigError::InvalidPort)),
            "text {:?}",
            text
        );
    }
}

#[test]
fn from_values_agrees_with_the_standard_parse_of_a_port() {
    let samples = vec!["0", "3000", "65535", "65536", "+1", "", "x", "1e3", "0080"];
    for text in samples {
        let got = Config::from_values(None, Some(text)).ok().map(|c| c.api_port);
        assert_eq!(got, text.parse::<u16>().ok(), "text {:?}", text);
    }
}
