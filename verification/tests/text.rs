use arbiter::text::chars_of;
use arbiter::text::precedes;
use arbiter::text::split;
use arbiter::text::string_of;

#[test]
fn chars_of_and_string_of_are_inverse() {
    let samples = vec!["", "a", "BTCUSDT", "p\u{e4}ir", "a,b,,c"];
    for s in samples {
        let chars = chars_of(s);
        assert_eq!(chars, s.chars().collect::<Vec<char>>());
        assert_eq!(string_of(&chars), s);
    }
}

#[test]
fn split_keeps_empty_pieces() {
    assert_eq!(split("BTCUSDT,ETHUSDT", ','), vec!["BTCUSDT", "ETHUSDT"]);
    assert_eq!(split("", ','), vec![""]);
    assert_eq!(split("a", ','), vec!["a"]);
    assert_eq!(split(",", ','), vec!["", ""]);
    assert_eq!(split("a,,b", ','), vec!["a", "", "b"]);
    assert_eq!(split("a,b,", ','), vec!["a", "b", ""]);
    assert_eq!(split(",a", ','), vec!["", "a"]);
}

#[test]
fn split_agrees_with_str_split() {
    let samples = vec!["", ",", ",,", "x", "x,y", " x , y ", "a,,b,", "\u{e9},\u{fc}"];
    for s in samples {
        let expected: Vec<String> = s.split(',').map(|p| p.to_string()).collect();
        assert_eq!(split(s, ','), expected, "text {:?}", s);
    }
}

#[test]
fn precedes_is_the_lexicographic_order() {
    assert!(precedes("", ""));
    assert!(precedes("", "a"));
    assert!(!precedes("a", ""));
    assert!(precedes("a", "a"));
    assert!(precedes("a", "b"));
    assert!(!precedes("b", "a"));
    assert!(precedes("binance", "bybit"));
    assert!(!precedes("bybit", "binance"));
    assert!(precedes("BTC", "BTCUSDT"));
    assert!(!precedes("BTCUSDT", "BTC"));
    assert!(precedes("Z", "a"));
}

#[test]
fn precedes_agrees_with_the_order_of_str() {
    let samples = vec!["", "a", "A", "ab", "abc", "b", "binance", "bybit", "BTCUSDT", "ETHUSDT", "\u{e9}", "z"];
    for a in &samples {
        for b in &samples {
            assert_eq!(precedes(a, b), a <= b, "{:?} and {:?}", a, b);
        }
    }
}
