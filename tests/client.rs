use memo_sync::client::FlomoClient;
use memo_sync::text::{str_contains, str_eq, str_lt, str_starts_with};

#[test]
fn token_gets_bearer_prefix_once() {
    assert_eq!(FlomoClient::new("abc".to_string()).authorization(), "Bearer abc");
    assert_eq!(FlomoClient::new("Bearer abc".to_string()).authorization(), "Bearer abc");
    assert_eq!(FlomoClient::new(String::new()).authorization(), "Bearer ");
}

#[test]
fn params_are_sorted_and_signed() {
    let c = FlomoClient::new("t".to_string());
    let ps = c.params_at(Some("slugX"), Some(1700000000), 1710000000);
    let names: Vec<&str> = ps.iter().map(|(k, _)| k.as_str()).collect();
    assert_eq!(
        names,
        vec![
            "api_key",
            "app_version",
            "latest_slug",
            "latest_updated_at",
            "limit",
            "platform",
            "timestamp",
            "tz",
            "webp",
            "sign"
        ]
    );
    let joined = "api_key=flomo_web&app_version=5.25.64&latest_slug=slugX&latest_updated_at=1700000000&limit=200&platform=mac&timestamp=1710000000&tz=8:0&webp=1";
    let expected = format!("{:x}", md5::compute(format!("{}dbbc3dd73364b4084c3a69346e0ce2b2", joined)));
    assert_eq!(ps[9].1, expected);
    assert_eq!(ps[9].1.len(), 32);
}

#[test]
fn params_without_cursor() {
    let c = FlomoClient::new("t".to_string());
    let ps = c.params_at(None, None, -5);
    let names: Vec<&str> = ps.iter().map(|(k, _)| k.as_str()).collect();
    assert_eq!(names, vec!["api_key", "app_version", "limit", "platform", "timestamp", "tz", "webp", "sign"]);
    assert_eq!(ps[4].1, "-5");
    let live = c.get_params(None, Some(42));
    assert_eq!(live[2].0, "latest_updated_at");
    assert_eq!(live[2].1, "42");
    assert_eq!(live.last().unwrap().0, "sign");
}

#[test]
fn text_helpers() {
    assert!(str_lt("2024-01-01", "2024-01-02"));
    assert!(str_lt("abc", "abcd"));
    assert!(!str_lt("abc", "abc"));
    assert!(!str_lt("b", "abc"));
    assert!(str_eq("héllo", "héllo"));
    assert!(!str_eq("a", "ab"));
    assert!(str_contains("hello world", "o w"));
    assert!(str_contains("x", ""));
    assert!(!str_contains("hello", "Hello"));
    assert!(str_starts_with("Bearer x", "Bearer "));
    assert!(!str_starts_with("Bear", "Bearer "));
}

#[test]
fn integers_print_in_decimal() {
    let c = FlomoClient::new("t".to_string());
    let ps = c.params_at(None, Some(i64::MIN), 0);
    assert_eq!(ps[2].1, "-9223372036854775808");
    assert_eq!(ps[5].1, "0");
    let ps = c.params_at(None, Some(i64::MAX), 1234567890);
    assert_eq!(ps[2].1, "9223372036854775807");
    assert_eq!(ps[5].1, "1234567890");
    assert_eq!(memo_sync::text::digits_string(u64::MAX), u64::MAX.to_string());
    assert_eq!(memo_sync::text::decimal_string(-7), "-7");
}
