use dirdiff::config::{parse_thread_count, worker_pool_size};

#[test]
fn parse_plain_number() {
    assert_eq!(parse_thread_count("8"), Some(8));
    assert_eq!(parse_thread_count("0"), Some(0));
    assert_eq!(parse_thread_count("123"), Some(123));
}

#[test]
fn parse_rejects_non_digits() {
    assert_eq!(parse_thread_count(""), None);
    assert_eq!(parse_thread_count("abc"), None);
    assert_eq!(parse_thread_count("4x"), None);
    assert_eq!(parse_thread_count("-2"), None);
    assert_eq!(parse_thread_count(" 4"), None);
}

#[test]
fn parse_rejects_overflow() {
    assert_eq!(parse_thread_count("18446744073709551615"), Some(u64::MAX));
    assert_eq!(parse_thread_count("18446744073709551616"), None);
    assert_eq!(parse_thread_count("99999999999999999999999"), None);
}

#[test]
fn override_wins_when_parseable() {
    assert_eq!(worker_pool_size(Some("2"), 16), 2);
    assert_eq!(worker_pool_size(Some("12"), 16), 12);
}

#[test]
fn default_is_cpus_capped_at_four() {
    assert_eq!(worker_pool_size(None, 2), 2);
    assert_eq!(worker_pool_size(None, 4), 4);
    assert_eq!(worker_pool_size(None, 64), 4);
}

#[test]
fn unparseable_override_falls_back() {
    assert_eq!(worker_pool_size(Some("many"), 8), 4);
    assert_eq!(worker_pool_size(Some(""), 2), 2);
}
