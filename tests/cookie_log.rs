use cookie_log::{
    get_cookie_logs, get_cookies_on_date, lines_after_header, most_active_cookies, CookieLog,
    MalformedRecord,
};

/// A log of eight sightings over three days.
const SAMPLE_LOG: &str = "cookie,timestamp
AtY0laUfhglK3lC7,2018-12-09T14:19:00+00:00
SAZuXPGUrfbcn5UA,2018-12-09T10:13:00+00:00
5UAVanZf6UtGyKVS,2018-12-09T07:25:00+00:00
AtY0laUfhglK3lC7,2018-12-09T06:19:00+00:00
SAZuXPGUrfbcn5UA,2018-12-08T22:03:00+00:00
4sMM2LxV07bPJzwf,2018-12-08T21:30:00+00:00
fbcn5UAVanZf6UtG,2018-12-08T09:30:00+00:00
4sMM2LxV07bPJzwf,2018-12-07T23:30:00+00:00";

fn sample_logs() -> Vec<CookieLog> {
    get_cookie_logs(lines_after_header(SAMPLE_LOG)).unwrap()
}

fn sorted(mut v: Vec<String>) -> Vec<String> {
    v.sort();
    v
}

fn log(cookie: &str, utc_time: &str) -> CookieLog {
    CookieLog::new(cookie.to_string(), utc_time.to_string())
}

#[test]
fn cookie_creation() {
    let cookie_log = CookieLog::new(
        "AtY0laUfhglK3lC7".to_string(),
        "2018-12-09T14:19:00+00:00".to_string(),
    );
    assert_eq!(cookie_log.cookie, "AtY0laUfhglK3lC7");
    assert_eq!(cookie_log.utc_time, "2018-12-09T14:19:00+00:00");
}

#[test]
fn cookie_date_retrieval() {
    let cookie_log = CookieLog::new(
        "AtY0laUfhglK3lC7".to_string(),
        "2018-12-09T14:19:00+00:00".to_string(),
    );

    assert_eq!(cookie_log.get_date(), "2018-12-09")
}

#[test]
fn cookie_filter_on_date() {
    let cookie_logs = sample_logs();

    let filtered_cookie_logs = get_cookies_on_date(cookie_logs, &"2018-12-08".to_string());

    assert_eq!(filtered_cookie_logs.len(), 3);
    assert_eq!(filtered_cookie_logs[0].get_date(), "2018-12-08");
}

#[test]
fn most_active_cookies_overall() {
    let cookie_logs = sample_logs();

    let most_active_cookie = most_active_cookies(cookie_logs);

    assert!(most_active_cookie.contains(&"SAZuXPGUrfbcn5UA".to_string()));
    assert!(most_active_cookie.contains(&"AtY0laUfhglK3lC7".to_string()));
    assert!(most_active_cookie.contains(&"4sMM2LxV07bPJzwf".to_string()));
}

#[test]
fn most_active_cookies_on_date() {
    let cookie_logs = sample_logs();

    let cookies_on_date = get_cookies_on_date(cookie_logs, &"2018-12-07".to_string());

    let most_active_cookie = most_active_cookies(cookies_on_date);

    assert!(most_active_cookie.contains(&"4sMM2LxV07bPJzwf".to_string()));
}

#[test]
fn overall_tie_has_exactly_three_cookies() {
    let result = sorted(most_active_cookies(sample_logs()));
    assert_eq!(
        result,
        vec![
            "4sMM2LxV07bPJzwf".to_string(),
            "AtY0laUfhglK3lC7".to_string(),
            "SAZuXPGUrfbcn5UA".to_string(),
        ]
    );
}

#[test]
fn single_cookie_on_its_date() {
    let text = "cookie,timestamp\nAtY0laUfhglK3lC7,2018-12-09T14:19:00+00:00";
    let logs = get_cookie_logs(lines_after_header(text)).unwrap();
    let on_date = get_cookies_on_date(logs, &"2018-12-09".to_string());
    assert_eq!(on_date.len(), 1);
    assert_eq!(most_active_cookies(on_date), vec!["AtY0laUfhglK3lC7".to_string()]);
}

#[test]
fn most_active_on_the_ninth() {
    let on_date = get_cookies_on_date(sample_logs(), &"2018-12-09".to_string());
    assert_eq!(on_date.len(), 4);
    assert_eq!(most_active_cookies(on_date), vec!["AtY0laUfhglK3lC7".to_string()]);
}

#[test]
fn empty_input_has_no_most_active_cookie() {
    assert!(most_active_cookies(Vec::new()).is_empty());
}

#[test]
fn distinct_cookies_all_tie() {
    let logs = vec![
        log("b", "2018-12-09T14:19:00+00:00"),
        log("a", "2018-12-09T10:13:00+00:00"),
        log("c", "2018-12-09T07:25:00+00:00"),
    ];
    assert_eq!(
        sorted(most_active_cookies(logs)),
        vec!["a".to_string(), "b".to_string(), "c".to_string()]
    );
}

#[test]
fn most_active_is_reported_once() {
    let logs = vec![
        log("x", "2018-12-09T14:19:00+00:00"),
        log("y", "2018-12-09T10:13:00+00:00"),
        log("x", "2018-12-09T07:25:00+00:00"),
        log("x", "2018-12-09T06:25:00+00:00"),
        log("y", "2018-12-09T05:25:00+00:00"),
    ];
    assert_eq!(most_active_cookies(logs), vec!["x".to_string()]);
}

#[test]
fn filtering_twice_changes_nothing() {
    let once = get_cookies_on_date(sample_logs(), &"2018-12-08".to_string());
    let once_cookies: Vec<String> = once.iter().map(|c| c.cookie.clone()).collect();
    let twice = get_cookies_on_date(once, &"2018-12-08".to_string());
    let twice_cookies: Vec<String> = twice.iter().map(|c| c.cookie.clone()).collect();
    assert_eq!(
        twice_cookies,
        vec![
            "SAZuXPGUrfbcn5UA".to_string(),
            "4sMM2LxV07bPJzwf".to_string(),
            "fbcn5UAVanZf6UtG".to_string(),
        ]
    );
    assert_eq!(once_cookies, twice_cookies);
}

#[test]
fn filter_on_absent_date_is_empty() {
    assert!(get_cookies_on_date(sample_logs(), &"2018-12-10".to_string()).is_empty());
}

#[test]
fn short_timestamp_is_its_own_date() {
    assert_eq!(log("a", "2018-12").get_date(), "2018-12");
}

#[test]
fn loader_drops_only_the_header() {
    let text = "anything at all\na,1\nb,2\nc,3";
    let lines = lines_after_header(text);
    assert_eq!(lines, vec!["a,1".to_string(), "b,2".to_string(), "c,3".to_string()]);
    assert_eq!(get_cookie_logs(lines).unwrap().len(), 3);
}

#[test]
fn loader_on_empty_text_gives_no_records() {
    assert!(lines_after_header("").is_empty());
    assert!(lines_after_header("cookie,timestamp").is_empty());
}

#[test]
fn loader_keeps_empty_last_record() {
    assert_eq!(
        lines_after_header("h\na,1\n"),
        vec!["a,1".to_string(), String::new()]
    );
}

#[test]
fn parser_ignores_extra_fields() {
    let c = CookieLog::parse("abc,2018-12-09T14:19:00+00:00,extra,more").unwrap();
    assert_eq!(c.cookie, "abc");
    assert_eq!(c.utc_time, "2018-12-09T14:19:00+00:00");
}

#[test]
fn parser_takes_empty_fields() {
    let c = CookieLog::parse(",").unwrap();
    assert_eq!(c.cookie, "");
    assert_eq!(c.utc_time, "");
}

#[test]
fn parser_rejects_record_without_comma() {
    assert!(CookieLog::parse("AtY0laUfhglK3lC7").is_none());
}

#[test]
fn malformed_record_fails_the_whole_parse() {
    let lines = vec!["a,1".to_string(), "broken".to_string(), "".to_string()];
    assert_eq!(get_cookie_logs(lines).unwrap_err(), MalformedRecord { line: 1 });
}

#[test]
fn trailing_newline_fails_the_parse() {
    let text = "cookie,timestamp\na,2018-12-09T14:19:00+00:00\n";
    assert_eq!(
        get_cookie_logs(lines_after_header(text)).unwrap_err(),
        MalformedRecord { line: 1 }
    );
}
