use logquery::decode::get_rest_label_pairs;
use logquery::errors::AppError;
use logquery::fanout::{convert_vec_hashmap, writes_after_fetch};
use logquery::filter::{filter_by_matches, filter_series, SeriesRecord};
use logquery::keys::{
    label_cache_key, label_values_cache_key, series_cache_key, series_cache_key_with_matches,
};
use logquery::selector::{canonicalize_matches, str_to_operator, LabelPair, Operator};
use logquery::series::{
    choose_cache_key, longest_prefix, refine_series, series_request_key,
};
use logquery::timerange::time_range_less_in_a_day;

fn pair(label: &str, op: Operator, value: &str) -> LabelPair {
    LabelPair {
        label: label.to_string(),
        op,
        value: value.to_string(),
    }
}

fn record(entries: &[(&str, &str)]) -> SeriesRecord {
    entries
        .iter()
        .map(|(k, v)| (k.to_string(), v.to_string()))
        .collect()
}

#[test]
fn test_get_rest_label_pairs() {
    let test_cases = vec![
        (
            "cc:series:",
            "cc:series:-k1/0/v1",
            vec![pair("k1", Operator::Equal, "v1")],
        ),
        (
            "cc:series:",
            "cc:series:-k1/0/v1-k2/1/v2",
            vec![
                pair("k1", Operator::Equal, "v1"),
                pair("k2", Operator::NotEqual, "v2"),
            ],
        ),
        (
            "cc:series:-k1/0/v1",
            "cc:series:-k1/0/v1-k2/1/v2",
            vec![pair("k2", Operator::NotEqual, "v2")],
        ),
        (
            "cc:series:-k1/0/v1-k2/1/v2",
            "cc:series:-k1/0/v1-k2/1/v2-k3/2/v3",
            vec![pair("k3", Operator::RegexMatch, "v3")],
        ),
    ];
    for (using_key, cache_key, expected) in test_cases {
        let actual = get_rest_label_pairs(using_key, cache_key);
        assert_eq!(actual, Some(expected));
    }
}

#[test]
fn test_canonicalize_matches() {
    let test_cases = vec![
        (vec![pair("k1", Operator::Equal, "v1")], "k1/0/v1"),
        (
            vec![
                pair("k1", Operator::Equal, "v1"),
                pair("k2", Operator::NotEqual, "v2"),
            ],
            "k1/0/v1-k2/1/v2",
        ),
        (
            vec![
                pair("k1", Operator::Equal, "v1"),
                pair("k2", Operator::NotEqual, "v2"),
                pair("ServiceName", Operator::RegexNotMatch, "ss"),
            ],
            "ServiceName/3/ss-k1/0/v1-k2/1/v2",
        ),
        (
            vec![
                pair("k1", Operator::Equal, "v1"),
                pair("k2", Operator::NotEqual, "v2"),
                pair("k3", Operator::RegexMatch, "v3"),
            ],
            "k1/0/v1-k2/1/v2-k3/2/v3",
        ),
    ];
    for (matches, expected) in test_cases {
        let actual = canonicalize_matches(&matches);
        assert_eq!(actual, expected);
    }
}

#[test]
fn canonical_key_ignores_order_and_repeats() {
    let a = vec![
        pair("k2", Operator::NotEqual, "v2"),
        pair("k1", Operator::Equal, "v1"),
        pair("k1", Operator::RegexMatch, "a.*"),
    ];
    let b = vec![
        pair("k1", Operator::RegexMatch, "a.*"),
        pair("k1", Operator::Equal, "v1"),
        pair("k2", Operator::NotEqual, "v2"),
        pair("k1", Operator::Equal, "v1"),
    ];
    assert_eq!(canonicalize_matches(&a), canonicalize_matches(&b));
    assert_eq!(canonicalize_matches(&a), "k1/0/v1-k1/2/a.*-k2/1/v2");
}

#[test]
fn canonical_key_of_no_pairs_is_empty() {
    assert_eq!(canonicalize_matches(&[]), "");
}

#[test]
fn service_name_sorts_first_in_any_case() {
    let m = vec![
        pair("a", Operator::Equal, "1"),
        pair("SERVICENAME", Operator::Equal, "x"),
        pair("Z", Operator::Equal, "2"),
    ];
    assert_eq!(canonicalize_matches(&m), "SERVICENAME/0/x-Z/0/2-a/0/1");
    let n = vec![
        pair("servicenames", Operator::Equal, "1"),
        pair("sErViCeNaMe", Operator::NotEqual, "y"),
    ];
    assert_eq!(canonicalize_matches(&n), "sErViCeNaMe/1/y-servicenames/0/1");
}

#[test]
fn scenario_service_name_selector_key() {
    let m = vec![
        pair("k1", Operator::Equal, "v1"),
        pair("k2", Operator::NotEqual, "v2"),
        pair("ServiceName", Operator::RegexNotMatch, "ss"),
    ];
    assert_eq!(canonicalize_matches(&m), "ServiceName/3/ss-k1/0/v1-k2/1/v2");
}

#[test]
fn decoding_subset_key_gives_the_rest() {
    let s = vec![
        pair("b", Operator::NotEqual, "2"),
        pair("a", Operator::Equal, "1"),
        pair("c", Operator::RegexMatch, "3"),
    ];
    let sub = vec![pair("a", Operator::Equal, "1")];
    let full = series_cache_key_with_matches(&canonicalize_matches(&s));
    let using = series_cache_key_with_matches(&canonicalize_matches(&sub));
    assert_eq!(
        get_rest_label_pairs(&using, &full),
        Some(vec![
            pair("b", Operator::NotEqual, "2"),
            pair("c", Operator::RegexMatch, "3"),
        ])
    );
    assert_eq!(
        get_rest_label_pairs(&series_cache_key(), &full),
        Some(vec![
            pair("a", Operator::Equal, "1"),
            pair("b", Operator::NotEqual, "2"),
            pair("c", Operator::RegexMatch, "3"),
        ])
    );
    assert_eq!(get_rest_label_pairs(&full, &full), Some(vec![]));
}

#[test]
fn malformed_suffix_is_rejected() {
    assert_eq!(get_rest_label_pairs("cc:series:", "cc:series:-k1/9/v1"), None);
    assert_eq!(get_rest_label_pairs("cc:series:", "cc:series:-k1/0"), None);
    assert_eq!(get_rest_label_pairs("cc:series:", "cc:series:-k1/0/v1-"), None);
    assert_eq!(get_rest_label_pairs("cc:series:", "cc:series:-k1/0/v/1"), None);
    assert_eq!(get_rest_label_pairs("cc:series:", "cc:series:-k1/00/v1"), None);
}

#[test]
fn operator_codes() {
    assert_eq!(str_to_operator('0'), Some(Operator::Equal));
    assert_eq!(str_to_operator('3'), Some(Operator::RegexNotMatch));
    assert_eq!(str_to_operator('4'), None);
}

#[test]
fn missing_label_fails_equal_and_passes_not_equal() {
    let r = record(&[("y", "v")]);
    assert!(!filter_by_matches(&r, &vec![pair("x", Operator::Equal, "v")]));
    assert!(filter_by_matches(&r, &vec![pair("x", Operator::NotEqual, "v")]));
    assert!(!filter_by_matches(&r, &vec![pair("x", Operator::RegexMatch, ".*")]));
    assert!(filter_by_matches(&r, &vec![pair("x", Operator::RegexNotMatch, ".*")]));
}

#[test]
fn present_label_operators() {
    let r = record(&[("x", "value"), ("y", "other")]);
    assert!(filter_by_matches(&r, &vec![pair("x", Operator::Equal, "value")]));
    assert!(!filter_by_matches(&r, &vec![pair("x", Operator::NotEqual, "value")]));
    assert!(filter_by_matches(&r, &vec![pair("x", Operator::RegexMatch, "al")]));
    assert!(!filter_by_matches(&r, &vec![pair("x", Operator::RegexMatch, "^al")]));
    assert!(filter_by_matches(&r, &vec![pair("x", Operator::RegexNotMatch, "^al")]));
    assert!(!filter_by_matches(
        &r,
        &vec![pair("x", Operator::Equal, "value"), pair("y", Operator::Equal, "nope")]
    ));
}

#[test]
fn invalid_regex_matches_no_record() {
    let records = vec![record(&[("x", "(")]), record(&[("x", "abc")]), record(&[])];
    for r in &records {
        assert!(!filter_by_matches(r, &vec![pair("x", Operator::RegexMatch, "(")]));
        assert!(filter_by_matches(r, &vec![pair("x", Operator::RegexNotMatch, "(")]));
    }
}

#[test]
fn filter_series_keeps_order() {
    let records = vec![
        record(&[("k", "1")]),
        record(&[("k", "2")]),
        record(&[("k", "1"), ("j", "x")]),
    ];
    let kept = filter_series(records, &vec![pair("k", Operator::Equal, "1")]);
    assert_eq!(kept, vec![record(&[("k", "1")]), record(&[("k", "1"), ("j", "x")])]);
}

#[test]
fn empty_fetch_writes_nothing() {
    let w = writes_after_fetch(&vec![]);
    assert!(!w.store_all);
    assert!(w.label_values.is_empty());
}

#[test]
fn fetch_fans_out_label_values() {
    let records = vec![
        record(&[("a", "1"), ("b", "x")]),
        record(&[("a", "2")]),
        record(&[("a", "1"), ("b", "y")]),
    ];
    let w = writes_after_fetch(&records);
    assert!(w.store_all);
    assert_eq!(
        w.label_values,
        vec![
            (
                "cc:label_values:a".to_string(),
                vec!["1".to_string(), "2".to_string()]
            ),
            (
                "cc:label_values:b".to_string(),
                vec!["x".to_string(), "y".to_string()]
            ),
        ]
    );
    assert_eq!(
        convert_vec_hashmap(&records),
        vec![
            ("a".to_string(), vec!["1".to_string(), "2".to_string()]),
            ("b".to_string(), vec!["x".to_string(), "y".to_string()]),
        ]
    );
}

#[test]
fn empty_series_request_is_rejected() {
    assert_eq!(
        series_request_key(&vec![], "{}"),
        Err(AppError::InvalidQueryString("{}".to_string()))
    );
    assert_eq!(
        series_request_key(&vec![pair("k1", Operator::Equal, "v1")], "{k1=\"v1\"}"),
        Ok("cc:series:-k1/0/v1".to_string())
    );
}

#[test]
fn scenario_second_request_reuses_first() {
    let first = series_request_key(&vec![pair("k1", Operator::Equal, "v1")], "q").unwrap();
    let second_pairs = vec![
        pair("k1", Operator::Equal, "v1"),
        pair("k2", Operator::NotEqual, "v2"),
    ];
    let second = series_request_key(&second_pairs, "q").unwrap();
    assert_eq!(first, "cc:series:-k1/0/v1");
    assert_eq!(second, "cc:series:-k1/0/v1-k2/1/v2");
    let keys = vec![
        "cc:labels".to_string(),
        series_cache_key(),
        first.clone(),
        "cc:series:-k1/0/v".to_string(),
    ];
    assert_eq!(longest_prefix(&keys, &second), Some(2));
    let chosen = choose_cache_key(&keys, &second);
    assert_eq!(chosen, first);
    let cached = vec![
        record(&[("k1", "v1"), ("k2", "v2")]),
        record(&[("k1", "v1"), ("k2", "v3")]),
        record(&[("k1", "v1")]),
    ];
    let out = refine_series(&chosen, &second, &second_pairs, cached);
    assert_eq!(
        out.records,
        vec![record(&[("k1", "v1"), ("k2", "v3")]), record(&[("k1", "v1")])]
    );
    assert!(out.store);
}

#[test]
fn no_candidate_falls_back_to_all_series() {
    let keys = vec!["cc:labels".to_string(), "cc:series:-k9/0/v9".to_string()];
    assert_eq!(longest_prefix(&keys, "cc:series:-k1/0/v1"), None);
    assert_eq!(choose_cache_key(&keys, "cc:series:-k1/0/v1"), "cc:series:");
}

#[test]
fn exact_entry_needs_no_filtering() {
    let cached = vec![record(&[("k1", "v1")])];
    let out = refine_series(
        "cc:series:-k1/0/v1",
        "cc:series:-k1/0/v1",
        &vec![pair("k1", Operator::Equal, "v1")],
        cached,
    );
    assert_eq!(out.records, vec![record(&[("k1", "v1")])]);
    assert!(!out.store);
}

#[test]
fn filtered_to_nothing_is_not_stored() {
    let cached = vec![record(&[("k1", "v2")])];
    let out = refine_series(
        "cc:series:",
        "cc:series:-k1/0/v1",
        &vec![pair("k1", Operator::Equal, "v1")],
        cached,
    );
    assert!(out.records.is_empty());
    assert!(!out.store);
}

#[test]
fn unreadable_suffix_applies_whole_request() {
    let cached = vec![record(&[("k1", "v1")]), record(&[("k1", "v2")])];
    let out = refine_series(
        "cc:series:",
        "cc:series:-k1/7/v1",
        &vec![pair("k1", Operator::Equal, "v1")],
        cached,
    );
    assert_eq!(out.records, vec![record(&[("k1", "v1")])]);
    assert!(out.store);
}

#[test]
fn cache_keys() {
    assert_eq!(label_cache_key(), "cc:labels");
    assert_eq!(label_values_cache_key("job"), "cc:label_values:job");
    assert_eq!(series_cache_key(), "cc:series:");
    assert_eq!(series_cache_key_with_matches("k1/0/v1"), "cc:series:-k1/0/v1");
}

#[test]
fn time_window_is_clamped_to_two_hours() {
    let now = 1_000_000;
    let r = time_range_less_in_a_day(None, Some(now), now);
    assert_eq!(r.start, Some(now - 7200));
    assert_eq!(r.end, None);
    let r = time_range_less_in_a_day(Some(now - 100), None, now);
    assert_eq!(r.start, Some(now - 100));
    let r = time_range_less_in_a_day(Some(now - 100_000), None, now);
    assert_eq!(r.start, Some(now - 7200));
}
