use kairos::metrics_text::{scan_load_metrics, LoadReadings};

/// The load score the router derives from a scrape: running + 2 * waiting,
/// a field that is not a number counting as 0.
fn score(text: &str) -> f64 {
    let r: LoadReadings = scan_load_metrics(text);
    let value = |field: Option<String>| -> f64 {
        field.and_then(|v| v.parse::<f64>().ok()).unwrap_or(0.0)
    };
    value(r.running) + value(r.waiting) * 2.0
}

#[test]
fn test_parse_score_empty() {
    assert_eq!(score(""), 0.0);
}

#[test]
fn test_parse_score_only_comments() {
    let input = "# HELP vllm metric\n# TYPE vllm gauge\n";
    assert_eq!(score(input), 0.0);
}

#[test]
fn test_parse_score_zero_load() {
    let input = "vllm:num_requests_running 0\nvllm:num_requests_waiting 0\n";
    assert_eq!(score(input), 0.0);
}

#[test]
fn test_parse_score_running_only() {
    let input = "vllm:num_requests_running 5\nvllm:num_requests_waiting 0\n";
    assert_eq!(score(input), 5.0);
}

#[test]
fn test_parse_score_waiting_only() {
    let input = "vllm:num_requests_running 0\nvllm:num_requests_waiting 3\n";
    assert_eq!(score(input), 6.0);
}

#[test]
fn test_parse_score_mixed() {
    let input = "vllm:num_requests_running 4\nvllm:num_requests_waiting 2\n";
    assert_eq!(score(input), 8.0);
}

#[test]
fn test_parse_score_with_extra_metrics() {
    let input =
        "vllm:num_requests_running 3\nvllm:other_metric 100\nvllm:num_requests_waiting 1\n";
    assert_eq!(score(input), 5.0);
}

#[test]
fn test_parse_score_float_values() {
    let input = "vllm:num_requests_running 2.5\nvllm:num_requests_waiting 1.5\n";
    assert_eq!(score(input), 5.5);
}

#[test]
fn test_parse_score_malformed_fallback() {
    let input = "vllm:num_requests_running abc\nvllm:num_requests_waiting xyz\n";
    assert_eq!(score(input), 0.0);
}

#[test]
fn scan_gives_raw_fields() {
    let r = scan_load_metrics("vllm:num_requests_running 4\nvllm:num_requests_waiting 2\n");
    assert_eq!(r.running.as_deref(), Some("4"));
    assert_eq!(r.waiting.as_deref(), Some("2"));
}

#[test]
fn scan_missing_gauge_is_none() {
    let r = scan_load_metrics("vllm:num_requests_running 7");
    assert_eq!(r.running.as_deref(), Some("7"));
    assert_eq!(r.waiting, None);
}

#[test]
fn scan_last_line_wins() {
    let r = scan_load_metrics(
        "vllm:num_requests_running 4\nvllm:num_requests_running oops\nvllm:num_requests_waiting 1\nvllm:num_requests_waiting 9\n",
    );
    assert_eq!(r.running.as_deref(), Some("oops"));
    assert_eq!(r.waiting.as_deref(), Some("9"));
}

#[test]
fn scan_takes_last_field_with_labels_and_crlf() {
    let r = scan_load_metrics(
        "vllm:num_requests_running{model_name=\"m\"} 3.0\r\nvllm:num_requests_waiting{model_name=\"m\"}\t 12 \r\n",
    );
    assert_eq!(r.running.as_deref(), Some("3.0"));
    assert_eq!(r.waiting.as_deref(), Some("12"));
}

#[test]
fn scan_ignores_comment_and_indented_lines() {
    let r = scan_load_metrics(
        "# vllm:num_requests_running 1\n vllm:num_requests_running 2\nvllm:num_requests_waiting_total 5\n",
    );
    assert_eq!(r.running, None);
    assert_eq!(r.waiting.as_deref(), Some("5"));
}

#[test]
fn scan_unicode_whitespace_separates_fields() {
    let r = scan_load_metrics("vllm:num_requests_running\u{3000}8\u{a0}");
    assert_eq!(r.running.as_deref(), Some("8"));
}

#[test]
fn unrelated_lines_anywhere_change_nothing() {
    let plain = "vllm:num_requests_running 4\nvllm:num_requests_waiting 2\n";
    let busy = "# HELP x\n\nvllm:num_requests_running 4\nvllm:gpu_cache_usage_perc 0.5\n# TYPE y gauge\nvllm:num_requests_waiting 2\nother 1\n";
    let a = scan_load_metrics(plain);
    let b = scan_load_metrics(busy);
    assert_eq!(a.running, b.running);
    assert_eq!(a.waiting, b.waiting);
    assert_eq!(score(plain), score(busy));
}
