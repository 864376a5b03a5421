use dashmap::DashMap;
use kairos::metrics_text::scan_load_metrics;
use kairos::proxy::{ChainEvent, ConnectOutcome, FallbackChain, ProxyStep};
use kairos::ranking::{TopChange, UNREACHABLE};
use kairos::state::{ordered_endpoints, publish_scrape, read_scores, read_top, AppState, TOP_KEY};
use kairos::status::status_report;
use reqwest::Client;
use std::sync::Arc;

fn test_state(endpoints: Vec<&str>) -> AppState {
    AppState {
        client: Arc::new(Client::new()),
        endpoints: endpoints.iter().map(|s| s.to_string()).collect(),
        scores: Arc::new(DashMap::new()),
        top: Arc::new(DashMap::new()),
    }
}

fn report_of(state: &AppState) -> Vec<kairos::status::EndpointReport> {
    let top = read_top(state);
    let scores = read_scores(state);
    status_report(&state.endpoints, &scores, &top)
}

/// Runs a chain whose every send gets `outcome`, returning the steps.
fn run_chain(endpoints: Vec<String>, outcomes: &[ConnectOutcome]) -> Vec<ProxyStep> {
    let mut chain = FallbackChain::new(endpoints, false);
    let mut steps = Vec::new();
    let mut event = ChainEvent::Begin;
    let mut k = 0;
    loop {
        assert!(chain.expects(&event));
        let step = chain.step(event);
        steps.push(step.clone());
        event = match step {
            ProxyStep::Send { .. } => {
                let o = outcomes[k];
                k += 1;
                ChainEvent::Connected(o)
            }
            ProxyStep::ReadBody => ChainEvent::BodyRead(true),
            _ => return steps,
        };
    }
}

#[test]
fn test_metrics_with_endpoints() {
    let state = test_state(vec!["http://ep1:8000", "http://ep2:8000"]);
    state.scores.insert("http://ep1:8000".into(), 3);
    state.top.insert(TOP_KEY.into(), "http://ep1:8000".into());
    let report = report_of(&state);
    assert_eq!(report.len(), 2);
}

#[test]
fn test_metrics_status_classification() {
    let state = test_state(vec!["http://ok:8000", "http://bad:8000", "http://pending:8000"]);
    state.scores.insert("http://ok:8000".into(), 1);
    state.scores.insert("http://bad:8000".into(), UNREACHABLE);
    let report = report_of(&state);
    let find = |url: &str| report.iter().find(|e| e.endpoint == url).unwrap().status.label();
    assert_eq!(find("http://ok:8000"), "ok");
    assert_eq!(find("http://bad:8000"), "unreachable");
    assert_eq!(find("http://pending:8000"), "pending");
}

#[test]
fn test_completions_all_unreachable() {
    let state = test_state(vec!["http://nonexistent:9999"]);
    state.scores.insert("http://nonexistent:9999".into(), UNREACHABLE);
    let steps = run_chain(ordered_endpoints(&state), &[ConnectOutcome::SendFailed]);
    assert_eq!(steps.last(), Some(&ProxyStep::BadGateway));
    // The engine is marked down, so nothing is sent to it.
    assert_eq!(steps, vec![ProxyStep::BadGateway]);
}

#[test]
fn test_completions_fallback_chain() {
    let state = test_state(vec!["http://one:1", "http://two:2"]);
    state.scores.insert("http://one:1".into(), 1);
    state.scores.insert("http://two:2".into(), 2);
    let steps = run_chain(
        ordered_endpoints(&state),
        &[ConnectOutcome::Refused(500), ConnectOutcome::Accepted],
    );
    assert_eq!(
        steps,
        vec![
            ProxyStep::Send { index: 0, url: "http://one:1/v1/chat/completions".to_string() },
            ProxyStep::Send { index: 1, url: "http://two:2/v1/chat/completions".to_string() },
            ProxyStep::ReadBody,
            ProxyStep::ReplyBody,
        ]
    );
}

#[test]
fn pending_endpoints_all_failing_get_bad_gateway_after_each() {
    let state = test_state(vec!["http://x:1", "http://y:2"]);
    let steps = run_chain(ordered_endpoints(&state), &[ConnectOutcome::TimedOut, ConnectOutcome::Refused(503)]);
    assert_eq!(steps.len(), 3);
    assert_eq!(steps.last(), Some(&ProxyStep::BadGateway));
}

#[test]
fn down_engine_skipped_in_fallback() {
    let state = test_state(vec!["http://down:1", "http://up:2"]);
    state.scores.insert("http://down:1".into(), UNREACHABLE);
    state.scores.insert("http://up:2".into(), 4);
    let steps = run_chain(ordered_endpoints(&state), &[ConnectOutcome::Accepted]);
    assert_eq!(
        steps,
        vec![
            ProxyStep::Send { index: 0, url: "http://up:2/v1/chat/completions".to_string() },
            ProxyStep::ReadBody,
            ProxyStep::ReplyBody,
        ]
    );
}

#[test]
fn test_50_endpoints_ordering() {
    let endpoints: Vec<String> = (0..50).map(|i| format!("http://ep-{}:8000", i)).collect();
    let state = test_state(endpoints.iter().map(|s| s.as_str()).collect());
    for (i, ep) in endpoints.iter().enumerate() {
        state.scores.insert(ep.clone(), (i % 10) as u64);
    }
    let ordered = ordered_endpoints(&state);
    assert_eq!(ordered.len(), 50);
    assert!(ordered[0].ends_with(":8000"));
    // Lowest load first, ties in configuration order.
    assert_eq!(ordered[0], "http://ep-0:8000");
    assert_eq!(ordered[1], "http://ep-10:8000");
    assert_eq!(ordered[49], "http://ep-49:8000");
}

#[test]
fn test_50_endpoints_all_unreachable() {
    let endpoints: Vec<String> = (0..50).map(|i| format!("http://nonexistent-{}:9999", i)).collect();
    let state = test_state(endpoints.iter().map(|s| s.as_str()).collect());
    for ep in &endpoints {
        state.scores.insert(ep.clone(), UNREACHABLE);
    }
    let steps = run_chain(ordered_endpoints(&state), &[ConnectOutcome::TimedOut; 50]);
    assert_eq!(steps, vec![ProxyStep::BadGateway]);
}

#[test]
fn test_metrics_scraper_50_endpoints() {
    let urls: Vec<String> = (0..50).map(|i| format!("http://engine-{}:8000", i)).collect();
    let state = test_state(urls.iter().map(|s| s.as_str()).collect());
    let mut results = Vec::new();
    for (i, url) in urls.iter().enumerate() {
        let score = (i % 10) as f64;
        let text = format!(
            "vllm:num_requests_running {}\nvllm:num_requests_waiting {}\n",
            score / 2.0,
            score / 4.0
        );
        let r = scan_load_metrics(&text);
        let value = |f: Option<String>| f.and_then(|v| v.parse::<f64>().ok()).unwrap_or(0.0);
        let load = value(r.running) + value(r.waiting) * 2.0;
        assert_eq!(load, score);
        results.push((url.clone(), load as u64));
    }
    let (scores, change) = publish_scrape(&state, &results);
    assert_eq!(state.scores.len(), 50);
    assert!(scores.iter().any(|s| matches!(s, Some(k) if *k < UNREACHABLE)));
    assert_eq!(change, TopChange::Mark("http://engine-0:8000".to_string()));
    let ordered = ordered_endpoints(&state);
    assert_eq!(ordered[0], "http://engine-0:8000");
}
