use kairos::ranking::{decide_top, order_endpoints, select_top, TopChange, UNREACHABLE};
use kairos::state::{ordered_endpoints, publish_scrape, read_scores, read_top, AppState, TOP_KEY};
use dashmap::DashMap;
use reqwest::Client;
use std::sync::Arc;

fn test_state(endpoints: Vec<&str>) -> AppState {
    AppState {
        client: Arc::new(Client::new()),
        endpoints: endpoints.iter().map(|s| s.to_string()).collect(),
        scores: Arc::new(DashMap::new()),
        top: Arc::new(DashMap::new()),
    }
}

fn strings(v: &[&str]) -> Vec<String> {
    v.iter().map(|s| s.to_string()).collect()
}

#[test]
fn test_ordering_no_scores() {
    let state = test_state(vec!["http://a:8000", "http://b:8000"]);
    let ordered = ordered_endpoints(&state);
    assert_eq!(ordered.len(), 2);
    assert_eq!(ordered, vec!["http://a:8000", "http://b:8000"]);
}

#[test]
fn test_ordering_by_score() {
    let state = test_state(vec!["http://a:8000", "http://b:8000", "http://c:8000"]);
    state.scores.insert("http://a:8000".into(), 10);
    state.scores.insert("http://b:8000".into(), 2);
    state.scores.insert("http://c:8000".into(), 5);

    let ordered = ordered_endpoints(&state);
    assert_eq!(ordered[0], "http://b:8000");
    assert_eq!(ordered[1], "http://c:8000");
    assert_eq!(ordered[2], "http://a:8000");
}

#[test]
fn test_ordering_top_entry_first() {
    let state = test_state(vec!["http://a:8000", "http://b:8000", "http://c:8000"]);
    state.scores.insert("http://a:8000".into(), 1);
    state.scores.insert("http://b:8000".into(), 2);
    state.scores.insert("http://c:8000".into(), 3);
    state.top.insert(TOP_KEY.into(), "http://c:8000".into());

    let ordered = ordered_endpoints(&state);
    assert_eq!(ordered[0], "http://c:8000");
    assert_eq!(ordered[1], "http://a:8000");
    assert_eq!(ordered[2], "http://b:8000");
}

#[test]
fn test_ordering_with_unreachable() {
    let state = test_state(vec!["http://a:8000", "http://b:8000", "http://c:8000"]);
    state.scores.insert("http://a:8000".into(), UNREACHABLE);
    state.scores.insert("http://b:8000".into(), 1);
    state.scores.insert("http://c:8000".into(), UNREACHABLE);

    let ordered = ordered_endpoints(&state);
    assert_eq!(ordered[0], "http://b:8000");
    // Engines the scraper marked down get no traffic.
    assert_eq!(ordered, vec!["http://b:8000"]);
}

#[test]
fn test_ordering_single_endpoint() {
    let state = test_state(vec!["http://a:8000"]);
    state.scores.insert("http://a:8000".into(), 5);
    let ordered = ordered_endpoints(&state);
    assert_eq!(ordered, vec!["http://a:8000"]);
}

#[test]
fn order_is_stable_for_equal_loads() {
    let endpoints = strings(&["e0", "e1", "e2", "e3", "e4"]);
    let scores = vec![Some(3), None, Some(1), Some(3), Some(1)];
    let ordered = order_endpoints(&endpoints, &scores, &None);
    assert_eq!(ordered, strings(&["e2", "e4", "e0", "e3", "e1"]));
}

#[test]
fn order_pending_after_answering_and_down_left_out() {
    let endpoints = strings(&["p", "u", "ok"]);
    let scores = vec![None, Some(UNREACHABLE), Some(7)];
    let ordered = order_endpoints(&endpoints, &scores, &None);
    assert_eq!(ordered, strings(&["ok", "p"]));
}

#[test]
fn order_marked_first_even_when_heaviest() {
    let endpoints = strings(&["a", "b", "c"]);
    let scores = vec![Some(1), Some(2), Some(900)];
    let ordered = order_endpoints(&endpoints, &scores, &Some("c".to_string()));
    assert_eq!(ordered, strings(&["c", "a", "b"]));
}

#[test]
fn order_marked_but_down_is_left_out() {
    let endpoints = strings(&["a", "b", "c"]);
    let scores = vec![Some(1), Some(2), Some(UNREACHABLE)];
    let ordered = order_endpoints(&endpoints, &scores, &Some("c".to_string()));
    assert_eq!(ordered, strings(&["a", "b"]));
}

#[test]
fn order_all_down_is_empty() {
    let endpoints = strings(&["a", "b"]);
    let scores = vec![Some(UNREACHABLE), Some(UNREACHABLE)];
    assert!(order_endpoints(&endpoints, &scores, &None).is_empty());
}

#[test]
fn order_mark_not_in_fleet_is_ignored() {
    let endpoints = strings(&["a", "b"]);
    let scores = vec![Some(9), Some(2)];
    let ordered = order_endpoints(&endpoints, &scores, &Some("z".to_string()));
    assert_eq!(ordered, strings(&["b", "a"]));
}

#[test]
fn order_empty_fleet() {
    let ordered = order_endpoints(&Vec::new(), &Vec::new(), &None);
    assert!(ordered.is_empty());
}

#[test]
fn select_top_takes_first_lowest_reachable() {
    assert_eq!(select_top(&vec![Some(5), Some(2), None, Some(2), Some(UNREACHABLE)]), Some(1));
    assert_eq!(select_top(&vec![Some(0)]), Some(0));
}

#[test]
fn select_top_none_when_nothing_reachable() {
    assert_eq!(select_top(&vec![None, Some(UNREACHABLE)]), None);
    assert_eq!(select_top(&vec![]), None);
}

#[test]
fn decide_top_marks_best_url() {
    let endpoints = strings(&["a", "b", "c"]);
    assert_eq!(
        decide_top(&endpoints, &vec![Some(4), Some(3), Some(UNREACHABLE)]),
        TopChange::Mark("b".to_string())
    );
    assert_eq!(decide_top(&endpoints, &vec![None, None, None]), TopChange::Clear);
}

#[test]
fn scrape_marks_best_and_ordering_follows() {
    let state = test_state(vec!["http://a:8000", "http://b:8000", "http://c:8000"]);
    let results = vec![
        ("http://a:8000".to_string(), 30),
        ("http://b:8000".to_string(), UNREACHABLE),
        ("http://c:8000".to_string(), 10),
    ];
    let (scores, change) = publish_scrape(&state, &results);
    assert_eq!(scores, vec![Some(30), Some(UNREACHABLE), Some(10)]);
    assert_eq!(change, TopChange::Mark("http://c:8000".to_string()));
    assert_eq!(read_top(&state), Some("http://c:8000".to_string()));
    assert_eq!(read_scores(&state), scores);
    assert_eq!(ordered_endpoints(&state), vec!["http://c:8000", "http://a:8000"]);
}

#[test]
fn scrape_with_all_unreachable_clears_mark() {
    let state = test_state(vec!["http://a:8000", "http://b:8000"]);
    state.top.insert(TOP_KEY.into(), "http://a:8000".into());
    let results = vec![
        ("http://a:8000".to_string(), UNREACHABLE),
        ("http://b:8000".to_string(), UNREACHABLE),
    ];
    let (_, change) = publish_scrape(&state, &results);
    assert_eq!(change, TopChange::Clear);
    assert_eq!(read_top(&state), None);
}
