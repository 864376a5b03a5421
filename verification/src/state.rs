//! The state the router shares between its request handlers and its scraper.
//!
//! The scores and the mark of the best endpoint live in concurrent maps that
//! every task reads and writes at any time. What a read returns therefore
//! depends on what other tasks did in between; the functions here take what
//! they read as it comes and make their decisions from that snapshot.
use std::sync::Arc;
use dashmap::DashMap;
use vstd::prelude::*;
use crate::opt_view;
use crate::ranking::{calls_for, decide_top, order_endpoints, ordered_view, views, TopChange};

verus! {

/// `dashmap::DashMap`, a concurrent map, known to Verus as an opaque type.
#[verifier::external_type_specification]
#[verifier::external_body]
#[verifier::reject_recursive_types(K)]
#[verifier::reject_recursive_types(V)]
#[verifier::reject_recursive_types(S)]
pub struct ExDashMap<K, V, S>(DashMap<K, V, S>);

/// `reqwest::Client`, the HTTP client, known to Verus as an opaque type.
#[verifier::external_type_specification]
#[verifier::external_body]
pub struct ExClient(reqwest::Client);

/// The key under which the endpoint marked as best is kept.
pub const TOP_KEY: &'static str = "top";

/// State shared by all tasks of the router.
#[derive(Clone)]
pub struct AppState {
    /// The HTTP client that talks to the engines.
    pub client: Arc<reqwest::Client>,
    /// The engines, in the order of the configuration.
    pub endpoints: Vec<String>,
    /// The load key last scraped for each engine, by URL.
    pub scores: Arc<DashMap<String, u64>>,
    /// The engine marked as best, under the key [`TOP_KEY`].
    pub top: Arc<DashMap<String, String>>,
}

/// Reads the load recorded for `url` (`DashMap::get`). Other tasks write the
/// map concurrently, so nothing is stated of the result.
#[verifier::external_body]
fn recorded_load(scores: &DashMap<String, u64>, url: &str) -> Option<u64> {
    scores.get(url).map(|entry| *entry.value())
}

/// Records `load` for `url` (`DashMap::insert`). Other tasks read and write
/// the map concurrently, so nothing is stated of its contents afterwards.
#[verifier::external_body]
fn record_load(scores: &DashMap<String, u64>, url: String, load: u64) {
    scores.insert(url, load);
}

/// Reads the entry under `key` (`DashMap::get`). Other tasks write the map
/// concurrently, so nothing is stated of the result.
#[verifier::external_body]
fn entry_text(map: &DashMap<String, String>, key: &str) -> Option<String> {
    map.get(key).map(|entry| entry.value().clone())
}

/// Puts `value` under `key` (`DashMap::insert`); nothing is stated of the
/// map's contents afterwards, as other tasks share it.
#[verifier::external_body]
fn put_text(map: &DashMap<String, String>, key: String, value: String) {
    map.insert(key, value);
}

/// Removes the entry under `key` (`DashMap::remove`); nothing is stated of
/// the map's contents afterwards, as other tasks share it.
#[verifier::external_body]
fn remove_text(map: &DashMap<String, String>, key: &str) {
    map.remove(key);
}

/// The loads recorded for the configured endpoints, one per endpoint, `None`
/// for an endpoint that has not been scraped yet.
pub fn read_scores(state: &AppState) -> (scores: Vec<Option<u64>>)
    ensures
        scores@.len() == state.endpoints@.len(),
{
    let mut scores: Vec<Option<u64>> = Vec::new();
    for i in 0..state.endpoints.len()
        invariant
            scores@.len() == i,
    {
        scores.push(recorded_load(&state.scores, state.endpoints[i].as_str()));
    }
    scores
}

/// The endpoint marked as best, if any.
pub fn read_top(state: &AppState) -> Option<String> {
    entry_text(&state.top, TOP_KEY)
}

/// The endpoints that a request tries, in the order it tries them, by the
/// scores and mark read from the shared state: the marked endpoint first,
/// then the others by ascending load, ties in the order of the
/// configuration; endpoints the scraper marked down are left out.
pub fn ordered_endpoints(state: &AppState) -> (ordered: Vec<String>)
    ensures
        exists|scores: Seq<Option<u64>>, top: Option<Seq<char>>|
            scores.len() == state.endpoints@.len() && views(ordered@) == #[trigger] ordered_view(
                views(state.endpoints@),
                scores,
                top,
            ),
{
    let top = read_top(state);
    let scores = read_scores(state);
    let ordered = order_endpoints(&state.endpoints, &scores, &top);
    assert(views(ordered@) == ordered_view(views(state.endpoints@), scores@, opt_view(top)));
    ordered
}

/// Publishes the outcome of one round of scraping: records each endpoint's
/// load, then marks the endpoint with the lowest load among those that
/// answered, or clears the mark when none did.
///
/// Returns the loads the decision was made on (read back after recording,
/// one per endpoint) and the decision, which follows from them.
pub fn publish_scrape(state: &AppState, results: &Vec<(String, u64)>) -> (r: (Vec<Option<u64>>, TopChange))
    ensures
        r.0@.len() == state.endpoints@.len(),
        calls_for(views(state.endpoints@), r.0@, r.1),
{
    for k in 0..results.len() {
        record_load(&state.scores, results[k].0.clone(), results[k].1);
    }
    let scores = read_scores(state);
    let change = decide_top(&state.endpoints, &scores);
    match &change {
        TopChange::Mark(url) => put_text(&state.top, TOP_KEY.to_owned(), url.clone()),
        TopChange::Clear => remove_text(&state.top, TOP_KEY),
    }
    (scores, change)
}

} // verus!
