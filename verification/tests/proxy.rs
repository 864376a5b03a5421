use kairos::proxy::{
    completions_url, metrics_url, relay, ChainEvent, ChunkEvent, ConnectOutcome, FallbackChain,
    ProxyStep, RelayAction,
};

fn strings(v: &[&str]) -> Vec<String> {
    v.iter().map(|s| s.to_string()).collect()
}

fn send(index: usize, url: &str) -> ProxyStep {
    ProxyStep::Send { index, url: url.to_string() }
}

#[test]
fn urls_append_paths() {
    assert_eq!(completions_url("http://a:8000"), "http://a:8000/v1/chat/completions");
    assert_eq!(metrics_url("http://a:8000"), "http://a:8000/metrics");
}

#[test]
fn chain_all_unreachable_is_bad_gateway() {
    let mut chain = FallbackChain::new(strings(&["http://x:1", "http://y:2"]), false);
    assert_eq!(chain.step(ChainEvent::Begin), send(0, "http://x:1/v1/chat/completions"));
    assert_eq!(chain.step(ChainEvent::Connected(ConnectOutcome::SendFailed)), send(1, "http://y:2/v1/chat/completions"));
    assert_eq!(chain.step(ChainEvent::Connected(ConnectOutcome::TimedOut)), ProxyStep::BadGateway);
}

#[test]
fn chain_falls_back_after_error_status() {
    let mut chain = FallbackChain::new(strings(&["http://bad", "http://good"]), false);
    assert_eq!(chain.step(ChainEvent::Begin), send(0, "http://bad/v1/chat/completions"));
    assert_eq!(
        chain.step(ChainEvent::Connected(ConnectOutcome::Refused(500))),
        send(1, "http://good/v1/chat/completions")
    );
    assert_eq!(chain.step(ChainEvent::Connected(ConnectOutcome::Accepted)), ProxyStep::ReadBody);
    assert_eq!(chain.step(ChainEvent::BodyRead(true)), ProxyStep::ReplyBody);
    assert!(!chain.expects(&ChainEvent::BodyRead(true)));
}

#[test]
fn chain_streaming_answers_with_first_accepting() {
    let mut chain = FallbackChain::new(strings(&["http://s"]), true);
    assert_eq!(chain.step(ChainEvent::Begin), send(0, "http://s/v1/chat/completions"));
    assert_eq!(chain.step(ChainEvent::Connected(ConnectOutcome::Accepted)), ProxyStep::StreamBody);
}

#[test]
fn chain_body_failure_moves_on() {
    let mut chain = FallbackChain::new(strings(&["http://a", "http://b"]), false);
    chain.step(ChainEvent::Begin);
    assert_eq!(chain.step(ChainEvent::Connected(ConnectOutcome::Accepted)), ProxyStep::ReadBody);
    assert_eq!(chain.step(ChainEvent::BodyRead(false)), send(1, "http://b/v1/chat/completions"));
    assert_eq!(chain.step(ChainEvent::Connected(ConnectOutcome::Accepted)), ProxyStep::ReadBody);
    assert_eq!(chain.step(ChainEvent::BodyRead(false)), ProxyStep::BadGateway);
}

#[test]
fn chain_without_endpoints_is_bad_gateway() {
    let mut chain = FallbackChain::new(Vec::new(), false);
    assert!(chain.expects(&ChainEvent::Begin));
    assert!(!chain.expects(&ChainEvent::BodyRead(true)));
    assert_eq!(chain.step(ChainEvent::Begin), ProxyStep::BadGateway);
}

#[test]
fn relay_decisions() {
    assert_eq!(relay(ChunkEvent::Data), RelayAction::Forward);
    assert_eq!(relay(ChunkEvent::End), RelayAction::Finish);
    assert_eq!(
        relay(ChunkEvent::Failed("connection reset".to_string())),
        RelayAction::EmitAndFinish(
            "data: {\"error\":\"upstream_error\",\"detail\":\"connection reset\"}\n\ndata: [DONE]\n\n"
                .to_string()
        )
    );
    assert_eq!(
        relay(ChunkEvent::Stalled),
        RelayAction::EmitAndFinish("data: {\"error\":\"upstream_stalled\"}\n\ndata: [DONE]\n\n".to_string())
    );
}
