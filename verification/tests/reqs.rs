use kairos::reqs::{InMessages, Usage};

#[test]
fn messages_and_usage_hold_their_fields() {
    let m = InMessages { role: "user".to_string(), content: "hi".to_string() };
    assert_eq!(m.clone(), m);
    let u = Usage { completion_tokens: 2, prompt_tokens: 3, total_tokens: 5 };
    assert_eq!(u.total_tokens, u.completion_tokens + u.prompt_tokens);
}
