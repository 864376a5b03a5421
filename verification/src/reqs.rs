//! Plain data of the chat completion API that the router passes through.
use vstd::prelude::*;

verus! {

/// One message of an incoming chat completion request.
#[derive(Debug, Clone, PartialEq, Eq)]
pub struct InMessages {
    pub role: String,
    pub content: String,
}

/// Token counts that an engine reports with its answer.
#[derive(Debug, Clone, Copy, PartialEq, Eq, Structural)]
pub struct Usage {
    pub completion_tokens: usize,
    pub prompt_tokens: usize,
    pub total_tokens: usize,
}

} // verus!
