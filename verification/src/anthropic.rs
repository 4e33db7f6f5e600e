//! The outbound completion request, as plain data. The caller owns the
//! transport and the serialization; this module fixes what the request
//! must contain.

use vstd::prelude::*;
use vstd::string::StringExecFns;

verus! {

/// One content block of a message.
pub struct Content {
    /// Block kind; always `"text"` here.
    pub content_type: String,
    /// The block's text.
    pub text: String,
}

/// One conversation message.
pub struct Message {
    /// The speaker role; always `"user"` here.
    pub role: String,
    /// The message's content blocks.
    pub content: Vec<Content>,
}

/// A completion request body.
pub struct AnthropicRequest {
    /// Model identifier.
    pub model: String,
    /// Response token ceiling.
    pub max_tokens: u32,
    /// The conversation so far: here, one user message.
    pub messages: Vec<Message>,
}

/// Build the analysis request: the caller's model identifier, the fixed
/// token ceiling, and one user message whose single text block is the
/// prompt.
pub fn build_analysis_request(model: &str, prompt: &str) -> (r: AnthropicRequest)
    ensures
        r.model@ == model@,
        r.max_tokens == 4096,
        r.messages@.len() == 1,
        r.messages@[0].role@ == "user"@,
        r.messages@[0].content@.len() == 1,
        r.messages@[0].content@[0].content_type@ == "text"@,
        r.messages@[0].content@[0].text@ == prompt@,
{
    let content = Content { content_type: String::from_str("text"), text: String::from_str(prompt) };
    let mut blocks: Vec<Content> = Vec::new();
    blocks.push(content);
    let message = Message { role: String::from_str("user"), content: blocks };
    let mut messages: Vec<Message> = Vec::new();
    messages.push(message);
    AnthropicRequest { model: String::from_str(model), max_tokens: 4096, messages }
}

} // verus!
