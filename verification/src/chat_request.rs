//! Chat requests.

use vstd::prelude::*;

verus! {

/// Whether `value` is `false`, which is what a field that defaults to `false` is
/// left out for when it is written.
pub fn is_false(value: &bool) -> (yes: bool)
    ensures
        yes == !*value,
{
    !*value
}

/// What an event carries.
#[derive(Debug, Clone)]
pub enum EventValue {
    /// Text.
    Text(String),
}

impl EventValue {
    /// An event value that carries `text`.
    pub fn text(text: &str) -> (value: EventValue)
        ensures
            value matches EventValue::Text(held) && held@ == text@,
    {
        EventValue::Text(text.to_owned())
    }
}

/// The event that a chat interaction begins with.
#[derive(Debug, Clone)]
pub struct Event {
    /// What the event carries.
    pub value: EventValue,
}

impl Event {
    /// An event that carries `value`.
    pub fn new(value: EventValue) -> (event: Event)
        ensures
            event.value == value,
    {
        Event { value }
    }
}

/// Identifies a conversation.
#[derive(Debug, Clone)]
pub struct ConversationId {
    /// The identifier as text.
    pub text: String,
}

/// A chat request submitted to the orchestration layer.
///
/// The `internal` flag says that the request comes from an automated internal
/// path (a sub-agent dispatch, title generation, or any other call that the
/// orchestration makes) and not from a human.
#[derive(Debug, Clone)]
pub struct ChatRequest {
    /// The triggering event for this chat interaction.
    pub event: Event,
    /// Identifies the conversation this request belongs to.
    pub conversation_id: ConversationId,
    /// Whether this request was initiated internally rather than by a human.
    pub internal: bool,
}

impl ChatRequest {
    /// A request for a direct user interaction: it is not internal, unless it is
    /// made so with [`ChatRequest::internal`].
    pub fn new(content: Event, conversation_id: ConversationId) -> (request: ChatRequest)
        ensures
            request.event == content,
            request.conversation_id == conversation_id,
            !request.internal,
    {
        ChatRequest { event: content, conversation_id, internal: false }
    }

    /// The request with another event.
    pub fn event(self, event: Event) -> (request: ChatRequest)
        ensures
            request == (ChatRequest { event, ..self }),
    {
        ChatRequest { event, ..self }
    }

    /// The request for another conversation.
    pub fn conversation_id(self, conversation_id: ConversationId) -> (request: ChatRequest)
        ensures
            request == (ChatRequest { conversation_id, ..self }),
    {
        ChatRequest { conversation_id, ..self }
    }

    /// The request with another `internal` flag.
    pub fn internal(self, internal: bool) -> (request: ChatRequest)
        ensures
            request == (ChatRequest { internal, ..self }),
    {
        ChatRequest { internal, ..self }
    }
}

} // verus!
