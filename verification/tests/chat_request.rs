use forge_core::chat_request::{is_false, ChatRequest, ConversationId, Event, EventValue};

fn conversation(text: &str) -> ConversationId {
    ConversationId { text: text.to_string() }
}

fn fixture_request(internal: bool) -> ChatRequest {
    let event = Event::new(EventValue::text("hello"));
    ChatRequest { event, conversation_id: conversation("c-1"), internal }
}

#[test]
fn test_chat_request_new_defaults_internal_to_false() {
    let event = Event::new(EventValue::text("hello"));
    let actual = ChatRequest::new(event, conversation("c-1"));
    let expected = false;
    assert_eq!(actual.internal, expected);
}

#[test]
fn test_chat_request_internal_flag_can_be_set_true() {
    let fixture = fixture_request(false);
    let actual = fixture.internal(true);
    assert_eq!(actual.internal, true);
}

#[test]
fn new_request_keeps_its_event_and_conversation() {
    let actual = ChatRequest::new(Event::new(EventValue::text("hello")), conversation("c-1"));
    assert!(matches!(&actual.event.value, EventValue::Text(text) if text == "hello"));
    assert_eq!(actual.conversation_id.text, "c-1");
}

#[test]
fn setters_replace_one_field_each() {
    let actual = fixture_request(true)
        .event(Event::new(EventValue::text("bye")))
        .conversation_id(conversation("c-2"));
    assert!(matches!(&actual.event.value, EventValue::Text(text) if text == "bye"));
    assert_eq!(actual.conversation_id.text, "c-2");
    assert!(actual.internal);
}

#[test]
fn only_false_is_left_out() {
    assert!(is_false(&false));
    assert!(!is_false(&true));
}
