use std::collections::HashSet;

use forge_core::set_cache::{Message, Request, SetCache};

#[derive(Debug, PartialEq)]
enum Role {
    User,
    Assistant,
}

type TestRequest = Request<String, (Role, String)>;

fn message(role: Role, text: &str) -> Message<(Role, String)> {
    Message::new((role, text.to_string()))
}

fn request(system_messages: &str, conversation_messages: &str) -> TestRequest {
    let system: Vec<Message<String>> = system_messages
        .chars()
        .map(|c| match c {
            's' => Message::new(c.to_string()),
            _ => panic!("Invalid character in system message: {}", c),
        })
        .collect();
    let messages: Vec<Message<(Role, String)>> = conversation_messages
        .chars()
        .map(|c| match c {
            'u' => message(Role::User, &c.to_string()),
            'a' => message(Role::Assistant, &c.to_string()),
            _ => panic!("Invalid character in conversation message: {}", c),
        })
        .collect();
    Request {
        system: if system.is_empty() { None } else { Some(system) },
        messages,
    }
}

/// The messages of a request, with a bracket before each one that is cached.
fn render(request: &TestRequest, system_messages: &str, conversation_messages: &str) -> String {
    let mut output = String::new();
    let system_cached = request
        .system
        .as_ref()
        .and_then(|sys| sys.first())
        .map(|msg| msg.is_cached())
        .unwrap_or(false);
    if system_cached {
        output.push('[');
    }
    output.push_str(system_messages);

    let cached_indices = request
        .get_messages()
        .iter()
        .enumerate()
        .filter(|(_, m)| m.is_cached())
        .map(|(i, _)| i)
        .collect::<HashSet<usize>>();
    for (i, c) in conversation_messages.chars().enumerate() {
        if cached_indices.contains(&i) {
            output.push('[');
        }
        output.push(c);
    }
    output
}

fn create_test_context_with_system(
    system_messages: &str,
    conversation_messages: &str,
) -> String {
    let request = SetCache.transform(request(system_messages, conversation_messages));
    render(&request, system_messages, conversation_messages)
}

fn create_test_context(message: impl ToString) -> String {
    create_test_context_with_system("", &message.to_string())
}

#[test]
fn test_single_message() {
    let actual = create_test_context("u");
    let expected = "[u";
    assert_eq!(actual, expected);
}

#[test]
fn test_two_messages() {
    let actual = create_test_context("ua");
    let expected = "[u[a";
    assert_eq!(actual, expected);
}

#[test]
fn test_three_messages_only_last_cached() {
    let actual = create_test_context("uau");
    let expected = "[ua[u";
    assert_eq!(actual, expected);
}

#[test]
fn test_four_messages_only_last_cached() {
    let actual = create_test_context("uaua");
    let expected = "[uau[a";
    assert_eq!(actual, expected);
}

#[test]
fn test_five_messages_only_last_cached() {
    let actual = create_test_context("uauau");
    let expected = "[uaua[u";
    assert_eq!(actual, expected);
}

#[test]
fn test_longer_conversation() {
    let actual = create_test_context("uauauauaua");
    let expected = "[uauauauau[a";
    assert_eq!(actual, expected);
}

#[test]
fn test_with_system_message_single_conversation_message() {
    let actual = create_test_context_with_system("s", "u");
    let expected = "[s[u";
    assert_eq!(actual, expected);
}

#[test]
fn test_with_system_message_multiple_conversation_messages() {
    let actual = create_test_context_with_system("ss", "uaua");
    let expected = "[ssuau[a";
    assert_eq!(actual, expected);
}

#[test]
fn test_with_system_message_long_conversation() {
    let actual = create_test_context_with_system("s", "uauauauaua");
    let expected = "[suauauauau[a";
    assert_eq!(actual, expected);
}

#[test]
fn test_only_system_message() {
    let actual = create_test_context_with_system("s", "");
    let expected = "[s";
    assert_eq!(actual, expected);
}

#[test]
fn test_multiple_system_messages_only_first_cached() {
    let request = Request {
        system: Some(vec![Message::new("first".to_string()), Message::new("second".to_string())]),
        messages: vec![message(Role::User, "user")],
    };
    let mut transformer = SetCache;
    let request = transformer.transform(request);

    // Only the first system message is cached.
    let system_messages = request.system.as_ref().unwrap();
    assert_eq!(system_messages[0].is_cached(), true);
    assert_eq!(system_messages[1].is_cached(), false);

    // The last conversation message is cached.
    assert_eq!(request.get_messages().last().unwrap().is_cached(), true);
}

#[test]
fn empty_request_stays_empty() {
    let request: TestRequest = Request { system: None, messages: vec![] };
    let request = SetCache.transform(request);
    assert!(request.system.is_none());
    assert!(request.get_messages().is_empty());
}

#[test]
fn empty_list_of_system_messages_leaves_the_first_message_cached() {
    let mut fixture = request("", "uau");
    fixture.system = Some(vec![]);
    let actual = SetCache.transform(fixture);
    assert!(actual.system.as_ref().unwrap().is_empty());
    assert_eq!(render(&actual, "", "uau"), "[ua[u");
}

#[test]
fn second_to_last_message_loses_its_breakpoint() {
    let mut fixture = request("s", "uaua");
    fixture.messages[1].cache_control = true;
    fixture.messages[2].cache_control = true;
    let actual = SetCache.transform(fixture);
    assert_eq!(render(&actual, "s", "uaua"), "[su[au[a");
}

#[test]
fn second_to_last_message_loses_its_breakpoint_to_a_system_message() {
    let mut fixture = request("s", "ua");
    fixture.messages[0].cache_control = true;
    let actual = SetCache.transform(fixture);
    assert_eq!(render(&actual, "s", "ua"), "[su[a");
}

#[test]
fn growing_conversation_keeps_two_breakpoints() {
    let mut fixture = SetCache.transform(request("", "ua"));
    fixture.messages.push(message(Role::User, "u"));
    let fixture = SetCache.transform(fixture);
    assert_eq!(render(&fixture, "", "uau"), "[ua[u");
}

#[test]
fn second_pass_changes_nothing() {
    let once = SetCache.transform(request("s", "uau"));
    let first = render(&once, "s", "uau");
    let twice = SetCache.transform(once);
    assert_eq!(render(&twice, "s", "uau"), first);
}

#[test]
fn payloads_stay() {
    let actual = SetCache.transform(request("s", "ua"));
    assert_eq!(actual.system.as_ref().unwrap()[0].payload, "s");
    assert_eq!(actual.messages[0].payload, (Role::User, "u".to_string()));
    assert_eq!(actual.messages[1].payload, (Role::Assistant, "a".to_string()));
}

#[test]
fn cached_sets_and_clears_the_breakpoint() {
    assert!(!Message::new("x").is_cached());
    assert!(Message::new("x").cached(true).is_cached());
    assert!(!Message::new("x").cached(true).cached(false).is_cached());
}
