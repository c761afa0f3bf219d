use forge_core::orch::{
    select_initiator, Agent, Model, Orchestrator, RequestInitiator, ToolDefinition, Transform,
};

fn agent(tool_supported: Option<bool>) -> Agent {
    Agent {
        id: "forge".to_string(),
        provider: "anthropic".to_string(),
        model: "m-1".to_string(),
        tool_supported,
        max_requests_per_turn: None,
        tool_order: vec!["read".to_string(), "*".to_string(), "write".to_string()],
    }
}

fn model(id: &str, tools_supported: Option<bool>) -> Model {
    Model { id: id.to_string(), tools_supported }
}

#[test]
fn test_initiator_first_turn_non_internal_is_user() {
    let actual = select_initiator(false, 0);
    let expected = RequestInitiator::User;
    assert_eq!(actual, expected);
}

#[test]
fn test_initiator_second_turn_non_internal_is_agent() {
    let actual = select_initiator(false, 1);
    let expected = RequestInitiator::Agent;
    assert_eq!(actual, expected);
}

#[test]
fn test_initiator_first_turn_internal_is_agent() {
    let actual = select_initiator(true, 0);
    let expected = RequestInitiator::Agent;
    assert_eq!(actual, expected);
}

#[test]
fn test_initiator_subsequent_turn_internal_is_agent() {
    let actual = select_initiator(true, 5);
    let expected = RequestInitiator::Agent;
    assert_eq!(actual, expected);
}

#[test]
fn test_orchestrator_is_internal_defaults_to_false() {
    let fixture = Orchestrator::new((), agent(None));
    let actual = select_initiator(fixture.get_is_internal(), 0);
    assert_eq!(
        actual,
        RequestInitiator::User,
        "default (non-internal) first turn must be User"
    );
    assert_eq!(select_initiator(false, 0), RequestInitiator::User);
}

#[test]
fn new_orchestrator_has_no_tools_and_no_models() {
    let fixture = Orchestrator::new("talk", agent(None));
    assert_eq!(*fixture.get_conversation(), "talk");
    assert_eq!(fixture.get_agent().id, "forge");
    assert_eq!(fixture.get_model(), "m-1");
    assert!(fixture.get_tool_definitions().is_empty());
    assert!(!fixture.get_is_internal());
    assert!(!fixture.is_tool_supported());
}

#[test]
fn setters_set_what_they_are_named_after() {
    let other = Agent { model: "m-2".to_string(), ..agent(Some(true)) };
    let mut actual = Orchestrator::new("talk", agent(None))
        .conversation("other talk")
        .tool_definitions(vec![ToolDefinition { name: "read".to_string() }])
        .models(vec![model("m-1", Some(true))])
        .agent(other)
        .is_internal(true);
    assert_eq!(*actual.get_conversation(), "other talk");
    assert_eq!(actual.get_tool_definitions()[0].name, "read");
    assert_eq!(actual.get_model(), "m-2");
    assert!(actual.get_is_internal());
    actual.set_conversation("third talk");
    assert_eq!(*actual.get_conversation(), "third talk");
}

#[test]
fn agent_decides_on_tools_before_its_model() {
    let models = vec![model("m-1", Some(true))];
    let fixture = Orchestrator::new((), agent(Some(false))).models(models);
    assert!(!fixture.is_tool_supported());
    let models = vec![model("m-1", Some(false))];
    let fixture = Orchestrator::new((), agent(Some(true))).models(models);
    assert!(fixture.is_tool_supported());
}

#[test]
fn model_decides_on_tools_where_the_agent_does_not() {
    let supported = |models: Vec<Model>| {
        Orchestrator::new((), agent(None)).models(models).is_tool_supported()
    };
    assert!(supported(vec![model("m-0", Some(false)), model("m-1", Some(true))]));
    assert!(!supported(vec![model("m-1", Some(false)), model("m-1", Some(true))]));
    assert!(!supported(vec![model("m-1", None), model("m-1", Some(true))]));
    assert!(!supported(vec![model("m-2", Some(true))]));
    assert!(!supported(vec![]));
}

#[test]
fn chat_turn_without_tools_and_reasoning_applies_every_transform() {
    let actual = Orchestrator::new((), agent(Some(false))).chat_turn(false);
    assert_eq!(actual.model, "m-1");
    assert_eq!(actual.provider, "anthropic");
    assert_eq!(actual.tool_order, vec!["read", "*", "write"]);
    assert_eq!(
        actual.transforms,
        vec![
            Transform::Default,
            Transform::SortTools,
            Transform::TransformToolCalls,
            Transform::ImageHandling,
            Transform::DropReasoningDetails,
            Transform::NormalizeReasoning,
        ]
    );
    assert!(actual.tool_calls_in_text);
}

#[test]
fn chat_turn_with_tools_and_reasoning_leaves_them_alone() {
    let actual = Orchestrator::new((), agent(Some(true))).chat_turn(true);
    assert_eq!(
        actual.transforms,
        vec![
            Transform::Default,
            Transform::SortTools,
            Transform::ImageHandling,
            Transform::NormalizeReasoning,
        ]
    );
    assert!(!actual.tool_calls_in_text);
}

#[test]
fn clone_is_an_orchestrator_of_its_own() {
    let fixture = Orchestrator::new("talk", agent(Some(true))).is_internal(true);
    let mut actual = fixture.clone();
    actual.set_conversation("other talk");
    assert_eq!(*fixture.get_conversation(), "talk");
    assert_eq!(*actual.get_conversation(), "other talk");
    assert!(actual.get_is_internal());
    assert!(actual.is_tool_supported());
}
