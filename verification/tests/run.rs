use forge_core::orch::{Agent, Orchestrator, RequestInitiator, ToolDefinition};
use forge_core::run::{Action, FinishReason, Outcome, Reply, Run, Stage, ToolCall};

fn orchestrator(max_requests_per_turn: Option<usize>) -> Orchestrator<()> {
    let agent = Agent {
        id: "forge".to_string(),
        provider: "anthropic".to_string(),
        model: "m-1".to_string(),
        tool_supported: Some(true),
        max_requests_per_turn,
        tool_order: vec![],
    };
    Orchestrator::new((), agent).tool_definitions(vec![
        ToolDefinition { name: "read".to_string() },
        ToolDefinition { name: "followup".to_string() },
    ])
}

fn call(name: &str) -> ToolCall {
    ToolCall { name: name.to_string(), yields: name == "followup" }
}

fn reply(finish_reason: Option<FinishReason>, names: &[&str]) -> Reply {
    Reply { finish_reason, tool_calls: names.iter().map(|name| call(name)).collect() }
}

/// Drives a run with these answers. A tool whose name begins with "bad" fails,
/// and too many tool calls failed where `too_many` says so. The action at
/// `fails_at` fails.
fn drive(
    orchestrator: &Orchestrator<()>,
    replies: Vec<Reply>,
    too_many: bool,
    fails_at: Option<usize>,
) -> Vec<Action> {
    let mut run = Run::new(orchestrator, None, ());
    let mut replies = replies.into_iter();
    let mut calls: Vec<ToolCall> = vec![];
    let mut actions = vec![];
    loop {
        let action = run.action();
        let outcome = match action {
            Action::Finish | Action::Abort => {
                actions.push(action);
                return actions;
            }
            _ if fails_at == Some(actions.len()) => Outcome::Failed,
            Action::Chat(_) => {
                let reply = replies.next().unwrap();
                calls = reply.tool_calls.clone();
                Outcome::Replied(reply)
            }
            Action::CallTool(i) => Outcome::Returned(calls[i].name.starts_with("bad")),
            Action::RecordResults => Outcome::Recorded(None),
            Action::AppendMessage => Outcome::Appended((), too_many),
            Action::SetModel => Outcome::Prepared(()),
            _ => Outcome::Done,
        };
        actions.push(action);
        run.advance(outcome);
    }
}

fn completing() -> Reply {
    reply(Some(FinishReason::Stop), &[])
}

#[test]
fn completing_answer_ends_the_run_with_a_notice() {
    let actual = drive(&orchestrator(None), vec![completing()], false, None);
    assert_eq!(
        actual,
        vec![
            Action::FireStart,
            Action::SaveContext,
            Action::FireRequest(0),
            Action::Chat(RequestInitiator::User),
            Action::FireResponse,
            Action::RecordResults,
            Action::AppendMessage,
            Action::SetModel,
            Action::SaveTurn,
            Action::UpdateMetrics,
            Action::FireEnd,
            Action::SaveEnd,
            Action::SendTaskComplete,
            Action::Finish,
        ]
    );
}

#[test]
fn tool_calls_are_framed_and_failures_annotated() {
    let answer = reply(Some(FinishReason::Stop), &["read", "helper", "bad", "read", "bad"]);
    let actual = drive(&orchestrator(None), vec![answer, completing()], false, None);
    assert_eq!(
        actual[4..35].to_vec(),
        vec![
            Action::FireResponse,
            Action::SendCallStart(0),
            Action::FireCallStart(0),
            Action::CallTool(0),
            Action::FireCallEnd(0),
            Action::SendCallEnd(0),
            Action::FireCallStart(1),
            Action::CallTool(1),
            Action::FireCallEnd(1),
            Action::FireCallStart(2),
            Action::CallTool(2),
            Action::FireCallEnd(2),
            Action::SendCallStart(3),
            Action::FireCallStart(3),
            Action::CallTool(3),
            Action::FireCallEnd(3),
            Action::SendCallEnd(3),
            Action::FireCallStart(4),
            Action::CallTool(4),
            Action::FireCallEnd(4),
            Action::RecordResults,
            Action::AnnotateFailure(2),
            Action::AnnotateFailure(4),
            Action::AppendMessage,
            Action::SetModel,
            Action::SaveTurn,
            Action::UpdateMetrics,
            Action::SaveContext,
            Action::FireRequest(1),
            Action::Chat(RequestInitiator::Agent),
            Action::FireResponse,
        ]
    );
    assert_eq!(actual[actual.len() - 2], Action::SendTaskComplete);
}

#[test]
fn answer_without_stop_and_tools_is_followed_by_another_turn() {
    let answers = vec![reply(None, &[]), reply(Some(FinishReason::Other), &[]), completing()];
    let actual = drive(&orchestrator(None), answers, false, None);
    let requests: Vec<Action> =
        actual.into_iter().filter(|action| matches!(action, Action::Chat(_))).collect();
    assert_eq!(
        requests,
        vec![
            Action::Chat(RequestInitiator::User),
            Action::Chat(RequestInitiator::Agent),
            Action::Chat(RequestInitiator::Agent),
        ]
    );
}

#[test]
fn internal_run_makes_no_request_for_the_user() {
    let fixture = orchestrator(None).is_internal(true);
    let actual = drive(&fixture, vec![completing()], false, None);
    assert_eq!(actual[3], Action::Chat(RequestInitiator::Agent));
}

#[test]
fn tool_that_asks_for_a_follow_up_ends_the_run_without_a_notice() {
    let answer = reply(None, &["read", "followup"]);
    let actual = drive(&orchestrator(Some(1)), vec![answer], false, None);
    assert!(!actual.contains(&Action::SendTaskComplete));
    assert!(!actual.contains(&Action::SendRequestInterrupt(1)));
    assert_eq!(
        actual[actual.len() - 4..].to_vec(),
        vec![Action::UpdateMetrics, Action::FireEnd, Action::SaveEnd, Action::Finish]
    );
}

#[test]
fn too_many_failures_end_the_run() {
    let answer = reply(None, &["bad"]);
    let actual = drive(&orchestrator(Some(1)), vec![answer], true, None);
    assert_eq!(
        actual[8..].to_vec(),
        vec![
            Action::RecordResults,
            Action::AnnotateFailure(0),
            Action::AppendMessage,
            Action::SendFailureInterrupt,
            Action::SetModel,
            Action::SaveTurn,
            Action::UpdateMetrics,
            Action::FireEnd,
            Action::SaveEnd,
            Action::Finish,
        ]
    );
}

#[test]
fn limit_of_requests_ends_the_run() {
    let answers = vec![reply(None, &[]), reply(None, &[])];
    let actual = drive(&orchestrator(Some(2)), answers, false, None);
    let requests = actual.iter().filter(|action| matches!(action, Action::Chat(_))).count();
    assert_eq!(requests, 2);
    assert_eq!(
        actual[actual.len() - 6..].to_vec(),
        vec![
            Action::SaveTurn,
            Action::SendRequestInterrupt(2),
            Action::UpdateMetrics,
            Action::FireEnd,
            Action::SaveEnd,
            Action::Finish,
        ]
    );
}

#[test]
fn limit_is_announced_once_or_never() {
    let notices = |answers: Vec<Reply>, too_many: bool| {
        drive(&orchestrator(Some(2)), answers, too_many, None)
            .iter()
            .filter(|action| matches!(action, Action::SendRequestInterrupt(_)))
            .count()
    };
    assert_eq!(notices(vec![reply(None, &[]), reply(None, &["read"])], false), 1);
    assert_eq!(notices(vec![reply(None, &[]), completing()], false), 0);
    assert_eq!(notices(vec![reply(None, &[]), reply(None, &["followup"])], false), 0);
    assert_eq!(notices(vec![reply(None, &["bad"])], true), 0);
}

#[test]
fn limit_of_no_requests_lets_one_through() {
    let actual = drive(&orchestrator(Some(0)), vec![reply(None, &[])], false, None);
    let requests = actual.iter().filter(|action| matches!(action, Action::Chat(_))).count();
    assert_eq!(requests, 1);
    assert!(actual.contains(&Action::SendRequestInterrupt(0)));
}

#[test]
fn completed_task_is_not_interrupted_at_the_limit() {
    let actual = drive(&orchestrator(Some(1)), vec![completing()], false, None);
    assert!(!actual.contains(&Action::SendRequestInterrupt(1)));
    assert!(actual.contains(&Action::SendTaskComplete));
}

#[test]
fn completed_task_is_announced_though_too_many_calls_failed() {
    let actual = drive(&orchestrator(None), vec![completing()], true, None);
    assert!(actual.contains(&Action::SendFailureInterrupt));
    assert_eq!(actual[actual.len() - 2], Action::SendTaskComplete);
}

#[test]
fn failed_action_ends_the_run_at_once() {
    let fixture = orchestrator(Some(1));
    let answers = vec![reply(None, &["read", "bad"])];
    let whole = drive(&fixture, answers.clone(), false, None);
    for fails_at in 0..whole.len() - 1 {
        // Tool calls and what is made of the context cannot fail.
        if matches!(
            whole[fails_at],
            Action::CallTool(_)
                | Action::RecordResults
                | Action::AppendMessage
                | Action::SetModel
        ) {
            continue;
        }
        let actual = drive(&fixture, answers.clone(), false, Some(fails_at));
        let mut expected = whole[..fails_at + 1].to_vec();
        expected.push(Action::Abort);
        assert_eq!(actual, expected);
    }
}

#[test]
fn conversation_is_saved_twice_a_turn_and_at_the_end() {
    let answers = vec![reply(None, &[]), reply(None, &["read"]), completing()];
    let actual = drive(&orchestrator(None), answers, false, None);
    let saves = actual
        .iter()
        .filter(|action| {
            matches!(action, Action::SaveContext | Action::SaveTurn | Action::SaveEnd)
        })
        .count();
    assert_eq!(saves, 7);
}

#[test]
fn hooks_are_fired_in_order() {
    let answers = vec![reply(None, &["read", "helper"]), completing()];
    let actual = drive(&orchestrator(None), answers, false, None);
    let hooks: Vec<Action> = actual
        .into_iter()
        .filter(|action| {
            matches!(
                action,
                Action::FireStart
                    | Action::FireRequest(_)
                    | Action::FireResponse
                    | Action::FireCallStart(_)
                    | Action::FireCallEnd(_)
                    | Action::FireEnd
            )
        })
        .collect();
    assert_eq!(
        hooks,
        vec![
            Action::FireStart,
            Action::FireRequest(0),
            Action::FireResponse,
            Action::FireCallStart(0),
            Action::FireCallEnd(0),
            Action::FireCallStart(1),
            Action::FireCallEnd(1),
            Action::FireRequest(1),
            Action::FireResponse,
            Action::FireEnd,
        ]
    );
}

#[test]
fn turn_sends_what_the_one_before_saved() {
    let mut run = Run::new(&orchestrator(Some(3)), Some("start".to_string()), String::new());
    let mut sent = vec![];
    let mut saved = vec![];
    let mut turn = 0;
    while run.action() != Action::Finish {
        let outcome = match run.action() {
            Action::Chat(_) => {
                sent.push(run.context().clone());
                Outcome::Replied(reply(None, &[]))
            }
            Action::RecordResults => {
                turn += 1;
                Outcome::Recorded(if turn == 2 { Some("hook".to_string()) } else { None })
            }
            Action::AppendMessage => Outcome::Appended(format!("{}+", run.context()), false),
            Action::SetModel => Outcome::Prepared(format!("{}m", run.context())),
            Action::SaveTurn => {
                saved.push(run.context().clone());
                Outcome::Done
            }
            _ => Outcome::Done,
        };
        run.advance(outcome);
    }
    assert_eq!(sent, vec!["start", "start+m", "hook+m"]);
    assert_eq!(saved, vec!["start+m", "hook+m", "hook+m+m"]);
}

#[test]
fn run_without_a_context_begins_with_the_fallback() {
    let run = Run::new(&orchestrator(None), None, 7);
    assert_eq!(*run.context(), 7);
    let run = Run::new(&orchestrator(None), Some(5), 7);
    assert_eq!(*run.context(), 5);
}

#[test]
fn requests_are_counted() {
    let mut run = Run::new(&orchestrator(None), None, ());
    assert_eq!(run.stage(), Stage::StartHook);
    let mut turns = 0;
    while turns < 3 {
        let outcome = match run.action() {
            Action::Chat(_) => Outcome::Replied(reply(None, &[])),
            Action::RecordResults => Outcome::Recorded(None),
            Action::AppendMessage => Outcome::Appended((), false),
            Action::SetModel => Outcome::Prepared(()),
            _ => Outcome::Done,
        };
        run.advance(outcome);
        if run.stage() == Stage::UpdateMetrics {
            turns += 1;
            assert_eq!(run.request_count(), turns);
        }
    }
}

#[test]
fn reply_completes_and_yields() {
    assert!(completing().is_complete());
    assert!(completing().should_yield());
    assert!(!reply(Some(FinishReason::Stop), &["read"]).is_complete());
    assert!(!reply(Some(FinishReason::Stop), &["read"]).should_yield());
    assert!(!reply(Some(FinishReason::Other), &[]).is_complete());
    assert!(!reply(None, &[]).should_yield());
    assert!(reply(None, &["read", "followup"]).should_yield());
    assert!(!reply(None, &["read", "followup"]).is_complete());
}
