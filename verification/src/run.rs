//! A run of an orchestrator, as a state machine.
//!
//! [`Run::action`] says what is to be done next, and [`Run::advance`] takes what
//! came of it. Whoever drives the run does what needs the world outside: it asks
//! the provider, calls tools, fires hooks, and keeps the conversation. The run
//! keeps the context that goes into the conversation and to the provider, of
//! whatever type it is.

use vstd::prelude::*;

use crate::orch::{initiator, select_initiator, Orchestrator, RequestInitiator, ToolDefinition};
use crate::run_laws::lemma_next_failure;

verus! {

/// Why a provider ended its answer.
#[derive(Debug, Clone, Copy, PartialEq, Eq, Structural)]
pub enum FinishReason {
    /// The answer is at its end.
    Stop,
    /// Anything else.
    Other,
}

/// A tool call of an answer.
#[derive(Debug, Clone)]
pub struct ToolCall {
    /// The name of the tool.
    pub name: String,
    /// Whether the tool asks for a follow-up, so that the run is to yield.
    pub yields: bool,
}

/// What a run reads of the answer of a provider.
#[derive(Debug, Clone)]
pub struct Reply {
    /// Why the answer ended, where that is known.
    pub finish_reason: Option<FinishReason>,
    /// The tool calls of the answer, in order.
    pub tool_calls: Vec<ToolCall>,
}

impl Reply {
    /// Whether the task is completed: the answer is at its end and calls no tool.
    /// (Some models give that reason with tool calls, too.)
    pub open spec fn completes(self) -> bool {
        self.finish_reason == Some(FinishReason::Stop) && self.tool_calls@.len() == 0
    }

    /// Whether the run is to yield behind this answer: the task is completed, or
    /// a tool asks for a follow-up.
    pub open spec fn yields(self) -> bool {
        self.completes() || exists|i: int|
            0 <= i < self.tool_calls@.len() && (#[trigger] self.tool_calls@[i]).yields
    }

    /// Decides whether the task is completed.
    pub fn is_complete(&self) -> (yes: bool)
        ensures
            yes == self.completes(),
            yes <==> self.finish_reason == Some(FinishReason::Stop) && self.tool_calls@.len() == 0,
    {
        match self.finish_reason {
            Some(FinishReason::Stop) => self.tool_calls.len() == 0,
            _ => false,
        }
    }

    /// Decides whether the run is to yield behind this answer.
    pub fn should_yield(&self) -> (yes: bool)
        ensures
            yes == self.yields(),
            self.finish_reason == Some(FinishReason::Stop) && self.tool_calls@.len() == 0 ==> yes,
            forall|i: int|
                0 <= i < self.tool_calls@.len() && (#[trigger] self.tool_calls@[i]).yields ==> yes,
            yes ==> (self.finish_reason == Some(FinishReason::Stop) && self.tool_calls@.len() == 0)
                || exists|i: int|
                0 <= i < self.tool_calls@.len() && (#[trigger] self.tool_calls@[i]).yields,
    {
        if self.is_complete() {
            return true;
        }
        let mut i: usize = 0;
        while i < self.tool_calls.len()
            invariant
                i <= self.tool_calls@.len(),
                forall|j: int| 0 <= j < i ==> !(#[trigger] self.tool_calls@[j]).yields,
            decreases self.tool_calls@.len() - i,
        {
            if self.tool_calls[i].yields {
                assert(self.tool_calls@[i as int].yields);
                return true;
            }
            i = i + 1;
        }
        false
    }
}

/// Where a run stands: what is being done.
#[derive(Debug, Clone, Copy, PartialEq, Eq, Structural)]
pub enum Stage {
    /// The hook for the start of the run.
    StartHook,
    /// The context goes into the conversation, and the conversation is saved.
    SaveContext,
    /// The hook for a request.
    RequestHook,
    /// The request to the provider.
    Chat,
    /// The hook for its answer.
    ResponseHook,
    /// The notice that a tool of the system is called, and its acknowledgement.
    AnnounceCall(usize),
    /// The hook for the start of a tool call.
    CallStartHook(usize),
    /// The tool call.
    CallTool(usize),
    /// The hook for the end of a tool call.
    CallEndHook(usize),
    /// The notice of what a tool of the system returned.
    AnnounceResult(usize),
    /// The context is read back, and the results of the calls are counted.
    RecordResults,
    /// A failed result gets the number of attempts that are left.
    AnnotateFailure(usize),
    /// The answer and the results go into the context.
    AppendMessage,
    /// The notice that too many tool calls failed.
    InterruptForFailures,
    /// The model is set in the context.
    SetModel,
    /// The context of the turn goes into the conversation, which is saved.
    SaveTurn,
    /// The notice that the limit of requests is reached.
    InterruptForRequests(usize),
    /// The metrics of the tools go into the conversation.
    UpdateMetrics,
    /// The hook for the end of the run.
    EndHook,
    /// The conversation is saved.
    SaveEnd,
    /// The notice that the task is completed.
    AnnounceCompletion,
    /// The run is over.
    Finished,
    /// The run failed.
    Failed,
}

/// What is to be done.
#[derive(Debug, Clone, Copy, PartialEq, Eq, Structural)]
pub enum Action {
    /// Fire the hook for the start of the run.
    FireStart,
    /// Put the context of the run into the conversation, and save that.
    SaveContext,
    /// Fire the hook for the request that this many came before.
    FireRequest(usize),
    /// Ask the provider with the context of the run, on behalf of this initiator;
    /// retry as configured.
    Chat(RequestInitiator),
    /// Fire the hook for the answer.
    FireResponse,
    /// Send the start notice of this tool call, and wait until it is shown.
    SendCallStart(usize),
    /// Fire the hook for the start of this tool call.
    FireCallStart(usize),
    /// Call this tool.
    CallTool(usize),
    /// Fire the hook for the end of this tool call.
    FireCallEnd(usize),
    /// Send the result of this tool call.
    SendCallEnd(usize),
    /// Hand back the context that the conversation has, if it has one, and count
    /// the results of the tool calls.
    RecordResults,
    /// Add the number of attempts that are left to the result of this tool call.
    AnnotateFailure(usize),
    /// Hand back the context of the run with the answer and the results behind it,
    /// and see whether too many tool calls failed.
    AppendMessage,
    /// Send the notice that too many tool calls failed.
    SendFailureInterrupt,
    /// Hand back the context of the run with the model set in it.
    SetModel,
    /// Put the context of the run into the conversation, and save that.
    SaveTurn,
    /// Send the notice that this limit of requests is reached.
    SendRequestInterrupt(usize),
    /// Put the metrics of the tools into the conversation.
    UpdateMetrics,
    /// Fire the hook for the end of the run.
    FireEnd,
    /// Save the conversation.
    SaveEnd,
    /// Send the notice that the task is completed.
    SendTaskComplete,
    /// Return.
    Finish,
    /// Return the error that the last action failed with.
    Abort,
}

/// What came of an action.
#[derive(Debug, Clone)]
pub enum Outcome<X> {
    /// It is done.
    Done,
    /// It failed.
    Failed,
    /// The provider answered.
    Replied(Reply),
    /// A tool returned, with an error or without.
    Returned(bool),
    /// The results are counted, and this is the context of the conversation.
    Recorded(Option<X>),
    /// This is the context with the message behind it, and too many tool calls
    /// failed, or not.
    Appended(X, bool),
    /// This is the context with the model set in it.
    Prepared(X),
}

/// Whether `outcome` can come of what is done at `stage`.
pub open spec fn fits<X>(stage: Stage, outcome: Outcome<X>) -> bool {
    match stage {
        Stage::Chat => outcome is Replied || outcome is Failed,
        Stage::CallTool(_) => outcome is Returned,
        Stage::RecordResults => outcome is Recorded,
        Stage::AppendMessage => outcome is Appended,
        Stage::SetModel => outcome is Prepared,
        Stage::Finished => false,
        Stage::Failed => false,
        _ => outcome is Done || outcome is Failed,
    }
}

/// The state of a run.
pub ghost struct RunState<X> {
    /// Whether every request is an agent's.
    pub is_internal: bool,
    /// The number of requests that may be made, where that is limited.
    pub max_requests: Option<usize>,
    /// The names of the tools of the system.
    pub system_tools: Seq<Seq<char>>,
    /// Where the run stands.
    pub stage: Stage,
    /// The number of turns that are behind the run.
    pub request_count: nat,
    /// Whether the run ends with this turn.
    pub should_yield: bool,
    /// Whether the task is completed.
    pub is_complete: bool,
    /// For each tool call of the turn, whether it calls a tool of the system.
    pub calls: Seq<bool>,
    /// For each tool call that returned, whether it failed.
    pub failed: Seq<bool>,
    /// The context.
    pub context: X,
}

/// For each of the tool calls, whether it calls one of the tools of the system.
pub open spec fn system_calls(system_tools: Seq<Seq<char>>, calls: Seq<ToolCall>) -> Seq<bool> {
    Seq::new(calls.len(), |i: int| system_tools.contains(calls[i].name@))
}

/// Where a run goes on with tool call `i`.
pub open spec fn call_stage(calls: Seq<bool>, i: int) -> Stage {
    if i >= calls.len() {
        Stage::RecordResults
    } else if calls[i] {
        Stage::AnnounceCall(i as usize)
    } else {
        Stage::CallStartHook(i as usize)
    }
}

/// Where a run goes on once the results before `i` are seen to.
pub open spec fn failure_stage(failed: Seq<bool>, i: int) -> Stage
    decreases failed.len() - i,
{
    if i < 0 || i >= failed.len() {
        Stage::AppendMessage
    } else if failed[i] {
        Stage::AnnotateFailure(i as usize)
    } else {
        failure_stage(failed, i + 1)
    }
}

impl<X> RunState<X> {
    /// The state at the beginning of a run.
    pub open spec fn start(
        is_internal: bool,
        max_requests: Option<usize>,
        system_tools: Seq<Seq<char>>,
        context: X,
    ) -> RunState<X> {
        RunState {
            is_internal,
            max_requests,
            system_tools,
            stage: Stage::StartHook,
            request_count: 0,
            should_yield: false,
            is_complete: false,
            calls: Seq::empty(),
            failed: Seq::empty(),
            context,
        }
    }

    /// The state at another stage.
    pub open spec fn at(self, stage: Stage) -> RunState<X> {
        RunState { stage, ..self }
    }

    /// Whether the limit is reached with one request more.
    pub open spec fn reaches_limit(self) -> bool {
        self.max_requests matches Some(max) && self.request_count + 1 >= max
    }

    /// The state behind what is done at this stage, where it did not fail.
    pub open spec fn succeed(self, outcome: Outcome<X>) -> RunState<X> {
        match self.stage {
            Stage::StartHook => self.at(Stage::SaveContext),
            Stage::SaveContext => self.at(Stage::RequestHook),
            Stage::RequestHook => self.at(Stage::Chat),
            Stage::Chat => RunState {
                stage: Stage::ResponseHook,
                is_complete: outcome->Replied_0.completes(),
                should_yield: outcome->Replied_0.yields(),
                calls: system_calls(self.system_tools, outcome->Replied_0.tool_calls@),
                failed: Seq::empty(),
                ..self
            },
            Stage::ResponseHook => self.at(call_stage(self.calls, 0)),
            Stage::AnnounceCall(i) => self.at(Stage::CallStartHook(i)),
            Stage::CallStartHook(i) => self.at(Stage::CallTool(i)),
            Stage::CallTool(i) => RunState {
                stage: Stage::CallEndHook(i),
                failed: self.failed.push(outcome->Returned_0),
                ..self
            },
            Stage::CallEndHook(i) => if self.calls[i as int] {
                self.at(Stage::AnnounceResult(i))
            } else {
                self.at(call_stage(self.calls, i + 1))
            },
            Stage::AnnounceResult(i) => self.at(call_stage(self.calls, i + 1)),
            Stage::RecordResults => RunState {
                stage: failure_stage(self.failed, 0),
                context: match outcome->Recorded_0 {
                    Some(context) => context,
                    None => self.context,
                },
                ..self
            },
            Stage::AnnotateFailure(i) => self.at(failure_stage(self.failed, i + 1)),
            Stage::AppendMessage => RunState {
                stage: if outcome->Appended_1 {
                    Stage::InterruptForFailures
                } else {
                    Stage::SetModel
                },
                context: outcome->Appended_0,
                ..self
            },
            Stage::InterruptForFailures => RunState {
                stage: Stage::SetModel,
                should_yield: true,
                ..self
            },
            Stage::SetModel => RunState {
                stage: Stage::SaveTurn,
                context: outcome->Prepared_0,
                ..self
            },
            Stage::SaveTurn => RunState {
                stage: if !self.should_yield && self.reaches_limit() {
                    Stage::InterruptForRequests(self.max_requests->0)
                } else {
                    Stage::UpdateMetrics
                },
                request_count: self.request_count + 1,
                ..self
            },
            Stage::InterruptForRequests(_) => RunState {
                stage: Stage::UpdateMetrics,
                should_yield: true,
                ..self
            },
            Stage::UpdateMetrics => if self.should_yield {
                self.at(Stage::EndHook)
            } else {
                self.at(Stage::SaveContext)
            },
            Stage::EndHook => self.at(Stage::SaveEnd),
            Stage::SaveEnd => if self.is_complete {
                self.at(Stage::AnnounceCompletion)
            } else {
                self.at(Stage::Finished)
            },
            Stage::AnnounceCompletion => self.at(Stage::Finished),
            Stage::Finished => self,
            Stage::Failed => self,
        }
    }

    /// The state behind what is done at this stage.
    pub open spec fn step(self, outcome: Outcome<X>) -> RunState<X> {
        if outcome is Failed {
            self.at(Stage::Failed)
        } else {
            self.succeed(outcome)
        }
    }

    /// What is to be done at this stage.
    pub open spec fn action(self) -> Action {
        match self.stage {
            Stage::StartHook => Action::FireStart,
            Stage::SaveContext => Action::SaveContext,
            Stage::RequestHook => Action::FireRequest(self.request_count as usize),
            Stage::Chat => Action::Chat(initiator(self.is_internal, self.request_count)),
            Stage::ResponseHook => Action::FireResponse,
            Stage::AnnounceCall(i) => Action::SendCallStart(i),
            Stage::CallStartHook(i) => Action::FireCallStart(i),
            Stage::CallTool(i) => Action::CallTool(i),
            Stage::CallEndHook(i) => Action::FireCallEnd(i),
            Stage::AnnounceResult(i) => Action::SendCallEnd(i),
            Stage::RecordResults => Action::RecordResults,
            Stage::AnnotateFailure(i) => Action::AnnotateFailure(i),
            Stage::AppendMessage => Action::AppendMessage,
            Stage::InterruptForFailures => Action::SendFailureInterrupt,
            Stage::SetModel => Action::SetModel,
            Stage::SaveTurn => Action::SaveTurn,
            Stage::InterruptForRequests(limit) => Action::SendRequestInterrupt(limit),
            Stage::UpdateMetrics => Action::UpdateMetrics,
            Stage::EndHook => Action::FireEnd,
            Stage::SaveEnd => Action::SaveEnd,
            Stage::AnnounceCompletion => Action::SendTaskComplete,
            Stage::Finished => Action::Finish,
            Stage::Failed => Action::Abort,
        }
    }

    /// Whether the tool calls and results that the stage speaks of are there.
    pub open spec fn is_sound(self) -> bool {
        match self.stage {
            Stage::AnnounceCall(i) => i == self.failed.len() && i < self.calls.len(),
            Stage::CallStartHook(i) => i == self.failed.len() && i < self.calls.len(),
            Stage::CallTool(i) => i == self.failed.len() && i < self.calls.len(),
            Stage::CallEndHook(i) => i + 1 == self.failed.len() && i < self.calls.len(),
            Stage::AnnounceResult(i) => i + 1 == self.failed.len() && i < self.calls.len(),
            Stage::RecordResults => self.failed.len() == self.calls.len(),
            Stage::AnnotateFailure(i) => self.failed.len() == self.calls.len() && i
                < self.failed.len() && self.failed[i as int],
            Stage::AppendMessage => self.failed.len() == self.calls.len(),
            Stage::ResponseHook => self.failed.len() == 0,
            _ => true,
        }
    }
}

/// A run under way.
pub struct Run<X> {
    is_internal: bool,
    max_requests: Option<usize>,
    system_tools: Vec<String>,
    stage: Stage,
    request_count: usize,
    should_yield: bool,
    is_complete: bool,
    calls: Vec<bool>,
    failed: Vec<bool>,
    context: X,
}

impl<X> View for Run<X> {
    type V = RunState<X>;

    closed spec fn view(&self) -> RunState<X> {
        RunState {
            is_internal: self.is_internal,
            max_requests: self.max_requests,
            system_tools: self.system_tools@.map_values(|name: String| name@),
            stage: self.stage,
            request_count: self.request_count as nat,
            should_yield: self.should_yield,
            is_complete: self.is_complete,
            calls: self.calls@,
            failed: self.failed@,
            context: self.context,
        }
    }
}

/// Decides where a run goes on with tool call `i`.
fn stage_of_call(calls: &Vec<bool>, i: usize) -> (stage: Stage)
    ensures
        stage == call_stage(calls@, i as int),
{
    if i >= calls.len() {
        Stage::RecordResults
    } else if calls[i] {
        Stage::AnnounceCall(i)
    } else {
        Stage::CallStartHook(i)
    }
}

/// Decides where a run goes on once the results before `start` are seen to.
fn stage_of_failure(failed: &Vec<bool>, start: usize) -> (stage: Stage)
    ensures
        stage == failure_stage(failed@, start as int),
{
    let mut i: usize = start;
    while i < failed.len()
        invariant
            failure_stage(failed@, i as int) == failure_stage(failed@, start as int),
        decreases failed@.len() - i,
    {
        if failed[i] {
            return Stage::AnnotateFailure(i);
        }
        i = i + 1;
    }
    Stage::AppendMessage
}

impl<X> Run<X> {
    /// A run of `orchestrator`, at its beginning: with the context `held` that its
    /// conversation has, or with `fallback` where it has none.
    pub fn new<C>(orchestrator: &Orchestrator<C>, held: Option<X>, fallback: X) -> (run: Run<X>)
        ensures
            run@ == RunState::start(
                orchestrator@.is_internal,
                orchestrator@.agent.max_requests_per_turn,
                orchestrator@.tool_definitions.map_values(|tool: ToolDefinition| tool.name@),
                match held {
                    Some(context) => context,
                    None => fallback,
                },
            ),
            run@.is_sound(),
            run@.is_internal == orchestrator@.is_internal,
            run@.max_requests == orchestrator@.agent.max_requests_per_turn,
            run@.system_tools.len() == orchestrator@.tool_definitions.len(),
            forall|i: int|
                0 <= i < run@.system_tools.len() ==> #[trigger] run@.system_tools[i]
                    == orchestrator@.tool_definitions[i].name@,
            held matches Some(context) ==> run@.context == context,
            held is None ==> run@.context == fallback,
    {
        let tools = orchestrator.get_tool_definitions();
        let mut system_tools: Vec<String> = Vec::new();
        let mut i: usize = 0;
        while i < tools.len()
            invariant
                i <= tools@.len(),
                system_tools@.len() == i,
                forall|j: int|
                    0 <= j < i ==> (#[trigger] system_tools@[j])@ == tools@[j].name@,
            decreases tools@.len() - i,
        {
            system_tools.push(tools[i].name.clone());
            i = i + 1;
        }
        assert(system_tools@.map_values(|name: String| name@) =~= tools@.map_values(
            |tool: ToolDefinition| tool.name@,
        ));
        Run {
            is_internal: orchestrator.get_is_internal(),
            max_requests: orchestrator.get_agent().max_requests_per_turn,
            system_tools,
            stage: Stage::StartHook,
            request_count: 0,
            should_yield: false,
            is_complete: false,
            calls: Vec::new(),
            failed: Vec::new(),
            context: match held {
                Some(context) => context,
                None => fallback,
            },
        }
    }

    /// Whether `name` is the name of a tool of the system, and not of an agent
    /// that is used as a tool.
    fn is_system_tool(&self, name: &String) -> (yes: bool)
        ensures
            yes == self@.system_tools.contains(name@),
    {
        let mut i: usize = 0;
        while i < self.system_tools.len()
            invariant
                i <= self.system_tools@.len(),
                forall|j: int| 0 <= j < i ==> (#[trigger] self.system_tools@[j])@ != name@,
            decreases self.system_tools@.len() - i,
        {
            if self.system_tools[i] == *name {
                assert(self@.system_tools[i as int] == name@);
                return true;
            }
            i = i + 1;
        }
        assert forall|k: int| 0 <= k < self@.system_tools.len() implies self@.system_tools[k]
            != name@ by {
            assert(self.system_tools@[k]@ != name@);
        }
        false
    }

    /// Where the run stands.
    pub fn stage(&self) -> (stage: Stage)
        ensures
            stage == self@.stage,
    {
        self.stage
    }

    /// The number of turns that are behind the run.
    pub fn request_count(&self) -> (count: usize)
        ensures
            count == self@.request_count,
    {
        self.request_count
    }

    /// The context at hand.
    pub fn context(&self) -> (context: &X)
        ensures
            *context == self@.context,
    {
        &self.context
    }

    /// What is to be done next.
    pub fn action(&self) -> (action: Action)
        ensures
            action == self@.action(),
    {
        match self.stage {
            Stage::StartHook => Action::FireStart,
            Stage::SaveContext => Action::SaveContext,
            Stage::RequestHook => Action::FireRequest(self.request_count),
            Stage::Chat => Action::Chat(select_initiator(self.is_internal, self.request_count)),
            Stage::ResponseHook => Action::FireResponse,
            Stage::AnnounceCall(i) => Action::SendCallStart(i),
            Stage::CallStartHook(i) => Action::FireCallStart(i),
            Stage::CallTool(i) => Action::CallTool(i),
            Stage::CallEndHook(i) => Action::FireCallEnd(i),
            Stage::AnnounceResult(i) => Action::SendCallEnd(i),
            Stage::RecordResults => Action::RecordResults,
            Stage::AnnotateFailure(i) => Action::AnnotateFailure(i),
            Stage::AppendMessage => Action::AppendMessage,
            Stage::InterruptForFailures => Action::SendFailureInterrupt,
            Stage::SetModel => Action::SetModel,
            Stage::SaveTurn => Action::SaveTurn,
            Stage::InterruptForRequests(limit) => Action::SendRequestInterrupt(limit),
            Stage::UpdateMetrics => Action::UpdateMetrics,
            Stage::EndHook => Action::FireEnd,
            Stage::SaveEnd => Action::SaveEnd,
            Stage::AnnounceCompletion => Action::SendTaskComplete,
            Stage::Finished => Action::Finish,
            Stage::Failed => Action::Abort,
        }
    }

    /// Reads the answer of the provider.
    fn read_reply(&mut self, reply: Reply)
        requires
            old(self)@.stage == Stage::Chat,
        ensures
            final(self)@ == old(self)@.succeed(Outcome::Replied(reply)),
    {
        let ghost before = self@;
        let mut calls: Vec<bool> = Vec::new();
        let mut i: usize = 0;
        while i < reply.tool_calls.len()
            invariant
                i <= reply.tool_calls@.len(),
                calls@.len() == i,
                self@ == before,
                forall|j: int|
                    0 <= j < i ==> #[trigger] calls@[j] == before.system_tools.contains(
                        reply.tool_calls@[j].name@,
                    ),
            decreases reply.tool_calls@.len() - i,
        {
            calls.push(self.is_system_tool(&reply.tool_calls[i].name));
            i = i + 1;
        }
        self.is_complete = reply.is_complete();
        self.should_yield = reply.should_yield();
        self.calls = calls;
        self.failed = Vec::new();
        self.stage = Stage::ResponseHook;
        proof {
            let after = before.succeed(Outcome::Replied(reply));
            assert(self@.calls =~= after.calls);
            assert(self@.failed =~= after.failed);
        }
    }

    /// Takes what came of the last action.
    pub fn advance(&mut self, outcome: Outcome<X>)
        requires
            old(self)@.is_sound(),
            fits(old(self)@.stage, outcome),
            old(self)@.stage == Stage::SaveTurn ==> old(self)@.request_count < usize::MAX,
        ensures
            final(self)@ == old(self)@.step(outcome),
            final(self)@.is_sound(),
    {
        match outcome {
            Outcome::Failed => {
                self.stage = Stage::Failed;
            },
            Outcome::Replied(reply) => {
                self.read_reply(reply);
            },
            Outcome::Returned(is_error) => {
                if let Stage::CallTool(i) = self.stage {
                    self.failed.push(is_error);
                    self.stage = Stage::CallEndHook(i);
                }
            },
            Outcome::Recorded(held) => {
                let returned = self.failed.len();
                proof {
                    assert(self@.failed.len() == returned);
                    lemma_next_failure(self@);
                }
                if let Some(context) = held {
                    self.context = context;
                }
                self.stage = stage_of_failure(&self.failed, 0);
            },
            Outcome::Appended(context, too_many) => {
                self.context = context;
                self.stage = if too_many {
                    Stage::InterruptForFailures
                } else {
                    Stage::SetModel
                };
            },
            Outcome::Prepared(context) => {
                self.context = context;
                self.stage = Stage::SaveTurn;
            },
            Outcome::Done => {
                self.go_on();
            },
        }
    }

    /// Goes on behind an action that is done.
    fn go_on(&mut self)
        requires
            old(self)@.is_sound(),
            fits(old(self)@.stage, Outcome::<X>::Done),
            old(self)@.stage == Stage::SaveTurn ==> old(self)@.request_count < usize::MAX,
        ensures
            final(self)@ == old(self)@.succeed(Outcome::Done),
            final(self)@.is_sound(),
    {
        let returned = self.failed.len();
        proof {
            assert(self@.failed.len() == returned);
            lemma_next_failure(self@);
        }
        match self.stage {
            Stage::StartHook => {
                self.stage = Stage::SaveContext;
            },
            Stage::SaveContext => {
                self.stage = Stage::RequestHook;
            },
            Stage::RequestHook => {
                self.stage = Stage::Chat;
            },
            Stage::ResponseHook => {
                self.stage = stage_of_call(&self.calls, 0);
            },
            Stage::AnnounceCall(i) => {
                self.stage = Stage::CallStartHook(i);
            },
            Stage::CallStartHook(i) => {
                self.stage = Stage::CallTool(i);
            },
            Stage::CallEndHook(i) => {
                self.stage = if self.calls[i] {
                    Stage::AnnounceResult(i)
                } else {
                    stage_of_call(&self.calls, i + 1)
                };
            },
            Stage::AnnounceResult(i) => {
                self.stage = stage_of_call(&self.calls, i + 1);
            },
            Stage::AnnotateFailure(i) => {
                self.stage = stage_of_failure(&self.failed, i + 1);
            },
            Stage::InterruptForFailures => {
                self.should_yield = true;
                self.stage = Stage::SetModel;
            },
            Stage::SaveTurn => {
                self.request_count = self.request_count + 1;
                self.stage = Stage::UpdateMetrics;
                if let Some(max) = self.max_requests {
                    if !self.should_yield && self.request_count >= max {
                        self.stage = Stage::InterruptForRequests(max);
                    }
                }
            },
            Stage::InterruptForRequests(_) => {
                self.should_yield = true;
                self.stage = Stage::UpdateMetrics;
            },
            Stage::UpdateMetrics => {
                self.stage = if self.should_yield {
                    Stage::EndHook
                } else {
                    Stage::SaveContext
                };
            },
            Stage::EndHook => {
                self.stage = Stage::SaveEnd;
            },
            Stage::SaveEnd => {
                self.stage = if self.is_complete {
                    Stage::AnnounceCompletion
                } else {
                    Stage::Finished
                };
            },
            Stage::AnnounceCompletion => {
                self.stage = Stage::Finished;
            },
            Stage::Chat | Stage::CallTool(_) | Stage::RecordResults | Stage::AppendMessage
            | Stage::SetModel | Stage::Finished | Stage::Failed => {},
        }
    }
}

} // verus!
