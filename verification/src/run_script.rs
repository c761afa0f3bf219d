//! What a run does, told from what came back alone.
//!
//! A run is a sequence of turns between a start and an end. [`script`] writes down
//! what is done up to each point of it, from the answers, the results of the tool
//! calls and the limit; [`law_actions_follow_the_script`] says that every run does
//! exactly that.

use vstd::prelude::*;

use crate::orch::RequestInitiator;
use crate::run::{
    failure_stage, fits, Action, FinishReason, Outcome, Reply, RunState, Stage, ToolCall,
};
use crate::run_laws::{
    actions, after, is_before_request, is_in_turn, is_run, is_start, lemma_next_failure,
    lemma_prefix, lemma_sound_step,
};

verus! {

/// What came back in a turn.
pub ghost struct Turn {
    /// The answer of the provider.
    pub reply: Reply,
    /// For each tool call that returned, whether it failed.
    pub results: Seq<bool>,
    /// Whether too many tool calls had failed.
    pub too_many: bool,
}

/// The turns that the outcomes `outs` tell of, in order.
pub open spec fn turns<X>(outs: Seq<Outcome<X>>) -> Seq<Turn>
    decreases outs.len(),
{
    if outs.len() == 0 {
        Seq::empty()
    } else {
        let before = turns(outs.drop_last());
        match outs.last() {
            Outcome::Replied(reply) => before.push(
                Turn { reply, results: Seq::empty(), too_many: false },
            ),
            Outcome::Returned(failed) => if before.len() == 0 {
                before
            } else {
                before.drop_last().push(
                    Turn { results: before.last().results.push(failed), ..before.last() },
                )
            },
            Outcome::Appended(_, too_many) => if before.len() == 0 {
                before
            } else {
                before.drop_last().push(Turn { too_many, ..before.last() })
            },
            _ => before,
        }
    }
}

/// Whether the answer completes the task: it is at its end and calls no tool.
pub open spec fn completes_task(reply: Reply) -> bool {
    reply.finish_reason == Some(FinishReason::Stop) && reply.tool_calls@.len() == 0
}

/// Whether one of the tools that are called asks for a follow-up.
pub open spec fn asks_for_follow_up(reply: Reply) -> bool {
    exists|i: int| 0 <= i < reply.tool_calls@.len() && (#[trigger] reply.tool_calls@[i]).yields
}

/// Whether the run ends with the turn: the task is completed, a tool asks for a
/// follow-up, or too many tool calls failed.
pub open spec fn ends_run(turn: Turn) -> bool {
    completes_task(turn.reply) || asks_for_follow_up(turn.reply) || turn.too_many
}

/// Whether the run ends with turn `k` for the limit of requests alone.
pub open spec fn hits_limit(max_requests: Option<usize>, k: nat, turn: Turn) -> bool {
    !ends_run(turn) && (max_requests matches Some(max) && k + 1 >= max)
}

/// Who request `k` of a run is made for.
pub open spec fn asker(is_internal: bool, k: nat) -> RequestInitiator {
    if is_internal || k > 0 {
        RequestInitiator::Agent
    } else {
        RequestInitiator::User
    }
}

/// Turn `k` begins: the conversation is saved, and a request is made.
pub open spec fn asked(acts: Seq<Action>, is_internal: bool, k: nat) -> Seq<Action> {
    acts.push(Action::SaveContext).push(Action::FireRequest(k as usize)).push(
        Action::Chat(asker(is_internal, k)),
    )
}

/// Whether tool call `i` calls a tool of the system.
pub open spec fn is_system(tools: Seq<Seq<char>>, calls: Seq<ToolCall>, i: int) -> bool {
    exists|j: int| 0 <= j < tools.len() && #[trigger] tools[j] == calls[i].name@
}

/// Tool call `i` is announced, where it calls a tool of the system.
pub open spec fn announced(acts: Seq<Action>, is_system: bool, i: nat) -> Seq<Action> {
    if is_system {
        acts.push(Action::SendCallStart(i as usize))
    } else {
        acts
    }
}

/// Tool call `i` is made, between its hooks.
pub open spec fn made(acts: Seq<Action>, is_system: bool, i: nat) -> Seq<Action> {
    announced(acts, is_system, i).push(Action::FireCallStart(i as usize)).push(
        Action::CallTool(i as usize),
    ).push(Action::FireCallEnd(i as usize))
}

/// The first `n` tool calls are made, one behind the other.
pub open spec fn called(
    acts: Seq<Action>,
    tools: Seq<Seq<char>>,
    calls: Seq<ToolCall>,
    n: nat,
) -> Seq<Action>
    decreases n,
{
    if n == 0 {
        acts.push(Action::FireResponse)
    } else {
        let i = (n - 1) as nat;
        let system = is_system(tools, calls, i as int);
        let more = made(called(acts, tools, calls, i), system, i);
        if system {
            more.push(Action::SendCallEnd(i as usize))
        } else {
            more
        }
    }
}

/// The results are recorded, and those of the first `n` that failed are annotated.
pub open spec fn noted(acts: Seq<Action>, results: Seq<bool>, n: nat) -> Seq<Action>
    decreases n,
{
    if n == 0 {
        acts.push(Action::RecordResults)
    } else {
        let more = noted(acts, results, (n - 1) as nat);
        if results[n - 1] {
            more.push(Action::AnnotateFailure((n - 1) as usize))
        } else {
            more
        }
    }
}

/// The answer is appended, and too many failures are announced.
pub open spec fn appended(acts: Seq<Action>, too_many: bool) -> Seq<Action> {
    let more = acts.push(Action::AppendMessage);
    if too_many {
        more.push(Action::SendFailureInterrupt)
    } else {
        more
    }
}

/// Everything of turn `k` up to where it is saved.
pub open spec fn saved<X>(acts: Seq<Action>, start: RunState<X>, k: nat, turn: Turn) -> Seq<
    Action,
> {
    let calls = turn.reply.tool_calls@;
    let all_called = called(
        asked(acts, start.is_internal, k),
        start.system_tools,
        calls,
        calls.len(),
    );
    appended(noted(all_called, turn.results, turn.results.len()), turn.too_many).push(
        Action::SetModel,
    ).push(Action::SaveTurn)
}

/// Everything of turn `k`, but for the metrics at its end.
pub open spec fn limited<X>(acts: Seq<Action>, start: RunState<X>, k: nat, turn: Turn) -> Seq<
    Action,
> {
    if hits_limit(start.max_requests, k, turn) {
        saved(acts, start, k, turn).push(Action::SendRequestInterrupt(start.max_requests->0))
    } else {
        saved(acts, start, k, turn)
    }
}

/// The start of a run and its turns.
pub open spec fn past<X>(start: RunState<X>, ts: Seq<Turn>) -> Seq<Action>
    decreases ts.len(),
{
    if ts.len() == 0 {
        seq![Action::FireStart]
    } else {
        limited(past(start, ts.drop_last()), start, (ts.len() - 1) as nat, ts.last()).push(
            Action::UpdateMetrics,
        )
    }
}

/// What is done when a run has come to `stage`, with the turns `ts`, the last of
/// which may be under way.
pub open spec fn script<X>(start: RunState<X>, stage: Stage, ts: Seq<Turn>) -> Seq<Action> {
    let k = (ts.len() - 1) as nat;
    let turn = ts.last();
    let calls = turn.reply.tool_calls@;
    let tools = start.system_tools;
    let before = past(start, ts.drop_last());
    let request = asked(before, start.is_internal, k);
    let all_called = called(request, tools, calls, calls.len());
    let all_noted = noted(all_called, turn.results, turn.results.len());
    match stage {
        Stage::StartHook => Seq::empty(),
        Stage::SaveContext => past(start, ts),
        Stage::RequestHook => past(start, ts).push(Action::SaveContext),
        Stage::Chat => past(start, ts).push(Action::SaveContext).push(
            Action::FireRequest(ts.len() as usize),
        ),
        Stage::ResponseHook => request,
        Stage::AnnounceCall(i) => called(request, tools, calls, i as nat),
        Stage::CallStartHook(i) => announced(
            called(request, tools, calls, i as nat),
            is_system(tools, calls, i as int),
            i as nat,
        ),
        Stage::CallTool(i) => announced(
            called(request, tools, calls, i as nat),
            is_system(tools, calls, i as int),
            i as nat,
        ).push(Action::FireCallStart(i)),
        Stage::CallEndHook(i) => announced(
            called(request, tools, calls, i as nat),
            is_system(tools, calls, i as int),
            i as nat,
        ).push(Action::FireCallStart(i)).push(Action::CallTool(i)),
        Stage::AnnounceResult(i) => made(
            called(request, tools, calls, i as nat),
            is_system(tools, calls, i as int),
            i as nat,
        ),
        Stage::RecordResults => all_called,
        Stage::AnnotateFailure(i) => noted(all_called, turn.results, i as nat),
        Stage::AppendMessage => all_noted,
        Stage::InterruptForFailures => all_noted.push(Action::AppendMessage),
        Stage::SetModel => appended(all_noted, turn.too_many),
        Stage::SaveTurn => appended(all_noted, turn.too_many).push(Action::SetModel),
        Stage::InterruptForRequests(_) => saved(before, start, k, turn),
        Stage::UpdateMetrics => limited(before, start, k, turn),
        Stage::EndHook => past(start, ts),
        Stage::SaveEnd => past(start, ts).push(Action::FireEnd),
        Stage::AnnounceCompletion => past(start, ts).push(Action::FireEnd).push(Action::SaveEnd),
        Stage::Finished => if completes_task(turn.reply) {
            past(start, ts).push(Action::FireEnd).push(Action::SaveEnd).push(
                Action::SendTaskComplete,
            )
        } else {
            past(start, ts).push(Action::FireEnd).push(Action::SaveEnd)
        },
        Stage::Failed => Seq::empty(),
    }
}

/// Whether a run that has had the turns `ts` can stand at `stage`.
pub open spec fn can_stand<X>(start: RunState<X>, stage: Stage, ts: Seq<Turn>) -> bool {
    let k = (ts.len() - 1) as nat;
    let turn = ts.last();
    let calls = turn.reply.tool_calls@;
    let is_last = ends_run(turn) || hits_limit(start.max_requests, k, turn);
    match stage {
        Stage::StartHook => ts.len() == 0,
        Stage::SaveContext | Stage::RequestHook | Stage::Chat => ts.len() == 0 || !is_last,
        Stage::AnnounceCall(i) => ts.len() > 0 && i == turn.results.len() && i < calls.len()
            && is_system(start.system_tools, calls, i as int),
        Stage::CallStartHook(i) | Stage::CallTool(i) => ts.len() > 0 && i == turn.results.len()
            && i < calls.len(),
        Stage::CallEndHook(i) => ts.len() > 0 && i + 1 == turn.results.len() && i < calls.len(),
        Stage::AnnounceResult(i) => ts.len() > 0 && i + 1 == turn.results.len() && i < calls.len()
            && is_system(start.system_tools, calls, i as int),
        Stage::ResponseHook => ts.len() > 0 && turn.results.len() == 0,
        Stage::RecordResults | Stage::AppendMessage | Stage::SetModel | Stage::SaveTurn => ts.len()
            > 0 && turn.results.len() == calls.len(),
        Stage::AnnotateFailure(i) => ts.len() > 0 && turn.results.len() == calls.len() && i
            < calls.len() && turn.results[i as int],
        Stage::InterruptForFailures => ts.len() > 0 && turn.results.len() == calls.len()
            && turn.too_many,
        Stage::InterruptForRequests(max) => ts.len() > 0 && hits_limit(
            start.max_requests,
            k,
            turn,
        ) && start.max_requests == Some(max),
        Stage::UpdateMetrics => ts.len() > 0,
        Stage::EndHook | Stage::SaveEnd | Stage::Finished => ts.len() > 0 && is_last,
        Stage::AnnounceCompletion => ts.len() > 0 && is_last && completes_task(turn.reply),
        Stage::Failed => true,
    }
}

/// How the state of a run agrees with its turns.
spec fn matches_turns<X>(s: RunState<X>, start: RunState<X>, ts: Seq<Turn>) -> bool {
    let k = (ts.len() - 1) as nat;
    let turn = ts.last();
    let calls = turn.reply.tool_calls@;
    let by_reply = completes_task(turn.reply) || asks_for_follow_up(turn.reply);
    &&& s.is_internal == start.is_internal
    &&& s.max_requests == start.max_requests
    &&& s.system_tools == start.system_tools
    &&& s.is_sound()
    &&& s.failed.len() <= usize::MAX
    &&& s.stage !is Failed ==> can_stand(start, s.stage, ts)
    &&& is_in_turn(s.stage) ==> {
        &&& ts.len() > 0
        &&& s.request_count == ts.len() - 1
        &&& s.failed == turn.results
        &&& s.calls.len() == calls.len()
        &&& calls.len() <= usize::MAX
        &&& forall|i: int|
            0 <= i < calls.len() ==> #[trigger] s.calls[i] == is_system(
                start.system_tools,
                calls,
                i,
            )
    }
    &&& !is_in_turn(s.stage) && s.stage !is Failed ==> s.request_count == ts.len()
    &&& ts.len() > 0 && !is_before_request(s.stage) && s.stage !is Failed ==> s.is_complete
        == completes_task(turn.reply)
    &&& match s.stage {
        Stage::InterruptForFailures | Stage::SetModel | Stage::SaveTurn => s.stage
            is InterruptForFailures || s.should_yield == ends_run(turn),
        Stage::UpdateMetrics => s.should_yield == (ends_run(turn) || hits_limit(
            start.max_requests,
            k,
            turn,
        )),
        _ => is_in_turn(s.stage) ==> s.should_yield == by_reply && !turn.too_many,
    }
}

/// Where the state of a run goes on, its turns do.
proof fn lemma_turns_step<X>(
    s: RunState<X>,
    start: RunState<X>,
    outs: Seq<Outcome<X>>,
    outcome: Outcome<X>,
)
    requires
        matches_turns(s, start, turns(outs)),
        fits(s.stage, outcome),
    ensures
        matches_turns(s.step(outcome), start, turns(outs.push(outcome))),
{
    let more = outs.push(outcome);
    assert(more.drop_last() =~= outs);
    lemma_next_failure(s);
    lemma_sound_step(s, outcome);
    if let Outcome::Replied(reply) = outcome {
        assert(reply.tool_calls.len() <= usize::MAX);
        let next = s.step(outcome);
        assert(next.is_complete == completes_task(reply));
        assert(next.should_yield == (completes_task(reply) || asks_for_follow_up(reply)));
        assert forall|i: int| 0 <= i < reply.tool_calls@.len() implies #[trigger] next.calls[i]
            == is_system(start.system_tools, reply.tool_calls@, i) by {
            let name = reply.tool_calls@[i].name@;
            if s.system_tools.contains(name) {
                let j = choose|j: int| 0 <= j < s.system_tools.len() && s.system_tools[j] == name;
                assert(start.system_tools[j] == name);
            }
        }
    }
}

/// Passing results that did not fail annotates nothing.
proof fn lemma_noted_skips(acts: Seq<Action>, results: Seq<bool>, i: nat, k: nat)
    requires
        i <= k <= results.len(),
        forall|j: int| i <= j < k ==> !#[trigger] results[j],
    ensures
        noted(acts, results, k) == noted(acts, results, i),
    decreases k - i,
{
    if i < k {
        lemma_noted_skips(acts, results, i, (k - 1) as nat);
        assert(!results[k - 1]);
    }
}

/// Between where a run goes on behind the results before `i` and the next failed
/// one, nothing failed.
proof fn lemma_next_stage(failed: Seq<bool>, i: int)
    requires
        0 <= i <= failed.len() <= usize::MAX,
    ensures
        match failure_stage(failed, i) {
            Stage::AppendMessage => forall|j: int| i <= j < failed.len() ==> !#[trigger] failed[j],
            Stage::AnnotateFailure(k) => i <= k < failed.len() && failed[k as int] && forall|
                j: int,
            |
                i <= j < k ==> !#[trigger] failed[j],
            _ => false,
        },
    decreases failed.len() - i,
{
    if i < failed.len() && !failed[i] {
        lemma_next_stage(failed, i + 1);
    }
}

/// Where the state of a run goes on, its script does.
proof fn lemma_script_step<X>(
    s: RunState<X>,
    start: RunState<X>,
    outs: Seq<Outcome<X>>,
    outcome: Outcome<X>,
)
    requires
        matches_turns(s, start, turns(outs)),
        fits(s.stage, outcome),
        outcome !is Failed,
    ensures
        script(start, s.step(outcome).stage, turns(outs.push(outcome))) == script(
            start,
            s.stage,
            turns(outs),
        ).push(s.action()),
{
    let more = outs.push(outcome);
    assert(more.drop_last() =~= outs);
    let ts = turns(outs);
    let us = turns(more);
    let turn = ts.last();
    let calls = turn.reply.tool_calls@;
    let request = asked(past(start, ts.drop_last()), start.is_internal, (ts.len() - 1) as nat);
    let all_called = called(request, start.system_tools, calls, calls.len());
    lemma_turns_step(s, start, outs, outcome);
    match s.stage {
        Stage::StartHook => {
            assert(Seq::<Action>::empty().push(Action::FireStart) =~= seq![Action::FireStart]);
        },
        Stage::Chat => {
            assert(us.drop_last() =~= ts);
        },
        Stage::CallTool(i) => {
            assert(us.drop_last() =~= ts.drop_last());
        },
        Stage::RecordResults => {
            lemma_next_stage(s.failed, 0);
            match failure_stage(s.failed, 0) {
                Stage::AnnotateFailure(k) => {
                    lemma_noted_skips(all_called, turn.results, 0, k as nat);
                },
                _ => {
                    lemma_noted_skips(all_called, turn.results, 0, turn.results.len());
                },
            }
        },
        Stage::AnnotateFailure(i) => {
            lemma_next_stage(s.failed, i + 1);
            match failure_stage(s.failed, i + 1) {
                Stage::AnnotateFailure(k) => {
                    lemma_noted_skips(all_called, turn.results, (i + 1) as nat, k as nat);
                },
                _ => {
                    lemma_noted_skips(
                        all_called,
                        turn.results,
                        (i + 1) as nat,
                        turn.results.len(),
                    );
                },
            }
        },
        Stage::AppendMessage => {
            assert(us.drop_last() =~= ts.drop_last());
        },
        _ => {},
    }
}

proof fn lemma_follows<X>(start: RunState<X>, outs: Seq<Outcome<X>>)
    requires
        is_start(start),
        is_run(start, outs),
    ensures
        matches_turns(after(start, outs), start, turns(outs)),
        after(start, outs).stage !is Failed ==> actions(start, outs) == script(
            start,
            after(start, outs).stage,
            turns(outs),
        ),
        after(start, outs).stage is Failed ==> outs.len() > 0 && outs.last() is Failed,
    decreases outs.len(),
{
    if outs.len() > 0 {
        let before = outs.drop_last();
        lemma_follows(start, before);
        assert(before.push(outs.last()) =~= outs);
        let s = after(start, before);
        lemma_turns_step(s, start, before, outs.last());
        if outs.last() !is Failed {
            lemma_script_step(s, start, before, outs.last());
            lemma_next_failure(s);
        }
    }
}

/// **Every run follows the script**: wherever it stands, it has done exactly what
/// the answers, the results and the limit call for, in order, and stands only where
/// they let it.
pub proof fn law_actions_follow_the_script<X>(start: RunState<X>, outs: Seq<Outcome<X>>)
    requires
        is_start(start),
        is_run(start, outs),
        after(start, outs).stage !is Failed,
    ensures
        actions(start, outs) == script(start, after(start, outs).stage, turns(outs)),
        can_stand(start, after(start, outs).stage, turns(outs)),
{
    lemma_follows(start, outs);
}

/// **A run fails only with an action that failed.**
pub proof fn law_run_fails_only_by_failure<X>(start: RunState<X>, outs: Seq<Outcome<X>>)
    requires
        is_start(start),
        is_run(start, outs),
    ensures
        after(start, outs).stage is Failed <==> outs.len() > 0 && outs.last() is Failed,
{
    lemma_follows(start, outs);
}

/// **There is an end to do exactly where there is nothing left to do**: the run
/// returns where it is over, returns the error where it failed, and nowhere else.
pub proof fn law_run_returns_at_its_end<X>(start: RunState<X>, outs: Seq<Outcome<X>>)
    requires
        is_start(start),
        is_run(start, outs),
    ensures
        after(start, outs).action() is Finish <==> after(start, outs).stage is Finished,
        after(start, outs).action() is Abort <==> outs.len() > 0 && outs.last() is Failed,
{
    lemma_follows(start, outs);
}

/// **A turn goes on exactly where nothing ends the run**: once it is over, another
/// turn follows where its answer does not complete the task, no tool that it calls
/// asks for a follow-up, not too many tool calls failed, and the limit is not
/// reached; and else the run ends.
pub proof fn law_turn_is_followed<X>(start: RunState<X>, outs: Seq<Outcome<X>>)
    requires
        is_start(start),
        is_run(start, outs),
        after(start, outs).stage is UpdateMetrics,
    ensures
        turns(outs).len() > 0,
        ({
            let turn = turns(outs).last();
            let calls = turn.reply.tool_calls@;
            let next = after(start, outs).step(Outcome::<X>::Done).stage;
            let goes_on = {
                &&& turn.reply.finish_reason != Some(FinishReason::Stop) || calls.len() > 0
                &&& forall|i: int| 0 <= i < calls.len() ==> !(#[trigger] calls[i]).yields
                &&& !turn.too_many
                &&& start.max_requests matches Some(max) ==> turns(outs).len() < max
            };
            &&& next is SaveContext <==> goes_on
            &&& next is EndHook <==> !goes_on
        }),
{
    lemma_follows(start, outs);
    let calls = turns(outs).last().reply.tool_calls@;
    if asks_for_follow_up(turns(outs).last().reply) {
        let i = choose|i: int| 0 <= i < calls.len() && (#[trigger] calls[i]).yields;
        assert(calls[i].yields);
    }
}

/// Whether no request is made any more.
spec fn is_closing<X>(s: RunState<X>) -> bool {
    s.stage is Failed || (s.should_yield && !is_before_request(s.stage))
}

proof fn lemma_closing<X>(start: RunState<X>, outs: Seq<Outcome<X>>, k: int, j: int)
    requires
        is_start(start),
        is_run(start, outs),
        0 < k <= j <= outs.len(),
        is_closing(after(start, outs.take(k))),
    ensures
        is_closing(after(start, outs.take(j))),
    decreases j - k,
{
    if k < j {
        lemma_closing(start, outs, k, j - 1);
        lemma_prefix(start, outs, j - 1);
        let s = after(start, outs.take(j - 1));
        lemma_follows(start, outs.take(j - 1));
        lemma_next_failure(s);
    }
}

/// **A follow-up ends the run**: behind an answer of which some tool call, whichever,
/// asks for a follow-up, no request is made any more.
pub proof fn law_follow_up_ends_the_run<X>(
    start: RunState<X>,
    outs: Seq<Outcome<X>>,
    k: int,
    reply: Reply,
    i: int,
    j: int,
)
    requires
        is_start(start),
        is_run(start, outs),
        0 <= k < j < outs.len(),
        outs[k] == Outcome::<X>::Replied(reply),
        0 <= i < reply.tool_calls@.len(),
        reply.tool_calls@[i].yields,
    ensures
        actions(start, outs)[j] !is Chat,
{
    lemma_prefix(start, outs, k);
    lemma_prefix(start, outs, k + 1);
    lemma_prefix(start, outs, j);
    lemma_follows(start, outs.take(k + 1));
    assert(outs.take(k + 1).last() == outs[k]);
    assert(outs.take(k + 1).drop_last() =~= outs.take(k));
    assert(turns(outs.take(k + 1)).last().reply == reply);
    assert(asks_for_follow_up(reply));
    lemma_closing(start, outs, k + 1, j);
}

/// **A completed task ends the run**: behind an answer that is at its end and calls
/// no tool, no request is made any more.
pub proof fn law_completed_task_ends_the_run<X>(
    start: RunState<X>,
    outs: Seq<Outcome<X>>,
    k: int,
    reply: Reply,
    j: int,
)
    requires
        is_start(start),
        is_run(start, outs),
        0 <= k < j < outs.len(),
        outs[k] == Outcome::<X>::Replied(reply),
        reply.finish_reason == Some(FinishReason::Stop),
        reply.tool_calls@.len() == 0,
    ensures
        actions(start, outs)[j] !is Chat,
{
    lemma_prefix(start, outs, k);
    lemma_prefix(start, outs, k + 1);
    lemma_prefix(start, outs, j);
    lemma_follows(start, outs.take(k + 1));
    assert(outs.take(k + 1).last() == outs[k]);
    assert(outs.take(k + 1).drop_last() =~= outs.take(k));
    assert(turns(outs.take(k + 1)).last().reply == reply);
    lemma_closing(start, outs, k + 1, j);
}

/// **An answer yields for a reason**: it does exactly where it completes the task,
/// or where some tool call, whichever, asks for a follow-up.
pub proof fn law_answer_yields_for_a_reason(reply: Reply)
    ensures
        reply.completes() <==> reply.finish_reason == Some(FinishReason::Stop)
            && reply.tool_calls@.len() == 0,
        forall|i: int|
            0 <= i < reply.tool_calls@.len() && (#[trigger] reply.tool_calls@[i]).yields
                ==> reply.yields(),
        reply.completes() ==> reply.yields(),
        reply.yields() && !reply.completes() ==> exists|i: int|
            0 <= i < reply.tool_calls@.len() && (#[trigger] reply.tool_calls@[i]).yields,
{
}

/// The context that was handed back last, or else the one that the run began with.
pub open spec fn context_handed_back<X>(first: X, outs: Seq<Outcome<X>>) -> X
    decreases outs.len(),
{
    if outs.len() == 0 {
        first
    } else {
        match outs.last() {
            Outcome::Recorded(Some(context)) => context,
            Outcome::Appended(context, _) => context,
            Outcome::Prepared(context) => context,
            _ => context_handed_back(first, outs.drop_last()),
        }
    }
}

/// **The context is the one that was handed back last**: what the conversation held
/// behind the tool calls, if anything; then what the answer was appended to; then
/// that with the model set; whatever else came back. Before any of it, it is the
/// one that the run began with.
pub proof fn law_context_is_what_was_handed_back<X>(start: RunState<X>, outs: Seq<Outcome<X>>)
    requires
        is_start(start),
        is_run(start, outs),
    ensures
        after(start, outs).context == context_handed_back(start.context, outs),
    decreases outs.len(),
{
    if outs.len() > 0 {
        law_context_is_what_was_handed_back(start, outs.drop_last());
    }
}

/// **The answer is appended to what the tool calls left**: where the conversation
/// held a context behind the tool calls, the context is that one from then on until
/// the message is appended, and where it held none, it is the one from before.
pub proof fn law_context_is_read_back<X>(
    start: RunState<X>,
    outs: Seq<Outcome<X>>,
    k: int,
    held: Option<X>,
    j: int,
)
    requires
        is_start(start),
        is_run(start, outs),
        0 <= k < j <= outs.len(),
        outs[k] == Outcome::Recorded(held),
        forall|m: int| k < m < j ==> (#[trigger] outs[m]) !is Appended,
    ensures
        after(start, outs.take(j)).context == match held {
            Some(context) => context,
            None => after(start, outs.take(k)).context,
        },
    decreases j - k,
{
    lemma_prefix(start, outs, k);
    lemma_prefix(start, outs, j - 1);
    let s = after(start, outs.take(j - 1));
    lemma_follows(start, outs.take(j - 1));
    lemma_next_failure(s);
    if k + 1 < j {
        law_context_is_read_back(start, outs, k, held, j - 1);
        lemma_stays_between(start, outs, k, j - 1);
    }
}

/// From where the results are recorded up to where the message is appended, the
/// failed results are annotated, and nothing else is done.
proof fn lemma_stays_between<X>(start: RunState<X>, outs: Seq<Outcome<X>>, k: int, j: int)
    requires
        is_start(start),
        is_run(start, outs),
        0 <= k < j < outs.len(),
        outs[k] is Recorded,
        forall|m: int| k < m < j ==> (#[trigger] outs[m]) !is Appended,
    ensures
        ({
            let stage = after(start, outs.take(j)).stage;
            stage is AnnotateFailure || stage is AppendMessage
        }),
    decreases j - k,
{
    lemma_prefix(start, outs, j);
    lemma_prefix(start, outs, j - 1);
    let s = after(start, outs.take(j - 1));
    lemma_follows(start, outs.take(j - 1));
    lemma_next_failure(s);
    if k + 1 < j {
        lemma_stays_between(start, outs, k, j - 1);
        assert(outs[j - 1] !is Appended);
    }
}

/// **The model is set in what the answer was appended to**: where a context comes
/// back with the message behind it, the context is that one from then on until the
/// model is set.
pub proof fn law_appended_context_is_kept<X>(
    start: RunState<X>,
    outs: Seq<Outcome<X>>,
    k: int,
    context: X,
    too_many: bool,
    j: int,
)
    requires
        is_start(start),
        is_run(start, outs),
        0 <= k < j <= outs.len(),
        outs[k] == Outcome::Appended(context, too_many),
        forall|m: int| k < m < j ==> (#[trigger] outs[m]) !is Prepared,
    ensures
        after(start, outs.take(j)).context == context,
    decreases j - k,
{
    lemma_prefix(start, outs, k);
    lemma_prefix(start, outs, j - 1);
    if k + 1 < j {
        law_appended_context_is_kept(start, outs, k, context, too_many, j - 1);
        lemma_model_is_next(start, outs, k, j - 1);
        assert(outs[j - 1] !is Prepared);
    }
}

/// From where the message is appended up to where the model is set, too many
/// failures may be announced, and nothing else is done.
proof fn lemma_model_is_next<X>(start: RunState<X>, outs: Seq<Outcome<X>>, k: int, j: int)
    requires
        is_start(start),
        is_run(start, outs),
        0 <= k < j < outs.len(),
        outs[k] is Appended,
        forall|m: int| k < m < j ==> (#[trigger] outs[m]) !is Prepared,
    ensures
        ({
            let stage = after(start, outs.take(j)).stage;
            stage is InterruptForFailures || stage is SetModel
        }),
    decreases j - k,
{
    lemma_prefix(start, outs, j);
    lemma_prefix(start, outs, j - 1);
    if k + 1 < j {
        lemma_model_is_next(start, outs, k, j - 1);
        assert(outs[j - 1] !is Prepared);
    }
}

} // verus!
