//! What holds of every run.

use vstd::prelude::*;

use crate::orch::RequestInitiator;
use crate::run::{failure_stage, fits, system_calls, Action, Outcome, Reply, RunState, Stage};

verus! {

/// The state of a run that began with `start`, behind the outcomes `outs`.
pub open spec fn after<X>(start: RunState<X>, outs: Seq<Outcome<X>>) -> RunState<X>
    decreases outs.len(),
{
    if outs.len() == 0 {
        start
    } else {
        after(start, outs.drop_last()).step(outs.last())
    }
}

/// The actions that the outcomes `outs` came of.
pub open spec fn actions<X>(start: RunState<X>, outs: Seq<Outcome<X>>) -> Seq<Action>
    decreases outs.len(),
{
    if outs.len() == 0 {
        Seq::empty()
    } else {
        actions(start, outs.drop_last()).push(after(start, outs.drop_last()).action())
    }
}

/// Whether `outs` are outcomes that a run from `start` can have.
pub open spec fn is_run<X>(start: RunState<X>, outs: Seq<Outcome<X>>) -> bool
    decreases outs.len(),
{
    outs.len() == 0 || (is_run(start, outs.drop_last()) && fits(
        after(start, outs.drop_last()).stage,
        outs.last(),
    ))
}

/// Whether `start` is the beginning of a run.
pub open spec fn is_start<X>(start: RunState<X>) -> bool {
    start == RunState::start(
        start.is_internal,
        start.max_requests,
        start.system_tools,
        start.context,
    )
}

/// The number of requests among the actions.
pub open spec fn requests(acts: Seq<Action>) -> nat
    decreases acts.len(),
{
    if acts.len() == 0 {
        0
    } else {
        requests(acts.drop_last()) + if acts.last() is Chat {
            1nat
        } else {
            0
        }
    }
}

/// The tool calls that were made since the last request, by their numbers.
pub open spec fn calls_made(acts: Seq<Action>) -> Seq<usize>
    decreases acts.len(),
{
    if acts.len() == 0 || acts.last() is Chat {
        Seq::empty()
    } else {
        match acts.last() {
            Action::CallTool(i) => calls_made(acts.drop_last()).push(i),
            _ => calls_made(acts.drop_last()),
        }
    }
}

/// The results that were annotated since the last request, by their numbers.
pub open spec fn annotations_made(acts: Seq<Action>) -> Seq<usize>
    decreases acts.len(),
{
    if acts.len() == 0 || acts.last() is Chat {
        Seq::empty()
    } else {
        match acts.last() {
            Action::AnnotateFailure(i) => annotations_made(acts.drop_last()).push(i),
            _ => annotations_made(acts.drop_last()),
        }
    }
}

/// The numbers below `n` of results that failed, in order.
pub open spec fn failures_below(failed: Seq<bool>, n: int) -> Seq<usize>
    decreases n,
{
    if n <= 0 {
        Seq::empty()
    } else if failed[n - 1] {
        failures_below(failed, n - 1).push((n - 1) as usize)
    } else {
        failures_below(failed, n - 1)
    }
}

/// The last answer of the provider.
pub open spec fn last_reply<X>(outs: Seq<Outcome<X>>) -> Option<Reply>
    decreases outs.len(),
{
    if outs.len() == 0 {
        None
    } else {
        match outs.last() {
            Outcome::Replied(reply) => Some(reply),
            _ => last_reply(outs.drop_last()),
        }
    }
}

/// For each tool call that returned since the last answer, whether it failed.
pub open spec fn results<X>(outs: Seq<Outcome<X>>) -> Seq<bool>
    decreases outs.len(),
{
    if outs.len() == 0 || outs.last() is Replied {
        Seq::empty()
    } else {
        match outs.last() {
            Outcome::Returned(is_error) => results(outs.drop_last()).push(is_error),
            _ => results(outs.drop_last()),
        }
    }
}

/// The number of tool calls of each answer, in order.
pub open spec fn call_counts<X>(outs: Seq<Outcome<X>>) -> Seq<nat>
    decreases outs.len(),
{
    if outs.len() == 0 {
        Seq::empty()
    } else {
        match outs.last() {
            Outcome::Replied(reply) => call_counts(outs.drop_last()).push(reply.tool_calls@.len()),
            _ => call_counts(outs.drop_last()),
        }
    }
}

/// The context that the last turn saved, or the one that the run began with.
pub open spec fn kept<X>(start: RunState<X>, outs: Seq<Outcome<X>>) -> X
    decreases outs.len(),
{
    if outs.len() == 0 {
        start.context
    } else if after(start, outs.drop_last()).stage is SaveTurn {
        after(start, outs.drop_last()).context
    } else {
        kept(start, outs.drop_last())
    }
}

/// The number of times that the conversation was saved.
pub open spec fn saves(acts: Seq<Action>) -> nat
    decreases acts.len(),
{
    if acts.len() == 0 {
        0
    } else {
        saves(acts.drop_last()) + match acts.last() {
            Action::SaveContext | Action::SaveTurn | Action::SaveEnd => 1nat,
            _ => 0,
        }
    }
}

/// The number of notices that the limit of requests is reached.
pub open spec fn limit_notices(acts: Seq<Action>) -> nat
    decreases acts.len(),
{
    if acts.len() == 0 {
        0
    } else {
        limit_notices(acts.drop_last()) + if acts.last() is SendRequestInterrupt {
            1nat
        } else {
            0
        }
    }
}

/// Whether the last turn ends the run by itself: its answer makes the run yield, or
/// too many tool calls failed.
pub open spec fn ends_by_itself<X>(outs: Seq<Outcome<X>>) -> bool {
    last_reply(outs)->0.yields() || too_many_failed(outs)
}

/// Whether the action fires a hook.
pub open spec fn is_hook(act: Action) -> bool {
    match act {
        Action::FireStart | Action::FireRequest(_) | Action::FireResponse | Action::FireCallStart(
            _,
        ) | Action::FireCallEnd(_) | Action::FireEnd => true,
        _ => false,
    }
}

/// The hooks among the actions, in order.
pub open spec fn hooks(acts: Seq<Action>) -> Seq<Action>
    decreases acts.len(),
{
    if acts.len() == 0 {
        Seq::empty()
    } else if is_hook(acts.last()) {
        hooks(acts.drop_last()).push(acts.last())
    } else {
        hooks(acts.drop_last())
    }
}

/// The hooks of the first `n` tool calls of a turn: for each its start and its end.
pub open spec fn call_hooks(n: nat) -> Seq<Action>
    decreases n,
{
    if n == 0 {
        Seq::empty()
    } else {
        call_hooks((n - 1) as nat).push(Action::FireCallStart((n - 1) as usize)).push(
            Action::FireCallEnd((n - 1) as usize),
        )
    }
}

/// The hooks of a run up to the end of its turns, whose answers have so many tool
/// calls each: that of its start, and for each turn that of the request, that of
/// the answer, and those of the tool calls.
pub open spec fn turn_hooks(counts: Seq<nat>) -> Seq<Action>
    decreases counts.len(),
{
    if counts.len() == 0 {
        seq![Action::FireStart]
    } else {
        turn_hooks(counts.drop_last()).push(
            Action::FireRequest((counts.len() - 1) as usize),
        ).push(Action::FireResponse) + call_hooks(counts.last())
    }
}

/// Whether too many tool calls had failed in the last turn.
pub open spec fn too_many_failed<X>(outs: Seq<Outcome<X>>) -> bool
    decreases outs.len(),
{
    if outs.len() == 0 {
        false
    } else {
        match outs.last() {
            Outcome::Appended(_, too_many) => too_many,
            _ => too_many_failed(outs.drop_last()),
        }
    }
}

/// Whether the stage comes before the request of a turn.
pub open spec fn is_before_request(stage: Stage) -> bool {
    stage is StartHook || stage is SaveContext || stage is RequestHook || stage is Chat
}

/// Whether the stage comes behind the request of a turn that is not counted yet.
pub open spec fn is_in_turn(stage: Stage) -> bool {
    match stage {
        Stage::ResponseHook => true,
        Stage::AnnounceCall(_) => true,
        Stage::CallStartHook(_) => true,
        Stage::CallTool(_) => true,
        Stage::CallEndHook(_) => true,
        Stage::AnnounceResult(_) => true,
        Stage::RecordResults => true,
        Stage::AnnotateFailure(_) => true,
        Stage::AppendMessage => true,
        Stage::InterruptForFailures => true,
        Stage::SetModel => true,
        Stage::SaveTurn => true,
        _ => false,
    }
}

/// The number of requests that a run may make under the limit `max`.
pub open spec fn most_requests(max: usize) -> nat {
    if max == 0 {
        1
    } else {
        max as nat
    }
}

/// How the counts of a run agree with what was done.
spec fn counts_agree<X>(s: RunState<X>, acts: Seq<Action>) -> bool {
    &&& s.stage is Failed ==> requests(acts) <= s.request_count + 1
    &&& s.stage !is Failed ==> requests(acts) == s.request_count + if is_in_turn(s.stage) {
        1nat
    } else {
        0
    }
    &&& s.stage is InterruptForRequests ==> s.max_requests is Some
    &&& s.max_requests matches Some(max) ==> {
        &&& requests(acts) <= most_requests(max)
        &&& is_before_request(s.stage) || is_in_turn(s.stage) ==> s.request_count == 0
            || s.request_count < max
        &&& s.stage is UpdateMetrics && !s.should_yield ==> s.request_count < max
        &&& s.stage is InterruptForRequests ==> s.request_count >= max
    }
}

/// How the decisions of a run agree with what came back.
spec fn decisions_agree<X>(s: RunState<X>, outs: Seq<Outcome<X>>) -> bool {
    !is_before_request(s.stage) && s.stage !is Failed ==> {
        &&& last_reply(outs) is Some
        &&& s.is_complete == last_reply(outs)->0.completes()
        &&& is_in_turn(s.stage) && s.stage !is SetModel && s.stage !is SaveTurn ==> s.should_yield
            == last_reply(outs)->0.yields()
        &&& is_in_turn(s.stage) ==> s.failed == results(outs) && s.calls == system_calls(
            s.system_tools,
            last_reply(outs)->0.tool_calls@,
        )
        &&& s.stage is InterruptForFailures ==> too_many_failed(outs)
        &&& s.stage is SetModel || s.stage is SaveTurn ==> s.should_yield == (last_reply(
            outs,
        )->0.yields() || too_many_failed(outs))
        &&& !is_in_turn(s.stage) && s.stage !is InterruptForRequests && s.stage
            !is UpdateMetrics ==> s.should_yield
        &&& s.should_yield && !is_in_turn(s.stage) ==> last_reply(outs)->0.yields()
            || too_many_failed(outs) || (s.max_requests matches Some(max) && s.request_count
            >= max)
        &&& s.stage is UpdateMetrics && !s.should_yield ==> !last_reply(outs)->0.yields()
            && !too_many_failed(outs) && (s.max_requests matches Some(max) ==> s.request_count
            < max)
    }
}

/// How the actions of a run follow each other.
spec fn order_agrees<X>(s: RunState<X>, acts: Seq<Action>) -> bool {
    let n = acts.len() as int;
    match s.stage {
        Stage::StartHook => n == 0,
        Stage::RequestHook => n > 0 && acts[n - 1] is SaveContext,
        Stage::Chat => n > 1 && acts[n - 1] is FireRequest && acts[n - 2] is SaveContext,
        Stage::AnnounceCall(i) => s.calls[i as int],
        Stage::CallStartHook(i) => n > 0 && (acts[n - 1] == Action::SendCallStart(i)
            <==> s.calls[i as int]),
        Stage::CallTool(i) => n > 1 && acts[n - 1] == Action::FireCallStart(i) && (acts[n - 2]
            == Action::SendCallStart(i) <==> s.calls[i as int]),
        Stage::CallEndHook(i) => n > 0 && acts[n - 1] == Action::CallTool(i),
        Stage::AnnounceResult(i) => n > 0 && acts[n - 1] == Action::FireCallEnd(i)
            && s.calls[i as int],
        Stage::SaveEnd => n > 0 && acts[n - 1] is FireEnd,
        Stage::AnnounceCompletion => n > 1 && acts[n - 1] is SaveEnd && acts[n - 2] is FireEnd
            && s.is_complete,
        Stage::Finished => if s.is_complete {
            n > 2 && acts[n - 1] is SendTaskComplete && acts[n - 2] is SaveEnd && acts[n - 3]
                is FireEnd
        } else {
            n > 1 && acts[n - 1] is SaveEnd && acts[n - 2] is FireEnd
        },
        _ => n > 0,
    }
}

/// How the tool calls of a run agree with what was done.
spec fn tools_agree<X>(s: RunState<X>, acts: Seq<Action>) -> bool {
    is_in_turn(s.stage) ==> {
        &&& s.calls.len() <= usize::MAX
        &&& s.failed.len() <= s.calls.len()
        &&& calls_made(acts) == Seq::new(s.failed.len(), |i: int| i as usize)
        &&& match s.stage {
            Stage::AnnotateFailure(i) => annotations_made(acts) == failures_below(
                s.failed,
                i as int,
            ),
            Stage::AppendMessage | Stage::InterruptForFailures | Stage::SetModel
            | Stage::SaveTurn => {
                annotations_made(acts) == failures_below(s.failed, s.failed.len() as int)
                    && s.failed.len() == s.calls.len()
            },
            _ => annotations_made(acts).len() == 0,
        }
    }
}

/// How often a run has saved the conversation.
spec fn saves_agree<X>(s: RunState<X>, acts: Seq<Action>) -> bool {
    match s.stage {
        Stage::StartHook | Stage::SaveContext | Stage::InterruptForRequests(_)
        | Stage::UpdateMetrics | Stage::EndHook | Stage::SaveEnd => saves(acts) == 2
            * s.request_count,
        Stage::Failed => true,
        _ => saves(acts) == 2 * s.request_count + 1,
    }
}

/// How the notices of a run agree with what came back.
spec fn notices_agree<X>(s: RunState<X>, outs: Seq<Outcome<X>>, acts: Seq<Action>) -> bool {
    match s.stage {
        Stage::SetModel | Stage::SaveTurn => limit_notices(acts) == 0 && s.should_yield
            == ends_by_itself(outs),
        Stage::InterruptForRequests(_) => limit_notices(acts) == 0 && !ends_by_itself(outs),
        Stage::UpdateMetrics | Stage::EndHook | Stage::SaveEnd | Stage::AnnounceCompletion
        | Stage::Finished => limit_notices(acts) == if s.should_yield && !ends_by_itself(outs) {
            1nat
        } else {
            0
        },
        Stage::Failed => true,
        _ => limit_notices(acts) == 0,
    }
}

/// How the context of a run agrees with what was saved.
spec fn context_agrees<X>(s: RunState<X>, start: RunState<X>, outs: Seq<Outcome<X>>) -> bool {
    match s.stage {
        Stage::AnnotateFailure(_) | Stage::AppendMessage | Stage::InterruptForFailures
        | Stage::SetModel | Stage::Failed => true,
        Stage::SaveTurn => outs.len() > 0 && outs.last() == Outcome::Prepared(s.context),
        _ => s.context == kept(start, outs),
    }
}

/// How the hooks of a run agree with what was done.
spec fn hooks_agree<X>(s: RunState<X>, outs: Seq<Outcome<X>>, acts: Seq<Action>) -> bool {
    let counts = call_counts(outs);
    let n = counts.len();
    let fired = hooks(acts);
    let asked = turn_hooks(counts.drop_last()).push(Action::FireRequest((n - 1) as usize));
    &&& is_before_request(s.stage) ==> n == s.request_count
    &&& is_in_turn(s.stage) ==> n == s.request_count + 1 && counts.last() == s.calls.len()
    &&& match s.stage {
        Stage::StartHook => n == 0 && fired.len() == 0,
        Stage::SaveContext | Stage::RequestHook => fired == turn_hooks(counts),
        Stage::Chat => fired == turn_hooks(counts).push(Action::FireRequest(n as usize)),
        Stage::ResponseHook => fired == asked,
        Stage::AnnounceCall(i) | Stage::CallStartHook(i) => fired == asked.push(
            Action::FireResponse,
        ) + call_hooks(i as nat),
        Stage::CallTool(i) | Stage::CallEndHook(i) => fired == (asked.push(Action::FireResponse)
            + call_hooks(i as nat)).push(Action::FireCallStart(i)),
        Stage::AnnounceResult(i) => fired == asked.push(Action::FireResponse) + call_hooks(
            (i + 1) as nat,
        ),
        Stage::SaveEnd | Stage::AnnounceCompletion | Stage::Finished => fired == turn_hooks(
            counts,
        ).push(Action::FireEnd),
        Stage::Failed => true,
        _ => fired == turn_hooks(counts),
    }
    &&& !is_before_request(s.stage) && !is_in_turn(s.stage) && s.stage !is Failed ==> n
        == s.request_count
}

/// All of it.
spec fn agrees<X>(start: RunState<X>, outs: Seq<Outcome<X>>) -> bool {
    let s = after(start, outs);
    let acts = actions(start, outs);
    &&& s.is_internal == start.is_internal
    &&& s.max_requests == start.max_requests
    &&& s.system_tools == start.system_tools
    &&& s.is_sound()
    &&& acts.len() == outs.len()
    &&& counts_agree(s, acts)
    &&& decisions_agree(s, outs)
    &&& order_agrees(s, acts)
    &&& tools_agree(s, acts)
    &&& saves_agree(s, acts)
    &&& notices_agree(s, outs, acts)
    &&& context_agrees(s, start, outs)
    &&& hooks_agree(s, outs, acts)
    &&& s.failed.len() <= usize::MAX
}

/// A run stays sound.
pub proof fn lemma_sound_step<X>(s: RunState<X>, outcome: Outcome<X>)
    requires
        s.is_sound(),
        fits(s.stage, outcome),
        s.failed.len() <= usize::MAX,
    ensures
        s.step(outcome).is_sound(),
{
    lemma_next_failure(s);
}

/// Whether going on behind the results before `i` leads to the next failed one, or
/// past all of them.
pub open spec fn leads_on(failed: Seq<bool>, i: int) -> bool {
    match failure_stage(failed, i) {
        Stage::AppendMessage => failures_below(failed, failed.len() as int) == failures_below(
            failed,
            i,
        ),
        Stage::AnnotateFailure(k) => i <= k < failed.len() && failed[k as int] && failures_below(
            failed,
            k as int,
        ) == failures_below(failed, i),
        _ => false,
    }
}

proof fn lemma_leads_on(failed: Seq<bool>, i: int)
    requires
        0 <= i <= failed.len(),
        failed.len() <= usize::MAX,
    ensures
        leads_on(failed, i),
    decreases failed.len() - i,
{
    if i < failed.len() && !failed[i] {
        lemma_leads_on(failed, i + 1);
    }
}

/// Seeing to the results leads to the next failed one, or past all of them.
pub proof fn lemma_next_failure<X>(s: RunState<X>)
    requires
        s.is_sound(),
        s.failed.len() <= usize::MAX,
    ensures
        s.stage is RecordResults ==> leads_on(s.failed, 0),
        s.stage matches Stage::AnnotateFailure(i) ==> leads_on(s.failed, i + 1),
{
    match s.stage {
        Stage::RecordResults => {
            lemma_leads_on(s.failed, 0);
        },
        Stage::AnnotateFailure(i) => {
            lemma_leads_on(s.failed, i + 1);
        },
        _ => {},
    }
}

proof fn lemma_counts_step<X>(s: RunState<X>, acts: Seq<Action>, outcome: Outcome<X>)
    requires
        s.is_sound(),
        fits(s.stage, outcome),
        counts_agree(s, acts),
        s.failed.len() <= usize::MAX,
    ensures
        counts_agree(s.step(outcome), acts.push(s.action())),
{
    let more = acts.push(s.action());
    assert(more.drop_last() =~= acts);
    lemma_next_failure(s);
}

proof fn lemma_decisions_step<X>(
    s: RunState<X>,
    outs: Seq<Outcome<X>>,
    acts: Seq<Action>,
    outcome: Outcome<X>,
)
    requires
        s.is_sound(),
        fits(s.stage, outcome),
        counts_agree(s, acts),
        decisions_agree(s, outs),
        s.failed.len() <= usize::MAX,
    ensures
        decisions_agree(s.step(outcome), outs.push(outcome)),
{
    let more = outs.push(outcome);
    assert(more.drop_last() =~= outs);
    lemma_next_failure(s);
}

proof fn lemma_order_step<X>(s: RunState<X>, acts: Seq<Action>, outcome: Outcome<X>)
    requires
        s.is_sound(),
        fits(s.stage, outcome),
        order_agrees(s, acts),
        s.failed.len() <= usize::MAX,
    ensures
        order_agrees(s.step(outcome), acts.push(s.action())),
{
    lemma_next_failure(s);
}

proof fn lemma_tools_step<X>(s: RunState<X>, acts: Seq<Action>, outcome: Outcome<X>)
    requires
        s.is_sound(),
        fits(s.stage, outcome),
        tools_agree(s, acts),
        s.failed.len() <= usize::MAX,
    ensures
        tools_agree(s.step(outcome), acts.push(s.action())),
{
    let more = acts.push(s.action());
    assert(more.drop_last() =~= acts);
    let next = s.step(outcome);
    lemma_next_failure(s);
    match s.stage {
        Stage::Chat => {
            if let Outcome::Replied(reply) = outcome {
                assert(reply.tool_calls.len() <= usize::MAX);
                assert(calls_made(more) =~= Seq::new(next.failed.len(), |i: int| i as usize));
            }
        },
        Stage::CallTool(i) => {
            assert(calls_made(more) =~= Seq::new(next.failed.len(), |i: int| i as usize));
        },
        Stage::RecordResults => {
            assert(annotations_made(more) =~= Seq::empty());
        },
        _ => {},
    }
}

proof fn lemma_saves_step<X>(s: RunState<X>, acts: Seq<Action>, outcome: Outcome<X>)
    requires
        s.is_sound(),
        fits(s.stage, outcome),
        saves_agree(s, acts),
        s.failed.len() <= usize::MAX,
    ensures
        saves_agree(s.step(outcome), acts.push(s.action())),
{
    let more = acts.push(s.action());
    assert(more.drop_last() =~= acts);
    lemma_next_failure(s);
}

proof fn lemma_notices_step<X>(
    s: RunState<X>,
    outs: Seq<Outcome<X>>,
    acts: Seq<Action>,
    outcome: Outcome<X>,
)
    requires
        s.is_sound(),
        fits(s.stage, outcome),
        decisions_agree(s, outs),
        notices_agree(s, outs, acts),
        s.failed.len() <= usize::MAX,
    ensures
        notices_agree(s.step(outcome), outs.push(outcome), acts.push(s.action())),
{
    let more = outs.push(outcome);
    let done = acts.push(s.action());
    assert(more.drop_last() =~= outs);
    assert(done.drop_last() =~= acts);
    lemma_next_failure(s);
}

proof fn lemma_context_step<X>(start: RunState<X>, outs: Seq<Outcome<X>>, outcome: Outcome<X>)
    requires
        after(start, outs).is_sound(),
        fits(after(start, outs).stage, outcome),
        context_agrees(after(start, outs), start, outs),
        after(start, outs).failed.len() <= usize::MAX,
    ensures
        context_agrees(after(start, outs).step(outcome), start, outs.push(outcome)),
{
    let more = outs.push(outcome);
    assert(more.drop_last() =~= outs);
    lemma_next_failure(after(start, outs));
}

proof fn lemma_hooks_step<X>(
    s: RunState<X>,
    outs: Seq<Outcome<X>>,
    acts: Seq<Action>,
    outcome: Outcome<X>,
)
    requires
        s.is_sound(),
        fits(s.stage, outcome),
        hooks_agree(s, outs, acts),
        s.failed.len() <= usize::MAX,
    ensures
        hooks_agree(s.step(outcome), outs.push(outcome), acts.push(s.action())),
{
    let more = outs.push(outcome);
    let done = acts.push(s.action());
    let counts = call_counts(outs);
    let n = counts.len();
    let asked = turn_hooks(counts.drop_last()).push(Action::FireRequest((n - 1) as usize));
    let answered = asked.push(Action::FireResponse);
    assert(more.drop_last() =~= outs);
    assert(done.drop_last() =~= acts);
    lemma_next_failure(s);
    match s.stage {
        Stage::StartHook => {
            assert(hooks(done) =~= seq![Action::FireStart]);
        },
        Stage::Chat => {
            if let Outcome::Replied(reply) = outcome {
                assert(call_counts(more).drop_last() =~= counts);
            }
        },
        Stage::ResponseHook => {
            assert(answered + call_hooks(0) =~= answered);
        },
        Stage::CallStartHook(i) => {
            assert(hooks(done) =~= (answered + call_hooks(i as nat)).push(
                Action::FireCallStart(i),
            ));
        },
        Stage::CallEndHook(i) => {
            assert(call_hooks((i + 1) as nat) =~= call_hooks(i as nat).push(
                Action::FireCallStart(i),
            ).push(Action::FireCallEnd(i)));
            assert(hooks(done) =~= answered + call_hooks((i + 1) as nat));
        },
        _ => {},
    }
}

proof fn lemma_agrees<X>(start: RunState<X>, outs: Seq<Outcome<X>>)
    requires
        is_start(start),
        is_run(start, outs),
    ensures
        agrees(start, outs),
    decreases outs.len(),
{
    if outs.len() > 0 {
        let before = outs.drop_last();
        lemma_agrees(start, before);
        let s = after(start, before);
        let acts = actions(start, before);
        let outcome = outs.last();
        lemma_sound_step(s, outcome);
        lemma_counts_step(s, acts, outcome);
        lemma_decisions_step(s, before, acts, outcome);
        lemma_order_step(s, acts, outcome);
        lemma_tools_step(s, acts, outcome);
        lemma_saves_step(s, acts, outcome);
        lemma_notices_step(s, before, acts, outcome);
        lemma_context_step(start, before, outcome);
        lemma_hooks_step(s, before, acts, outcome);
        assert(before.push(outcome) =~= outs);
    }
}

/// What was done first does not depend on what came later.
pub proof fn lemma_prefix<X>(start: RunState<X>, outs: Seq<Outcome<X>>, k: int)
    requires
        0 <= k <= outs.len(),
        is_run(start, outs),
    ensures
        is_run(start, outs.take(k)),
        actions(start, outs).len() == outs.len(),
        actions(start, outs.take(k)) == actions(start, outs).take(k),
        k < outs.len() ==> actions(start, outs)[k] == after(start, outs.take(k)).action(),
        k < outs.len() ==> fits(after(start, outs.take(k)).stage, outs[k]),
        k < outs.len() ==> after(start, outs.take(k + 1)) == after(start, outs.take(k)).step(
            outs[k],
        ),
    decreases outs.len() - k,
{
    lemma_actions_len(start, outs);
    if k == outs.len() {
        assert(outs.take(k) =~= outs);
        assert(actions(start, outs).take(k) =~= actions(start, outs));
    } else {
        lemma_prefix(start, outs, k + 1);
        let shorter = outs.take(k + 1);
        assert(shorter.drop_last() =~= outs.take(k));
        assert(shorter.last() == outs[k]);
        lemma_actions_len(start, shorter);
        lemma_actions_len(start, outs.take(k));
        assert(actions(start, outs).take(k) =~= actions(start, shorter).take(k));
        assert(actions(start, shorter).take(k) =~= actions(start, outs.take(k)));
        assert(actions(start, shorter)[k] == actions(start, outs).take(k + 1)[k]);
    }
}

proof fn lemma_actions_len<X>(start: RunState<X>, outs: Seq<Outcome<X>>)
    ensures
        actions(start, outs).len() == outs.len(),
    decreases outs.len(),
{
    if outs.len() > 0 {
        lemma_actions_len(start, outs.drop_last());
    }
}

/// **Only the first request can be the user's**: a request is made on behalf of
/// the user exactly where the run is not internal and no request came before.
pub proof fn law_only_the_first_request_is_the_users<X>(
    start: RunState<X>,
    outs: Seq<Outcome<X>>,
    k: int,
    who: RequestInitiator,
)
    requires
        is_start(start),
        is_run(start, outs),
        0 <= k < outs.len(),
        actions(start, outs)[k] == Action::Chat(who),
    ensures
        who == RequestInitiator::User <==> !start.is_internal && requests(
            actions(start, outs).take(k),
        ) == 0,
{
    lemma_prefix(start, outs, k);
    lemma_agrees(start, outs.take(k));
}

/// **The limit of requests holds**: a run makes no more requests than the agent
/// may make in a turn, or one where that is none.
pub proof fn law_request_limit_holds<X>(start: RunState<X>, outs: Seq<Outcome<X>>, max: usize)
    requires
        is_start(start),
        is_run(start, outs),
        start.max_requests == Some(max),
    ensures
        requests(actions(start, outs)) <= most_requests(max),
{
    lemma_agrees(start, outs);
}

/// **Turns are counted**: between two turns of a run, and at its end, as many
/// requests were made as the run has counted.
pub proof fn law_turns_are_counted<X>(start: RunState<X>, outs: Seq<Outcome<X>>)
    requires
        is_start(start),
        is_run(start, outs),
        !is_in_turn(after(start, outs).stage),
        after(start, outs).stage !is Failed,
    ensures
        requests(actions(start, outs)) == after(start, outs).request_count,
{
    lemma_agrees(start, outs);
}

/// **Another turn follows exactly where nothing speaks against it**: a turn that
/// is over is followed by another one unless its answer makes the run yield, too
/// many tool calls failed, or the limit of requests is reached.
pub proof fn law_another_turn_follows<X>(start: RunState<X>, outs: Seq<Outcome<X>>)
    requires
        is_start(start),
        is_run(start, outs),
        after(start, outs).stage is UpdateMetrics,
    ensures
        last_reply(outs) is Some,
        ({
            let s = after(start, outs);
            let next = s.step(Outcome::<X>::Done).stage;
            let ends = last_reply(outs)->0.yields() || too_many_failed(outs) || (
            s.max_requests matches Some(max) && s.request_count >= max);
            &&& next is SaveContext <==> !ends
            &&& next is EndHook <==> ends
        }),
{
    lemma_agrees(start, outs);
}

/// **A run ends in order**: one that is over has fired the hook for its end,
/// saved the conversation, and then sent the notice that the task is completed,
/// which it sends exactly where the last answer completes the task.
pub proof fn law_run_ends_in_order<X>(start: RunState<X>, outs: Seq<Outcome<X>>)
    requires
        is_start(start),
        is_run(start, outs),
        after(start, outs).stage is Finished,
    ensures
        last_reply(outs) is Some,
        ({
            let acts = actions(start, outs);
            let n = acts.len() as int;
            if last_reply(outs)->0.completes() {
                n > 2 && acts[n - 3] is FireEnd && acts[n - 2] is SaveEnd && acts[n - 1]
                    is SendTaskComplete
            } else {
                n > 1 && acts[n - 2] is FireEnd && acts[n - 1] is SaveEnd
            }
        }),
{
    lemma_agrees(start, outs);
}

/// **Completion is announced once and last**: behind its notice the run is over,
/// or has failed.
pub proof fn law_completion_is_announced_last<X>(start: RunState<X>, outs: Seq<Outcome<X>>, k: int)
    requires
        is_start(start),
        is_run(start, outs),
        0 <= k < outs.len(),
        actions(start, outs)[k] is SendTaskComplete,
    ensures
        k == outs.len() - 1,
        last_reply(outs.take(k)) is Some,
        last_reply(outs.take(k))->0.completes(),
{
    lemma_prefix(start, outs, k);
    lemma_agrees(start, outs.take(k));
    if k + 1 < outs.len() {
        lemma_prefix(start, outs, k + 1);
    }
}

/// **A failure is final**: only the last outcome of a run can be a failure, and
/// behind it there is nothing left to do but to return the error.
pub proof fn law_failure_is_final<X>(start: RunState<X>, outs: Seq<Outcome<X>>, k: int)
    requires
        is_start(start),
        is_run(start, outs),
        0 <= k < outs.len(),
        outs[k] is Failed,
    ensures
        k == outs.len() - 1,
        after(start, outs).action() is Abort,
        forall|outcome: Outcome<X>| !fits(after(start, outs).stage, outcome),
{
    lemma_prefix(start, outs, k);
    if k + 1 < outs.len() {
        lemma_prefix(start, outs, k + 1);
    }
    assert(outs.take(k + 1) =~= outs);
}

/// **The conversation is saved before every request**, and then the hook for it
/// is fired.
pub proof fn law_saved_before_every_request<X>(start: RunState<X>, outs: Seq<Outcome<X>>, k: int)
    requires
        is_start(start),
        is_run(start, outs),
        0 <= k < outs.len(),
        actions(start, outs)[k] is Chat,
    ensures
        k >= 2,
        actions(start, outs)[k - 2] is SaveContext,
        actions(start, outs)[k - 1] is FireRequest,
{
    lemma_prefix(start, outs, k);
    lemma_agrees(start, outs.take(k));
    assert(actions(start, outs).take(k)[k - 1] == actions(start, outs)[k - 1]);
    assert(actions(start, outs).take(k)[k - 2] == actions(start, outs)[k - 2]);
}

/// **Every tool call is made once, in order**: when the results of a turn are
/// recorded, the tool calls of its answer were made, each of them once and one
/// behind the other.
pub proof fn law_every_tool_call_is_made_in_order<X>(start: RunState<X>, outs: Seq<Outcome<X>>)
    requires
        is_start(start),
        is_run(start, outs),
        after(start, outs).stage is RecordResults,
    ensures
        last_reply(outs) is Some,
        calls_made(actions(start, outs)) == Seq::new(
            last_reply(outs)->0.tool_calls@.len(),
            |i: int| i as usize,
        ),
{
    lemma_agrees(start, outs);
}

/// **Tool calls are framed**: the hook for its start is fired right before a tool
/// call, and the hook for its end right behind it, whether it failed or not; a
/// notice is sent before the first exactly where the answer names a tool of the
/// system there.
pub proof fn law_tool_calls_are_framed<X>(
    start: RunState<X>,
    outs: Seq<Outcome<X>>,
    k: int,
    i: usize,
)
    requires
        is_start(start),
        is_run(start, outs),
        0 <= k < outs.len(),
        actions(start, outs)[k] == Action::CallTool(i),
    ensures
        k >= 2,
        last_reply(outs.take(k)) matches Some(reply) && i < reply.tool_calls@.len() && (actions(
            start,
            outs,
        )[k - 2] == Action::SendCallStart(i) <==> start.system_tools.contains(
            reply.tool_calls@[i as int].name@,
        )),
        actions(start, outs)[k - 1] == Action::FireCallStart(i),
        k + 1 < outs.len() ==> actions(start, outs)[k + 1] == Action::FireCallEnd(i),
{
    lemma_prefix(start, outs, k);
    lemma_agrees(start, outs.take(k));
    assert(actions(start, outs).take(k)[k - 1] == actions(start, outs)[k - 1]);
    assert(actions(start, outs).take(k)[k - 2] == actions(start, outs)[k - 2]);
    if k + 1 < outs.len() {
        lemma_prefix(start, outs, k + 1);
    }
}

/// **Results of system tools are announced**: the notice of a result is sent
/// right behind the hook for the end of its tool call exactly where the answer
/// names a tool of the system there.
pub proof fn law_results_of_system_tools_are_announced<X>(
    start: RunState<X>,
    outs: Seq<Outcome<X>>,
    k: int,
    i: usize,
)
    requires
        is_start(start),
        is_run(start, outs),
        0 <= k < outs.len() - 1,
        actions(start, outs)[k] == Action::FireCallEnd(i),
    ensures
        last_reply(outs.take(k)) matches Some(reply) && i < reply.tool_calls@.len() && (actions(
            start,
            outs,
        )[k + 1] == Action::SendCallEnd(i) <==> start.system_tools.contains(
            reply.tool_calls@[i as int].name@,
        )),
{
    lemma_prefix(start, outs, k);
    lemma_agrees(start, outs.take(k));
    lemma_prefix(start, outs, k + 1);
}

/// **Every failed result is annotated**: when the answer of a turn is appended,
/// exactly the results that failed were annotated, in order.
pub proof fn law_every_failure_is_annotated<X>(start: RunState<X>, outs: Seq<Outcome<X>>)
    requires
        is_start(start),
        is_run(start, outs),
        after(start, outs).stage is AppendMessage,
    ensures
        last_reply(outs) is Some,
        results(outs).len() == last_reply(outs)->0.tool_calls@.len(),
        annotations_made(actions(start, outs)) == failures_below(
            results(outs),
            results(outs).len() as int,
        ),
{
    lemma_agrees(start, outs);
}

/// **Too many failures interrupt**: the notice of it is sent exactly right behind
/// a message with which too many tool calls had failed.
pub proof fn law_failure_interrupt_is_sent<X>(
    start: RunState<X>,
    outs: Seq<Outcome<X>>,
    k: int,
)
    requires
        is_start(start),
        is_run(start, outs),
        0 <= k < outs.len(),
    ensures
        actions(start, outs)[k] is SendFailureInterrupt <==> k > 0 && (outs[k
            - 1] matches Outcome::Appended(_, too_many) && too_many),
{
    lemma_prefix(start, outs, k);
    lemma_agrees(start, outs.take(k));
    if k > 0 {
        lemma_prefix(start, outs, k - 1);
        lemma_agrees(start, outs.take(k - 1));
        lemma_next_failure(after(start, outs.take(k - 1)));
    }
}

/// **The limit of requests interrupts**: the notice of it is sent exactly right
/// behind a turn that was saved, where as many requests were made as there may
/// be, and where nothing else ends the run.
pub proof fn law_request_interrupt_is_sent<X>(
    start: RunState<X>,
    outs: Seq<Outcome<X>>,
    k: int,
    limit: usize,
)
    requires
        is_start(start),
        is_run(start, outs),
        0 <= k < outs.len(),
    ensures
        actions(start, outs)[k] == Action::SendRequestInterrupt(limit) <==> {
            &&& k > 0
            &&& actions(start, outs)[k - 1] is SaveTurn
            &&& start.max_requests == Some(limit)
            &&& requests(actions(start, outs).take(k)) >= limit
            &&& !last_reply(outs.take(k))->0.yields()
            &&& !too_many_failed(outs.take(k))
        },
{
    lemma_prefix(start, outs, k);
    lemma_agrees(start, outs.take(k));
    if k > 0 {
        lemma_prefix(start, outs, k - 1);
        lemma_agrees(start, outs.take(k - 1));
        lemma_next_failure(after(start, outs.take(k - 1)));
        assert(outs.take(k).drop_last() =~= outs.take(k - 1));
        if actions(start, outs)[k - 1] is SaveTurn && outs[k - 1] is Failed {
            assert(after(start, outs.take(k)).stage is Failed);
        }
    }
}

/// **The limit of requests is announced once or never**: a run that is over sent
/// the notice of it once where the last answer does not make it yield and not too
/// many tool calls failed, and never otherwise; so it never sent it together with
/// the notice that the task is completed.
pub proof fn law_limit_is_announced_once<X>(start: RunState<X>, outs: Seq<Outcome<X>>)
    requires
        is_start(start),
        is_run(start, outs),
        after(start, outs).stage is Finished,
    ensures
        last_reply(outs) is Some,
        limit_notices(actions(start, outs)) == if last_reply(outs)->0.yields() || too_many_failed(
            outs,
        ) {
            0nat
        } else {
            1
        },
        limit_notices(actions(start, outs)) > 0 ==> !actions(start, outs).contains(
            Action::SendTaskComplete,
        ),
{
    lemma_agrees(start, outs);
    let acts = actions(start, outs);
    if acts.contains(Action::SendTaskComplete) {
        let k = choose|k: int| 0 <= k < acts.len() && acts[k] == Action::SendTaskComplete;
        law_completion_is_announced_last(start, outs, k);
        lemma_prefix(start, outs, k);
        assert(outs.take(k) =~= outs.drop_last());
    }
}

/// **A run saves twice a turn, and at its end**: one that is over and made so many
/// requests saved the conversation twice as often, and once more.
pub proof fn law_saves_are_counted<X>(start: RunState<X>, outs: Seq<Outcome<X>>)
    requires
        is_start(start),
        is_run(start, outs),
        after(start, outs).stage is Finished,
    ensures
        saves(actions(start, outs)) == 2 * requests(actions(start, outs)) + 1,
{
    lemma_agrees(start, outs);
}

/// **Hooks are fired in order**: a run that is over fired that of its start; for
/// each turn that of the request, that of the answer, and those of the start and
/// the end of each tool call, one behind the other; and that of its end.
pub proof fn law_hooks_are_fired_in_order<X>(start: RunState<X>, outs: Seq<Outcome<X>>)
    requires
        is_start(start),
        is_run(start, outs),
        after(start, outs).stage is Finished,
    ensures
        hooks(actions(start, outs)) == turn_hooks(call_counts(outs)).push(Action::FireEnd),
        call_counts(outs).len() == requests(actions(start, outs)),
{
    lemma_agrees(start, outs);
}

/// **A turn sends what was saved**: a request is made with the context that the
/// turn before saved, or with that of the beginning where there was none; and the
/// same context was put into the conversation right before.
pub proof fn law_turn_sends_what_was_saved<X>(
    start: RunState<X>,
    outs: Seq<Outcome<X>>,
    k: int,
)
    requires
        is_start(start),
        is_run(start, outs),
        0 <= k < outs.len(),
        actions(start, outs)[k] is Chat,
    ensures
        after(start, outs.take(k)).context == kept(start, outs.take(k)),
        k >= 2,
        actions(start, outs)[k - 2] is SaveContext,
        after(start, outs.take(k - 2)).context == after(start, outs.take(k)).context,
{
    lemma_prefix(start, outs, k);
    lemma_agrees(start, outs.take(k));
    law_saved_before_every_request(start, outs, k);
    lemma_prefix(start, outs, k - 1);
    lemma_prefix(start, outs, k - 2);
}

/// **A turn saves what was made of the context**: what is put into the
/// conversation at the end of a turn is the context in which the model was set
/// right before.
pub proof fn law_turn_saves_the_prepared_context<X>(
    start: RunState<X>,
    outs: Seq<Outcome<X>>,
    k: int,
)
    requires
        is_start(start),
        is_run(start, outs),
        0 <= k < outs.len(),
        actions(start, outs)[k] is SaveTurn,
    ensures
        k > 0,
        outs[k - 1] == Outcome::Prepared(after(start, outs.take(k)).context),
{
    lemma_prefix(start, outs, k);
    lemma_agrees(start, outs.take(k));
    assert(outs.take(k).last() == outs[k - 1]);
}

} // verus!
