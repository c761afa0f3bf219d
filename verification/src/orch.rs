//! What an orchestrator decides about an agent's requests.

use vstd::prelude::*;

verus! {

/// Who a request to the provider is counted for.
#[derive(Debug, Clone, Copy, PartialEq, Eq, Structural)]
pub enum RequestInitiator {
    /// A human asked for it.
    User,
    /// An agent asked for it.
    Agent,
}

/// The initiator of the request that `request_count` others came before: only
/// the very first request of a run that is not internal is the user's.
pub open spec fn initiator(is_internal: bool, request_count: nat) -> RequestInitiator {
    if !is_internal && request_count == 0 {
        RequestInitiator::User
    } else {
        RequestInitiator::Agent
    }
}

/// Selects the initiator of the request that `request_count` others came before.
pub fn select_initiator(is_internal: bool, request_count: usize) -> (selected: RequestInitiator)
    ensures
        selected == initiator(is_internal, request_count as nat),
        selected is User <==> !is_internal && request_count == 0,
{
    if !is_internal && request_count == 0 {
        RequestInitiator::User
    } else {
        RequestInitiator::Agent
    }
}

/// A tool of the system.
#[derive(Debug, Clone)]
pub struct ToolDefinition {
    /// The name that the tool is called by.
    pub name: String,
}

/// A model of a provider.
#[derive(Debug, Clone)]
pub struct Model {
    /// Identifies the model.
    pub id: String,
    /// Whether the model supports tools, where that is known.
    pub tools_supported: Option<bool>,
}

/// An agent.
#[derive(Debug, Clone)]
pub struct Agent {
    /// Identifies the agent.
    pub id: String,
    /// The provider that the agent asks.
    pub provider: String,
    /// Identifies the model that the agent asks.
    pub model: String,
    /// Whether the agent may use tools, where that is defined.
    pub tool_supported: Option<bool>,
    /// The number of requests that the agent may make in a turn, where that is
    /// limited.
    pub max_requests_per_turn: Option<usize>,
    /// The names of tools, in the order in which the agent is shown them.
    pub tool_order: Vec<String>,
}

/// The names, as text.
pub open spec fn texts_of(names: Seq<String>) -> Seq<Seq<char>> {
    names.map_values(|name: String| name@)
}

/// Copies the names, in order.
fn copy_names(names: &Vec<String>) -> (copies: Vec<String>)
    ensures
        texts_of(copies@) == texts_of(names@),
        copies@.len() == names@.len(),
        forall|i: int| 0 <= i < copies@.len() ==> (#[trigger] copies@[i])@ == names@[i]@,
{
    let mut copies: Vec<String> = Vec::new();
    let mut i: usize = 0;
    while i < names.len()
        invariant
            i <= names@.len(),
            copies@.len() == i,
            forall|j: int| 0 <= j < i ==> (#[trigger] copies@[j])@ == names@[j]@,
        decreases names@.len() - i,
    {
        copies.push(names[i].clone());
        i = i + 1;
    }
    assert(texts_of(copies@) =~= texts_of(names@));
    copies
}

/// Whether the first of `models` that `id` identifies supports tools; not, where
/// there is none or where that is not known.
pub open spec fn model_supports_tools(models: Seq<Model>, id: Seq<char>) -> bool
    decreases models.len(),
{
    if models.len() == 0 {
        false
    } else if models[0].id@ == id {
        models[0].tools_supported == Some(true)
    } else {
        model_supports_tools(models.drop_first(), id)
    }
}

/// A transformation of the context before it is sent.
#[derive(Debug, Clone, Copy, PartialEq, Eq, Structural)]
pub enum Transform {
    /// Does what is done to every context.
    Default,
    /// Puts the tools into the order of the turn.
    SortTools,
    /// Turns tool calls into text.
    TransformToolCalls,
    /// Prepares images.
    ImageHandling,
    /// Drops all reasoning.
    DropReasoningDetails,
    /// Strips the reasoning of other models.
    NormalizeReasoning,
}

/// The transformations of a context, in the order in which they apply.
pub open spec fn transforms(tool_supported: bool, reasoning_supported: bool) -> Seq<Transform> {
    seq![Transform::Default, Transform::SortTools] + if tool_supported {
        Seq::empty()
    } else {
        seq![Transform::TransformToolCalls]
    } + seq![Transform::ImageHandling] + if reasoning_supported {
        Seq::empty()
    } else {
        seq![Transform::DropReasoningDetails]
    } + seq![Transform::NormalizeReasoning]
}

/// How a request is made.
#[derive(Debug, Clone)]
pub struct ChatTurn {
    /// The model that is asked.
    pub model: String,
    /// The provider that is asked.
    pub provider: String,
    /// The names of tools, in the order that the tools are put into.
    pub tool_order: Vec<String>,
    /// The transformations of the context, in the order in which they apply.
    pub transforms: Vec<Transform>,
    /// Whether tool calls are to be read out of the text of the answer.
    pub tool_calls_in_text: bool,
}

/// An orchestrator: a conversation of type `C`, and what is known of the agent
/// that leads it.
#[derive(Clone)]
pub struct Orchestrator<C> {
    conversation: C,
    tool_definitions: Vec<ToolDefinition>,
    models: Vec<Model>,
    agent: Agent,
    is_internal: bool,
}

/// What an orchestrator is made of.
pub ghost struct OrchestratorView<C> {
    /// The conversation.
    pub conversation: C,
    /// The tools of the system.
    pub tool_definitions: Seq<ToolDefinition>,
    /// The models that are known.
    pub models: Seq<Model>,
    /// The agent.
    pub agent: Agent,
    /// Whether every request of a run is an agent's, because the chat request
    /// that it comes from was internal itself.
    pub is_internal: bool,
}

impl<C> OrchestratorView<C> {
    /// Whether the agent supports tools: as it says itself, or else as its model.
    pub open spec fn supports_tools(self) -> bool {
        match self.agent.tool_supported {
            Some(supported) => supported,
            None => model_supports_tools(self.models, self.agent.model@),
        }
    }
}

impl<C> View for Orchestrator<C> {
    type V = OrchestratorView<C>;

    closed spec fn view(&self) -> OrchestratorView<C> {
        OrchestratorView {
            conversation: self.conversation,
            tool_definitions: self.tool_definitions@,
            models: self.models@,
            agent: self.agent,
            is_internal: self.is_internal,
        }
    }
}

impl<C> Orchestrator<C> {
    /// An orchestrator without tools and models, for requests that are not
    /// internal.
    pub fn new(conversation: C, agent: Agent) -> (orchestrator: Orchestrator<C>)
        ensures
            orchestrator@ == (OrchestratorView {
                conversation,
                tool_definitions: Seq::empty(),
                models: Seq::empty(),
                agent,
                is_internal: false,
            }),
    {
        Orchestrator {
            conversation,
            tool_definitions: Vec::new(),
            models: Vec::new(),
            agent,
            is_internal: false,
        }
    }

    /// The orchestrator with another conversation.
    pub fn conversation(self, conversation: C) -> (orchestrator: Orchestrator<C>)
        ensures
            orchestrator@ == (OrchestratorView { conversation, ..self@ }),
    {
        Orchestrator { conversation, ..self }
    }

    /// The orchestrator with other tools.
    pub fn tool_definitions(self, tool_definitions: Vec<ToolDefinition>) -> (orchestrator:
        Orchestrator<C>)
        ensures
            orchestrator@ == (OrchestratorView { tool_definitions: tool_definitions@, ..self@ }),
    {
        Orchestrator { tool_definitions, ..self }
    }

    /// The orchestrator with other models.
    pub fn models(self, models: Vec<Model>) -> (orchestrator: Orchestrator<C>)
        ensures
            orchestrator@ == (OrchestratorView { models: models@, ..self@ }),
    {
        Orchestrator { models, ..self }
    }

    /// The orchestrator with another agent.
    pub fn agent(self, agent: Agent) -> (orchestrator: Orchestrator<C>)
        ensures
            orchestrator@ == (OrchestratorView { agent, ..self@ }),
    {
        Orchestrator { agent, ..self }
    }

    /// The orchestrator for requests that are internal, or for such that are not.
    pub fn is_internal(self, is_internal: bool) -> (orchestrator: Orchestrator<C>)
        ensures
            orchestrator@ == (OrchestratorView { is_internal, ..self@ }),
    {
        Orchestrator { is_internal, ..self }
    }

    /// The conversation.
    pub fn get_conversation(&self) -> (conversation: &C)
        ensures
            *conversation == self@.conversation,
    {
        &self.conversation
    }

    /// Replaces the conversation.
    pub fn set_conversation(&mut self, conversation: C)
        ensures
            final(self)@ == (OrchestratorView { conversation, ..old(self)@ }),
    {
        self.conversation = conversation;
    }

    /// The agent.
    pub fn get_agent(&self) -> (agent: &Agent)
        ensures
            *agent == self@.agent,
    {
        &self.agent
    }

    /// The tools of the system.
    pub fn get_tool_definitions(&self) -> (tools: &Vec<ToolDefinition>)
        ensures
            tools@ == self@.tool_definitions,
    {
        &self.tool_definitions
    }

    /// The model that the agent asks.
    pub fn get_model(&self) -> (model: String)
        ensures
            model@ == self@.agent.model@,
    {
        self.agent.model.clone()
    }

    /// Whether every request of a run is an agent's.
    pub fn get_is_internal(&self) -> (is_internal: bool)
        ensures
            is_internal == self@.is_internal,
    {
        self.is_internal
    }

    /// Whether the agent supports tools: as it says itself, or else as the model
    /// that it asks.
    pub fn is_tool_supported(&self) -> (supported: bool)
        ensures
            supported == self@.supports_tools(),
            self@.agent.tool_supported matches Some(own) ==> supported == own,
            self@.agent.tool_supported is None ==> forall|i: int|
                is_first_model(self@.models, self@.agent.model@, i) ==> (supported <==> (
                #[trigger] self@.models[i]).tools_supported == Some(true)),
            self@.agent.tool_supported is None && supported ==> exists|i: int|
                is_first_model(self@.models, self@.agent.model@, i) && (
                #[trigger] self@.models[i]).tools_supported == Some(true),
    {
        proof {
            lemma_tools_are_decided(self@);
        }
        if let Some(supported) = self.agent.tool_supported {
            return supported;
        }
        let ghost id = self.agent.model@;
        let mut i: usize = 0;
        assert(self.models@.skip(0) =~= self.models@);
        while i < self.models.len()
            invariant
                i <= self.models@.len(),
                id == self.agent.model@,
                model_supports_tools(self.models@, id) == model_supports_tools(
                    self.models@.skip(i as int),
                    id,
                ),
                self.agent.tool_supported is None,
            decreases self.models@.len() - i,
        {
            assert(self.models@.skip(i as int)[0] == self.models@[i as int]);
            assert(self.models@.skip(i as int).drop_first() =~= self.models@.skip(i + 1));
            if self.models[i].id == self.agent.model {
                proof {
                    lemma_tools_are_decided(self@);
                }
                return match self.models[i].tools_supported {
                    Some(supported) => supported,
                    None => false,
                };
            }
            i = i + 1;
        }
        false
    }

    /// How the next request is made, where the context does or does not support
    /// reasoning: tools are put into the order of the agent, tool calls become text
    /// where tools are not supported, reasoning is dropped where it is not, and then
    /// that of other models is.
    pub fn chat_turn(&self, reasoning_supported: bool) -> (turn: ChatTurn)
        ensures
            turn.model@ == self@.agent.model@,
            turn.provider@ == self@.agent.provider@,
            texts_of(turn.tool_order@) == texts_of(self@.agent.tool_order@),
            turn.tool_order@.len() == self@.agent.tool_order@.len(),
            forall|i: int|
                0 <= i < turn.tool_order@.len() ==> (#[trigger] turn.tool_order@[i])@
                    == self@.agent.tool_order@[i]@,
            turn.transforms@ == transforms(self@.supports_tools(), reasoning_supported),
            turn.tool_calls_in_text == !self@.supports_tools(),
    {
        let tool_supported = self.is_tool_supported();
        let mut list: Vec<Transform> = Vec::new();
        list.push(Transform::Default);
        list.push(Transform::SortTools);
        if !tool_supported {
            list.push(Transform::TransformToolCalls);
        }
        list.push(Transform::ImageHandling);
        if !reasoning_supported {
            list.push(Transform::DropReasoningDetails);
        }
        list.push(Transform::NormalizeReasoning);
        assert(list@ =~= transforms(tool_supported, reasoning_supported));
        ChatTurn {
            model: self.agent.model.clone(),
            provider: self.agent.provider.clone(),
            tool_order: copy_names(&self.agent.tool_order),
            transforms: list,
            tool_calls_in_text: !tool_supported,
        }
    }
}

/// Whether model `i` is the first of `models` that `id` identifies.
pub open spec fn is_first_model(models: Seq<Model>, id: Seq<char>, i: int) -> bool {
    &&& 0 <= i < models.len()
    &&& models[i].id@ == id
    &&& forall|j: int| 0 <= j < i ==> (#[trigger] models[j]).id@ != id
}

/// **The first model with the id decides**: whatever stands behind it, tools are
/// supported exactly where it is known to support them.
pub proof fn law_first_model_decides_on_tools(models: Seq<Model>, id: Seq<char>, i: int)
    requires
        is_first_model(models, id, i),
    ensures
        model_supports_tools(models, id) <==> models[i].tools_supported == Some(true),
    decreases models.len(),
{
    if i > 0 {
        let rest = models.drop_first();
        assert(models[0].id@ != id);
        assert forall|j: int| 0 <= j < i - 1 implies (#[trigger] rest[j]).id@ != id by {
            assert(models[j + 1].id@ != id);
        }
        law_first_model_decides_on_tools(rest, id, i - 1);
    }
}

/// **An unknown model supports no tools.**
pub proof fn law_unknown_model_supports_no_tools(models: Seq<Model>, id: Seq<char>)
    requires
        forall|j: int| 0 <= j < models.len() ==> (#[trigger] models[j]).id@ != id,
    ensures
        !model_supports_tools(models, id),
    decreases models.len(),
{
    if models.len() > 0 {
        let rest = models.drop_first();
        assert(models[0].id@ != id);
        assert forall|j: int| 0 <= j < rest.len() implies (#[trigger] rest[j]).id@ != id by {
            assert(models[j + 1].id@ != id);
        }
        law_unknown_model_supports_no_tools(rest, id);
    }
}

/// **Where tools are supported, a model says so**: the first one with the id.
pub proof fn law_tools_are_supported_by_a_model(models: Seq<Model>, id: Seq<char>) -> (i: int)
    requires
        model_supports_tools(models, id),
    ensures
        is_first_model(models, id, i),
        models[i].tools_supported == Some(true),
    decreases models.len(),
{
    if models.len() == 0 {
        law_unknown_model_supports_no_tools(models, id);
        0
    } else if models[0].id@ == id {
        law_first_model_decides_on_tools(models, id, 0);
        0
    } else {
        let i = law_tools_are_supported_by_a_model(models.drop_first(), id) + 1;
        assert forall|j: int| 0 <= j < i implies (#[trigger] models[j]).id@ != id by {
            if j > 0 {
                assert(models.drop_first()[j - 1].id@ != id);
            }
        }
        i
    }
}

/// **The agent decides on tools before its model**: what it says itself counts,
/// and only where it says nothing, its model is asked.
pub proof fn law_agent_decides_on_tools_first<C>(view: OrchestratorView<C>)
    ensures
        view.agent.tool_supported matches Some(own) ==> view.supports_tools() == own,
        view.agent.tool_supported is None ==> view.supports_tools() == model_supports_tools(
            view.models,
            view.agent.model@,
        ),
{
}

proof fn lemma_tools_are_decided<C>(view: OrchestratorView<C>)
    ensures
        view.agent.tool_supported matches Some(own) ==> view.supports_tools() == own,
        view.agent.tool_supported is None ==> forall|i: int|
            is_first_model(view.models, view.agent.model@, i) ==> (view.supports_tools() <==> (
            #[trigger] view.models[i]).tools_supported == Some(true)),
        view.agent.tool_supported is None && view.supports_tools() ==> exists|i: int|
            is_first_model(view.models, view.agent.model@, i) && (
            #[trigger] view.models[i]).tools_supported == Some(true),
{
    law_agent_decides_on_tools_first(view);
    assert forall|i: int| is_first_model(view.models, view.agent.model@, i) implies (
    model_supports_tools(view.models, view.agent.model@) <==> (
    #[trigger] view.models[i]).tools_supported == Some(true)) by {
        law_first_model_decides_on_tools(view.models, view.agent.model@, i);
    }
    if model_supports_tools(view.models, view.agent.model@) {
        let i = law_tools_are_supported_by_a_model(view.models, view.agent.model@);
        assert(view.models[i].tools_supported == Some(true));
    }
}

/// **Only the first request of a user's run is the user's.**
pub proof fn law_initiator(is_internal: bool, request_count: nat)
    ensures
        initiator(is_internal, request_count) is User <==> !is_internal && request_count == 0,
{
}

/// The place of a transformation among the others.
pub open spec fn place_of(transform: Transform) -> int {
    match transform {
        Transform::Default => 0,
        Transform::SortTools => 1,
        Transform::TransformToolCalls => 2,
        Transform::ImageHandling => 3,
        Transform::DropReasoningDetails => 4,
        Transform::NormalizeReasoning => 5,
    }
}

/// **Each transformation applies exactly where it is called for, once, in its
/// place**: tool calls become text exactly where tools are not supported, reasoning
/// is dropped exactly where it is not supported, and all others always apply.
pub proof fn law_transforms_apply_where_called_for(
    tool_supported: bool,
    reasoning_supported: bool,
    transform: Transform,
)
    ensures
        transforms(tool_supported, reasoning_supported).contains(transform) <==> match transform {
            Transform::TransformToolCalls => !tool_supported,
            Transform::DropReasoningDetails => !reasoning_supported,
            _ => true,
        },
        forall|i: int, j: int|
            0 <= i < j < transforms(tool_supported, reasoning_supported).len() ==> place_of(
                #[trigger] transforms(tool_supported, reasoning_supported)[i],
            ) < place_of(#[trigger] transforms(tool_supported, reasoning_supported)[j]),
{
    let ts = transforms(tool_supported, reasoning_supported);
    let a: int = if tool_supported {
        2
    } else {
        3
    };
    let b: int = if reasoning_supported {
        a + 1
    } else {
        a + 2
    };
    assert(ts[0] == Transform::Default);
    assert(ts[1] == Transform::SortTools);
    assert(!tool_supported ==> ts[2] == Transform::TransformToolCalls);
    assert(ts[a] == Transform::ImageHandling);
    assert(!reasoning_supported ==> ts[a + 1] == Transform::DropReasoningDetails);
    assert(ts[b] == Transform::NormalizeReasoning);
    assert(ts.len() == b + 1);
}

} // verus!
