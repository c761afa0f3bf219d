//! Which messages of a request the provider is asked to cache.

use vstd::prelude::*;

verus! {

/// A message of a request: what it carries, of whatever type, and whether it is
/// to be cached.
#[derive(Debug, Clone)]
pub struct Message<P> {
    /// What the message carries.
    pub payload: P,
    /// Whether the message carries a cache breakpoint.
    pub cache_control: bool,
}

impl<P> Message<P> {
    /// A message without a cache breakpoint.
    pub fn new(payload: P) -> (message: Message<P>)
        ensures
            message == (Message { payload, cache_control: false }),
    {
        Message { payload, cache_control: false }
    }

    /// The message with a cache breakpoint, or without one.
    pub fn cached(self, enable: bool) -> (message: Message<P>)
        ensures
            message == (Message { cache_control: enable, ..self }),
    {
        Message { cache_control: enable, ..self }
    }

    /// Whether the message carries a cache breakpoint.
    pub fn is_cached(&self) -> (yes: bool)
        ensures
            yes == self.cache_control,
    {
        self.cache_control
    }
}

/// A request to the provider, with system messages that carry an `S` and messages
/// of the conversation that carry a `P`.
#[derive(Debug, Clone)]
pub struct Request<S, P> {
    /// The system messages, if there are any.
    pub system: Option<Vec<Message<S>>>,
    /// The messages of the conversation.
    pub messages: Vec<Message<P>>,
}

impl<S, P> Request<S, P> {
    /// The system messages; none where the request has no list of them.
    pub open spec fn system_messages(self) -> Seq<Message<S>> {
        match self.system {
            Some(messages) => messages@,
            None => Seq::empty(),
        }
    }

    /// The messages of the conversation.
    pub fn get_messages(&self) -> (messages: &Vec<Message<P>>)
        ensures
            messages == self.messages,
    {
        &self.messages
    }
}

/// The system messages with the cache breakpoint: the first carries it.
pub open spec fn cached_system<S>(messages: Seq<Message<S>>) -> Seq<Message<S>> {
    Seq::new(
        messages.len(),
        |i: int|
            Message {
                cache_control: if i == 0 {
                    true
                } else {
                    messages[i].cache_control
                },
                ..messages[i]
            },
    )
}

/// Whether message `i` of `len` carries a cache breakpoint, where it did or did
/// not `before`: the last one does, and the first one where there is no system
/// message to carry it; else the second-to-last one does not.
pub open spec fn is_breakpoint(i: int, len: int, has_system: bool, before: bool) -> bool {
    if i == len - 1 || (i == 0 && !has_system) {
        true
    } else if i == len - 2 {
        false
    } else {
        before
    }
}

/// The messages of the conversation with the cache breakpoints.
pub open spec fn cached_messages<P>(messages: Seq<Message<P>>, has_system: bool) -> Seq<
    Message<P>,
> {
    Seq::new(
        messages.len(),
        |i: int|
            Message {
                cache_control: is_breakpoint(
                    i,
                    messages.len() as int,
                    has_system,
                    messages[i].cache_control,
                ),
                ..messages[i]
            },
    )
}

/// Sets the cache breakpoints of a request: one on what stays the same from
/// request to request, one on what is newest.
///
/// 1. The first system message is cached, as it should be static; without system
///    messages the first message of the conversation is.
/// 2. The last message of the conversation is cached.
/// 3. The second-to-last message is not, unless it is that first message.
pub struct SetCache;

impl SetCache {
    /// The request with its cache breakpoints set.
    pub fn transform<S, P>(&mut self, request: Request<S, P>) -> (result: Request<S, P>)
        ensures
            result.system is Some <==> request.system is Some,
            result.system_messages() == cached_system(request.system_messages()),
            result.messages@ == cached_messages(
                request.messages@,
                request.system_messages().len() > 0,
            ),
            result.messages@.len() == request.messages@.len(),
            result.system_messages().len() == request.system_messages().len(),
            result.messages@.len() > 0 ==> result.messages@.last().cache_control,
            result.system_messages().len() > 0 ==> result.system_messages()[0].cache_control,
            result.messages@.len() > 0 && request.system_messages().len() == 0
                ==> result.messages@[0].cache_control,
            forall|i: int|
                0 <= i < result.messages@.len() ==> (#[trigger] result.messages@[i]).payload
                    == request.messages@[i].payload,
            forall|i: int|
                0 < i < result.messages@.len() - 2 ==> #[trigger] result.messages@[i]
                    == request.messages@[i],
    {
        let Request { system, messages } = request;
        let mut system = system;
        let mut messages = messages;
        let mut has_system = false;
        if let Some(list) = system {
            let mut list = list;
            if list.len() > 0 {
                has_system = true;
                list[0].cache_control = true;
            }
            assert(list@ =~= cached_system(request.system_messages()));
            system = Some(list);
        }
        let len = messages.len();
        if len >= 2 {
            set_cached(&mut messages, len - 2, false);
        }
        if len >= 1 {
            if !has_system {
                set_cached(&mut messages, 0, true);
            }
            set_cached(&mut messages, len - 1, true);
        }
        assert(messages@ =~= cached_messages(
            request.messages@,
            request.system_messages().len() > 0,
        ));
        let result = Request { system, messages };
        assert(result.system_messages() =~= cached_system(request.system_messages()));
        result
    }
}

/// Gives message `i` a cache breakpoint, or takes it away.
fn set_cached<P>(messages: &mut Vec<Message<P>>, i: usize, enable: bool)
    requires
        i < old(messages)@.len(),
    ensures
        final(messages)@ == old(messages)@.update(
            i as int,
            Message { cache_control: enable, ..old(messages)@[i as int] },
        ),
{
    messages[i].cache_control = enable;
}

/// Whether exactly the two breakpoints are set among the messages: the last one
/// carries one, and the first one where there is no system message to carry it.
pub open spec fn has_only_breakpoints<P>(messages: Seq<Message<P>>, has_system: bool) -> bool {
    forall|i: int|
        0 <= i < messages.len() ==> (#[trigger] messages[i].cache_control <==> i == messages.len()
            - 1 || (i == 0 && !has_system))
}

/// **A second pass changes nothing**: setting the breakpoints of a request whose
/// breakpoints are set leaves it as it is.
pub proof fn law_setting_twice_is_setting_once<S, P>(
    system: Seq<Message<S>>,
    messages: Seq<Message<P>>,
    has_system: bool,
)
    ensures
        cached_system(cached_system(system)) == cached_system(system),
        cached_messages(cached_messages(messages, has_system), has_system) == cached_messages(
            messages,
            has_system,
        ),
{
    assert(cached_system(cached_system(system)) =~= cached_system(system));
    assert(cached_messages(cached_messages(messages, has_system), has_system) =~= cached_messages(
        messages,
        has_system,
    ));
}

/// **Only breakpoints change**: there are as many messages as before, in the
/// same order, and each carries what it did.
pub proof fn law_messages_stay<S, P>(
    system: Seq<Message<S>>,
    messages: Seq<Message<P>>,
    has_system: bool,
)
    ensures
        cached_system(system).len() == system.len(),
        cached_messages(messages, has_system).len() == messages.len(),
        forall|i: int|
            0 <= i < system.len() ==> (#[trigger] cached_system(system)[i]).payload
                == system[i].payload,
        forall|i: int|
            0 <= i < messages.len() ==> (#[trigger] cached_messages(
                messages,
                has_system,
            )[i]).payload == messages[i].payload,
{
}

/// **There are two breakpoints**: a request without any has, afterwards, one on
/// its first system message, or on its first message where it has none, and one
/// on its last message.
pub proof fn law_fresh_request_has_only_breakpoints<S, P>(
    system: Seq<Message<S>>,
    messages: Seq<Message<P>>,
)
    requires
        forall|i: int| 0 <= i < system.len() ==> !(#[trigger] system[i]).cache_control,
        forall|i: int| 0 <= i < messages.len() ==> !(#[trigger] messages[i]).cache_control,
    ensures
        has_only_breakpoints(cached_messages(messages, system.len() > 0), system.len() > 0),
        forall|i: int|
            0 <= i < system.len() ==> (#[trigger] cached_system(system)[i].cache_control <==> i
                == 0),
{
}

/// **There stay two breakpoints as the conversation grows**: where exactly the
/// breakpoints are set, a message is put behind the others, and they are set
/// anew, exactly the breakpoints are set again.
pub proof fn law_growing_conversation_has_only_breakpoints<P>(
    messages: Seq<Message<P>>,
    next: Message<P>,
    has_system: bool,
)
    requires
        has_only_breakpoints(messages, has_system),
    ensures
        has_only_breakpoints(cached_messages(messages.push(next), has_system), has_system),
{
    let grown = messages.push(next);
    assert forall|i: int| 0 <= i < grown.len() - 1 implies (#[trigger] grown[i]).cache_control
        == messages[i].cache_control by {}
}

/// **Breakpoints stand where they are to stand, and others stay**: the first system
/// message carries one, and all others carry one as they did; of the messages the
/// last one does, and the first one where there is no system message; else the
/// second-to-last one does not; and all others do as they did.
pub proof fn law_breakpoints_stand_where_they_should<S, P>(
    system: Seq<Message<S>>,
    messages: Seq<Message<P>>,
    has_system: bool,
    i: int,
)
    ensures
        system.len() > 0 ==> cached_system(system)[0].cache_control,
        0 < i < system.len() ==> cached_system(system)[i] == system[i],
        messages.len() > 0 ==> cached_messages(messages, has_system).last().cache_control,
        messages.len() > 0 && !has_system ==> cached_messages(
            messages,
            has_system,
        )[0].cache_control,
        messages.len() > 2 || (messages.len() == 2 && has_system) ==> !cached_messages(
            messages,
            has_system,
        )[messages.len() - 2].cache_control,
        0 <= i < messages.len() - 2 && (i > 0 || has_system) ==> cached_messages(
            messages,
            has_system,
        )[i] == messages[i],
{
}

/// **The system messages of a request are those of its list**, and none where it has
/// no list.
pub proof fn law_system_messages_are_those_of_the_list<S, P>(request: Request<S, P>)
    ensures
        request.system matches Some(list) ==> request.system_messages() == list@,
        request.system is None ==> request.system_messages().len() == 0,
{
}

} // verus!
