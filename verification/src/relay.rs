//! Relaying the state of the servers to one web client.
use vstd::prelude::*;

verus! {

/// How far the relay to a web client has come.
#[derive(Clone, Copy, Debug, PartialEq, Eq, Structural)]
pub enum RelayState {
    /// Waiting for the next update.
    Receiving,
    /// Turning an update into text.
    Serializing,
    /// Sending the text to the client.
    Sending,
    Ended,
}

/// What happened in a relay.
pub enum RelayEvent {
    Received,
    /// No further update comes, or the relay fell behind and lost some.
    ReceiveFailed,
    Serialized(String),
    SerializeFailed,
    Sent,
    SendFailed,
}

/// What is to be done next in a relay.
pub enum RelayAction {
    Receive,
    Serialize,
    Send(String),
    Stop,
}

/// The next state and action, if the event belongs to the state: an update that cannot be turned
/// into text is skipped; a failed receipt or a failed send ends the relay.
pub open spec fn relay_step(state: RelayState, event: RelayEvent) -> Option<
    (RelayState, RelayAction),
> {
    match (state, event) {
        (RelayState::Receiving, RelayEvent::Received) => Some(
            (RelayState::Serializing, RelayAction::Serialize),
        ),
        (RelayState::Receiving, RelayEvent::ReceiveFailed) => Some(
            (RelayState::Ended, RelayAction::Stop),
        ),
        (RelayState::Serializing, RelayEvent::Serialized(text)) => Some(
            (RelayState::Sending, RelayAction::Send(text)),
        ),
        (RelayState::Serializing, RelayEvent::SerializeFailed) => Some(
            (RelayState::Receiving, RelayAction::Receive),
        ),
        (RelayState::Sending, RelayEvent::Sent) => Some(
            (RelayState::Receiving, RelayAction::Receive),
        ),
        (RelayState::Sending, RelayEvent::SendFailed) => Some(
            (RelayState::Ended, RelayAction::Stop),
        ),
        _ => None,
    }
}

impl RelayState {
    /// Takes the step that an event calls for. An event that does not belong to the state changes
    /// nothing and calls for nothing.
    pub fn next(&mut self, event: RelayEvent) -> (action: Option<RelayAction>)
        ensures
            match relay_step(*old(self), event) {
                Some((state, todo)) => *final(self) == state && action == Some(todo),
                None => *final(self) == *old(self) && action is None,
            },
    {
        match (*self, event) {
            (RelayState::Receiving, RelayEvent::Received) => {
                *self = RelayState::Serializing;
                Some(RelayAction::Serialize)
            },
            (RelayState::Receiving, RelayEvent::ReceiveFailed) => {
                *self = RelayState::Ended;
                Some(RelayAction::Stop)
            },
            (RelayState::Serializing, RelayEvent::Serialized(text)) => {
                *self = RelayState::Sending;
                Some(RelayAction::Send(text))
            },
            (RelayState::Serializing, RelayEvent::SerializeFailed) => {
                *self = RelayState::Receiving;
                Some(RelayAction::Receive)
            },
            (RelayState::Sending, RelayEvent::Sent) => {
                *self = RelayState::Receiving;
                Some(RelayAction::Receive)
            },
            (RelayState::Sending, RelayEvent::SendFailed) => {
                *self = RelayState::Ended;
                Some(RelayAction::Stop)
            },
            _ => None,
        }
    }
}

/// The state after a sequence of events and the actions they called for, if each event belonged to
/// the state it came in.
pub open spec fn relay_run(state: RelayState, events: Seq<RelayEvent>) -> Option<
    (RelayState, Seq<RelayAction>),
>
    decreases events.len(),
{
    if events.len() == 0 {
        Some((state, Seq::empty()))
    } else {
        match relay_run(state, events.drop_last()) {
            Some((before, actions)) => match relay_step(before, events.last()) {
                Some((after, action)) => Some((after, actions.push(action))),
                None => None,
            },
            None => None,
        }
    }
}

/// The texts that updates were turned into.
pub open spec fn serialized(events: Seq<RelayEvent>) -> Seq<String>
    decreases events.len(),
{
    if events.len() == 0 {
        Seq::empty()
    } else {
        match events.last() {
            RelayEvent::Serialized(text) => serialized(events.drop_last()).push(text),
            _ => serialized(events.drop_last()),
        }
    }
}

/// The texts that were to be sent.
pub open spec fn sent(actions: Seq<RelayAction>) -> Seq<String>
    decreases actions.len(),
{
    if actions.len() == 0 {
        Seq::empty()
    } else {
        match actions.last() {
            RelayAction::Send(text) => sent(actions.drop_last()).push(text),
            _ => sent(actions.drop_last()),
        }
    }
}

/// Whether an event can be the outcome of an action: each action succeeds or fails.
pub open spec fn relay_outcome(action: RelayAction, event: RelayEvent) -> bool {
    match action {
        RelayAction::Receive => event is Received || event is ReceiveFailed,
        RelayAction::Serialize => event is Serialized || event is SerializeFailed,
        RelayAction::Send(_) => event is Sent || event is SendFailed,
        RelayAction::Stop => false,
    }
}

/// What the events of a run call for last; receiving an update is what a relay begins with.
pub open spec fn relay_todo(events: Seq<RelayEvent>) -> RelayAction
    recommends
        relay_run(RelayState::Receiving, events) is Some,
{
    let actions = (relay_run(RelayState::Receiving, events)->0).1;
    if actions.len() == 0 {
        RelayAction::Receive
    } else {
        actions.last()
    }
}

proof fn lemma_relay_state_and_todo(events: Seq<RelayEvent>)
    requires
        relay_run(RelayState::Receiving, events) is Some,
    ensures
        ({
            let (state, actions) = relay_run(RelayState::Receiving, events)->0;
            &&& actions.len() == events.len()
            &&& state is Receiving <==> relay_todo(events) is Receive
            &&& state is Serializing <==> relay_todo(events) is Serialize
            &&& state is Sending <==> relay_todo(events) is Send
            &&& state is Ended <==> relay_todo(events) is Stop
        }),
    decreases events.len(),
{
    if events.len() > 0 {
        lemma_relay_state_and_todo(events.drop_last());
    }
}

/// A relay takes every outcome of what it called for, whatever a text holds, and nothing else. An
/// update is turned into text, a text is sent as it is, after a text that was sent or could not be
/// made the next update is received, and the relay stops once nothing is received or sent.
pub proof fn law_relay_takes_every_outcome(events: Seq<RelayEvent>, event: RelayEvent)
    requires
        relay_run(RelayState::Receiving, events) is Some,
    ensures
        relay_run(RelayState::Receiving, events.push(event)) is Some <==> relay_outcome(
            relay_todo(events),
            event,
        ),
        relay_outcome(relay_todo(events), event) ==> {
            let (_, actions) = relay_run(RelayState::Receiving, events)->0;
            let (_, more) = relay_run(RelayState::Receiving, events.push(event))->0;
            &&& more.len() == actions.len() + 1
            &&& more.take(actions.len() as int) == actions
            &&& event is Received ==> more.last() is Serialize
            &&& event matches RelayEvent::Serialized(text) ==> more.last() == RelayAction::Send(
                text,
            )
            &&& event is SerializeFailed || event is Sent ==> more.last() is Receive
            &&& event is ReceiveFailed || event is SendFailed ==> more.last() is Stop
        },
{
    lemma_relay_state_and_todo(events);
    assert(events.push(event).drop_last() == events);
    if relay_outcome(relay_todo(events), event) {
        let (_, actions) = relay_run(RelayState::Receiving, events)->0;
        let (_, more) = relay_run(RelayState::Receiving, events.push(event))->0;
        assert(more.take(actions.len() as int) == actions);
    }
}

/// A relay takes each event that fits its state: every text, whatever it holds, is sent as it is,
/// and an update that was sent or skipped is followed by the next.
pub proof fn law_relay_makes_progress(text: String)
    ensures
        relay_step(RelayState::Receiving, RelayEvent::Received) == Some(
            (RelayState::Serializing, RelayAction::Serialize),
        ),
        relay_step(RelayState::Serializing, RelayEvent::Serialized(text)) == Some(
            (RelayState::Sending, RelayAction::Send(text)),
        ),
        relay_step(RelayState::Serializing, RelayEvent::SerializeFailed) == Some(
            (RelayState::Receiving, RelayAction::Receive),
        ),
        relay_step(RelayState::Sending, RelayEvent::Sent) == Some(
            (RelayState::Receiving, RelayAction::Receive),
        ),
        relay_step(RelayState::Receiving, RelayEvent::ReceiveFailed) == Some(
            (RelayState::Ended, RelayAction::Stop),
        ),
        relay_step(RelayState::Sending, RelayEvent::SendFailed) == Some(
            (RelayState::Ended, RelayAction::Stop),
        ),
{
}

/// A relay sends the texts of the updates, each once and in the order of their coming, and nothing
/// else.
pub proof fn law_relay_sends_every_text(events: Seq<RelayEvent>)
    requires
        relay_run(RelayState::Receiving, events) is Some,
    ensures
        sent((relay_run(RelayState::Receiving, events)->0).1) == serialized(events),
    decreases events.len(),
{
    if events.len() > 0 {
        law_relay_sends_every_text(events.drop_last());
        let (before, actions) = relay_run(RelayState::Receiving, events.drop_last())->0;
        let action = (relay_step(before, events.last())->0).1;
        assert(actions.push(action).drop_last() == actions);
    }
}

/// A relay ends, and stops, when an update cannot be received or a text cannot be sent, on nothing
/// else, and for good.
pub proof fn law_relay_ends_on_lost_connection(state: RelayState, event: RelayEvent)
    ensures
        ({
            let step = relay_step(state, event);
            let lost = {
                ||| state is Receiving && event is ReceiveFailed
                ||| state is Sending && event is SendFailed
            };
            &&& (step matches Some((after, _)) && after is Ended) <==> lost
            &&& (step matches Some((_, action)) && action is Stop) <==> lost
            &&& state is Ended ==> step is None
        }),
{
}

} // verus!
