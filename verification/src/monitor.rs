//! Polling the monitoring endpoints of all servers and passing on what they answer.
use vstd::prelude::*;

use crate::state::NatsServer;

verus! {

/// A server to ask for its state.
#[derive(Debug)]
pub struct VarzRequest {
    pub server_id: i64,
    pub host: String,
    pub monitoring_port: u16,
}

/// Every server has been given its id by the store.
pub open spec fn all_stored(servers: Seq<NatsServer>) -> bool {
    forall|i: int| 0 <= i < servers.len() ==> (#[trigger] servers[i]).id is Some
}

/// The request for one stored server.
pub open spec fn varz_request(server: NatsServer) -> VarzRequest {
    VarzRequest {
        server_id: server.id->0,
        host: server.host,
        monitoring_port: server.monitoring_port,
    }
}

/// Whether every server has been given its id by the store.
pub fn have_ids(servers: &Vec<NatsServer>) -> (stored: bool)
    ensures
        stored == all_stored(servers@),
        stored <==> forall|i: int|
            0 <= i < servers@.len() ==> (#[trigger] servers@[i]).id != None::<i64>,
{
    let mut i: usize = 0;
    while i < servers.len()
        invariant
            i <= servers.len(),
            forall|j: int| 0 <= j < i ==> (#[trigger] servers@[j]).id is Some,
        decreases servers.len() - i,
    {
        if servers[i].id.is_none() {
            return false;
        }
        i = i + 1;
    }
    true
}

/// The requests of one round: one for each server, in the order of the servers.
pub fn varz_requests(servers: &Vec<NatsServer>) -> (requests: Vec<VarzRequest>)
    requires
        all_stored(servers@),
    ensures
        requests@ == servers@.map_values(|server: NatsServer| varz_request(server)),
        requests@.len() == servers@.len(),
        forall|i: int|
            0 <= i < servers@.len() ==> {
                &&& servers@[i].id == Some((#[trigger] requests@[i]).server_id)
                &&& requests@[i].host@ == servers@[i].host@
                &&& requests@[i].monitoring_port == servers@[i].monitoring_port
            },
{
    let mut requests: Vec<VarzRequest> = Vec::new();
    let mut i: usize = 0;
    while i < servers.len()
        invariant
            i <= servers.len(),
            all_stored(servers@),
            requests@ == servers@.take(i as int).map_values(
                |server: NatsServer| varz_request(server),
            ),
        decreases servers.len() - i,
    {
        let server = &servers[i];
        assert(servers@[i as int].id is Some);
        requests.push(
            VarzRequest {
                server_id: server.id.unwrap(),
                host: server.host.clone(),
                monitoring_port: server.monitoring_port,
            },
        );
        i = i + 1;
    }
    assert(servers@.take(i as int) == servers@);
    requests
}

/// How far a round of polling has come.
#[derive(Clone, Copy, Debug, PartialEq, Eq, Structural)]
pub enum PollState {
    /// Waiting for the next answer, whichever server it comes from.
    Awaiting,
    /// Passing an answer on.
    Broadcasting,
    Finished,
}

/// What happened in a round of polling.
pub enum PollEvent<M> {
    Fetched(M),
    FetchFailed,
    /// Every server has answered or failed.
    Drained,
    Broadcast,
    BroadcastFailed,
}

/// What is to be done next in a round of polling.
pub enum PollAction<M> {
    Await,
    Broadcast(M),
    Finish,
}

/// The next state and action, if the event belongs to the state: each answer is passed on, and
/// neither a failed request nor a failed broadcast ends the round.
pub open spec fn poll_step<M>(state: PollState, event: PollEvent<M>) -> Option<
    (PollState, PollAction<M>),
> {
    match (state, event) {
        (PollState::Awaiting, PollEvent::Fetched(m)) => Some(
            (PollState::Broadcasting, PollAction::Broadcast(m)),
        ),
        (PollState::Awaiting, PollEvent::FetchFailed) => Some(
            (PollState::Awaiting, PollAction::Await),
        ),
        (PollState::Awaiting, PollEvent::Drained) => Some(
            (PollState::Finished, PollAction::Finish),
        ),
        (PollState::Broadcasting, PollEvent::Broadcast) => Some(
            (PollState::Awaiting, PollAction::Await),
        ),
        (PollState::Broadcasting, PollEvent::BroadcastFailed) => Some(
            (PollState::Awaiting, PollAction::Await),
        ),
        _ => None,
    }
}

impl PollState {
    /// Takes the step that an event calls for. An event that does not belong to the state changes
    /// nothing and calls for nothing.
    pub fn next<M>(&mut self, event: PollEvent<M>) -> (action: Option<PollAction<M>>)
        ensures
            match poll_step(*old(self), event) {
                Some((state, todo)) => *final(self) == state && action == Some(todo),
                None => *final(self) == *old(self) && action is None,
            },
    {
        match (*self, event) {
            (PollState::Awaiting, PollEvent::Fetched(m)) => {
                *self = PollState::Broadcasting;
                Some(PollAction::Broadcast(m))
            },
            (PollState::Awaiting, PollEvent::FetchFailed) => Some(PollAction::Await),
            (PollState::Awaiting, PollEvent::Drained) => {
                *self = PollState::Finished;
                Some(PollAction::Finish)
            },
            (PollState::Broadcasting, PollEvent::Broadcast) => {
                *self = PollState::Awaiting;
                Some(PollAction::Await)
            },
            (PollState::Broadcasting, PollEvent::BroadcastFailed) => {
                *self = PollState::Awaiting;
                Some(PollAction::Await)
            },
            _ => None,
        }
    }
}

/// The state after a sequence of events and the actions they called for, if each event belonged to
/// the state it came in.
pub open spec fn poll_run<M>(state: PollState, events: Seq<PollEvent<M>>) -> Option<
    (PollState, Seq<PollAction<M>>),
>
    decreases events.len(),
{
    if events.len() == 0 {
        Some((state, Seq::empty()))
    } else {
        match poll_run(state, events.drop_last()) {
            Some((before, actions)) => match poll_step(before, events.last()) {
                Some((after, action)) => Some((after, actions.push(action))),
                None => None,
            },
            None => None,
        }
    }
}

/// The messages that came in.
pub open spec fn fetched<M>(events: Seq<PollEvent<M>>) -> Seq<M>
    decreases events.len(),
{
    if events.len() == 0 {
        Seq::empty()
    } else {
        match events.last() {
            PollEvent::Fetched(m) => fetched(events.drop_last()).push(m),
            _ => fetched(events.drop_last()),
        }
    }
}

/// The messages that were to be passed on.
pub open spec fn broadcast<M>(actions: Seq<PollAction<M>>) -> Seq<M>
    decreases actions.len(),
{
    if actions.len() == 0 {
        Seq::empty()
    } else {
        match actions.last() {
            PollAction::Broadcast(m) => broadcast(actions.drop_last()).push(m),
            _ => broadcast(actions.drop_last()),
        }
    }
}

/// Whether an event can be the outcome of an action: an awaited answer comes, fails, or is the last
/// to have come; a broadcast succeeds or fails.
pub open spec fn poll_outcome<M>(action: PollAction<M>, event: PollEvent<M>) -> bool {
    match action {
        PollAction::Await => event is Fetched || event is FetchFailed || event is Drained,
        PollAction::Broadcast(_) => event is Broadcast || event is BroadcastFailed,
        PollAction::Finish => false,
    }
}

/// What the events of a run call for last; awaiting an answer is what a round begins with.
pub open spec fn poll_todo<M>(events: Seq<PollEvent<M>>) -> PollAction<M>
    recommends
        poll_run(PollState::Awaiting, events) is Some,
{
    let actions = (poll_run(PollState::Awaiting, events)->0).1;
    if actions.len() == 0 {
        PollAction::Await
    } else {
        actions.last()
    }
}

proof fn lemma_poll_state_and_todo<M>(events: Seq<PollEvent<M>>)
    requires
        poll_run(PollState::Awaiting, events) is Some,
    ensures
        ({
            let (state, actions) = poll_run(PollState::Awaiting, events)->0;
            &&& actions.len() == events.len()
            &&& state is Awaiting <==> poll_todo(events) is Await
            &&& state is Broadcasting <==> poll_todo(events) is Broadcast
            &&& state is Finished <==> poll_todo(events) is Finish
        }),
    decreases events.len(),
{
    if events.len() > 0 {
        lemma_poll_state_and_todo(events.drop_last());
    }
}

/// A round takes every outcome of what it called for, whatever an answer holds, and nothing else.
/// An answer is broadcast as it came; after a failed request and after any broadcast the next
/// answer is awaited; the round finishes once all answers have come.
pub proof fn law_round_takes_every_outcome<M>(events: Seq<PollEvent<M>>, event: PollEvent<M>)
    requires
        poll_run(PollState::Awaiting, events) is Some,
    ensures
        poll_run(PollState::Awaiting, events.push(event)) is Some <==> poll_outcome(
            poll_todo(events),
            event,
        ),
        poll_outcome(poll_todo(events), event) ==> {
            let (_, actions) = poll_run(PollState::Awaiting, events)->0;
            let (_, more) = poll_run(PollState::Awaiting, events.push(event))->0;
            &&& more.len() == actions.len() + 1
            &&& more.take(actions.len() as int) == actions
            &&& event matches PollEvent::Fetched(m) ==> more.last() == PollAction::Broadcast(m)
            &&& event is FetchFailed || event is Broadcast || event is BroadcastFailed
                ==> more.last() is Await
            &&& event is Drained ==> more.last() is Finish
        },
{
    lemma_poll_state_and_todo(events);
    assert(events.push(event).drop_last() == events);
    if poll_outcome(poll_todo(events), event) {
        let (_, actions) = poll_run(PollState::Awaiting, events)->0;
        let (_, more) = poll_run(PollState::Awaiting, events.push(event))->0;
        assert(more.take(actions.len() as int) == actions);
    }
}

/// In its every state a round takes each event that fits it, whatever the event holds: a fetched
/// answer goes out as it is, and no failure keeps the round from going on.
pub proof fn law_round_makes_progress<M>(answer: M)
    ensures
        poll_step(PollState::Awaiting, PollEvent::Fetched(answer)) == Some(
            (PollState::Broadcasting, PollAction::Broadcast(answer)),
        ),
        poll_step(PollState::Awaiting, PollEvent::<M>::FetchFailed) == Some(
            (PollState::Awaiting, PollAction::<M>::Await),
        ),
        poll_step(PollState::Broadcasting, PollEvent::<M>::Broadcast) == Some(
            (PollState::Awaiting, PollAction::<M>::Await),
        ),
        poll_step(PollState::Broadcasting, PollEvent::<M>::BroadcastFailed) == Some(
            (PollState::Awaiting, PollAction::<M>::Await),
        ),
        poll_step(PollState::Awaiting, PollEvent::<M>::Drained) == Some(
            (PollState::Finished, PollAction::<M>::Finish),
        ),
{
}

/// A server that the store has given an id is asked at its own host and monitoring port, whatever
/// else is known of it, and what it answers is told under its own id.
pub proof fn law_server_is_asked_at_its_monitoring_port(server: NatsServer)
    requires
        server.id is Some,
    ensures
        Some(varz_request(server).server_id) == server.id,
        varz_request(server).host@ == server.host@,
        varz_request(server).monitoring_port == server.monitoring_port,
{
}

/// Servers can be polled exactly when each of them has an id; nothing else of them matters.
pub proof fn law_servers_with_ids_can_be_polled(servers: Seq<NatsServer>)
    ensures
        all_stored(servers) <==> forall|i: int|
            0 <= i < servers.len() ==> (#[trigger] servers[i]).id != None::<i64>,
{
}

/// A round passes on the answers that came in, each once and in the order of their coming, and
/// nothing else, whatever else fails.
pub proof fn law_round_broadcasts_what_it_fetches<M>(events: Seq<PollEvent<M>>)
    requires
        poll_run(PollState::Awaiting, events) is Some,
    ensures
        broadcast((poll_run(PollState::Awaiting, events)->0).1) == fetched(events),
    decreases events.len(),
{
    if events.len() > 0 {
        law_round_broadcasts_what_it_fetches(events.drop_last());
        let (before, actions) = poll_run(PollState::Awaiting, events.drop_last())->0;
        let action = (poll_step(before, events.last())->0).1;
        assert(actions.push(action).drop_last() == actions);
    }
}

/// A round goes on until every server has answered or failed: it finishes on that event alone, and
/// takes no event after it.
pub proof fn law_round_finishes_when_drained<M>(state: PollState, event: PollEvent<M>)
    ensures
        (poll_step(state, event) matches Some((after, _)) && after is Finished)
            <==> state is Awaiting && event is Drained,
        state is Finished ==> poll_step(state, event) is None,
{
}

} // verus!
