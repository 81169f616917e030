//! A web client listening to the subjects of a NATS server.
use vstd::prelude::*;

use crate::address::{host_port, server_address};
use crate::error::ServerError;
use crate::message::SocketMessage;
use crate::subject::SubjectTreeNode;
use crate::subject::{forest, forest_subjects, texts};

verus! {

/// How far a session has come.
#[derive(Clone, Copy, Debug, PartialEq, Eq, Structural)]
pub enum SessionState {
    /// The web client is not connected yet.
    Idle,
    /// Connecting to the NATS server.
    Connecting,
    /// Subscribing to the subject at this place in the list.
    Subscribing { at: usize },
    /// Waiting for a message on any of the subscriptions.
    Listening,
    /// Sending a message on to the web client.
    Sending,
    Ended,
}

/// What happened in a session.
pub enum SessionEvent {
    /// The web client is connected.
    Opened,
    Connected,
    ConnectFailed,
    Subscribed,
    SubscribeFailed,
    Received(SocketMessage),
    /// No subscription has anything more to come.
    StreamEnded,
    Sent,
    SendFailed,
}

/// What is to be done next in a session.
pub enum SessionAction {
    /// Connect to the server at `dest`, with the token where there is one.
    Connect { dest: String, token: Option<String> },
    Subscribe(String),
    Listen,
    Send(SocketMessage),
    Stop,
}

/// A session of a web client.
pub struct ClientSession {
    pub dest: String,
    pub token: Option<String>,
    pub subjects: Vec<String>,
    pub state: SessionState,
}

/// Subscribing to the subject at place `at`, or listening where there is no such subject.
pub open spec fn subscribe_from(subjects: Seq<String>, at: int) -> (SessionState, SessionAction) {
    if at < subjects.len() {
        (SessionState::Subscribing { at: at as usize }, SessionAction::Subscribe(subjects[at]))
    } else {
        (SessionState::Listening, SessionAction::Listen)
    }
}

/// The next state and action, if the event belongs to the state. A failed connection ends the
/// session; a failed subscription is passed over; each message is sent on; a failed send and the
/// end of all subscriptions end the session.
pub open spec fn session_step(
    dest: String,
    token: Option<String>,
    subjects: Seq<String>,
    state: SessionState,
    event: SessionEvent,
) -> Option<(SessionState, SessionAction)> {
    match (state, event) {
        (SessionState::Idle, SessionEvent::Opened) => Some(
            (SessionState::Connecting, SessionAction::Connect { dest, token }),
        ),
        (SessionState::Connecting, SessionEvent::Connected) => Some(subscribe_from(subjects, 0)),
        (SessionState::Connecting, SessionEvent::ConnectFailed) => Some(
            (SessionState::Ended, SessionAction::Stop),
        ),
        (SessionState::Subscribing { at }, SessionEvent::Subscribed) => Some(
            subscribe_from(subjects, at + 1),
        ),
        (SessionState::Subscribing { at }, SessionEvent::SubscribeFailed) => Some(
            subscribe_from(subjects, at + 1),
        ),
        (SessionState::Listening, SessionEvent::Received(message)) => Some(
            (SessionState::Sending, SessionAction::Send(message)),
        ),
        (SessionState::Listening, SessionEvent::StreamEnded) => Some(
            (SessionState::Ended, SessionAction::Stop),
        ),
        (SessionState::Sending, SessionEvent::Sent) => Some(
            (SessionState::Listening, SessionAction::Listen),
        ),
        (SessionState::Sending, SessionEvent::SendFailed) => Some(
            (SessionState::Ended, SessionAction::Stop),
        ),
        _ => None,
    }
}

impl ClientSession {
    /// A session that is yet to be opened.
    pub fn new(dest: String, subjects: Vec<String>, token: Option<String>) -> (session: Self)
        ensures
            session.dest == dest,
            session.subjects == subjects,
            session.token == token,
            session.state == SessionState::Idle,
    {
        ClientSession { dest, token, subjects, state: SessionState::Idle }
    }

    fn subscribe(&mut self, at: usize) -> (action: SessionAction)
        ensures
            (final(self).state, action) == subscribe_from(old(self).subjects@, at as int),
            final(self).dest == old(self).dest,
            final(self).token == old(self).token,
            final(self).subjects == old(self).subjects,
    {
        if at < self.subjects.len() {
            self.state = SessionState::Subscribing { at };
            SessionAction::Subscribe(self.subjects[at].clone())
        } else {
            self.state = SessionState::Listening;
            SessionAction::Listen
        }
    }

    /// Takes the step that an event calls for. An event that does not belong to the state changes
    /// nothing and calls for nothing.
    pub fn next(&mut self, event: SessionEvent) -> (action: Option<SessionAction>)
        ensures
            final(self).dest == old(self).dest,
            final(self).token == old(self).token,
            final(self).subjects == old(self).subjects,
            match session_step(
                old(self).dest,
                old(self).token,
                old(self).subjects@,
                old(self).state,
                event,
            ) {
                Some((state, todo)) => final(self).state == state && action == Some(todo),
                None => final(self).state == old(self).state && action is None,
            },
    {
        match (self.state, event) {
            (SessionState::Idle, SessionEvent::Opened) => {
                self.state = SessionState::Connecting;
                let token = match &self.token {
                    Some(token) => Some(token.clone()),
                    None => None,
                };
                Some(SessionAction::Connect { dest: self.dest.clone(), token })
            },
            (SessionState::Connecting, SessionEvent::Connected) => Some(self.subscribe(0)),
            (SessionState::Connecting, SessionEvent::ConnectFailed) => {
                self.state = SessionState::Ended;
                Some(SessionAction::Stop)
            },
            (SessionState::Subscribing { at }, SessionEvent::Subscribed) => {
                let next: usize = if at < self.subjects.len() {
                    at + 1
                } else {
                    at
                };
                Some(self.subscribe(next))
            },
            (SessionState::Subscribing { at }, SessionEvent::SubscribeFailed) => {
                let next: usize = if at < self.subjects.len() {
                    at + 1
                } else {
                    at
                };
                Some(self.subscribe(next))
            },
            (SessionState::Listening, SessionEvent::Received(message)) => {
                self.state = SessionState::Sending;
                Some(SessionAction::Send(message))
            },
            (SessionState::Listening, SessionEvent::StreamEnded) => {
                self.state = SessionState::Ended;
                Some(SessionAction::Stop)
            },
            (SessionState::Sending, SessionEvent::Sent) => {
                self.state = SessionState::Listening;
                Some(SessionAction::Listen)
            },
            (SessionState::Sending, SessionEvent::SendFailed) => {
                self.state = SessionState::Ended;
                Some(SessionAction::Stop)
            },
            _ => None,
        }
    }
}

/// All subjects of a list of trees, tree by tree.
pub fn subscribed_subjects(nodes: &Vec<SubjectTreeNode>) -> (subjects: Vec<String>)
    ensures
        texts(subjects@) == forest_subjects(forest(nodes@)),
{
    let mut subjects: Vec<String> = Vec::new();
    let mut i: usize = 0;
    while i < nodes.len()
        invariant
            i <= nodes.len(),
            texts(subjects@) == forest_subjects(forest(nodes@).take(i as int)),
        decreases nodes.len() - i,
    {
        let mut below = nodes[i].flatten();
        proof {
            let trees = forest(nodes@);
            assert(trees.take(i + 1).drop_last() == trees.take(i as int));
            assert(trees.take(i + 1).last() == nodes@[i as int]@);
            assert(texts(subjects@ + below@) == texts(subjects@) + texts(below@));
        }
        subjects.append(&mut below);
        i = i + 1;
    }
    assert(forest(nodes@).take(i as int) == forest(nodes@));
    subjects
}

/// What the store holds of a client that wants to listen.
pub struct Connection {
    pub hostname: String,
    pub port: u16,
    pub subjects: Vec<SubjectTreeNode>,
    pub token: Option<String>,
}

/// The session of a client that asks to listen: to all subjects stored for it, at the address of
/// its server. Where the store does not give them, its error is rejected to the client.
pub fn session_for_client<E>(found: Result<Connection, E>) -> (session: Result<
    ClientSession,
    ServerError<E>,
>)
    ensures
        match found {
            Ok(connection) => {
                &&& session matches Ok(s)
                &&& s.dest@ == host_port(connection.hostname@, connection.port as nat)
                &&& texts(s.subjects@) == forest_subjects(forest(connection.subjects@))
                &&& s.token == connection.token
                &&& s.state == SessionState::Idle
            },
            Err(error) => session == Err::<ClientSession, ServerError<E>>(ServerError { error }),
        },
{
    match found {
        Ok(connection) => {
            let dest = server_address(connection.hostname.as_str(), connection.port);
            let subjects = subscribed_subjects(&connection.subjects);
            Ok(ClientSession::new(dest, subjects, connection.token))
        },
        Err(e) => Err(ServerError::from(e)),
    }
}

/// The state after a sequence of events and the actions they called for, if each event belonged to
/// the state it came in.
pub open spec fn session_run(
    dest: String,
    token: Option<String>,
    subjects: Seq<String>,
    events: Seq<SessionEvent>,
) -> Option<(SessionState, Seq<SessionAction>)>
    decreases events.len(),
{
    if events.len() == 0 {
        Some((SessionState::Idle, Seq::empty()))
    } else {
        match session_run(dest, token, subjects, events.drop_last()) {
            Some((before, actions)) => match session_step(
                dest,
                token,
                subjects,
                before,
                events.last(),
            ) {
                Some((after, action)) => Some((after, actions.push(action))),
                None => None,
            },
            None => None,
        }
    }
}

/// The messages that came in.
pub open spec fn received(events: Seq<SessionEvent>) -> Seq<SocketMessage>
    decreases events.len(),
{
    if events.len() == 0 {
        Seq::empty()
    } else {
        match events.last() {
            SessionEvent::Received(message) => received(events.drop_last()).push(message),
            _ => received(events.drop_last()),
        }
    }
}

/// The messages that were to be sent on.
pub open spec fn forwarded(actions: Seq<SessionAction>) -> Seq<SocketMessage>
    decreases actions.len(),
{
    if actions.len() == 0 {
        Seq::empty()
    } else {
        match actions.last() {
            SessionAction::Send(message) => forwarded(actions.drop_last()).push(message),
            _ => forwarded(actions.drop_last()),
        }
    }
}

/// The subjects that were to be subscribed to.
pub open spec fn asked(actions: Seq<SessionAction>) -> Seq<String>
    decreases actions.len(),
{
    if actions.len() == 0 {
        Seq::empty()
    } else {
        match actions.last() {
            SessionAction::Subscribe(subject) => asked(actions.drop_last()).push(subject),
            _ => asked(actions.drop_last()),
        }
    }
}

/// Whether an event can be the outcome of an action: connecting, subscribing and sending succeed or
/// fail; listening gives a message or comes to an end.
pub open spec fn session_outcome(action: SessionAction, event: SessionEvent) -> bool {
    match action {
        SessionAction::Connect { .. } => event is Connected || event is ConnectFailed,
        SessionAction::Subscribe(_) => event is Subscribed || event is SubscribeFailed,
        SessionAction::Listen => event is Received || event is StreamEnded,
        SessionAction::Send(_) => event is Sent || event is SendFailed,
        SessionAction::Stop => false,
    }
}

/// The action that is right after an event, where `count` subjects have been asked for: a
/// connection and each attempt to subscribe lead to the next subject, or to listening once there is
/// none left.
pub open spec fn right_action(
    dest: String,
    token: Option<String>,
    subjects: Seq<String>,
    count: nat,
    event: SessionEvent,
    action: SessionAction,
) -> bool {
    &&& event is Opened ==> (action matches SessionAction::Connect { dest: to, token: with } && to
        == dest && with == token)
    &&& event is Connected || event is Subscribed || event is SubscribeFailed ==> {
        &&& count < subjects.len() ==> (action matches SessionAction::Subscribe(subject) && subject
            == subjects[count as int])
        &&& count >= subjects.len() ==> action is Listen
    }
    &&& event matches SessionEvent::Received(message) ==> (action matches SessionAction::Send(
        sent,
    ) && sent == message)
    &&& event is Sent ==> action is Listen
    &&& event is ConnectFailed || event is StreamEnded || event is SendFailed ==> action is Stop
}

proof fn lemma_session_state_and_todo(
    dest: String,
    token: Option<String>,
    subjects: Seq<String>,
    events: Seq<SessionEvent>,
)
    requires
        session_run(dest, token, subjects, events) is Some,
        events.len() > 0,
    ensures
        ({
            let (state, actions) = session_run(dest, token, subjects, events)->0;
            &&& actions.len() == events.len()
            &&& !(state is Idle)
            &&& state is Connecting <==> actions.last() is Connect
            &&& state is Subscribing <==> actions.last() is Subscribe
            &&& state is Listening <==> actions.last() is Listen
            &&& state is Sending <==> actions.last() is Send
            &&& state is Ended <==> actions.last() is Stop
        }),
    decreases events.len(),
{
    if events.len() > 1 {
        lemma_session_state_and_todo(dest, token, subjects, events.drop_last());
    } else {
        assert(session_run(dest, token, subjects, events.drop_last()) == Some(
            (SessionState::Idle, Seq::<SessionAction>::empty()),
        ));
    }
}

/// A session begins when the web client is connected, and then takes every outcome of what it
/// called for, whatever a message holds, and nothing else. Each outcome leads to the right action.
pub proof fn law_session_takes_every_outcome(
    dest: String,
    token: Option<String>,
    subjects: Seq<String>,
    events: Seq<SessionEvent>,
    event: SessionEvent,
)
    requires
        subjects.len() <= usize::MAX,
        session_run(dest, token, subjects, events) is Some,
    ensures
        ({
            let (_, actions) = session_run(dest, token, subjects, events)->0;
            let fits = if actions.len() == 0 {
                event is Opened
            } else {
                session_outcome(actions.last(), event)
            };
            &&& session_run(dest, token, subjects, events.push(event)) is Some <==> fits
            &&& fits ==> {
                let (_, more) = session_run(dest, token, subjects, events.push(event))->0;
                &&& more.len() == actions.len() + 1
                &&& more.take(actions.len() as int) == actions
                &&& right_action(dest, token, subjects, asked(actions).len(), event, more.last())
            }
        }),
{
    let (state, actions) = session_run(dest, token, subjects, events)->0;
    law_session_connects_once(dest, token, subjects, events);
    law_session_asks_for_every_subject(dest, token, subjects, events);
    if events.len() > 0 {
        lemma_session_state_and_todo(dest, token, subjects, events);
    }
    assert(events.push(event).drop_last() == events);
    if session_run(dest, token, subjects, events.push(event)) is Some {
        let (_, more) = session_run(dest, token, subjects, events.push(event))->0;
        assert(more.take(actions.len() as int) == actions);
    }
}

/// A listening session takes every message, whatever it holds, and sends it on as it is; what was
/// sent is followed by listening again.
pub proof fn law_session_forwards_whatever_it_receives(
    dest: String,
    token: Option<String>,
    subjects: Seq<String>,
    message: SocketMessage,
)
    ensures
        session_step(
            dest,
            token,
            subjects,
            SessionState::Listening,
            SessionEvent::Received(message),
        ) == Some((SessionState::Sending, SessionAction::Send(message))),
        session_step(dest, token, subjects, SessionState::Sending, SessionEvent::Sent) == Some(
            (SessionState::Listening, SessionAction::Listen),
        ),
{
}

/// An opened session connects to its own address with its own token, whatever they are. Once it is
/// connected, and after each attempt to subscribe, it goes on with the next subject, and listens
/// when it has been through all of them.
pub proof fn law_session_goes_through_its_subjects(
    dest: String,
    token: Option<String>,
    subjects: Seq<String>,
    at: usize,
)
    ensures
        session_step(dest, token, subjects, SessionState::Idle, SessionEvent::Opened) == Some(
            (SessionState::Connecting, SessionAction::Connect { dest, token }),
        ),
        ({
            let first = session_step(
                dest,
                token,
                subjects,
                SessionState::Connecting,
                SessionEvent::Connected,
            );
            &&& subjects.len() == 0 ==> first == Some(
                (SessionState::Listening, SessionAction::Listen),
            )
            &&& subjects.len() > 0 ==> first == Some(
                (SessionState::Subscribing { at: 0 }, SessionAction::Subscribe(subjects[0])),
            )
        }),
        ({
            let next = session_step(
                dest,
                token,
                subjects,
                SessionState::Subscribing { at },
                SessionEvent::Subscribed,
            );
            &&& at + 1 >= subjects.len() ==> next == Some(
                (SessionState::Listening, SessionAction::Listen),
            )
            &&& at + 1 < subjects.len() <= usize::MAX ==> next == Some(
                (
                    SessionState::Subscribing { at: (at + 1) as usize },
                    SessionAction::Subscribe(subjects[at + 1]),
                ),
            )
        }),
{
}

/// A session sends on the messages that it receives, each once and in the order of their coming,
/// and nothing else.
pub proof fn law_session_forwards_every_message(
    dest: String,
    token: Option<String>,
    subjects: Seq<String>,
    events: Seq<SessionEvent>,
)
    requires
        session_run(dest, token, subjects, events) is Some,
    ensures
        forwarded((session_run(dest, token, subjects, events)->0).1) == received(events),
    decreases events.len(),
{
    if events.len() > 0 {
        law_session_forwards_every_message(dest, token, subjects, events.drop_last());
        let (before, actions) = session_run(dest, token, subjects, events.drop_last())->0;
        let action = (session_step(dest, token, subjects, before, events.last())->0).1;
        assert(actions.push(action).drop_last() == actions);
    }
}

/// A session asks for its subjects one by one, each once and in their order, before it listens,
/// and has asked for all of them once it listens, whichever of the subscriptions failed.
pub proof fn law_session_asks_for_every_subject(
    dest: String,
    token: Option<String>,
    subjects: Seq<String>,
    events: Seq<SessionEvent>,
)
    requires
        subjects.len() <= usize::MAX,
        session_run(dest, token, subjects, events) is Some,
    ensures
        ({
            let (state, actions) = session_run(dest, token, subjects, events)->0;
            &&& asked(actions).len() <= subjects.len()
            &&& asked(actions) == subjects.take(asked(actions).len() as int)
            &&& state is Idle || state is Connecting ==> asked(actions).len() == 0
            &&& state matches SessionState::Subscribing { at } ==> asked(actions).len() == at + 1
            &&& state is Listening || state is Sending ==> asked(actions) == subjects
        }),
    decreases events.len(),
{
    if events.len() > 0 {
        law_session_asks_for_every_subject(dest, token, subjects, events.drop_last());
        let (before, actions) = session_run(dest, token, subjects, events.drop_last())->0;
        let (after, action) = session_step(dest, token, subjects, before, events.last())->0;
        assert(actions.push(action).drop_last() == actions);
        assert(subjects.take(subjects.len() as int) == subjects);
    }
}

/// A session connects first, to its own address and with its own token, and never again.
pub proof fn law_session_connects_once(
    dest: String,
    token: Option<String>,
    subjects: Seq<String>,
    events: Seq<SessionEvent>,
)
    requires
        session_run(dest, token, subjects, events) is Some,
    ensures
        ({
            let (state, actions) = session_run(dest, token, subjects, events)->0;
            &&& actions.len() == events.len()
            &&& state is Idle <==> events.len() == 0
            &&& events.len() > 0 ==> actions[0] == (SessionAction::Connect { dest, token })
            &&& forall|i: int| 0 < i < actions.len() ==> !((#[trigger] actions[i]) is Connect)
        }),
    decreases events.len(),
{
    if events.len() > 0 {
        law_session_connects_once(dest, token, subjects, events.drop_last());
    }
}

/// A subscription that fails has the same consequence as one that succeeds.
pub proof fn law_failed_subscription_is_passed_over(
    dest: String,
    token: Option<String>,
    subjects: Seq<String>,
    state: SessionState,
)
    ensures
        session_step(dest, token, subjects, state, SessionEvent::SubscribeFailed) == session_step(
            dest,
            token,
            subjects,
            state,
            SessionEvent::Subscribed,
        ),
{
}

/// A session ends, and stops, when the server cannot be reached, when no subscription has anything
/// more to come or when a message cannot be sent on, on nothing else, and for good.
pub proof fn law_session_ends_on_lost_connection(
    dest: String,
    token: Option<String>,
    subjects: Seq<String>,
    state: SessionState,
    event: SessionEvent,
)
    ensures
        ({
            let step = session_step(dest, token, subjects, state, event);
            let lost = {
                ||| state is Connecting && event is ConnectFailed
                ||| state is Listening && event is StreamEnded
                ||| state is Sending && event is SendFailed
            };
            &&& (step matches Some((after, _)) && after is Ended) <==> lost
            &&& (step matches Some((_, action)) && action is Stop) <==> lost
            &&& state is Ended ==> step is None
        }),
{
}

} // verus!
