use nats_webui::message::{message_at, received_message, text_message, SocketMessageType};
use nats_webui::relay::{RelayAction, RelayEvent, RelayState};
use nats_webui::session::{
    session_for_client, subscribed_subjects, ClientSession, Connection, SessionAction,
    SessionEvent, SessionState,
};
use nats_webui::subject::{SubjectSource, SubjectTreeNode};

fn node(subject: &str, below: Vec<SubjectTreeNode>) -> SubjectTreeNode {
    SubjectTreeNode {
        id: subject.to_string(),
        subject_str: subject.to_string(),
        subjects: below,
        selected: false,
        source: SubjectSource::User,
    }
}

fn session(subjects: &[&str]) -> ClientSession {
    ClientSession::new(
        "h:1".to_string(),
        subjects.iter().map(|s| s.to_string()).collect(),
        Some("secret".to_string()),
    )
}

#[test]
fn flattening_puts_parents_first() {
    let tree = node("a", vec![node("a.b", vec![node("a.b.c", vec![])]), node("a.d", vec![])]);
    assert_eq!(tree.flatten(), vec!["a", "a.b", "a.b.c", "a.d"]);
    let trees = vec![tree, node("z", vec![])];
    assert_eq!(subscribed_subjects(&trees), vec!["a", "a.b", "a.b.c", "a.d", "z"]);
    assert!(subscribed_subjects(&vec![]).is_empty());
}

#[test]
fn client_session_is_made_from_the_store() {
    let found: Result<Connection, String> = Ok(Connection {
        hostname: "nats".to_string(),
        port: 4222,
        subjects: vec![node("a", vec![node("a.b", vec![])]), node("c", vec![])],
        token: Some("t".to_string()),
    });
    let session = session_for_client(found).unwrap_or_else(|_| panic!());
    assert_eq!(session.dest, "nats:4222");
    assert_eq!(session.subjects, vec!["a", "a.b", "c"]);
    assert_eq!(session.token.as_deref(), Some("t"));
    assert_eq!(session.state, SessionState::Idle);
    match session_for_client(Err("unknown client".to_string())) {
        Err(e) => assert_eq!(e.error, "unknown client"),
        Ok(_) => panic!(),
    }
}

#[test]
fn session_asks_for_every_subject_and_forwards_messages() {
    let mut s = session(&["a", "b"]);
    match s.next(SessionEvent::Opened) {
        Some(SessionAction::Connect { dest, token }) => {
            assert_eq!(dest, "h:1");
            assert_eq!(token.as_deref(), Some("secret"));
        }
        _ => panic!(),
    }
    let action = s.next(SessionEvent::Connected);
    assert!(matches!(action, Some(SessionAction::Subscribe(t)) if t == "a"));
    let action = s.next(SessionEvent::SubscribeFailed);
    assert!(matches!(action, Some(SessionAction::Subscribe(t)) if t == "b"));
    assert!(matches!(s.next(SessionEvent::Subscribed), Some(SessionAction::Listen)));
    let message = message_at(5, "b".to_string(), b"hello");
    match s.next(SessionEvent::Received(message)) {
        Some(SessionAction::Send(m)) => {
            assert_eq!(m.message, "hello");
            assert_eq!(m.timestamp, 5);
        }
        _ => panic!(),
    }
    assert!(matches!(s.next(SessionEvent::Sent), Some(SessionAction::Listen)));
    assert!(matches!(s.next(SessionEvent::StreamEnded), Some(SessionAction::Stop)));
    assert_eq!(s.state, SessionState::Ended);
    assert!(s.next(SessionEvent::Connected).is_none());
}

#[test]
fn session_ends_without_server() {
    let mut s = session(&["a"]);
    assert!(s.next(SessionEvent::Connected).is_none());
    s.next(SessionEvent::Opened);
    assert!(matches!(s.next(SessionEvent::ConnectFailed), Some(SessionAction::Stop)));
    assert_eq!(s.state, SessionState::Ended);
}

#[test]
fn session_without_subjects_listens_at_once_and_ends_on_failed_send() {
    let mut s = session(&[]);
    s.next(SessionEvent::Opened);
    assert!(matches!(s.next(SessionEvent::Connected), Some(SessionAction::Listen)));
    let message = message_at(0, "x".to_string(), b"");
    assert!(matches!(s.next(SessionEvent::Received(message)), Some(SessionAction::Send(_))));
    assert!(matches!(s.next(SessionEvent::SendFailed), Some(SessionAction::Stop)));
    assert_eq!(s.state, SessionState::Ended);
}

#[test]
fn payloads_are_read_as_text() {
    let m = message_at(-7, "s.t".to_string(), "grün".as_bytes());
    assert_eq!(m.typ, SocketMessageType::Msg);
    assert_eq!(m.timestamp, -7);
    assert_eq!(m.subject.as_deref(), Some("s.t"));
    assert_eq!(m.message, "grün");
    let told = text_message(3, "s".to_string(), "told".to_string());
    assert_eq!(told.typ, SocketMessageType::Msg);
    assert_eq!((told.timestamp, told.message.as_str()), (3, "told"));
    assert_eq!(told.subject.as_deref(), Some("s"));
    assert_eq!(message_at(0, String::new(), b"a\xffb").message, "a\u{FFFD}b");
}

#[test]
fn received_messages_carry_the_time() {
    let before = chrono::Utc::now().timestamp_millis();
    let m = received_message("s".to_string(), b"x");
    let after = chrono::Utc::now().timestamp_millis();
    assert!(before <= m.timestamp && m.timestamp <= after);
    assert_eq!(m.typ, SocketMessageType::Msg);
    assert_eq!(m.subject.as_deref(), Some("s"));
    assert_eq!(m.message, "x");
}

#[test]
fn relay_sends_every_text_and_skips_what_has_none() {
    let mut r = RelayState::Receiving;
    assert!(matches!(r.next(RelayEvent::Received), Some(RelayAction::Serialize)));
    assert!(matches!(r.next(RelayEvent::SerializeFailed), Some(RelayAction::Receive)));
    assert!(matches!(r.next(RelayEvent::Received), Some(RelayAction::Serialize)));
    assert!(r.next(RelayEvent::Sent).is_none());
    let action = r.next(RelayEvent::Serialized("{}".to_string()));
    assert!(matches!(action, Some(RelayAction::Send(t)) if t == "{}"));
    assert!(matches!(r.next(RelayEvent::Sent), Some(RelayAction::Receive)));
    assert!(matches!(r.next(RelayEvent::ReceiveFailed), Some(RelayAction::Stop)));
    assert_eq!(r, RelayState::Ended);
    assert!(r.next(RelayEvent::Received).is_none());
}

#[test]
fn relay_ends_on_failed_send() {
    let mut r = RelayState::Receiving;
    r.next(RelayEvent::Received);
    r.next(RelayEvent::Serialized("x".to_string()));
    assert!(matches!(r.next(RelayEvent::SendFailed), Some(RelayAction::Stop)));
    assert_eq!(r, RelayState::Ended);
}
