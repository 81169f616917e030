use nats_webui::address::{monitoring_url, server_address, subsz_url};
use nats_webui::error::{
    acknowledge, json_error_text, request_error_text, ServerError, SubszError,
};
use nats_webui::hierarchy::{Subscription, SubszResponse};
use nats_webui::monitor::{have_ids, varz_requests, PollAction, PollEvent, PollState};
use nats_webui::state::{App, NatsClient, NatsServer};
use nats_webui::subject::{SubjectSource, SubjectTreeNode};
use nats_webui::subjects_query::{QueryAction, QueryEvent, SubjectsQuery};

fn server(id: Option<i64>, host: &str) -> NatsServer {
    NatsServer {
        id,
        host: host.to_string(),
        port: 4222,
        monitoring_port: 8222,
        token: None,
        subjects: vec![],
    }
}

fn json_error() -> serde_json::Error {
    serde_json::from_str::<i32>("no number").unwrap_err()
}

fn request_error() -> reqwest::Error {
    reqwest::Client::new().get("no url").build().unwrap_err()
}

#[test]
fn addresses_are_host_colon_port() {
    assert_eq!(server_address("nats.example", 4222), "nats.example:4222");
    assert_eq!(server_address("", 0), ":0");
    assert_eq!(server_address("h", 7), "h:7");
    assert_eq!(server_address("h", 10), "h:10");
    assert_eq!(server_address("h", 65535), "h:65535");
    for port in 0..=65535u16 {
        assert_eq!(server_address("h", port), format!("h:{}", port));
    }
}

#[test]
fn subsz_url_asks_for_subscriptions() {
    assert_eq!(subsz_url("10.0.0.1", 8222), "http://10.0.0.1:8222/subsz?subs=true");
    assert_eq!(monitoring_url("h", 1, "varz"), "http://h:1/varz");
}

#[test]
fn request_errors_are_told_as_such() {
    let said = request_error().to_string();
    let error = SubszError::from(request_error());
    assert!(matches!(error, SubszError::RequestError(_)));
    assert_eq!(error.message(), format!("Request error: {}", said));
    assert_eq!(request_error_text("gone"), "Request error: gone");
}

#[test]
fn json_errors_are_told_as_such() {
    let said = json_error().to_string();
    let error = SubszError::from(json_error());
    assert!(matches!(error, SubszError::JsonError(_)));
    assert_eq!(error.message(), format!("JSON error: {}", said));
    assert_eq!(json_error_text("odd"), "JSON error: odd");
}

#[test]
fn changes_are_acknowledged_or_rejected() {
    assert!(acknowledge::<usize, String>(Ok(3)).is_ok());
    let rejected: ServerError<String> =
        acknowledge::<(), String>(Err("locked".to_string())).unwrap_err();
    assert_eq!(rejected.error, "locked");
    assert_eq!(ServerError::from(5).error, 5);
}

#[test]
fn state_takes_over_what_was_read() {
    let mut app = App::default();
    assert!(app.servers.is_empty() && app.clients.is_empty());
    let client = NatsClient { id: Some(9), server_id: 1, subjects: vec![] };
    let read: Result<_, String> = Ok((vec![server(Some(1), "one")], vec![client]));
    assert!(app.refresh(read).is_ok());
    assert_eq!(app.servers[0].host, "one");
    assert_eq!(app.clients[0].id, Some(9));
    let rejected = app.refresh(Err("no disk".to_string())).unwrap_err();
    assert_eq!(rejected.error, "no disk");
    assert_eq!(app.servers.len(), 1);
    assert_eq!(app.clients.len(), 1);
    app.set_servers(vec![]);
    assert_eq!((app.servers.len(), app.clients.len()), (0, 1));
    app.set_clients(vec![]);
    assert!(app.clients.is_empty());
}

#[test]
fn every_server_is_polled_in_order() {
    let servers = vec![server(Some(3), "three"), server(Some(-1), "minus")];
    assert!(have_ids(&servers));
    let requests = varz_requests(&servers);
    assert_eq!(requests.len(), 2);
    assert_eq!(requests[0].server_id, 3);
    assert_eq!(requests[0].host, "three");
    assert_eq!(requests[0].monitoring_port, 8222);
    assert_eq!(requests[1].server_id, -1);
    assert!(!have_ids(&vec![server(Some(1), "a"), server(None, "b")]));
}

#[test]
fn round_broadcasts_what_it_fetches() {
    let mut state = PollState::Awaiting;
    assert!(matches!(state.next(PollEvent::Fetched(1)), Some(PollAction::Broadcast(1))));
    assert_eq!(state, PollState::Broadcasting);
    assert!(matches!(state.next(PollEvent::<i32>::BroadcastFailed), Some(PollAction::Await)));
    assert!(matches!(state.next(PollEvent::<i32>::FetchFailed), Some(PollAction::Await)));
    assert!(matches!(state.next(PollEvent::Fetched(2)), Some(PollAction::Broadcast(2))));
    assert!(state.next(PollEvent::<i32>::Drained).is_none());
    assert_eq!(state, PollState::Broadcasting);
    assert!(matches!(state.next(PollEvent::<i32>::Broadcast), Some(PollAction::Await)));
    assert!(matches!(state.next(PollEvent::<i32>::Drained), Some(PollAction::Finish)));
    assert_eq!(state, PollState::Finished);
    assert!(state.next(PollEvent::Fetched(3)).is_none());
}

#[test]
fn query_goes_through_its_steps_to_a_reply() {
    let query = SubjectsQuery::LoadingServer { server_id: 4 };
    let (query, action) = query.next(QueryEvent::<String>::ServerLoaded {
        host: "h".to_string(),
        monitoring_port: 8222,
    });
    match action {
        Some(QueryAction::FetchSubsz { url }) => {
            assert_eq!(url, "http://h:8222/subsz?subs=true")
        }
        _ => panic!(),
    }
    let subsz = SubszResponse {
        subscriptions_list: vec![Subscription { subject: "a.b".to_string() }],
    };
    let (query, action) = query.next(QueryEvent::<String>::SubszFetched(subsz));
    assert!(matches!(action, Some(QueryAction::LoadSubjects { server_id: 4 })));
    let node = SubjectTreeNode {
        id: "1".to_string(),
        subject_str: "s".to_string(),
        subjects: vec![],
        selected: false,
        source: SubjectSource::User,
    };
    let (query, action) = query.next(QueryEvent::<String>::SubjectsLoaded(vec![node]));
    match action {
        Some(QueryAction::Reply(subjects)) => {
            assert_eq!(subjects.len(), 2);
            assert_eq!(subjects[0].flatten(), vec!["s"]);
            assert_eq!(subjects[1].flatten(), vec!["a", "a.b"]);
        }
        _ => panic!(),
    }
    assert!(matches!(query, SubjectsQuery::Answered));
    let (query, action) = query.next(QueryEvent::ServerFailed("late".to_string()));
    assert!(matches!(query, SubjectsQuery::Answered));
    assert!(action.is_none());
}

#[test]
fn query_rejects_the_first_error() {
    let loading = SubjectsQuery::LoadingServer { server_id: 4 };
    let (query, action) = loading.next(QueryEvent::ServerFailed("none".to_string()));
    assert!(matches!(query, SubjectsQuery::Answered));
    assert!(matches!(action, Some(QueryAction::RejectStoreError(e)) if e.error == "none"));

    let fetching = SubjectsQuery::FetchingSubsz { server_id: 4 };
    let failed = QueryEvent::<String>::SubszFailed(SubszError::from(json_error()));
    let (query, action) = fetching.next(failed);
    assert!(matches!(query, SubjectsQuery::Answered));
    match action {
        Some(QueryAction::RejectSubszError(e)) => {
            assert!(matches!(e.error, SubszError::JsonError(_)))
        }
        _ => panic!(),
    }

    let subsz = SubszResponse { subscriptions_list: vec![] };
    let loading = SubjectsQuery::LoadingSubjects { server_id: 4, subsz };
    let (query, action) = loading.next(QueryEvent::SubjectsFailed("torn".to_string()));
    assert!(matches!(query, SubjectsQuery::Answered));
    assert!(matches!(action, Some(QueryAction::RejectStoreError(e)) if e.error == "torn"));
}

#[test]
fn query_passes_over_events_of_other_states() {
    let loading = SubjectsQuery::LoadingServer { server_id: 4 };
    let (query, action) = loading.next(QueryEvent::<String>::SubjectsLoaded(vec![]));
    assert!(matches!(query, SubjectsQuery::LoadingServer { server_id: 4 }));
    assert!(action.is_none());
}
