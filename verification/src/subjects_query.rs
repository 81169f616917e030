//! Answering a request for the subject hierarchy of a server.
use vstd::prelude::*;

use crate::address::{endpoint_url, subsz_url};
use crate::error::{ServerError, SubszError};
use crate::hierarchy::{SubszResponse, build_subject_hierarchy};
use crate::hierarchy::hierarchy;
use crate::subject::SubjectTreeNode;
use crate::subject::forest;

verus! {

/// How far the answer to a request for the subjects of a server has come.
pub enum SubjectsQuery {
    /// Reading the server from the store.
    LoadingServer { server_id: i64 },
    /// Asking the server for its subscriptions.
    FetchingSubsz { server_id: i64 },
    /// Reading the stored subjects, with the answer of the server at hand.
    LoadingSubjects { server_id: i64, subsz: SubszResponse },
    Answered,
}

/// What happened while a request is answered. The errors of the store are of type `E`.
pub enum QueryEvent<E> {
    ServerLoaded { host: String, monitoring_port: u16 },
    ServerFailed(E),
    SubszFetched(SubszResponse),
    SubszFailed(SubszError),
    SubjectsLoaded(Vec<SubjectTreeNode>),
    SubjectsFailed(E),
}

/// What is to be done next to answer a request.
pub enum QueryAction<E> {
    /// Ask the server for its subscriptions, at this URL.
    FetchSubsz { url: String },
    /// Read the subjects that are stored for a server.
    LoadSubjects { server_id: i64 },
    Reply(Vec<SubjectTreeNode>),
    RejectStoreError(ServerError<E>),
    RejectSubszError(ServerError<SubszError>),
}

/// The step from `before` to `after` that `event` calls for, with `action` to be done next. The
/// server is looked up, then asked, then the stored subjects are read, and what was reported and
/// stored is answered as one hierarchy. The first step to fail has its error rejected to the
/// client, and nothing further is done.
pub open spec fn query_step<E>(
    before: SubjectsQuery,
    event: QueryEvent<E>,
    after: SubjectsQuery,
    action: Option<QueryAction<E>>,
) -> bool {
    match (before, event) {
        (
            SubjectsQuery::LoadingServer { server_id },
            QueryEvent::ServerLoaded { host, monitoring_port },
        ) => {
            &&& after == SubjectsQuery::FetchingSubsz { server_id }
            &&& action matches Some(QueryAction::FetchSubsz { url }) && url@ == endpoint_url(
                host@,
                monitoring_port as nat,
                "subsz?subs=true"@,
            )
        },
        (SubjectsQuery::LoadingServer { .. }, QueryEvent::ServerFailed(error)) => {
            &&& after is Answered
            &&& action == Some(QueryAction::RejectStoreError(ServerError { error }))
        },
        (SubjectsQuery::FetchingSubsz { server_id }, QueryEvent::SubszFetched(subsz)) => {
            &&& after == SubjectsQuery::LoadingSubjects { server_id, subsz }
            &&& action == Some(QueryAction::<E>::LoadSubjects { server_id })
        },
        (SubjectsQuery::FetchingSubsz { .. }, QueryEvent::SubszFailed(error)) => {
            &&& after is Answered
            &&& action == Some(QueryAction::<E>::RejectSubszError(ServerError { error }))
        },
        (SubjectsQuery::LoadingSubjects { subsz, .. }, QueryEvent::SubjectsLoaded(stored)) => {
            &&& after is Answered
            &&& action matches Some(QueryAction::Reply(subjects)) && forest(subjects@)
                == hierarchy(stored@, subsz.subscriptions_list@)
        },
        (SubjectsQuery::LoadingSubjects { .. }, QueryEvent::SubjectsFailed(error)) => {
            &&& after is Answered
            &&& action == Some(QueryAction::RejectStoreError(ServerError { error }))
        },
        _ => after == before && action is None,
    }
}

impl SubjectsQuery {
    /// Takes the step that an event calls for. An event that does not belong to the state changes
    /// nothing and calls for nothing.
    pub fn next<E>(self, event: QueryEvent<E>) -> (step: (SubjectsQuery, Option<QueryAction<E>>))
        ensures
            query_step(self, event, step.0, step.1),
    {
        match (self, event) {
            (
                SubjectsQuery::LoadingServer { server_id },
                QueryEvent::ServerLoaded { host, monitoring_port },
            ) => (
                SubjectsQuery::FetchingSubsz { server_id },
                Some(QueryAction::FetchSubsz { url: subsz_url(host.as_str(), monitoring_port) }),
            ),
            (SubjectsQuery::LoadingServer { .. }, QueryEvent::ServerFailed(e)) => (
                SubjectsQuery::Answered,
                Some(QueryAction::RejectStoreError(ServerError::from(e))),
            ),
            (SubjectsQuery::FetchingSubsz { server_id }, QueryEvent::SubszFetched(subsz)) => (
                SubjectsQuery::LoadingSubjects { server_id, subsz },
                Some(QueryAction::LoadSubjects { server_id }),
            ),
            (SubjectsQuery::FetchingSubsz { .. }, QueryEvent::SubszFailed(e)) => (
                SubjectsQuery::Answered,
                Some(QueryAction::RejectSubszError(ServerError::from(e))),
            ),
            (SubjectsQuery::LoadingSubjects { subsz, .. }, QueryEvent::SubjectsLoaded(stored)) => (
                SubjectsQuery::Answered,
                Some(QueryAction::Reply(build_subject_hierarchy(subsz, stored))),
            ),
            (SubjectsQuery::LoadingSubjects { .. }, QueryEvent::SubjectsFailed(e)) => (
                SubjectsQuery::Answered,
                Some(QueryAction::RejectStoreError(ServerError::from(e))),
            ),
            (query, _) => (query, None),
        }
    }
}

/// A request is answered once: an answer or a rejection is given exactly when a step ends the
/// query, and no event has any consequence after that.
pub proof fn law_query_answers_once<E>(
    before: SubjectsQuery,
    event: QueryEvent<E>,
    after: SubjectsQuery,
    action: Option<QueryAction<E>>,
)
    requires
        query_step(before, event, after, action),
    ensures
        before is Answered ==> after is Answered && action is None,
        before !is Answered ==> (after is Answered <==> (action matches Some(a) && (a is Reply
            || a is RejectStoreError || a is RejectSubszError))),
{
}

/// A request whose server is found, answers, and has its stored subjects read, is answered with
/// the hierarchy of what is stored and what the server reports.
pub proof fn law_query_replies_with_hierarchy<E>(
    server_id: i64,
    host: String,
    monitoring_port: u16,
    subsz: SubszResponse,
    stored: Vec<SubjectTreeNode>,
    first: (SubjectsQuery, Option<QueryAction<E>>),
    second: (SubjectsQuery, Option<QueryAction<E>>),
    third: (SubjectsQuery, Option<QueryAction<E>>),
)
    requires
        query_step(
            SubjectsQuery::LoadingServer { server_id },
            QueryEvent::<E>::ServerLoaded { host, monitoring_port },
            first.0,
            first.1,
        ),
        query_step(first.0, QueryEvent::<E>::SubszFetched(subsz), second.0, second.1),
        query_step(second.0, QueryEvent::<E>::SubjectsLoaded(stored), third.0, third.1),
    ensures
        first.1 matches Some(QueryAction::FetchSubsz { url }) && url@ == endpoint_url(
            host@,
            monitoring_port as nat,
            "subsz?subs=true"@,
        ),
        second.1 == Some(QueryAction::<E>::LoadSubjects { server_id }),
        third.0 is Answered,
        third.1 matches Some(QueryAction::Reply(subjects)) && forest(subjects@) == hierarchy(
            stored@,
            subsz.subscriptions_list@,
        ),
{
}

/// The error of whichever step fails is rejected to the client, just as it is, and ends the query.
pub proof fn law_query_rejects_the_error_of_a_failed_step<E>(
    server_id: i64,
    subsz: SubszResponse,
    error: E,
    subsz_error: SubszError,
    at_server: (SubjectsQuery, Option<QueryAction<E>>),
    at_subsz: (SubjectsQuery, Option<QueryAction<E>>),
    at_subjects: (SubjectsQuery, Option<QueryAction<E>>),
)
    requires
        query_step(
            SubjectsQuery::LoadingServer { server_id },
            QueryEvent::ServerFailed(error),
            at_server.0,
            at_server.1,
        ),
        query_step(
            SubjectsQuery::FetchingSubsz { server_id },
            QueryEvent::<E>::SubszFailed(subsz_error),
            at_subsz.0,
            at_subsz.1,
        ),
        query_step(
            SubjectsQuery::LoadingSubjects { server_id, subsz },
            QueryEvent::SubjectsFailed(error),
            at_subjects.0,
            at_subjects.1,
        ),
    ensures
        at_server.0 is Answered && at_subsz.0 is Answered && at_subjects.0 is Answered,
        at_server.1 matches Some(QueryAction::RejectStoreError(e)) && e.error == error,
        at_subsz.1 matches Some(QueryAction::RejectSubszError(e)) && e.error == subsz_error,
        at_subjects.1 matches Some(QueryAction::RejectStoreError(e)) && e.error == error,
{
}

/// Whether an event can be the outcome of what a query in this state waits for.
pub open spec fn query_outcome<E>(query: SubjectsQuery, event: QueryEvent<E>) -> bool {
    match query {
        SubjectsQuery::LoadingServer { .. } => event is ServerLoaded || event is ServerFailed,
        SubjectsQuery::FetchingSubsz { .. } => event is SubszFetched || event is SubszFailed,
        SubjectsQuery::LoadingSubjects { .. } => event is SubjectsLoaded || event is SubjectsFailed,
        SubjectsQuery::Answered => false,
    }
}

/// A query takes every outcome of what it waits for, whatever the outcome holds, and nothing else:
/// any other event leaves it as it is.
pub proof fn law_query_takes_every_outcome<E>(
    before: SubjectsQuery,
    event: QueryEvent<E>,
    after: SubjectsQuery,
    action: Option<QueryAction<E>>,
)
    requires
        query_step(before, event, after, action),
    ensures
        action is Some <==> query_outcome(before, event),
        action is None ==> after == before,
{
}

} // verus!
