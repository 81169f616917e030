//! The logic of a web interface to NATS servers: the subject hierarchy of a server, the rounds in
//! which servers are polled, and the sessions in which web clients are served.
pub mod address;
pub mod error;
pub mod hierarchy;
pub mod hierarchy_laws;
pub mod message;
pub mod monitor;
pub mod relay;
pub mod session;
pub mod state;
pub mod subject;
pub mod subjects_query;
