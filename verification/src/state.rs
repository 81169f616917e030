//! The servers and clients that the application knows of.
use vstd::prelude::*;

use crate::error::ServerError;
use crate::subject::SubjectTreeNode;

verus! {

/// A NATS server as it is stored.
#[derive(Debug)]
pub struct NatsServer {
    /// Given by the store; absent until the server has been stored.
    pub id: Option<i64>,
    pub host: String,
    pub port: u16,
    pub monitoring_port: u16,
    pub token: Option<String>,
    pub subjects: Vec<SubjectTreeNode>,
}

/// A client of a stored server, with the subjects it listens to.
#[derive(Debug)]
pub struct NatsClient {
    /// Given by the store; absent until the client has been stored.
    pub id: Option<i64>,
    pub server_id: i64,
    pub subjects: Vec<SubjectTreeNode>,
}

/// What was last read from the store.
#[derive(Debug)]
pub struct App {
    pub servers: Vec<NatsServer>,
    pub clients: Vec<NatsClient>,
}

impl Default for App {
    fn default() -> (app: Self)
        ensures
            app.servers@.len() == 0,
            app.clients@.len() == 0,
    {
        App { servers: Vec::new(), clients: Vec::new() }
    }
}

impl App {
    pub fn set_servers(&mut self, servers: Vec<NatsServer>)
        ensures
            final(self).servers == servers,
            final(self).clients == old(self).clients,
    {
        self.servers = servers;
    }

    pub fn set_clients(&mut self, clients: Vec<NatsClient>)
        ensures
            final(self).clients == clients,
            final(self).servers == old(self).servers,
    {
        self.clients = clients;
    }

    /// Takes over what was read from the store. Where reading failed the state stays as it is, and
    /// the error is rejected to the client.
    pub fn refresh<E>(&mut self, read: Result<(Vec<NatsServer>, Vec<NatsClient>), E>) -> (answer:
        Result<(), ServerError<E>>)
        ensures
            match read {
                Ok((servers, clients)) => {
                    &&& answer == Ok::<(), ServerError<E>>(())
                    &&& final(self).servers == servers
                    &&& final(self).clients == clients
                },
                Err(error) => {
                    &&& answer == Err::<(), ServerError<E>>(ServerError { error })
                    &&& *final(self) == *old(self)
                },
            },
    {
        match read {
            Ok((servers, clients)) => {
                self.set_servers(servers);
                self.set_clients(clients);
                Ok(())
            },
            Err(e) => Err(ServerError::from(e)),
        }
    }
}

} // verus!
