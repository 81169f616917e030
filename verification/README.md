# nats_webui

A web interface to NATS servers: it stores servers and clients, polls the servers' monitoring
endpoints, shows the subjects of a server as a hierarchy, and lets a browser listen to them.

`src/` is the verified library.

- `subject`: the nodes of a subject hierarchy and the trees they stand for.
- `hierarchy`: building the hierarchy of stored and reported subjects.
- `hierarchy_laws`: what holds of every hierarchy. It has a node for each subject and each of its
  dotted prefixes, each once and no others; additions only append; adding a subject again changes
  nothing; stored subjects keep their source.
- `address`: server addresses and monitoring URLs.
- `message`: messages to a browser.
- `session`, `relay`, `monitor`, `subjects_query`: what is done next when something happened, for a
  listening client, for the feed of server states, for a round of polling and for a request for the
  subjects of a server.
- `state`, `error`: what was read from the store, and what is answered on failure.

`app/` is the program around it: HTTP and WebSocket routes, the database, and the connections to
NATS servers. `tests/` holds the tests of the library.
