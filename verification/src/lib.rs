//! A small document-archive service: clients publish text documents, search
//! for documents containing a word, and retrieve documents by identifier.
//!
//! This crate holds the verified core: the wire protocol (framing and
//! encoding of requests and responses), the sharded multi-map that backs the
//! word index, the job-queue ledger behind the worker pool, the connection
//! handler's request-to-response mapping, and the server's
//! accept/dispatch/shutdown state machine.  The surrounding process (TCP
//! sockets, threads, signal handling, the command line) lives outside the
//! library and drives it with plain values.

pub mod handler;
pub mod message;
pub mod multimap;
pub mod pool;
pub mod server;
pub mod store;
pub mod wire;
