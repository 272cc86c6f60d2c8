//! The logic of services around a stream of account writes: order books that are
//! published to clients, event queues that are cranked, and a trace of one event queue.
pub mod book;
pub mod book_laws;
pub mod connection;
pub mod crank;
pub mod delivery_laws;
pub mod feed_laws;
pub mod json;
pub mod json_reader;
pub mod market;
pub mod message;
pub mod message_laws;
pub mod peers;
pub mod pubkey;
pub mod routes;
pub mod snapshots;
pub mod table;
pub mod trace;
