//! Tracks remote-desktop sessions across polls of a set of servers and
//! reports each client that connects or disconnects.
//!
//! A poll of a server brings its session list. The client state table of
//! the server ([`table`]) holds the state in which each client was last
//! seen, and tells which clients a new list shows as connected or
//! disconnected, a client that the list no longer has among them. The
//! registry ([`registry`]) holds one table for each server and takes the
//! polls of a cycle; a poll that failed changes nothing and takes nothing
//! from the others. The poll loop ([`poll_loop`]) is the state machine that
//! a driver runs: poll, deliver each message, sleep, and again.
//!
//! The modules whose names end in `_laws` state what holds of every poll,
//! of every cycle and of every run of the loop.

pub mod config;
pub mod event;
pub mod poll_loop;
pub mod poll_loop_laws;
pub mod registry;
pub mod registry_laws;
pub mod session;
pub mod table;
pub mod table_laws;
