//! An event-sourced "Book" domain: a closed set of domain events, an
//! aggregate whose state is the fold of an ordered event sequence, a
//! repository that commits pending events to an append-only log and keeps a
//! keyed snapshot, and a tailing consumer with at-least-once delivery.

pub mod book;
pub mod codec;
pub mod es;
pub mod label;
pub mod consumer;
pub mod repo;

