//! Real-time synchronization core for a shared kanban board service.
//!
//! Multiple clients observe and edit shared boards; each edit goes through an
//! optimistic-concurrency write path (an atomic increment-and-return at the
//! document store, followed by a publish on a per-board broker topic), and each
//! watcher holds a duplex bridge that relays broker notifications to its
//! connection. This crate holds the verified logic of that core: the board
//! data model, the canonical wire codec, the topic naming shared by writers
//! and watchers, the store's update semantics, the update coordinator's
//! decisions, and the bridge's termination state machine. The unverified
//! shell (HTTP routing, the store client, the broker client, the transport)
//! lives outside and hands this crate plain values.

pub mod boards;
pub mod connection;
pub mod codec;
pub mod post_boards;
pub mod put_boards_id;
pub mod store;
pub mod numbers;
pub mod text;
