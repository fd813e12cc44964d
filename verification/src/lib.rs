//! A lightweight publish/subscribe fabric. Services expose named channels, a
//! discovery service tells them where the channels of others live, and a
//! transport carries the messages of many channels over a few connections.
//!
//! - [`messages`], [`uri`]: the data that travels.
//! - [`wire`], [`msg_serde`]: the binary format of discovery and queue
//!   messages.
//! - [`registry`], [`discovery_service`]: the discovery protocol, server and
//!   client.
//! - [`queues`]: the publisher and the four kinds of consumer.
//! - [`routes`], [`routing`], [`outbox`], [`tcp_sender`], [`tcp_listener`]:
//!   the transport.
//! - [`radix`], [`text`]: names as numbers, and texts.
//! - [`error`]: what a service reports when something fails.
//!
//! The library decides and computes; sockets, clocks and files are the
//! caller's.
pub mod discovery_service;
pub mod error;
pub mod messages;
pub mod msg_serde;
pub mod order;
pub mod outbox;
pub mod queues;
pub mod radix;
pub mod registry;
pub mod routes;
pub mod routing;
pub mod tcp_listener;
pub mod tcp_sender;
pub mod text;
pub mod uri;
pub mod wire;
