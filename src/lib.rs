//! The decision logic of the nodes of a small message-passing network:
//! envelopes and replies, a deduplicating broadcast node with per-peer
//! anti-entropy retries, an echo responder, a unique-id generator and a
//! grow-only counter. Apart from the random draw of the unique-id generator,
//! every function here is state-machine logic: transport, timers and
//! serialisation live outside the library.

pub mod dissemination;
pub mod message;
pub mod topology;
pub mod echo;
pub mod unique_id;
pub mod counter;
