//! A store-and-forward message node: identities, a gossiped inventory of
//! proof-of-work-sealed objects, and the state machines that drive the
//! protocol, the send pipeline, and the persistent stores.
pub mod address;
pub mod cbor;
pub mod crypto;
pub mod decode;
pub mod handler;
pub mod messages;
pub mod models;
pub mod pipeline;
pub mod pow;
pub mod pow_queue;
pub mod repo_address;
pub mod repo_inventory;
pub mod repo_message;
pub mod worker;
