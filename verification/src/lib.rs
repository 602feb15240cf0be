//! Room-scoped peer discovery for a rendezvous relay node.
//!
//! The registry maps room names to the peers that announced themselves there,
//! forgets peers whose announcement is older than the time-to-live, and answers
//! every announcement with the other members of the room.
pub mod assoc;
pub mod registry;
pub mod laws;
pub mod identity;
pub mod dispatch;
