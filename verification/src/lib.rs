//! The relay of LocalSend: the wire format of relayed session bytes, the
//! backend's room directory and session table, the client's session
//! bookkeeping, the byte pipes of relayed sessions and the small helpers
//! around them (request limits, client address groups, device ids).

mod pow;

pub mod frame;
pub mod assoc;
pub mod messages;
pub mod limit;
pub mod store;
pub mod controller;
pub mod pipe;
pub mod ip;
pub mod ids;
pub mod api;
pub mod client;
