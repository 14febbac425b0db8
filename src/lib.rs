//! Client/server replication of a shared entity world: the message set and
//! its wire layout, the client-to-server entity map, the server's relay and
//! the client's applier and broadcaster.

pub mod entity;
pub mod entity_map;
pub mod message;
pub mod codec;
pub mod wire;
pub mod router;
pub mod client;
pub mod rendering;
