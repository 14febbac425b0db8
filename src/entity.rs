//! Handles that name an entity on one side of the connection.
use vstd::prelude::*;

verus! {

/// Identifier that the transport gives a connected client.
pub type ClientId = u64;

/// An entity handle in one client's local world.
#[derive(Clone, Copy, Debug, PartialEq, Eq, Hash, Structural)]
pub struct ClientEntity(pub u64);

/// An entity handle in the server's world, shared by every client.
#[derive(Clone, Copy, Debug, PartialEq, Eq, Hash, Structural)]
pub struct ServerEntity(pub u64);

} // verus!
