//! The replicated payload and the messages of both directions.
//!
//! Floating-point fields are carried as their IEEE-754 bit patterns, so that
//! a value goes over the wire and back unchanged, whatever it is.
use vstd::prelude::*;
use crate::entity::{ClientEntity, ClientId, ServerEntity};

verus! {

/// A three-component vector; each component is the bit pattern of an `f32`.
#[derive(Clone, Copy, Debug, PartialEq, Eq, Structural)]
pub struct Vec3 {
    pub x: u32,
    pub y: u32,
    pub z: u32,
}

/// A rotation quaternion; each component is the bit pattern of an `f32`.
#[derive(Clone, Copy, Debug, PartialEq, Eq, Structural)]
pub struct Quat {
    pub x: u32,
    pub y: u32,
    pub z: u32,
    pub w: u32,
}

/// Position, rotation and scale of an entity.
#[derive(Clone, Copy, Debug, PartialEq, Eq, Structural)]
pub struct Transform {
    pub translation: Vec3,
    pub rotation: Quat,
    pub scale: Vec3,
}

/// A colour with four `f32` channels, held as bit patterns.
#[derive(Clone, Copy, Debug, PartialEq, Eq, Structural)]
pub struct Color128 {
    pub r: u32,
    pub g: u32,
    pub b: u32,
    pub a: u32,
}

/// The render layers an entity is drawn in, as a bit mask.
#[derive(Clone, Copy, Debug, PartialEq, Eq, Structural)]
pub struct RenderLayer(pub u32);

/// What kind of visible object an entity is.
#[derive(Clone, Debug)]
pub enum ModelInfo {
    /// A cube of the given size.
    Cube(Vec3),
    /// An asset, as opaque bytes.
    Asset(Vec<u8>),
}

/// The mathematical value of a [`ModelInfo`].
pub enum ModelInfoV {
    Cube(Vec3),
    Asset(Seq<u8>),
}

impl View for ModelInfo {
    type V = ModelInfoV;

    open spec fn view(&self) -> ModelInfoV {
        match self {
            ModelInfo::Cube(v) => ModelInfoV::Cube(*v),
            ModelInfo::Asset(b) => ModelInfoV::Asset(b@),
        }
    }
}

/// The full payload of an entity, sent once when it is created.
#[derive(Clone, Debug)]
pub struct ModelData {
    pub model_info: ModelInfo,
    pub transform: Transform,
    pub color128: Color128,
    pub render_layer: RenderLayer,
}

/// The mathematical value of a [`ModelData`].
pub struct ModelDataV {
    pub model_info: ModelInfoV,
    pub transform: Transform,
    pub color128: Color128,
    pub render_layer: RenderLayer,
}

impl View for ModelData {
    type V = ModelDataV;

    open spec fn view(&self) -> ModelDataV {
        ModelDataV {
            model_info: self.model_info@,
            transform: self.transform,
            color128: self.color128,
            render_layer: self.render_layer,
        }
    }
}

/// The part of a payload that may change after creation: everything but the
/// kind of object.
#[derive(Clone, Copy, Debug, PartialEq, Eq, Structural)]
pub struct ModelData2 {
    pub transform: Transform,
    pub color128: Color128,
    pub render_layer: RenderLayer,
}

impl ModelDataV {
    pub open spec fn delta(self) -> ModelData2 {
        ModelData2 {
            transform: self.transform,
            color128: self.color128,
            render_layer: self.render_layer,
        }
    }

    /// This payload with its changeable part replaced by `d`.
    pub open spec fn with_delta(self, d: ModelData2) -> ModelDataV {
        ModelDataV {
            model_info: self.model_info,
            transform: d.transform,
            color128: d.color128,
            render_layer: d.render_layer,
        }
    }
}

impl ModelInfo {
    /// A copy of this value.
    pub fn duplicate(&self) -> (r: ModelInfo)
        ensures
            r@ == self@,
    {
        match self {
            ModelInfo::Cube(v) => ModelInfo::Cube(*v),
            ModelInfo::Asset(bs) => {
                let mut out: Vec<u8> = Vec::new();
                let mut i: usize = 0;
                while i < bs.len()
                    invariant
                        i <= bs@.len(),
                        out@ == bs@.subrange(0, i as int),
                    decreases bs.len() - i,
                {
                    out.push(bs[i]);
                    assert(out@ =~= bs@.subrange(0, i + 1));
                    i = i + 1;
                }
                assert(out@ =~= bs@);
                ModelInfo::Asset(out)
            },
        }
    }
}

impl ModelData {
    /// A copy of this value.
    pub fn duplicate(&self) -> (r: ModelData)
        ensures
            r@ == self@,
    {
        ModelData {
            model_info: self.model_info.duplicate(),
            transform: self.transform,
            color128: self.color128,
            render_layer: self.render_layer,
        }
    }

    /// The changeable part of this payload.
    pub fn delta(&self) -> (r: ModelData2)
        ensures
            r == self@.delta(),
    {
        ModelData2 {
            transform: self.transform,
            color128: self.color128,
            render_layer: self.render_layer,
        }
    }
}

/// A message from a client to the server.
#[derive(Clone, Debug)]
pub enum ModelMsgClient {
    /// A new entity, under the sender's own handle for it.
    ModelAdded(ClientEntity, ModelData),
    /// A change to an entity the server knows.
    ModelChanged(ServerEntity, ModelData2),
    /// The sender's entities, in answer to a request made for a client.
    AllModelData(ClientId, Vec<(ServerEntity, ModelData)>),
}

/// A message from the server to a client.
#[derive(Clone, Debug)]
pub enum ModelMsgServer {
    /// An entity that another client created.
    ModelAdded(ServerEntity, ModelData),
    /// A change to an entity.
    ModelChanged(ServerEntity, ModelData2),
    /// The server entity given to an entity that the receiver created.
    EntityMap(ServerEntity, ClientEntity),
    /// A request to report every entity for the client named.
    GetAllModelData(ClientId),
}

/// A message of either direction.
#[derive(Clone, Debug)]
pub enum ModelMsg {
    Client(ModelMsgClient),
    Server(ModelMsgServer),
}

/// The mathematical value of a [`ModelMsgClient`].
pub enum ClientMsgV {
    ModelAdded(ClientEntity, ModelDataV),
    ModelChanged(ServerEntity, ModelData2),
    AllModelData(ClientId, Seq<(ServerEntity, ModelDataV)>),
}

/// The mathematical value of a [`ModelMsgServer`].
pub enum ServerMsgV {
    ModelAdded(ServerEntity, ModelDataV),
    ModelChanged(ServerEntity, ModelData2),
    EntityMap(ServerEntity, ClientEntity),
    GetAllModelData(ClientId),
}

/// The mathematical value of a [`ModelMsg`].
pub enum MsgV {
    Client(ClientMsgV),
    Server(ServerMsgV),
}

/// The value of a list of entities with their payloads.
pub open spec fn items_view(v: Seq<(ServerEntity, ModelData)>) -> Seq<(ServerEntity, ModelDataV)> {
    v.map_values(|p: (ServerEntity, ModelData)| (p.0, p.1@))
}

impl View for ModelMsgClient {
    type V = ClientMsgV;

    open spec fn view(&self) -> ClientMsgV {
        match self {
            ModelMsgClient::ModelAdded(c, d) => ClientMsgV::ModelAdded(*c, d@),
            ModelMsgClient::ModelChanged(s, d) => ClientMsgV::ModelChanged(*s, *d),
            ModelMsgClient::AllModelData(id, v) => ClientMsgV::AllModelData(*id, items_view(v@)),
        }
    }
}

impl View for ModelMsgServer {
    type V = ServerMsgV;

    open spec fn view(&self) -> ServerMsgV {
        match self {
            ModelMsgServer::ModelAdded(s, d) => ServerMsgV::ModelAdded(*s, d@),
            ModelMsgServer::ModelChanged(s, d) => ServerMsgV::ModelChanged(*s, *d),
            ModelMsgServer::EntityMap(s, c) => ServerMsgV::EntityMap(*s, *c),
            ModelMsgServer::GetAllModelData(id) => ServerMsgV::GetAllModelData(*id),
        }
    }
}

impl View for ModelMsg {
    type V = MsgV;

    open spec fn view(&self) -> MsgV {
        match self {
            ModelMsg::Client(m) => MsgV::Client(m@),
            ModelMsg::Server(m) => MsgV::Server(m@),
        }
    }
}

/// The transport channel a message goes on.
#[derive(Clone, Copy, Debug, PartialEq, Eq, Structural)]
pub enum ChannelId {
    /// Delivered, and in the order sent, within the numbered queue.
    OrderedReliable(u8),
    /// Best effort: may be lost or reordered.
    Unreliable,
}

/// The channel of a message: per-tick changes go unreliably, every other
/// message on the first ordered reliable queue.
pub open spec fn channel_of(m: MsgV) -> ChannelId {
    match m {
        MsgV::Client(ClientMsgV::ModelChanged(_, _)) => ChannelId::Unreliable,
        MsgV::Server(ServerMsgV::ModelChanged(_, _)) => ChannelId::Unreliable,
        _ => ChannelId::OrderedReliable(0),
    }
}

impl ModelMsg {
    pub fn channel_id(&self) -> (r: ChannelId)
        ensures
            r == channel_of(self@),
    {
        match self {
            ModelMsg::Client(client) => match client {
                ModelMsgClient::ModelAdded(_, _) => ChannelId::OrderedReliable(0),
                ModelMsgClient::ModelChanged(_, _) => ChannelId::Unreliable,
                ModelMsgClient::AllModelData(_, _) => ChannelId::OrderedReliable(0),
            },
            ModelMsg::Server(server) => match server {
                ModelMsgServer::ModelAdded(_, _) => ChannelId::OrderedReliable(0),
                ModelMsgServer::ModelChanged(_, _) => ChannelId::Unreliable,
                ModelMsgServer::EntityMap(_, _) => ChannelId::OrderedReliable(0),
                ModelMsgServer::GetAllModelData(_) => ChannelId::OrderedReliable(0),
            },
        }
    }
}

/// Marks an entity that came from the network, so that its creation is not
/// announced again.
#[derive(Clone, Copy, Debug, PartialEq, Eq, Structural)]
pub struct IgnoreModelAdd;

/// Marks an entity whose changes are not announced.
#[derive(Clone, Copy, Debug, PartialEq, Eq, Structural)]
pub struct IgnoreModelChanged;

/// The delivery class of a player message.
#[derive(Clone, Copy, Debug, PartialEq, Eq, Structural)]
pub enum ChannelType {
    OrderedReliable,
    Unreliable,
}

/// A message from the server to a client about players.
#[derive(Clone, Copy, Debug, PartialEq, Eq, Structural)]
pub enum PlayerMsgClient {
    PlayerAdded(ServerEntity, Transform),
    PlayerChanged(ServerEntity, Transform),
    EntityMap(ServerEntity, ClientEntity),
    GetAllPlayers(ClientId),
}

impl PlayerMsgClient {
    /// Position changes go unreliably, every other message reliably.
    pub fn channel_type(&self) -> (r: ChannelType)
        ensures
            r == (if self is PlayerChanged { ChannelType::Unreliable } else { ChannelType::OrderedReliable }),
    {
        match self {
            PlayerMsgClient::PlayerAdded(_, _) => ChannelType::OrderedReliable,
            PlayerMsgClient::PlayerChanged(_, _) => ChannelType::Unreliable,
            PlayerMsgClient::EntityMap(_, _) => ChannelType::OrderedReliable,
            PlayerMsgClient::GetAllPlayers(_) => ChannelType::OrderedReliable,
        }
    }
}

} // verus!

verus! {

/// Marks a player entity that came from the network, so that it is never
/// announced again.
#[derive(Clone, Copy, Debug, PartialEq, Eq, Structural)]
pub struct IgnorePlayerAdd;

/// A message from a client to the server about players.
#[derive(Clone, Debug)]
pub enum PlayerMsgServer {
    /// A new player, under the sender's own handle for it.
    PlayerAdded(ClientEntity, Transform),
    /// A player that moved.
    PlayerChanged(ServerEntity, Transform),
    /// The sender's players, in answer to a request made for a client.
    AllPlayerData(ClientId, Vec<(ServerEntity, Transform)>),
}

/// The mathematical value of a [`PlayerMsgServer`].
pub enum PlayerServerV {
    PlayerAdded(ClientEntity, Transform),
    PlayerChanged(ServerEntity, Transform),
    AllPlayerData(ClientId, Seq<(ServerEntity, Transform)>),
}

impl View for PlayerMsgServer {
    type V = PlayerServerV;

    open spec fn view(&self) -> PlayerServerV {
        match self {
            PlayerMsgServer::PlayerAdded(c, t) => PlayerServerV::PlayerAdded(*c, *t),
            PlayerMsgServer::PlayerChanged(s, t) => PlayerServerV::PlayerChanged(*s, *t),
            PlayerMsgServer::AllPlayerData(id, v) => PlayerServerV::AllPlayerData(*id, v@),
        }
    }
}

impl PlayerMsgServer {
    /// Moves go unreliably, every other message reliably.
    pub fn channel_type(&self) -> (r: ChannelType)
        ensures
            r == (if self is PlayerChanged { ChannelType::Unreliable } else { ChannelType::OrderedReliable }),
    {
        match self {
            PlayerMsgServer::PlayerAdded(_, _) => ChannelType::OrderedReliable,
            PlayerMsgServer::PlayerChanged(_, _) => ChannelType::Unreliable,
            PlayerMsgServer::AllPlayerData(_, _) => ChannelType::OrderedReliable,
        }
    }
}

} // verus!
