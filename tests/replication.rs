use stereokit_bevy::client::{ApplyError, StereoKitBevyClient};
use stereokit_bevy::entity::{ClientEntity, ServerEntity};
use stereokit_bevy::entity_map::EntityMap;
use stereokit_bevy::message::{
    ChannelId, ChannelType, Color128, ModelData, ModelData2, ModelInfo, ModelMsg, ModelMsgClient,
    ModelMsgServer, PlayerMsgClient, PlayerMsgServer, Quat, RenderLayer, Transform, Vec3,
};
use stereokit_bevy::rendering::{render_models, Visible};
use stereokit_bevy::router::{Outgoing, RouteError, StereoKitBevyServer};
use stereokit_bevy::wire::{decode, decode_player_client, encode, encode_player_client, encode_player_server};

fn v3(x: f32, y: f32, z: f32) -> Vec3 {
    Vec3 { x: x.to_bits(), y: y.to_bits(), z: z.to_bits() }
}

fn transform(x: f32) -> Transform {
    Transform {
        translation: v3(x, 0.5, -1.0),
        rotation: Quat { x: 0, y: 0, z: 0, w: 1.0f32.to_bits() },
        scale: v3(1.0, 1.0, 1.0),
    }
}

fn color(r: f32) -> Color128 {
    Color128 { r: r.to_bits(), g: 0.25f32.to_bits(), b: 0.0f32.to_bits(), a: 1.0f32.to_bits() }
}

fn cube_data(x: f32) -> ModelData {
    ModelData {
        model_info: ModelInfo::Cube(v3(0.1, 0.1, 0.1)),
        transform: transform(x),
        color128: color(0.5),
        render_layer: RenderLayer(1),
    }
}

fn delta(x: f32, r: f32, layer: u32) -> ModelData2 {
    ModelData2 { transform: transform(x), color128: color(r), render_layer: RenderLayer(layer) }
}

fn same_info(a: &ModelInfo, b: &ModelInfo) -> bool {
    match (a, b) {
        (ModelInfo::Cube(x), ModelInfo::Cube(y)) => x == y,
        (ModelInfo::Asset(x), ModelInfo::Asset(y)) => x == y,
        _ => false,
    }
}

fn same_data(a: &ModelData, b: &ModelData) -> bool {
    same_info(&a.model_info, &b.model_info)
        && a.transform == b.transform
        && a.color128 == b.color128
        && a.render_layer == b.render_layer
}

fn same_client_msg(a: &ModelMsgClient, b: &ModelMsgClient) -> bool {
    match (a, b) {
        (ModelMsgClient::ModelAdded(c1, d1), ModelMsgClient::ModelAdded(c2, d2)) => c1 == c2 && same_data(d1, d2),
        (ModelMsgClient::ModelChanged(s1, d1), ModelMsgClient::ModelChanged(s2, d2)) => s1 == s2 && d1 == d2,
        (ModelMsgClient::AllModelData(i1, v1), ModelMsgClient::AllModelData(i2, v2)) => {
            i1 == i2 && v1.len() == v2.len() && v1.iter().zip(v2.iter()).all(|(x, y)| x.0 == y.0 && same_data(&x.1, &y.1))
        }
        _ => false,
    }
}

fn same_server_msg(a: &ModelMsgServer, b: &ModelMsgServer) -> bool {
    match (a, b) {
        (ModelMsgServer::ModelAdded(s1, d1), ModelMsgServer::ModelAdded(s2, d2)) => s1 == s2 && same_data(d1, d2),
        (ModelMsgServer::ModelChanged(s1, d1), ModelMsgServer::ModelChanged(s2, d2)) => s1 == s2 && d1 == d2,
        (ModelMsgServer::EntityMap(s1, c1), ModelMsgServer::EntityMap(s2, c2)) => s1 == s2 && c1 == c2,
        (ModelMsgServer::GetAllModelData(a), ModelMsgServer::GetAllModelData(b)) => a == b,
        _ => false,
    }
}

fn same_msg(a: &ModelMsg, b: &ModelMsg) -> bool {
    match (a, b) {
        (ModelMsg::Client(x), ModelMsg::Client(y)) => same_client_msg(x, y),
        (ModelMsg::Server(x), ModelMsg::Server(y)) => same_server_msg(x, y),
        _ => false,
    }
}

fn round_trips(m: ModelMsg) {
    let bytes = encode(&m);
    let back = decode(&bytes).expect("an encoding decodes");
    assert!(same_msg(&m, &back));
}

#[test]
fn entity_map_pairs_both_ways() {
    let mut m = EntityMap::new();
    m.insert(ClientEntity(1), ServerEntity(10));
    m.insert(ClientEntity(2), ServerEntity(20));
    assert_eq!(m.get_by_left(ClientEntity(1)), Some(ServerEntity(10)));
    assert_eq!(m.get_by_right(ServerEntity(20)), Some(ClientEntity(2)));
    assert_eq!(m.get_by_left(ClientEntity(3)), None);
    assert_eq!(m.get_by_right(ServerEntity(30)), None);
}

#[test]
fn entity_map_insert_replaces_stale_pairs() {
    let mut m = EntityMap::new();
    m.insert(ClientEntity(1), ServerEntity(10));
    m.insert(ClientEntity(2), ServerEntity(20));
    // Pairing 1 with 20 drops both (1, 10) and (2, 20).
    m.insert(ClientEntity(1), ServerEntity(20));
    assert_eq!(m.get_by_left(ClientEntity(1)), Some(ServerEntity(20)));
    assert_eq!(m.get_by_right(ServerEntity(20)), Some(ClientEntity(1)));
    assert_eq!(m.get_by_right(ServerEntity(10)), None);
    assert_eq!(m.get_by_left(ClientEntity(2)), None);
    // Each live server handle reads back to its client handle.
    let s = m.get_by_left(ClientEntity(1)).unwrap();
    assert_eq!(m.get_by_right(s), Some(ClientEntity(1)));
}

#[test]
fn encoding_round_trips_every_variant() {
    round_trips(ModelMsg::Client(ModelMsgClient::ModelAdded(ClientEntity(7), cube_data(1.5))));
    round_trips(ModelMsg::Client(ModelMsgClient::ModelChanged(ServerEntity(u64::MAX), delta(-0.0, f32::INFINITY, u32::MAX))));
    round_trips(ModelMsg::Client(ModelMsgClient::AllModelData(3, vec![])));
    round_trips(ModelMsg::Client(ModelMsgClient::AllModelData(
        3,
        vec![(ServerEntity(1), cube_data(f32::MAX)), (ServerEntity(2), ModelData {
            model_info: ModelInfo::Asset(vec![]),
            transform: transform(f32::MIN_POSITIVE),
            color128: color(f32::NEG_INFINITY),
            render_layer: RenderLayer(0),
        })],
    )));
    round_trips(ModelMsg::Server(ModelMsgServer::ModelAdded(ServerEntity(0), ModelData {
        model_info: ModelInfo::Asset(vec![0, 255, 7, 9]),
        transform: transform(f32::NAN),
        color128: color(0.0),
        render_layer: RenderLayer(4),
    })));
    round_trips(ModelMsg::Server(ModelMsgServer::ModelChanged(ServerEntity(5), delta(2.0, 0.5, 2))));
    round_trips(ModelMsg::Server(ModelMsgServer::EntityMap(ServerEntity(9), ClientEntity(8))));
    round_trips(ModelMsg::Server(ModelMsgServer::GetAllModelData(u64::MAX)));
}

#[test]
fn encoding_round_trips_nan_bits_exactly() {
    let bits: u32 = 0x7fc0_1234;
    let mut d = delta(0.0, 0.0, 0);
    d.color128.r = bits;
    let m = ModelMsg::Server(ModelMsgServer::ModelChanged(ServerEntity(1), d));
    match decode(&encode(&m)) {
        Some(ModelMsg::Server(ModelMsgServer::ModelChanged(_, back))) => assert_eq!(back.color128.r, bits),
        _ => panic!("expected a change"),
    }
}

#[test]
fn encoding_bytes_of_a_request() {
    let m = ModelMsg::Server(ModelMsgServer::GetAllModelData(0x0102));
    assert_eq!(encode(&m), vec![1, 0, 0, 0, 3, 0, 0, 0, 2, 1, 0, 0, 0, 0, 0, 0]);
    let m = ModelMsg::Server(ModelMsgServer::EntityMap(ServerEntity(1), ClientEntity(2)));
    assert_eq!(encode(&m), vec![1, 0, 0, 0, 2, 0, 0, 0, 1, 0, 0, 0, 0, 0, 0, 0, 2, 0, 0, 0, 0, 0, 0, 0]);
}

#[test]
fn encoding_of_asset_holds_its_length() {
    let m = ModelMsg::Client(ModelMsgClient::ModelAdded(ClientEntity(1), ModelData {
        model_info: ModelInfo::Asset(vec![0xaa, 0xbb]),
        transform: transform(0.0),
        color128: color(0.0),
        render_layer: RenderLayer(0),
    }));
    let b = encode(&m);
    // tag, tag, handle, info tag, length, bytes, fifteen words
    assert_eq!(b.len(), 4 + 4 + 8 + 4 + 8 + 2 + 60);
    assert_eq!(&b[16..30], &[1, 0, 0, 0, 2, 0, 0, 0, 0, 0, 0, 0, 0xaa, 0xbb]);
}

#[test]
fn decode_rejects_malformed_bytes() {
    let good = encode(&ModelMsg::Server(ModelMsgServer::EntityMap(ServerEntity(1), ClientEntity(2))));
    assert!(decode(&good[..good.len() - 1]).is_none());
    let mut longer = good.clone();
    longer.push(0);
    assert!(decode(&longer).is_none());
    assert!(decode(&[]).is_none());
    assert!(decode(&[2, 0, 0, 0]).is_none());
    assert!(decode(&[1, 0, 0, 0, 9, 0, 0, 0, 0, 0, 0, 0, 0, 0, 0, 0]).is_none());
    // a list that claims more entries than it holds
    assert!(decode(&[0, 0, 0, 0, 2, 0, 0, 0, 1, 0, 0, 0, 0, 0, 0, 0, 5, 0, 0, 0, 0, 0, 0, 0]).is_none());
}

#[test]
fn channels_by_variant() {
    let d = cube_data(0.0);
    assert_eq!(ModelMsg::Client(ModelMsgClient::ModelAdded(ClientEntity(1), d.clone())).channel_id(), ChannelId::OrderedReliable(0));
    assert_eq!(ModelMsg::Client(ModelMsgClient::ModelChanged(ServerEntity(1), d.delta())).channel_id(), ChannelId::Unreliable);
    assert_eq!(ModelMsg::Client(ModelMsgClient::AllModelData(1, vec![])).channel_id(), ChannelId::OrderedReliable(0));
    assert_eq!(ModelMsg::Server(ModelMsgServer::ModelAdded(ServerEntity(1), d.clone())).channel_id(), ChannelId::OrderedReliable(0));
    assert_eq!(ModelMsg::Server(ModelMsgServer::ModelChanged(ServerEntity(1), d.delta())).channel_id(), ChannelId::Unreliable);
    assert_eq!(ModelMsg::Server(ModelMsgServer::EntityMap(ServerEntity(1), ClientEntity(1))).channel_id(), ChannelId::OrderedReliable(0));
    assert_eq!(ModelMsg::Server(ModelMsgServer::GetAllModelData(1)).channel_id(), ChannelId::OrderedReliable(0));
}

#[test]
fn player_channels_by_variant() {
    let t = transform(0.0);
    assert_eq!(PlayerMsgClient::PlayerAdded(ServerEntity(1), t).channel_type(), ChannelType::OrderedReliable);
    assert_eq!(PlayerMsgClient::PlayerChanged(ServerEntity(1), t).channel_type(), ChannelType::Unreliable);
    assert_eq!(PlayerMsgClient::EntityMap(ServerEntity(1), ClientEntity(2)).channel_type(), ChannelType::OrderedReliable);
    assert_eq!(PlayerMsgClient::GetAllPlayers(4).channel_type(), ChannelType::OrderedReliable);
}

fn router_with(clients: &[u64]) -> StereoKitBevyServer {
    let mut r = StereoKitBevyServer::new();
    for c in clients {
        r.connect(*c);
    }
    r
}

#[test]
fn connect_asks_every_other_client() {
    let mut r = router_with(&[1, 2]);
    let out = r.connect(3);
    let to: Vec<u64> = out.iter().map(|o| o.to).collect();
    assert_eq!(to, vec![1, 2]);
    assert!(out.iter().all(|o| same_server_msg(&o.msg, &ModelMsgServer::GetAllModelData(3))));
    assert!(r.is_connected(3));
    // connecting again adds nobody
    let again = r.connect(3);
    assert_eq!(again.len(), 2);
}

#[test]
fn added_fans_out_to_all_but_sender() {
    let mut r = router_with(&[1, 2, 3, 4]);
    let d = cube_data(2.0);
    let out = r.server(ModelMsg::Client(ModelMsgClient::ModelAdded(ClientEntity(77), d.clone())), 2).unwrap();
    assert_eq!(out.len(), 4);
    assert_eq!(out[0].to, 2);
    assert!(same_server_msg(&out[0].msg, &ModelMsgServer::EntityMap(ServerEntity(0), ClientEntity(77))));
    let to: Vec<u64> = out[1..].iter().map(|o| o.to).collect();
    assert_eq!(to, vec![1, 3, 4]);
    assert!(out[1..].iter().all(|o| same_server_msg(&o.msg, &ModelMsgServer::ModelAdded(ServerEntity(0), d.clone()))));
    // the next entity gets the next handle
    let out2 = r.server(ModelMsg::Client(ModelMsgClient::ModelAdded(ClientEntity(78), d.clone())), 1).unwrap();
    assert!(same_server_msg(&out2[0].msg, &ModelMsgServer::EntityMap(ServerEntity(1), ClientEntity(78))));
}

#[test]
fn changed_fans_out_to_all_but_sender() {
    let mut r = router_with(&[1, 2, 3]);
    let d = delta(1.0, 0.2, 3);
    let out: Vec<Outgoing> = r.server(ModelMsg::Client(ModelMsgClient::ModelChanged(ServerEntity(5), d)), 3).unwrap();
    let to: Vec<u64> = out.iter().map(|o| o.to).collect();
    assert_eq!(to, vec![1, 2]);
    assert!(out.iter().all(|o| same_server_msg(&o.msg, &ModelMsgServer::ModelChanged(ServerEntity(5), d))));
}

#[test]
fn single_client_gets_nothing_relayed() {
    let mut r = router_with(&[1]);
    let out = r.server(ModelMsg::Client(ModelMsgClient::ModelChanged(ServerEntity(5), delta(0.0, 0.0, 0))), 1).unwrap();
    assert!(out.is_empty());
}

#[test]
fn report_goes_to_requester_only() {
    let mut r = router_with(&[1, 2, 3]);
    let items = vec![(ServerEntity(4), cube_data(1.0)), (ServerEntity(6), cube_data(2.0))];
    let out = r.server(ModelMsg::Client(ModelMsgClient::AllModelData(3, items.clone())), 1).unwrap();
    assert_eq!(out.len(), 2);
    assert!(out.iter().all(|o| o.to == 3));
    assert!(same_server_msg(&out[0].msg, &ModelMsgServer::ModelAdded(ServerEntity(4), items[0].1.clone())));
    assert!(same_server_msg(&out[1].msg, &ModelMsgServer::ModelAdded(ServerEntity(6), items[1].1.clone())));
}

#[test]
fn router_drops_server_messages_and_bad_bytes() {
    let mut r = router_with(&[1, 2]);
    let e = r.server(ModelMsg::Server(ModelMsgServer::GetAllModelData(1)), 1);
    assert_eq!(e.err(), Some(RouteError::NotFromClient));
    assert_eq!(r._server(&[1, 2, 3], 1).err(), Some(RouteError::Malformed));
    let bytes = encode(&ModelMsg::Client(ModelMsgClient::ModelChanged(ServerEntity(5), delta(0.0, 0.0, 0))));
    let out = r._server(&bytes, 1).unwrap();
    assert_eq!(out.len(), 1);
    assert_eq!(out[0].to, 2);
}

#[test]
fn disconnect_removes_client() {
    let mut r = router_with(&[1, 2, 3]);
    r.disconnect(2);
    assert!(!r.is_connected(2));
    let out = r.server(ModelMsg::Client(ModelMsgClient::ModelChanged(ServerEntity(5), delta(0.0, 0.0, 0))), 1).unwrap();
    let to: Vec<u64> = out.iter().map(|o| o.to).collect();
    assert_eq!(to, vec![3]);
}

#[test]
fn end_to_end_add() {
    let mut server = router_with(&[10, 20]);
    let mut a = StereoKitBevyClient::new();
    let mut b = StereoKitBevyClient::new();
    let payload = cube_data(3.0);
    let local = a.spawn(payload.clone(), true).unwrap();
    let sent = a.model_added();
    assert_eq!(sent.len(), 1);
    assert!(same_client_msg(&sent[0], &ModelMsgClient::ModelAdded(local, payload.clone())));
    // announced once only
    assert!(a.model_added().is_empty());

    let out = server._server(&encode(&ModelMsg::Client(sent[0].clone())), 10).unwrap();
    assert_eq!(out.len(), 2);
    let s1 = ServerEntity(0);
    assert_eq!(out[0].to, 10);
    assert!(same_server_msg(&out[0].msg, &ModelMsgServer::EntityMap(s1, local)));
    assert_eq!(out[1].to, 20);
    assert!(same_server_msg(&out[1].msg, &ModelMsgServer::ModelAdded(s1, payload.clone())));

    assert!(a._client(&encode(&ModelMsg::Server(out[0].msg.clone()))).unwrap().is_none());
    assert_eq!(a.server_entity_of(local), Some(s1));
    assert!(b._client(&encode(&ModelMsg::Server(out[1].msg.clone()))).unwrap().is_none());
    let mirror = b.client_entity_of(s1).unwrap();
    assert_eq!(b.server_entity_of(mirror), Some(s1));
    assert!(same_data(&b.payload(mirror).unwrap(), &payload));
    assert_eq!(b.is_mirror(mirror), Some(true));
}

#[test]
fn end_to_end_change() {
    let mut server = router_with(&[10, 20]);
    let mut a = StereoKitBevyClient::new();
    let mut b = StereoKitBevyClient::new();
    let local = a.spawn(cube_data(0.0), true).unwrap();
    let added = a.model_added();
    let out = server.server(ModelMsg::Client(added[0].clone()), 10).unwrap();
    a.client(ModelMsg::Server(out[0].msg.clone())).unwrap();
    b.client(ModelMsg::Server(out[1].msg.clone())).unwrap();

    let d = delta(4.0, 0.75, 8);
    assert!(a.set_delta(local, d));
    let changes = a.model_changed();
    assert_eq!(changes.len(), 1);
    assert!(same_client_msg(&changes[0], &ModelMsgClient::ModelChanged(ServerEntity(0), d)));
    assert!(a.model_changed().is_empty());
    let relayed = server.server(ModelMsg::Client(changes[0].clone()), 10).unwrap();
    assert_eq!(relayed.len(), 1);
    b.client(ModelMsg::Server(relayed[0].msg.clone())).unwrap();
    let mirror = b.client_entity_of(ServerEntity(0)).unwrap();
    let p = b.payload(mirror).unwrap();
    assert_eq!(p.delta(), d);
    assert!(same_info(&p.model_info, &ModelInfo::Cube(v3(0.1, 0.1, 0.1))));
}

#[test]
fn change_with_missing_mapping_is_dropped() {
    let mut b = StereoKitBevyClient::new();
    let e = b.spawn(cube_data(1.0), true).unwrap();
    let before = b.payload(e).unwrap();
    let r = b.client(ModelMsg::Server(ModelMsgServer::ModelChanged(ServerEntity(42), delta(9.0, 9.0, 9))));
    assert!(r.unwrap().is_none());
    assert!(same_data(&b.payload(e).unwrap(), &before));
    assert_eq!(b.len(), 1);
}

#[test]
fn change_before_mapping_is_not_announced() {
    let mut a = StereoKitBevyClient::new();
    let e = a.spawn(cube_data(1.0), true).unwrap();
    a.model_added();
    assert!(a.set_delta(e, delta(2.0, 0.0, 0)));
    assert!(a.model_changed().is_empty());
    a.client(ModelMsg::Server(ModelMsgServer::EntityMap(ServerEntity(3), e))).unwrap();
    // the earlier change was consumed
    assert!(a.model_changed().is_empty());
}

#[test]
fn mirror_is_never_announced() {
    let mut b = StereoKitBevyClient::new();
    b.client(ModelMsg::Server(ModelMsgServer::ModelAdded(ServerEntity(5), cube_data(1.0)))).unwrap();
    let mirror = b.client_entity_of(ServerEntity(5)).unwrap();
    assert!(b.model_added().is_empty());
    assert!(b.set_delta(mirror, delta(3.0, 0.1, 2)));
    assert!(b.model_added().is_empty());
    assert!(b.model_changed().is_empty());
    b.client(ModelMsg::Server(ModelMsgServer::ModelChanged(ServerEntity(5), delta(5.0, 0.1, 2)))).unwrap();
    assert!(b.model_changed().is_empty());
}

#[test]
fn change_keeps_kind() {
    let mut b = StereoKitBevyClient::new();
    let data = ModelData {
        model_info: ModelInfo::Asset(vec![1, 2, 3]),
        transform: transform(0.0),
        color128: color(0.0),
        render_layer: RenderLayer(0),
    };
    b.client(ModelMsg::Server(ModelMsgServer::ModelAdded(ServerEntity(5), data))).unwrap();
    let d = delta(7.0, 0.3, 6);
    b.client(ModelMsg::Server(ModelMsgServer::ModelChanged(ServerEntity(5), d))).unwrap();
    let mirror = b.client_entity_of(ServerEntity(5)).unwrap();
    let p = b.payload(mirror).unwrap();
    assert!(same_info(&p.model_info, &ModelInfo::Asset(vec![1, 2, 3])));
    assert_eq!(p.delta(), d);
}

#[test]
fn report_holds_own_mapped_entities() {
    let mut a = StereoKitBevyClient::new();
    let e1 = a.spawn(cube_data(1.0), true).unwrap();
    let _e2 = a.spawn(cube_data(2.0), true).unwrap();
    let e3 = a.spawn(cube_data(3.0), false).unwrap();
    a.client(ModelMsg::Server(ModelMsgServer::EntityMap(ServerEntity(11), e1))).unwrap();
    a.client(ModelMsg::Server(ModelMsgServer::EntityMap(ServerEntity(13), e3))).unwrap();
    a.client(ModelMsg::Server(ModelMsgServer::ModelAdded(ServerEntity(20), cube_data(4.0)))).unwrap();
    let r = a.client(ModelMsg::Server(ModelMsgServer::GetAllModelData(9))).unwrap().unwrap();
    let expected = ModelMsgClient::AllModelData(9, vec![(ServerEntity(11), cube_data(1.0))]);
    assert!(same_client_msg(&r, &expected));
    assert_eq!(ModelMsg::Client(r).channel_id(), ChannelId::OrderedReliable(0));
}

#[test]
fn client_drops_client_messages_and_bad_bytes() {
    let mut a = StereoKitBevyClient::new();
    let r = a.client(ModelMsg::Client(ModelMsgClient::AllModelData(1, vec![])));
    assert_eq!(r.err(), Some(ApplyError::NotFromServer));
    assert_eq!(a._client(&[0, 0]).err(), Some(ApplyError::Malformed));
    assert_eq!(a.len(), 0);
}

#[test]
fn set_delta_on_unknown_entity() {
    let mut a = StereoKitBevyClient::new();
    assert!(!a.set_delta(ClientEntity(3), delta(0.0, 0.0, 0)));
    assert_eq!(a.payload(ClientEntity(3)).map(|_| ()), None);
}

#[test]
fn only_visible_models_are_drawn() {
    assert_eq!(render_models(&[Visible(true), Visible(false), Visible(true)]), vec![0, 2]);
    assert!(render_models(&[]).is_empty());
    assert!(render_models(&[Visible(false)]).is_empty());
}

fn same_player_server_msg(a: &PlayerMsgServer, b: &PlayerMsgServer) -> bool {
    match (a, b) {
        (PlayerMsgServer::PlayerAdded(c1, t1), PlayerMsgServer::PlayerAdded(c2, t2)) => c1 == c2 && t1 == t2,
        (PlayerMsgServer::PlayerChanged(s1, t1), PlayerMsgServer::PlayerChanged(s2, t2)) => s1 == s2 && t1 == t2,
        (PlayerMsgServer::AllPlayerData(i1, v1), PlayerMsgServer::AllPlayerData(i2, v2)) => i1 == i2 && v1 == v2,
        _ => false,
    }
}

#[test]
fn player_messages_round_trip() {
    let msgs = [
        PlayerMsgClient::PlayerAdded(ServerEntity(3), transform(f32::NAN)),
        PlayerMsgClient::PlayerChanged(ServerEntity(u64::MAX), transform(-0.0)),
        PlayerMsgClient::EntityMap(ServerEntity(1), ClientEntity(2)),
        PlayerMsgClient::GetAllPlayers(7),
    ];
    for m in msgs {
        let b = encode_player_client(&m);
        assert_eq!(decode_player_client(&b), Some(m));
    }
    assert_eq!(encode_player_client(&PlayerMsgClient::GetAllPlayers(0x0102)), vec![3, 0, 0, 0, 2, 1, 0, 0, 0, 0, 0, 0]);
    assert_eq!(encode_player_client(&msgs[0]).len(), 52);
}

#[test]
fn player_decode_rejects_malformed_bytes() {
    let b = encode_player_client(&PlayerMsgClient::PlayerAdded(ServerEntity(3), transform(1.0)));
    assert_eq!(decode_player_client(&b[..51]), None);
    let mut longer = b.clone();
    longer.push(0);
    assert_eq!(decode_player_client(&longer), None);
    assert_eq!(decode_player_client(&[4, 0, 0, 0, 0, 0, 0, 0, 0, 0, 0, 0]), None);
    assert_eq!(decode_player_client(&[]), None);
}

#[test]
fn player_server_bytes() {
    let m = PlayerMsgServer::AllPlayerData(1, vec![(ServerEntity(2), transform(0.0))]);
    let b = encode_player_server(&m);
    assert_eq!(b.len(), 4 + 8 + 8 + 8 + 40);
    assert_eq!(&b[..20], &[2, 0, 0, 0, 1, 0, 0, 0, 0, 0, 0, 0, 1, 0, 0, 0, 0, 0, 0, 0]);
    assert_eq!(m.channel_type(), ChannelType::OrderedReliable);
    assert_eq!(PlayerMsgServer::PlayerChanged(ServerEntity(1), transform(0.0)).channel_type(), ChannelType::Unreliable);
}

#[test]
fn player_added_and_changed_are_announced() {
    let mut a = StereoKitBevyClient::new();
    let p = a.spawn_player(transform(1.0)).unwrap();
    let added = a.player_added();
    assert_eq!(added.len(), 1);
    assert!(same_player_server_msg(&added[0], &PlayerMsgServer::PlayerAdded(p, transform(1.0))));
    assert!(a.player_added().is_empty());
    // a move before the pairing is not announced
    assert!(a.set_player_transform(p, transform(2.0)));
    assert!(a.player_changed().is_empty());
    a.player_client(PlayerMsgClient::EntityMap(ServerEntity(9), p)).unwrap();
    assert!(a.set_player_transform(p, transform(3.0)));
    let changed = a.player_changed();
    assert_eq!(changed.len(), 1);
    assert!(same_player_server_msg(&changed[0], &PlayerMsgServer::PlayerChanged(ServerEntity(9), transform(3.0))));
    assert!(a.player_changed().is_empty());
}

#[test]
fn player_from_network_is_mirrored_and_never_announced() {
    let mut b = StereoKitBevyClient::new();
    assert!(b._player_client(&encode_player_client(&PlayerMsgClient::PlayerAdded(ServerEntity(4), transform(1.0)))).unwrap().is_none());
    let mirror = b.client_entity_of(ServerEntity(4)).unwrap();
    assert_eq!(b.server_entity_of(mirror), Some(ServerEntity(4)));
    assert_eq!(b.player_transform(mirror), Some(transform(1.0)));
    assert!(b.player_added().is_empty());
    b.player_client(PlayerMsgClient::PlayerChanged(ServerEntity(4), transform(5.0))).unwrap();
    assert_eq!(b.player_transform(mirror), Some(transform(5.0)));
    assert!(b.set_player_transform(mirror, transform(6.0)));
    assert!(b.player_changed().is_empty());
    assert!(b.player_added().is_empty());
}

#[test]
fn player_change_with_missing_mapping_is_dropped() {
    let mut b = StereoKitBevyClient::new();
    let p = b.spawn_player(transform(1.0)).unwrap();
    assert!(b.player_client(PlayerMsgClient::PlayerChanged(ServerEntity(42), transform(9.0))).unwrap().is_none());
    assert_eq!(b.player_transform(p), Some(transform(1.0)));
    assert_eq!(b._player_client(&[1, 2]).err(), Some(ApplyError::Malformed));
}

#[test]
fn player_report_holds_networked_paired_players() {
    let mut a = StereoKitBevyClient::new();
    let first = a.spawn_player(transform(1.0)).unwrap();
    let _second = a.spawn_player(transform(2.0)).unwrap();
    a.player_client(PlayerMsgClient::EntityMap(ServerEntity(11), first)).unwrap();
    a.player_client(PlayerMsgClient::PlayerAdded(ServerEntity(12), transform(3.0))).unwrap();
    let r = a.player_client(PlayerMsgClient::GetAllPlayers(5)).unwrap().unwrap();
    let expected = PlayerMsgServer::AllPlayerData(5, vec![(ServerEntity(11), transform(1.0)), (ServerEntity(12), transform(3.0))]);
    assert!(same_player_server_msg(&r, &expected));
    // model entities are untouched by player messages
    assert_eq!(a.len(), 0);
}
